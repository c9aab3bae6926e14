//! The conditional exchange.

use vstd::prelude::*;
use crate::bundle::{Bundle, Wiring};
use crate::circuit::{lemma_in_range_concat, wires_in_range, Circuit};
use crate::component::used;
use crate::components::select::Select;
use crate::wire::Wire;

verus! {

/// Whether `after` is `before` after two uses of the multiplexer: between
/// `s`, `a`, `b` and `x`, then between `s`, `b`, `a` and `y`.
pub open spec fn swapped<T: Wiring>(
    before: &Circuit,
    after: &Circuit,
    s: Wire,
    a: T,
    b: T,
    x: T,
    y: T,
) -> bool {
    exists|mid: Circuit|
        #![trigger mid.wf()]
        used::<(Wire, T, T, T), Select>(
            before,
            &mid,
            &Select,
            seq![s] + a.leaves() + b.leaves() + x.leaves(),
        ) && used::<(Wire, T, T, T), Select>(
            &mid,
            after,
            &Select,
            seq![s] + b.leaves() + a.leaves() + y.leaves(),
        )
}

impl Circuit {
    /// Appends two copies of the multiplexer: one makes `x` be `a` where `s`
    /// is FALSE and `b` where it is TRUE, the other makes `y` be `b` where
    /// `s` is FALSE and `a` where it is TRUE.
    pub fn swap<T: Wiring + Copy>(&mut self, s: Wire, a: T, b: T, x: T, y: T)
        requires
            old(self).wf(),
            1 + T::width() + T::width() + T::width() + 2 <= usize::MAX,
        ensures
            swapped(old(self), final(self), s, a, b, x, y),
            final(self).grown_from(old(self)),
            old(self).closed() && wires_in_range(
                s.leaves() + a.leaves() + b.leaves() + x.leaves() + y.leaves(),
                old(self).wires.len() as nat,
            ) ==> final(self).closed(),
    {
        let ghost n = self.wires.len() as nat;
        proof {
            let sab = s.leaves() + a.leaves() + b.leaves();
            lemma_in_range_concat(sab + x.leaves(), y.leaves(), n);
            lemma_in_range_concat(sab, x.leaves(), n);
            lemma_in_range_concat(s.leaves() + a.leaves(), b.leaves(), n);
            lemma_in_range_concat(s.leaves(), a.leaves(), n);
            lemma_in_range_concat(s.leaves(), b.leaves(), n);
            lemma_in_range_concat(s.leaves() + b.leaves(), a.leaves(), n);
            lemma_in_range_concat(s.leaves() + b.leaves() + a.leaves(), y.leaves(), n);
        }
        self.select(s, a, b, x);
        let ghost mid = *self;
        self.select(s, b, a, y);
        proof {
            assert(mid.wf());
            assert(s.leaves() =~= seq![s]);
        }
    }
}

} // verus!
