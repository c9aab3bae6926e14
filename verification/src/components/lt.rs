//! The order of two numbers.

use vstd::prelude::*;
use crate::bundle::{Bundle, Wiring};
use crate::circuit::{
    consecutive, lemma_in_range_concat, lemma_pair_in_range, wires_in_range, Circuit,
};
use crate::component::{
    allocated, described, lemma_placed_grown, placed, used, Description,
};
use crate::components::add::Add;
use crate::components::not::Not;
use crate::wire::Wire;

verus! {

/// The key of the comparison.
pub const LT: u64 = 8;

/// The comparison of two numbers, least significant bit first: `o` is TRUE
/// where `a` is less than `b`. The complement of `a` and `b` are added as
/// numbers one bit wider; the sum has its highest bit clear exactly where
/// `a` is less than `b`.
pub struct Lt;

impl<T: Wiring + Copy> Description<(T, T, Wire)> for Lt {
    open spec fn key(&self) -> u64 {
        LT
    }

    open spec fn ready(&self) -> bool {
        3 * (T::width() + 1) + 2 <= usize::MAX
    }

    open spec fn built(&self, before: &Circuit, after: &Circuit, wiring: (T, T, Wire)) -> bool {
        let (a, b, o) = wiring;
        let n = before.wires.len() as nat;
        let na = consecutive(n, T::width());
        let low = consecutive(n + T::width(), T::width());
        let s = Wire((n + 2 * T::width()) as usize);
        exists|m1: Circuit, m2: Circuit, m3: Circuit|
            #![trigger m1.wf(), m2.wf(), m3.wf()]
            allocated(before, &m1, 2 * T::width() + 1) && used::<(T, T), Not>(
                &m1,
                &m2,
                &Not,
                a.leaves() + na,
            ) && used::<((T, Wire), (T, Wire), (T, Wire)), Add>(
                &m2,
                &m3,
                &Add,
                (na + seq![Wire(1)]) + (b.leaves() + seq![Wire(0)]) + (low + seq![s]),
            ) && used::<(Wire, Wire), Not>(&m3, after, &Not, seq![s, o])
    }

    fn id(&self) -> (k: u64) {
        LT
    }

    fn build(&self, circuit: &mut Circuit, wiring: (T, T, Wire)) {
        let (a, b, o) = wiring;
        let ghost n = circuit.wires.len() as nat;
        proof {
            lemma_in_range_concat(a.leaves() + b.leaves(), o.leaves(), n);
            lemma_in_range_concat(a.leaves(), b.leaves(), n);
            assert(o.leaves()[0] == o);
        }
        let na: T = circuit.wiring();
        let low: T = circuit.wiring();
        let s = circuit.allocate();
        let ghost m1 = *circuit;
        proof {
            lemma_in_range_concat(a.leaves(), na.leaves(), circuit.wires.len() as nat);
        }
        circuit.not(a, na);
        let ghost m2 = *circuit;
        let one = Wire(1);
        let zero = Wire(0);
        proof {
            let m = circuit.wires.len() as nat;
            assert(wires_in_range(one.leaves(), m));
            assert(wires_in_range(zero.leaves(), m));
            assert(wires_in_range(s.leaves(), m));
            lemma_in_range_concat(na.leaves(), one.leaves(), m);
            lemma_in_range_concat(b.leaves(), zero.leaves(), m);
            lemma_in_range_concat(low.leaves(), s.leaves(), m);
            lemma_in_range_concat((na, one).leaves(), (b, zero).leaves(), m);
            lemma_in_range_concat((na, one).leaves() + (b, zero).leaves(), (low, s).leaves(), m);
        }
        circuit.add((na, one), (b, zero), (low, s));
        let ghost m3 = *circuit;
        proof {
            lemma_pair_in_range(s, o, circuit.wires.len() as nat);
        }
        circuit.not(s, o);
        proof {
            na.lemma_leaves_len();
            low.lemma_leaves_len();
            assert(m1.wires@ =~= old(circuit).wires@ + Seq::new(
                (2 * T::width() + 1) as nat,
                |i: int| false,
            ));
            assert(one.leaves() =~= seq![Wire(1)]);
            assert(zero.leaves() =~= seq![Wire(0)]);
            assert(s.leaves() =~= seq![s]);
            assert(s.leaves() + o.leaves() =~= seq![s, o]);
            assert(m1.wf() && m2.wf() && m3.wf());
        }
    }
}

impl Circuit {
    /// Appends a copy of the comparison between `a`, `b` and `o`.
    pub fn lt<T: Wiring + Copy>(&mut self, a: T, b: T, o: Wire)
        requires
            old(self).wf(),
            3 * (T::width() + 1) + 2 <= usize::MAX,
        ensures
            placed(old(self), final(self), LT, a.leaves() + b.leaves() + o.leaves()),
            described::<(T, T, Wire), Lt>(old(self), final(self), &Lt),
            final(self).grown_from(old(self)),
            old(self).closed() && wires_in_range(
                a.leaves() + b.leaves() + o.leaves(),
                old(self).wires.len() as nat,
            ) ==> final(self).closed(),
    {
        self.component((a, b, o), Lt);
        proof {
            lemma_placed_grown(old(self), self, LT, a.leaves() + b.leaves() + o.leaves());
        }
    }
}

} // verus!
