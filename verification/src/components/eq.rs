//! Equality.

use vstd::prelude::*;
use crate::bundle::{Bundle, Wiring};
use crate::circuit::{consecutive, lemma_in_range_concat, wires_in_range, Circuit};
use crate::component::{
    allocated, described, lemma_placed_grown, placed, used, Description,
};
use crate::components::all::All;
use crate::components::not::Not;
use crate::components::xor::xor_built;
use crate::wire::Wire;

verus! {

/// The key of the equality.
pub const EQ: u64 = 7;

/// Equality: `o` is TRUE where `a` and `b` agree in every leaf.
pub struct Eq;

impl<T: Wiring + Copy> Description<(T, T, Wire)> for Eq {
    open spec fn key(&self) -> u64 {
        EQ
    }

    open spec fn ready(&self) -> bool {
        T::width() > 0
    }

    open spec fn built(&self, before: &Circuit, after: &Circuit, wiring: (T, T, Wire)) -> bool {
        let (a, b, o) = wiring;
        let n = before.wires.len() as nat;
        let x = consecutive(n, T::width());
        let y = consecutive(n + T::width(), T::width());
        exists|m1: Circuit, m2: Circuit, m3: Circuit|
            #![trigger m1.wf(), m2.wf(), m3.wf()]
            allocated(before, &m1, 2 * T::width()) && xor_built(
                &m1,
                &m2,
                a.leaves(),
                b.leaves(),
                x,
            ) && used::<(T, T), Not>(&m2, &m3, &Not, x + y) && used::<(T, Wire), All>(
                &m3,
                after,
                &All,
                y + seq![o],
            )
    }

    fn id(&self) -> (k: u64) {
        EQ
    }

    fn build(&self, circuit: &mut Circuit, wiring: (T, T, Wire)) {
        let (a, b, o) = wiring;
        let ghost n = circuit.wires.len() as nat;
        proof {
            lemma_in_range_concat(a.leaves() + b.leaves(), o.leaves(), n);
            lemma_in_range_concat(a.leaves(), b.leaves(), n);
            assert(o.leaves()[0] == o);
        }
        let x: T = circuit.wiring();
        let y: T = circuit.wiring();
        let ghost m1 = *circuit;
        let ghost m = circuit.wires.len() as nat;
        proof {
            lemma_in_range_concat(a.leaves() + b.leaves(), x.leaves(), m);
            lemma_in_range_concat(a.leaves(), b.leaves(), m);
        }
        circuit.xor(a, b, x);
        let ghost m2 = *circuit;
        proof {
            lemma_in_range_concat(x.leaves(), y.leaves(), circuit.wires.len() as nat);
        }
        circuit.not(x, y);
        let ghost m3 = *circuit;
        proof {
            lemma_in_range_concat(y.leaves(), o.leaves(), circuit.wires.len() as nat);
            assert(wires_in_range(o.leaves(), circuit.wires.len() as nat));
        }
        circuit.all(y, o);
        proof {
            x.lemma_leaves_len();
            y.lemma_leaves_len();
            assert(m1.wires@ =~= old(circuit).wires@ + Seq::new(
                2 * T::width(),
                |i: int| false,
            ));
            assert(o.leaves() =~= seq![o]);
            assert(m1.wf() && m2.wf() && m3.wf());
        }
    }
}

impl Circuit {
    /// Appends a copy of the equality between `a`, `b` and `o`.
    pub fn eq<T: Wiring + Copy>(&mut self, a: T, b: T, o: Wire)
        requires
            old(self).wf(),
            0 < T::width(),
            T::width() + T::width() + 1 + 2 <= usize::MAX,
        ensures
            placed(old(self), final(self), EQ, a.leaves() + b.leaves() + o.leaves()),
            described::<(T, T, Wire), Eq>(old(self), final(self), &Eq),
            final(self).grown_from(old(self)),
            old(self).closed() && wires_in_range(
                a.leaves() + b.leaves() + o.leaves(),
                old(self).wires.len() as nat,
            ) ==> final(self).closed(),
    {
        self.component((a, b, o), Eq);
        proof {
            lemma_placed_grown(old(self), self, EQ, a.leaves() + b.leaves() + o.leaves());
        }
    }
}

} // verus!
