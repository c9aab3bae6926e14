//! Disjunction.

use vstd::prelude::*;
use crate::bundle::{leaves_of, Bundle, Wiring};
use crate::circuit::{lemma_pair_in_range, wires_in_range, Circuit};
use crate::component::{
    allocated, chained, described, each, gated, lemma_chained_more, lemma_placed_grown, placed,
    used, Description,
};
use crate::components::not::Not;
use crate::wire::Wire;

verus! {

/// The key of the disjunction.
pub const OR: u64 = 2;

/// Disjunction, leaf by leaf: `o` is `a` OR `b`.
pub struct Or;

/// The disjunction of one place: two fresh wires, a copy of the negation
/// from each input to one of them, and a gate from the two to the output.
pub open spec fn or_leaf(before: &Circuit, after: &Circuit, a: Wire, b: Wire, o: Wire) -> bool {
    let na = Wire(before.wires.len());
    let nb = Wire((before.wires.len() + 1) as usize);
    exists|m1: Circuit, m2: Circuit, m3: Circuit|
        #![trigger m1.wf(), m2.wf(), m3.wf()]
        allocated(before, &m1, 2) && used::<(Wire, Wire), Not>(&m1, &m2, &Not, seq![a, na])
            && used::<(Wire, Wire), Not>(&m2, &m3, &Not, seq![b, nb]) && gated(
            &m3,
            after,
            seq![(na, nb, o)],
        )
}

/// The disjunction of each place of three bundles.
pub open spec fn or_leaves(a: Seq<Wire>, b: Seq<Wire>, o: Seq<Wire>) -> spec_fn(
    Circuit,
    Circuit,
    int,
) -> bool {
    |before: Circuit, after: Circuit, k: int| or_leaf(&before, &after, a[k], b[k], o[k])
}

impl<T: Wiring> Description<(T, T, T)> for Or {
    open spec fn key(&self) -> u64 {
        OR
    }

    open spec fn ready(&self) -> bool {
        true
    }

    open spec fn built(&self, before: &Circuit, after: &Circuit, wiring: (T, T, T)) -> bool {
        each(
            *before,
            *after,
            T::width(),
            or_leaves(wiring.0.leaves(), wiring.1.leaves(), wiring.2.leaves()),
        )
    }

    fn id(&self) -> (k: u64) {
        OR
    }

    fn build(&self, circuit: &mut Circuit, wiring: (T, T, T)) {
        let (a, b, o) = wiring;
        proof {
            a.lemma_leaves_len();
            b.lemma_leaves_len();
            o.lemma_leaves_len();
        }
        let ghost n = circuit.wires.len() as nat;
        let ghost all = a.leaves() + b.leaves() + o.leaves();
        let va = leaves_of(a);
        let vb = leaves_of(b);
        let vo = leaves_of(o);
        proof {
            assert forall|i: int| 0 <= i < va.len() implies (#[trigger] va@[i]).0 < n by {
                assert(all[i] == va@[i]);
            }
            assert forall|i: int| 0 <= i < vb.len() implies (#[trigger] vb@[i]).0 < n by {
                assert(all[va.len() + i] == vb@[i]);
            }
            assert forall|i: int| 0 <= i < vo.len() implies (#[trigger] vo@[i]).0 < n by {
                assert(all[va.len() + vb.len() + i] == vo@[i]);
            }
        }
        let ghost steps = or_leaves(va@, vb@, vo@);
        let ghost mut trail = seq![*circuit];
        let mut i: usize = 0;
        while i < vo.len()
            invariant
                i <= vo.len(),
                va.len() == vo.len(),
                vb.len() == vo.len(),
                n == old(circuit).wires.len(),
                circuit.grown_from(old(circuit)),
                circuit.closed(),
                wires_in_range(va@, n),
                wires_in_range(vb@, n),
                wires_in_range(vo@, n),
                steps == or_leaves(va@, vb@, vo@),
                trail.len() == i + 1,
                trail[0] == *old(circuit),
                trail[i as int] == *circuit,
                chained(trail, steps),
            decreases vo.len() - i,
        {
            let ghost m0 = *circuit;
            let na = circuit.allocate();
            let nb = circuit.allocate();
            let ghost m1 = *circuit;
            proof {
                lemma_pair_in_range(va@[i as int], na, circuit.wires.len() as nat);
            }
            circuit.not(va[i], na);
            let ghost m2 = *circuit;
            proof {
                lemma_pair_in_range(vb@[i as int], nb, circuit.wires.len() as nat);
            }
            circuit.not(vb[i], nb);
            let ghost m3 = *circuit;
            circuit.gate(na, nb, vo[i]);
            proof {
                assert(m1.wires@ =~= m0.wires@ + Seq::new(2, |i: int| false));
                assert(va@[i as int].leaves() + na.leaves() =~= seq![va@[i as int], na]);
                assert(vb@[i as int].leaves() + nb.leaves() =~= seq![vb@[i as int], nb]);
                assert(circuit.nands@ =~= m3.nands@ + seq![(na, nb, vo@[i as int])]);
                assert(m1.wf() && m2.wf() && m3.wf());
                assert(or_leaf(&m0, circuit, va@[i as int], vb@[i as int], vo@[i as int]));
                assert(steps(m0, *circuit, i as int));
                lemma_chained_more(trail, *circuit, steps);
                trail = trail.push(*circuit);
            }
            i += 1;
        }
    }
}

impl Circuit {
    /// Appends a copy of the disjunction between `a`, `b` and `o`.
    pub fn or<T: Wiring>(&mut self, a: T, b: T, o: T)
        requires
            old(self).wf(),
            T::width() + T::width() + T::width() + 2 <= usize::MAX,
        ensures
            placed(old(self), final(self), OR, a.leaves() + b.leaves() + o.leaves()),
            described::<(T, T, T), Or>(old(self), final(self), &Or),
            final(self).grown_from(old(self)),
            old(self).closed() && wires_in_range(
                a.leaves() + b.leaves() + o.leaves(),
                old(self).wires.len() as nat,
            ) ==> final(self).closed(),
    {
        self.component((a, b, o), Or);
        proof {
            lemma_placed_grown(old(self), self, OR, a.leaves() + b.leaves() + o.leaves());
        }
    }
}

} // verus!
