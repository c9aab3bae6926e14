//! The conjunction of all the leaves of a bundle.

use vstd::prelude::*;
use crate::bundle::{leaves_of, Bundle, Wiring};
use crate::circuit::{lemma_triple_in_range, wires_in_range, Circuit};
use crate::component::{allocated, described, lemma_placed_grown, placed, Description};
use crate::components::and::and_built;
use crate::wire::Wire;

verus! {

/// The key of the conjunction of all leaves.
pub const ALL: u64 = 6;

/// The conjunction of all leaves: `o` is TRUE where every leaf of `x` is.
/// The leaves are joined pairwise, as a balanced tree.
pub struct All;

/// Whether `after` is `before` with the last two wires of the stack `m0`
/// joined: a fresh wire is made their conjunction and takes their place on
/// the stack, which is then `m1`.
pub open spec fn joined(before: &Circuit, after: &Circuit, m0: Seq<Wire>, m1: Seq<Wire>) -> bool {
    let c = Wire(before.wires.len());
    &&& m0.len() >= 2
    &&& m1 == m0.drop_last().drop_last().push(c)
    &&& exists|mid: Circuit|
        #![trigger mid.wf()]
        allocated(before, &mid, 1) && and_built(
            &mid,
            after,
            seq![m0.last()],
            seq![m0[m0.len() - 2]],
            seq![c],
        )
}

/// A state of the reduction: the circuit, the stack of wires that stand
/// for the leaves seen so far, and how many leaves were seen.
pub type Reduction = (Circuit, Seq<Wire>, nat);

/// One step of the reduction: the next leaf goes on the stack, or the last
/// two wires of the stack are joined.
pub open spec fn reduce_step(s0: Reduction, s1: Reduction, leaves: Seq<Wire>) -> bool {
    ||| s0.2 < leaves.len() && s1.2 == s0.2 + 1 && s1.1 == s0.1.push(leaves[s0.2 as int])
        && s1.0 == s0.0
    ||| s1.2 == s0.2 && joined(&s0.0, &s1.0, s0.1, s1.1)
}

/// Whether each state of `trail` but the last is taken to the next by one
/// step of the reduction.
pub open spec fn reducing(trail: Seq<Reduction>, leaves: Seq<Wire>) -> bool {
    forall|k: int| 0 <= k < trail.len() - 1 ==> reduce_step(#[trigger] trail[k], trail[k + 1], leaves)
}

/// Whether `after` is `before` with all the leaves reduced to the one wire
/// `r` by conjunctions: the leaves go on a stack in order, and in between
/// the last two wires of the stack are joined, until all leaves were seen
/// and one wire is left.
pub open spec fn reduced(before: Circuit, after: Circuit, leaves: Seq<Wire>, r: Wire) -> bool {
    exists|trail: Seq<Reduction>|
        #![trigger reducing(trail, leaves)]
        trail.len() > 0 && trail[0] == (before, Seq::<Wire>::empty(), 0nat) && trail.last() == (
            after,
            seq![r],
            leaves.len(),
        ) && reducing(trail, leaves)
}

/// One more step makes a reduction one longer.
pub proof fn lemma_reducing_more(trail: Seq<Reduction>, next: Reduction, leaves: Seq<Wire>)
    requires
        trail.len() > 0,
        reducing(trail, leaves),
        reduce_step(trail.last(), next, leaves),
    ensures
        reducing(trail.push(next), leaves),
{
    let more = trail.push(next);
    assert forall|k: int| 0 <= k < more.len() - 1 implies reduce_step(
        #[trigger] more[k],
        more[k + 1],
        leaves,
    ) by {
        if k < trail.len() - 1 {
            assert(more[k] == trail[k]);
            assert(more[k + 1] == trail[k + 1]);
        }
    }
}

impl<T: Wiring> Description<(T, Wire)> for All {
    open spec fn key(&self) -> u64 {
        ALL
    }

    open spec fn ready(&self) -> bool {
        T::width() > 0
    }

    open spec fn built(&self, before: &Circuit, after: &Circuit, wiring: (T, Wire)) -> bool {
        exists|c: Circuit, r: Wire|
            #![trigger reduced(*before, c, wiring.0.leaves(), r)]
            reduced(*before, c, wiring.0.leaves(), r) && and_built(
                &c,
                after,
                seq![r],
                seq![Wire(1)],
                seq![wiring.1],
            )
    }

    fn id(&self) -> (k: u64) {
        ALL
    }

    fn build(&self, circuit: &mut Circuit, wiring: (T, Wire)) {
        let (x, o) = wiring;
        proof {
            x.lemma_leaves_len();
        }
        let ghost n = circuit.wires.len() as nat;
        let ghost all = x.leaves() + o.leaves();
        let xs = leaves_of(x);
        proof {
            assert forall|i: int| 0 <= i < xs.len() implies (#[trigger] xs@[i]).0 < n by {
                assert(all[i] == xs@[i]);
            }
            assert(all[xs.len() as int] == o);
        }
        let mut m: Vec<Wire> = Vec::new();
        let ghost mut trail: Seq<Reduction> = seq![(*circuit, m@, 0nat)];
        let mut i: usize = 0;
        while i < xs.len()
            invariant
                trail.len() > 0,
                trail[0] == (*old(circuit), Seq::<Wire>::empty(), 0nat),
                trail.last() == (*circuit, m@, i as nat),
                reducing(trail, xs@),
                i <= xs.len(),
                n == old(circuit).wires.len(),
                circuit.grown_from(old(circuit)),
                circuit.closed(),
                wires_in_range(xs@, n),
                wires_in_range(m@, circuit.wires.len() as nat),
                i > 0 ==> m.len() > 0,
            decreases xs.len() - i,
        {
            m.push(xs[i]);
            proof {
                let next = (*circuit, m@, (i + 1) as nat);
                lemma_reducing_more(trail, next, xs@);
                trail = trail.push(next);
            }
            let mut j: usize = i + 1;
            while j % 2 == 0 && m.len() >= 2
                invariant
                    trail.len() > 0,
                    trail[0] == (*old(circuit), Seq::<Wire>::empty(), 0nat),
                    trail.last() == (*circuit, m@, (i + 1) as nat),
                    reducing(trail, xs@),
                    j > 0,
                    m.len() > 0,
                    n == old(circuit).wires.len(),
                    circuit.grown_from(old(circuit)),
                    circuit.closed(),
                    wires_in_range(m@, circuit.wires.len() as nat),
                decreases j,
            {
                circuit.join(&mut m);
                proof {
                    let next = (*circuit, m@, (i + 1) as nat);
                    lemma_reducing_more(trail, next, xs@);
                    trail = trail.push(next);
                }
                j = j / 2;
            }
            i += 1;
        }
        while m.len() > 1
            invariant
                trail.len() > 0,
                trail[0] == (*old(circuit), Seq::<Wire>::empty(), 0nat),
                trail.last() == (*circuit, m@, xs.len() as nat),
                reducing(trail, xs@),
                m.len() > 0,
                n == old(circuit).wires.len(),
                circuit.grown_from(old(circuit)),
                circuit.closed(),
                wires_in_range(m@, circuit.wires.len() as nat),
            decreases m.len(),
        {
            circuit.join(&mut m);
            proof {
                let next = (*circuit, m@, xs.len() as nat);
                lemma_reducing_more(trail, next, xs@);
                trail = trail.push(next);
            }
        }
        let last = m[0];
        let ghost c = *circuit;
        proof {
            lemma_triple_in_range(last, Wire(1), o, circuit.wires.len() as nat);
            assert(m@ =~= seq![last]);
            assert(reduced(*old(circuit), c, xs@, last));
        }
        circuit.and(last, Wire(1), o);
        proof {
            assert(last.leaves() =~= seq![last]);
            assert(Wire(1).leaves() =~= seq![Wire(1)]);
            assert(o.leaves() =~= seq![o]);
        }
    }
}

impl Circuit {
    /// Replaces the last two wires of `m` by a fresh wire that is their
    /// conjunction.
    fn join(&mut self, m: &mut Vec<Wire>)
        requires
            old(self).wf(),
            old(self).closed(),
            old(m).len() >= 2,
            wires_in_range(old(m)@, old(self).wires.len() as nat),
        ensures
            final(self).grown_from(old(self)),
            final(self).closed(),
            final(m).len() == old(m).len() - 1,
            wires_in_range(final(m)@, final(self).wires.len() as nat),
            joined(old(self), final(self), old(m)@, final(m)@),
    {
        let a = m.pop().unwrap();
        let b = m.pop().unwrap();
        let c = self.allocate();
        let ghost mid = *self;
        proof {
            assert(a == old(m)@[old(m).len() - 1]);
            assert(b == old(m)@[old(m).len() - 2]);
            lemma_triple_in_range(a, b, c, self.wires.len() as nat);
        }
        self.and(a, b, c);
        let ghost rest = m@;
        m.push(c);
        proof {
            assert forall|i: int| 0 <= i < m.len() implies (#[trigger] m@[i]).0
                < self.wires.len() by {
                if i < rest.len() {
                    assert(m@[i] == old(m)@[i]);
                }
            }
            assert(mid.wires@ =~= old(self).wires@ + Seq::new(1, |i: int| false));
            assert(a.leaves() =~= seq![a]);
            assert(b.leaves() =~= seq![b]);
            assert(c.leaves() =~= seq![c]);
            assert(m@ =~= old(m)@.drop_last().drop_last().push(c));
            assert(mid.wf());
        }
    }

    /// Appends a copy of the conjunction of all leaves between `x` and `o`.
    pub fn all<T: Wiring>(&mut self, x: T, o: Wire)
        requires
            old(self).wf(),
            0 < T::width(),
            T::width() + 1 + 2 <= usize::MAX,
        ensures
            placed(old(self), final(self), ALL, x.leaves() + o.leaves()),
            described::<(T, Wire), All>(old(self), final(self), &All),
            final(self).grown_from(old(self)),
            old(self).closed() && wires_in_range(
                x.leaves() + o.leaves(),
                old(self).wires.len() as nat,
            ) ==> final(self).closed(),
    {
        self.component((x, o), All);
        proof {
            lemma_placed_grown(old(self), self, ALL, x.leaves() + o.leaves());
        }
    }
}

} // verus!
