//! Where the gates that the optimizer keeps come from. Every gate that is
//! left is a gate that was there, with each wire replaced by a wire of its
//! class, and the gates that are left stand in the order in which they
//! stood.

use vstd::prelude::*;
use crate::circuit::{gate_in_range, gates_in_range, Gate};
use crate::classes::{agrees, is_root, lemma_root_is_root, lemma_root_value, root};
use crate::combinational::solves;
use crate::optimize::{always_equal, form, is_form, renumbered, Optimizer};
use crate::wire::Wire;

verus! {

/// Whether a gate `h` is a gate `g` up to classes: the outputs are in
/// one class, each input of `h` is in the class of an input of `g`, and
/// each input of `g` is in the class of an input of `h` or in that of the
/// constant TRUE, which a NAND drops beside another input.
pub open spec fn follows(redirects: Seq<Option<Wire>>, fixed: nat, h: Gate, g: Gate) -> bool {
    let h0 = root(redirects, fixed, h.0.0 as nat);
    let h1 = root(redirects, fixed, h.1.0 as nat);
    let g0 = root(redirects, fixed, g.0.0 as nat);
    let g1 = root(redirects, fixed, g.1.0 as nat);
    &&& root(redirects, fixed, h.2.0 as nat) == root(redirects, fixed, g.2.0 as nat)
    &&& (h0 == g0 || h0 == g1)
    &&& (h1 == g0 || h1 == g1)
    &&& (g0 == h0 || g0 == h1 || g0 == 1)
    &&& (g1 == h0 || g1 == h1 || g1 == 1)
}

/// Whether `picks` names, for each gate of `after`, the place of a gate of
/// `before`, the places in rising order, and `rep` names for each wire
/// there was a wire that is not after it and has its value in every
/// solution, itself for a fixed wire and for a wire that is named, such
/// that each gate of `after` writes, under the old index `back` of its
/// output, the wire that is named for the output of its source, and reads
/// the wires named for the inputs of its source, the constant TRUE beside
/// another input left out.
#[verifier::opaque]
pub open spec fn kept_from(
    before: Seq<Gate>,
    size: nat,
    after: Seq<Gate>,
    fixed: nat,
    back: Seq<usize>,
    picks: Seq<int>,
    rep: Seq<nat>,
) -> bool {
    &&& picks.len() == after.len()
    &&& rep.len() == size
    &&& forall|p: int| 0 <= p < fixed && p < size ==> (#[trigger] rep[p]) == p
    &&& forall|w: int| 0 <= w < size ==> (#[trigger] rep[w]) <= w && rep[rep[w] as int] == rep[w]
    &&& forall|w: int| 0 <= w < size ==> always_equal(size, before, w as nat, #[trigger] rep[w])
    &&& forall|i: int| 0 <= i < picks.len() ==> 0 <= (#[trigger] picks[i]) < before.len()
    &&& forall|i: int, j: int|
        0 <= i < j < picks.len() ==> (#[trigger] picks[i]) < (#[trigger] picks[j])
    &&& forall|i: int|
        0 <= i < after.len() ==> {
            let h = #[trigger] after[i];
            let g = before[picks[i]];
            let h0 = back[h.0.0 as int] as nat;
            let h1 = back[h.1.0 as int] as nat;
            let g0 = rep[g.0.0 as int];
            let g1 = rep[g.1.0 as int];
            &&& back[h.2.0 as int] == rep[g.2.0 as int]
            &&& (h0 == g0 || h0 == g1)
            &&& (h1 == g0 || h1 == g1)
            &&& (g0 == h0 || g0 == h1 || g0 == 1)
            &&& (g1 == h0 || g1 == h1 || g1 == 1)
        }
}

/// Gates that follow their sources, renumbered, are kept from them, each
/// wire standing for its representative.
pub proof fn lemma_kept_from(o: &Optimizer, after: Seq<Gate>, back: Seq<usize>, picks: Seq<int>)
    requires
        o.wf(),
        gates_in_range(o.origin@, o.size()),
        gates_in_range(o.nands@, o.size()),
        o.traced(picks, o.nands@, o.origin@),
        forall|i: int|
            0 <= i < o.nands.len() ==> is_root(
                o.redirects@,
                o.fixed as nat,
                (#[trigger] o.nands[i]).0.0 as nat,
            ) && is_root(o.redirects@, o.fixed as nat, o.nands[i].1.0 as nat) && is_root(
                o.redirects@,
                o.fixed as nat,
                o.nands[i].2.0 as nat,
            ),
        renumbered(o.nands@, o.size(), after, o.fixed as nat, back),
    ensures
        kept_from(
            o.origin@,
            o.size(),
            after,
            o.fixed as nat,
            back,
            picks,
            Seq::new(o.size(), |w: int| o.root_of(w as nat)),
        ),
{
    reveal(Optimizer::traced);
    reveal(kept_from);
    let f = o.fixed as nat;
    let rep = Seq::new(o.size(), |w: int| o.root_of(w as nat));
    let before = o.nands@;
    assert forall|w: int| 0 <= w < o.size() implies (#[trigger] rep[w]) <= w && rep[rep[w] as int]
        == rep[w] by {
        lemma_root_is_root(o.redirects@, f, w as nat);
        o.lemma_root_twice(w as nat);
    }
    assert forall|w: int| 0 <= w < o.size() implies always_equal(
        o.size(),
        o.origin@,
        w as nat,
        #[trigger] rep[w],
    ) by {
        assert forall|v: Seq<bool>| #[trigger] solves(v, o.size(), o.origin@) implies v[w]
            == v[rep[w] as int] by {
            assert(agrees(v, o.redirects@, f));
            lemma_root_value(v, o.redirects@, f, w as nat);
        }
    }
    assert forall|i: int| 0 <= i < after.len() implies {
        let h = #[trigger] after[i];
        let g = o.origin@[picks[i]];
        let h0 = back[h.0.0 as int] as nat;
        let h1 = back[h.1.0 as int] as nat;
        let g0 = rep[g.0.0 as int];
        let g1 = rep[g.1.0 as int];
        &&& back[h.2.0 as int] == rep[g.2.0 as int]
        &&& (h0 == g0 || h0 == g1)
        &&& (h1 == g0 || h1 == g1)
        &&& (g0 == h0 || g0 == h1 || g0 == 1)
        &&& (g1 == h0 || g1 == h1 || g1 == 1)
    } by {
        let b = o.nands[i];
        let g = o.origin@[picks[i]];
        assert(b == before[i]);
        assert(follows(o.redirects@, f, before[i], g));
        assert(gate_in_range(g, o.size()));
        lemma_root_is_root(o.redirects@, f, b.0.0 as nat);
        lemma_root_is_root(o.redirects@, f, b.1.0 as nat);
        lemma_root_is_root(o.redirects@, f, b.2.0 as nat);
    }
}

impl Optimizer {
    /// Whether every class of `other` lies in a class of `self`.
    #[verifier::opaque]
    pub open spec fn coarser(&self, other: &Optimizer) -> bool {
        &&& self.fixed == other.fixed
        &&& forall|w: nat| #[trigger] self.root_of(other.root_of(w)) == self.root_of(w)
    }

    /// Whether `picks` names, for each gate of `kept`, the place of a gate
    /// of `gates` that it follows, the places in rising order.
    #[verifier::opaque]
    pub open spec fn traced(&self, picks: Seq<int>, kept: Seq<Gate>, gates: Seq<Gate>) -> bool {
        &&& picks.len() == kept.len()
        &&& forall|i: int| 0 <= i < picks.len() ==> 0 <= (#[trigger] picks[i]) < gates.len()
        &&& forall|i: int, j: int|
            0 <= i < j < picks.len() ==> (#[trigger] picks[i]) < (#[trigger] picks[j])
        &&& forall|i: int|
            0 <= i < kept.len() ==> follows(
                self.redirects@,
                self.fixed as nat,
                #[trigger] kept[i],
                gates[picks[i]],
            )
    }

    /// The representative of a representative is that representative.
    pub proof fn lemma_root_twice(&self, w: nat)
        requires
            self.wf(),
        ensures
            self.root_of(self.root_of(w)) == self.root_of(w),
    {
        lemma_root_is_root(self.redirects@, self.fixed as nat, w);
        lemma_root_is_root(self.redirects@, self.fixed as nat, self.root_of(w));
    }

    /// Classes that are the same lie in each other.
    pub proof fn lemma_coarser_same(&self, other: &Optimizer)
        requires
            self.wf(),
            self.fixed == other.fixed,
            forall|w: nat| #[trigger] self.root_of(w) == other.root_of(w),
        ensures
            self.coarser(other),
    {
        reveal(Optimizer::coarser);
        assert forall|w: nat| #[trigger] self.root_of(other.root_of(w)) == self.root_of(w) by {
            assert(self.root_of(w) == other.root_of(w));
            self.lemma_root_twice(w);
        }
    }

    /// Joining two classes leaves every class in a class.
    pub proof fn lemma_coarser_merge(&self, other: &Optimizer, hi: nat, lo: nat)
        requires
            other.wf(),
            self.fixed == other.fixed,
            forall|w: nat| #[trigger]
                self.root_of(w) == if other.root_of(w) == hi {
                    lo
                } else {
                    other.root_of(w)
                },
        ensures
            self.coarser(other),
    {
        reveal(Optimizer::coarser);
        assert forall|w: nat| #[trigger] self.root_of(other.root_of(w)) == self.root_of(w) by {
            other.lemma_root_twice(w);
            let x = other.root_of(w);
            assert(self.root_of(x) == if other.root_of(x) == hi {
                lo
            } else {
                other.root_of(x)
            });
            assert(self.root_of(w) == if other.root_of(w) == hi {
                lo
            } else {
                other.root_of(w)
            });
        }
    }

    /// Lying in a class is transitive.
    pub proof fn lemma_coarser_twice(&self, mid: &Optimizer, first: &Optimizer)
        requires
            self.coarser(mid),
            mid.coarser(first),
        ensures
            self.coarser(first),
    {
        reveal(Optimizer::coarser);
        assert forall|w: nat| #[trigger] self.root_of(first.root_of(w)) == self.root_of(w) by {
            let x = first.root_of(w);
            assert(self.root_of(mid.root_of(x)) == self.root_of(x));
            assert(mid.root_of(first.root_of(w)) == mid.root_of(w));
            assert(self.root_of(mid.root_of(w)) == self.root_of(w));
        }
    }

    /// No gates come from no gates.
    pub proof fn lemma_traced_none(&self, gates: Seq<Gate>)
        ensures
            self.traced(Seq::<int>::empty(), Seq::<Gate>::empty(), gates),
    {
        reveal(Optimizer::traced);
    }

    /// Every gate follows itself.
    pub proof fn lemma_traced_all(&self, gates: Seq<Gate>)
        ensures
            self.traced(Seq::new(gates.len(), |i: int| i), gates, gates),
    {
        reveal(Optimizer::traced);
    }

    /// Gates that follow their sources still do once classes are joined.
    pub proof fn lemma_traced_coarser(
        &self,
        other: &Optimizer,
        picks: Seq<int>,
        kept: Seq<Gate>,
        gates: Seq<Gate>,
    )
        requires
            self.coarser(other),
            self.fixed >= 2,
            other.traced(picks, kept, gates),
        ensures
            self.traced(picks, kept, gates),
    {
        reveal(Optimizer::coarser);
        reveal(Optimizer::traced);
        let f = self.fixed as nat;
        assert(self.root_of(1) == 1);
        assert forall|i: int| 0 <= i < kept.len() implies follows(
            self.redirects@,
            f,
            #[trigger] kept[i],
            gates[picks[i]],
        ) by {
            let h = kept[i];
            let g = gates[picks[i]];
            assert(follows(other.redirects@, f, h, g));
            assert(self.root_of(other.root_of(h.0.0 as nat)) == self.root_of(h.0.0 as nat));
            assert(self.root_of(other.root_of(h.1.0 as nat)) == self.root_of(h.1.0 as nat));
            assert(self.root_of(other.root_of(h.2.0 as nat)) == self.root_of(h.2.0 as nat));
            assert(self.root_of(other.root_of(g.0.0 as nat)) == self.root_of(g.0.0 as nat));
            assert(self.root_of(other.root_of(g.1.0 as nat)) == self.root_of(g.1.0 as nat));
            assert(self.root_of(other.root_of(g.2.0 as nat)) == self.root_of(g.2.0 as nat));
        }
    }

    /// The form of a later gate follows that gate.
    pub proof fn lemma_traced_push(
        &self,
        picks: Seq<int>,
        kept: Seq<Gate>,
        gates: Seq<Gate>,
        k: int,
        r: Gate,
    )
        requires
            self.wf(),
            self.traced(picks, kept, gates),
            0 <= k < gates.len(),
            forall|i: int| 0 <= i < picks.len() ==> (#[trigger] picks[i]) < k,
            is_form(r, form(self.redirects@, self.fixed as nat, gates[k])),
        ensures
            self.traced(picks.push(k), kept.push(r), gates),
    {
        reveal(Optimizer::traced);
        let f = self.fixed as nat;
        let more = kept.push(r);
        let places = picks.push(k);
        let g = gates[k];
        self.lemma_root_twice(g.0.0 as nat);
        self.lemma_root_twice(g.1.0 as nat);
        self.lemma_root_twice(g.2.0 as nat);
        assert(self.root_of(1) == 1);
        assert(follows(self.redirects@, f, r, g));
        assert forall|i: int| 0 <= i < more.len() implies follows(
            self.redirects@,
            f,
            #[trigger] more[i],
            gates[places[i]],
        ) by {
            if i < kept.len() {
                assert(more[i] == kept[i]);
                assert(places[i] == picks[i]);
            }
        }
        assert forall|i: int, j: int| 0 <= i < j < places.len() implies (#[trigger] places[i]) < (
        #[trigger] places[j]) by {
            assert(places[i] == picks[i]);
            if j < picks.len() {
                assert(places[j] == picks[j]);
            }
        }
    }

    /// Following is transitive: gates that follow gates that follow others
    /// follow those.
    pub proof fn lemma_traced_twice(
        &self,
        first: Seq<int>,
        mid: Seq<Gate>,
        origin: Seq<Gate>,
        second: Seq<int>,
        kept: Seq<Gate>,
    )
        requires
            self.traced(first, mid, origin),
            self.traced(second, kept, mid),
        ensures
            self.traced(Seq::new(second.len(), |i: int| first[second[i]]), kept, origin),
    {
        reveal(Optimizer::traced);
        let f = self.fixed as nat;
        let both = Seq::new(second.len(), |i: int| first[second[i]]);
        assert forall|i: int| 0 <= i < both.len() implies 0 <= (#[trigger] both[i])
            < origin.len() by {
            assert(0 <= second[i] < mid.len());
        }
        assert forall|i: int, j: int| 0 <= i < j < both.len() implies (#[trigger] both[i]) < (
        #[trigger] both[j]) by {
            assert(second[i] < second[j]);
            assert(0 <= second[i] && second[j] < mid.len());
            assert(first[second[i]] < first[second[j]]);
        }
        assert forall|i: int| 0 <= i < kept.len() implies follows(
            self.redirects@,
            f,
            #[trigger] kept[i],
            origin[both[i]],
        ) by {
            let m = second[i];
            assert(0 <= m < mid.len());
            assert(follows(self.redirects@, f, kept[i], mid[m]));
            assert(follows(self.redirects@, f, mid[m], origin[first[m]]));
        }
    }
}

} // verus!
