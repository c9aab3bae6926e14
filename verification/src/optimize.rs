//! The netlist optimizer: gates with the same inputs are shared, gates with
//! constant inputs are folded, gates that nothing reads are dropped, and the
//! wires that remain are renumbered without gaps.

use vstd::prelude::*;
use crate::circuit::{gate_in_range, gates_in_range, Circuit, Gate};
use crate::classes::{
    agrees, capped, compressed, descending, is_root, lemma_compress, lemma_link, lemma_reads_positive,
    lemma_reads_same, lemma_root_is_root, lemma_root_value, read_by, reads_of, root,
};
use crate::circuit::run;
use crate::combinational::{
    combinational, fresh, grounded, has_reader, holds, models, solves, written,
};
use crate::pass::{aim, lemma_lists, lemma_slim, optimum, outset, scan, settle};
use crate::trace::{kept_from, lemma_kept_from};
use crate::order::{
    inert, lemma_renumbered_tidy, lemma_root_untouched, lemma_tidy_preserved,
    lemma_untouched_staged, preserved, tidy, untouched, writer,
};
use crate::table::Table;
use crate::wire::Wire;

verus! {

/// Whether the wires `a` and `b` have the same value in every solution.
pub open spec fn always_equal(n: nat, origin: Seq<Gate>, a: nat, b: nat) -> bool {
    forall|v: Seq<bool>| #[trigger] solves(v, n, origin) ==> v[a as int] == v[b as int]
}

/// Whether the wire `o` is the NAND of `a` and `b` in every solution.
pub open spec fn always_nand(n: nat, origin: Seq<Gate>, a: nat, b: nat, o: nat) -> bool {
    forall|v: Seq<bool>|
        #[trigger] solves(v, n, origin) ==> v[o as int] == !(v[a as int] && v[b as int])
}

/// Whether every solution of `origin` satisfies every gate of `gates`.
pub open spec fn implied(n: nat, origin: Seq<Gate>, gates: Seq<Gate>) -> bool {
    forall|k: int|
        0 <= k < gates.len() ==> always_nand(
            n,
            origin,
            (#[trigger] gates[k]).0.0 as nat,
            gates[k].1.0 as nat,
            gates[k].2.0 as nat,
        )
}

/// A gate with each wire replaced by its representative, the input
/// with the larger index first, and a constant TRUE beside another input
/// replaced by that input: a NAND with TRUE negates, as a NAND of a wire
/// with itself does.
pub open spec fn form(redirects: Seq<Option<Wire>>, fixed: nat, g: Gate) -> (nat, nat, nat) {
    let a = root(redirects, fixed, g.0.0 as nat);
    let b = root(redirects, fixed, g.1.0 as nat);
    let hi = if a < b { b } else { a };
    let lo = if a < b { a } else { b };
    let o = root(redirects, fixed, g.2.0 as nat);
    if lo == 1 && hi != 1 {
        (hi, hi, o)
    } else {
        (hi, lo, o)
    }
}

/// Whether the wires of `g` are those of `f`.
pub open spec fn is_form(g: Gate, f: (nat, nat, nat)) -> bool {
    g.0.0 == f.0 && g.1.0 == f.1 && g.2.0 == f.2
}

/// A solution that satisfies a gate satisfies its form.
pub proof fn lemma_form_holds(
    v: Seq<bool>,
    n: nat,
    redirects: Seq<Option<Wire>>,
    fixed: nat,
    g: Gate,
)
    requires
        descending(redirects, fixed),
        agrees(v, redirects, fixed),
        grounded(v),
        fixed >= 2,
        gate_in_range(g, n),
        v.len() == n,
        holds(v, g),
    ensures
        ({
            let f = form(redirects, fixed, g);
            v[f.2 as int] == !(v[f.0 as int] && v[f.1 as int])
        }),
{
    lemma_root_value(v, redirects, fixed, g.0.0 as nat);
    lemma_root_value(v, redirects, fixed, g.1.0 as nat);
    lemma_root_value(v, redirects, fixed, g.2.0 as nat);
}

/// Whether `back` names, for each wire of a renumbered netlist, the wire it
/// was before: the fixed wires keep their indices, the order of the others
/// is kept, and gate by gate the new wires are the old ones renumbered.
pub open spec fn renumbered(
    before: Seq<Gate>,
    size: nat,
    after: Seq<Gate>,
    fixed: nat,
    back: Seq<usize>,
) -> bool {
    &&& after.len() == before.len()
    &&& fixed <= back.len()
    &&& forall|y: int| 0 <= y < back.len() ==> (#[trigger] back[y]) < size
    &&& forall|y: int| 0 <= y < fixed ==> (#[trigger] back[y]) == y
    &&& forall|x: int, y: int| 0 <= x < y < back.len() ==> (#[trigger] back[x]) < (#[trigger] back[y])
    &&& forall|i: int|
        0 <= i < after.len() ==> {
            let g = #[trigger] after[i];
            &&& gate_in_range(g, back.len())
            &&& back[g.0.0 as int] == before[i].0.0
            &&& back[g.1.0 as int] == before[i].1.0
            &&& back[g.2.0 as int] == before[i].2.0
        }
}

/// The values of the wires that were kept, under their new indices.
pub open spec fn pulled(v: Seq<bool>, back: Seq<usize>) -> Seq<bool> {
    Seq::new(back.len(), |y: int| v[back[y] as int])
}

/// Whether a netlist is as small as the optimizer makes it: of the two
/// inputs of a gate the one with the larger index comes first, and the
/// second is the constant TRUE only where the first is; a gate that has
/// both inputs in common with an earlier gate, or reads constants only, or
/// the constant FALSE, writes a fixed wire; and every wire that is not
/// fixed is read by some gate.
pub open spec fn lean(gates: Seq<Gate>, fixed: nat, size: nat) -> bool {
    &&& forall|i: int| 0 <= i < gates.len() ==> (#[trigger] gates[i]).0.0 >= gates[i].1.0
    &&& forall|i: int| 0 <= i < gates.len() && (#[trigger] gates[i]).1.0 == 1 ==> gates[i].0.0 == 1
    &&& forall|i: int| 0 <= i < gates.len() && (#[trigger] gates[i]).0.0 == 1 ==> gates[i].2.0 < fixed
    &&& forall|i: int, j: int|
        0 <= i < j < gates.len() && (#[trigger] gates[i]).0 == (#[trigger] gates[j]).0
            && gates[i].1 == gates[j].1 ==> gates[j].2.0 < fixed
    &&& forall|i: int|
        0 <= i < gates.len() && ((#[trigger] gates[i]).0.0 == 0 || gates[i].1.0 == 0)
            ==> gates[i].2.0 < fixed
    &&& forall|w: int| fixed <= w < size ==> #[trigger] has_reader(gates, w)
}

/// Whether the renumbered netlist `after` states nothing new: `back` names,
/// in order, one wire of the store of `size` values for each new wire, the
/// fixed wires themselves, and whatever values satisfy the gates of
/// `before` satisfy, carried over to the new wires, the gates of `after`.
pub open spec fn sound(
    before: Seq<Gate>,
    size: nat,
    after: Seq<Gate>,
    fixed: nat,
    back: Seq<usize>,
) -> bool {
    &&& fixed <= back.len()
    &&& forall|y: int| 0 <= y < back.len() ==> (#[trigger] back[y]) < size
    &&& forall|y: int| 0 <= y < fixed ==> (#[trigger] back[y]) == y
    &&& forall|x: int, y: int| 0 <= x < y < back.len() ==> (#[trigger] back[x]) < (#[trigger] back[y])
    &&& gates_in_range(after, back.len())
    &&& forall|v: Seq<bool>| #[trigger] solves(v, size, before) ==> models(pulled(v, back), after)
}

/// Gates that hold in every solution hold, renumbered, of the values
/// carried over to the new wires.
pub proof fn lemma_renumbered_sound(
    origin: Seq<Gate>,
    before: Seq<Gate>,
    size: nat,
    after: Seq<Gate>,
    fixed: nat,
    back: Seq<usize>,
)
    requires
        renumbered(before, size, after, fixed, back),
        implied(size, origin, before),
    ensures
        sound(origin, size, after, fixed, back),
{
    assert forall|v: Seq<bool>| #[trigger] solves(v, size, origin) implies models(
        pulled(v, back),
        after,
    ) by {
        let p = pulled(v, back);
        assert forall|k: int| 0 <= k < after.len() implies holds(p, #[trigger] after[k]) by {
            let g = after[k];
            assert(gate_in_range(g, back.len()));
            assert(always_nand(
                size,
                origin,
                before[k].0.0 as nat,
                before[k].1.0 as nat,
                before[k].2.0 as nat,
            ));
            assert(p[g.0.0 as int] == v[before[k].0.0 as int]);
            assert(p[g.1.0 as int] == v[before[k].1.0 as int]);
            assert(p[g.2.0 as int] == v[before[k].2.0 as int]);
        }
    }
    assert(gates_in_range(after, back.len()));
}

/// Renumbering keeps a minimal list of gates lean.
pub proof fn lemma_renumbered_lean(
    before: Seq<Gate>,
    size: nat,
    after: Seq<Gate>,
    fixed: nat,
    back: Seq<usize>,
    counts: Seq<usize>,
)
    requires
        renumbered(before, size, after, fixed, back),
        fixed >= 2,
        counts.len() == size,
        forall|i: int| 0 <= i < before.len() ==> (#[trigger] before[i]).0.0 >= before[i].1.0,
        forall|i: int| 0 <= i < before.len() && (#[trigger] before[i]).1.0 == 1 ==> before[i].0.0 == 1,
        forall|i: int|
            0 <= i < before.len() && ((#[trigger] before[i]).1.0 == 0 || before[i].0.0 == 1)
                ==> before[i].2.0 < fixed,
        forall|i: int, j: int|
            0 <= i < j < before.len() && (#[trigger] before[i]).0 == (#[trigger] before[j]).0
                && before[i].1 == before[j].1 ==> before[j].2.0 < fixed,
        forall|w: int| fixed <= w < size && (#[trigger] counts[w]) > 0 ==> has_reader(before, w),
        forall|y: int| fixed <= y < back.len() ==> counts[(#[trigger] back[y]) as int] > 0,
    ensures
        lean(after, fixed, back.len()),
{
    assert forall|i: int| 0 <= i < after.len() implies (#[trigger] after[i]).0.0
        >= after[i].1.0 by {
        let g = after[i];
        assert(gate_in_range(g, back.len()));
        assert(before[i].0.0 >= before[i].1.0);
        if g.0.0 < g.1.0 {
            assert(back[g.0.0 as int] < back[g.1.0 as int]);
        }
    }
    assert forall|i: int| 0 <= i < after.len() && (#[trigger] after[i]).1.0 == 1 implies after[i].0.0
        == 1 by {
        let g = after[i];
        assert(gate_in_range(g, back.len()));
        assert(back[1] == 1);
        assert(before[i].1.0 == 1);
        assert(back[g.0.0 as int] == 1);
        if g.0.0 > 1 {
            assert(back[1] < back[g.0.0 as int]);
        }
        if g.0.0 < 1 {
            assert(back[g.0.0 as int] < back[1]);
        }
    }
    assert forall|i: int| 0 <= i < after.len() && (#[trigger] after[i]).0.0 == 1 implies after[i].2.0
        < fixed by {
        let g = after[i];
        assert(gate_in_range(g, back.len()));
        assert(back[1] == 1);
        assert(before[i].0.0 == 1);
        if g.2.0 >= fixed {
            assert(back[(fixed - 1) as int] < back[g.2.0 as int]);
        }
    }
    assert forall|i: int|
        0 <= i < after.len() && ((#[trigger] after[i]).0.0 == 0
            || after[i].1.0 == 0) implies after[i].2.0 < fixed by {
        let g = after[i];
        assert(gate_in_range(g, back.len()));
        assert(back[0] == 0);
        assert(before[i].0.0 >= before[i].1.0);
        assert(before[i].1.0 == 0);
        if g.2.0 >= fixed {
            assert(back[(fixed - 1) as int] < back[g.2.0 as int]);
        }
    }
    assert forall|i: int, j: int|
        0 <= i < j < after.len() && (#[trigger] after[i]).0 == (#[trigger] after[j]).0
            && after[i].1 == after[j].1 implies after[j].2.0 < fixed by {
        let g = after[j];
        assert(gate_in_range(g, back.len()));
        assert(gate_in_range(after[i], back.len()));
        assert(before[i].0 == before[j].0);
        assert(before[i].1 == before[j].1);
        if g.2.0 >= fixed {
            assert(back[(fixed - 1) as int] < back[g.2.0 as int]);
        }
    }
    assert forall|w: int| fixed <= w < back.len() implies #[trigger] has_reader(after, w) by {
        let x = back[w] as int;
        assert(back[(fixed - 1) as int] < back[w]);
        assert(counts[x] > 0);
        assert(has_reader(before, x));
        let i = choose|i: int|
            0 <= i < before.len() && ((#[trigger] before[i]).0.0 == x || before[i].1.0 == x);
        let g = after[i];
        assert(gate_in_range(g, back.len()));
        if before[i].0.0 == x {
            if g.0.0 < w {
                assert(back[g.0.0 as int] < back[w]);
            }
            if w < g.0.0 {
                assert(back[w] < back[g.0.0 as int]);
            }
            assert(g.0.0 == w);
        } else {
            if g.1.0 < w {
                assert(back[g.1.0 as int] < back[w]);
            }
            if w < g.1.0 {
                assert(back[w] < back[g.1.0 as int]);
            }
            assert(g.1.0 == w);
        }
    }
}

/// The counts after the readers of the wire `hi` have become readers of
/// the wire `lo`.
pub open spec fn joined(counts: Seq<usize>, lo: int, hi: int) -> Seq<usize> {
    let sum = counts[lo] + counts[hi];
    counts.update(hi, 0usize).update(
        lo,
        if sum > usize::MAX {
            usize::MAX
        } else {
            sum as usize
        },
    )
}

/// The working state of the optimizer for one circuit.
pub struct Optimizer {
    /// How many wires, the constants and the external inputs, are fixed.
    pub fixed: usize,
    /// For each wire that is not fixed, the wire that stands for it, if any.
    pub redirects: Vec<Option<Wire>>,
    /// For each wire, how many readers it has, counting a fixed wire as
    /// read once more; the counts saturate.
    pub references: Vec<usize>,
    /// The value store of the circuit.
    pub wires: Vec<bool>,
    /// The gates of the circuit.
    pub nands: Vec<Gate>,
    /// The gates that the circuit had when the optimizer took it over.
    pub origin: Ghost<Seq<Gate>>,
    /// For each representative, the place, among those gates, of the one
    /// that now writes its class; -1 where none does, -2 where the one that
    /// did was dropped because nothing read the class.
    pub stamp: Ghost<Seq<int>>,
    /// For each gate, its place among those gates.
    pub pos: Ghost<Seq<int>>,
}

impl Optimizer {
    /// The number of wires.
    pub open spec fn size(&self) -> nat {
        (self.fixed + self.redirects.len()) as nat
    }

    /// Every redirect joins two wires that every solution gives one value.
    pub open spec fn faithful(&self) -> bool {
        forall|v: Seq<bool>| #[trigger]
            solves(v, self.size(), self.origin@) ==> agrees(v, self.redirects@, self.fixed as nat)
    }

    /// The tables have one entry per wire and the redirects lead downwards
    /// between wires of equal value.
    pub open spec fn wf(&self) -> bool {
        &&& self.fixed >= 2
        &&& self.references.len() == self.size()
        &&& self.wires.len() == self.size()
        &&& descending(self.redirects@, self.fixed as nat)
        &&& self.faithful()
    }

    /// The representative of `w`.
    pub open spec fn root_of(&self, w: nat) -> nat {
        root(self.redirects@, self.fixed as nat, w)
    }

    /// Whether only the redirects differ, and no representative.
    pub open spec fn same_classes(&self, other: &Optimizer) -> bool {
        &&& self.fixed == other.fixed
        &&& self.references == other.references
        &&& self.wires == other.wires
        &&& self.nands == other.nands
        &&& self.origin == other.origin
        &&& self.stamp == other.stamp
        &&& self.pos == other.pos
        &&& self.redirects.len() == other.redirects.len()
        &&& forall|i: int|
            0 <= i < self.redirects.len() ==> ((#[trigger] self.redirects[i]) is None
                <==> other.redirects[i] is None)
        &&& forall|w: nat| #[trigger] self.root_of(w) == other.root_of(w)
    }

    /// An optimizer that takes over a store with `fixed` fixed wires and
    /// the gates over it: no wire is redirected yet.
    pub fn new(fixed: usize, wires: Vec<bool>, nands: Vec<Gate>) -> (o: Optimizer)
        requires
            2 <= fixed <= wires.len(),
            gates_in_range(nands@, wires.len() as nat),
        ensures
            o.wf(),
            o.fixed == fixed,
            o.wires == wires,
            o.nands == nands,
            o.origin@ == nands@,
            o.size() == wires.len(),
            untouched(&o),
            implied(o.size(), o.origin@, o.nands@),
    {
        let vars = wires.len() - fixed;
        let mut redirects: Vec<Option<Wire>> = Vec::new();
        while redirects.len() < vars
            invariant
                redirects.len() <= vars,
                forall|i: int| 0 <= i < redirects.len() ==> redirects[i] is None,
            decreases vars - redirects.len(),
        {
            redirects.push(None);
        }
        let mut references: Vec<usize> = Vec::new();
        while references.len() < wires.len()
            invariant
                references.len() <= wires.len(),
            decreases wires.len() - references.len(),
        {
            references.push(0);
        }
        let ghost origin = nands@;
        let ghost size = wires.len() as nat;
        let o = Optimizer {
            fixed,
            redirects,
            references,
            wires,
            nands,
            origin: Ghost(origin),
            stamp: Ghost(Seq::new(size, |w: int| writer(origin, w))),
            pos: Ghost(Seq::new(origin.len(), |i: int| i)),
        };
        proof {
            assert(implied(size, origin, o.nands@)) by {
                assert forall|k: int| 0 <= k < origin.len() implies always_nand(
                    size,
                    origin,
                    (#[trigger] origin[k]).0.0 as nat,
                    origin[k].1.0 as nat,
                    origin[k].2.0 as nat,
                ) by {
                    assert forall|v: Seq<bool>| #[trigger] solves(v, size, origin) implies holds(
                        v,
                        origin[k],
                    ) by {}
                }
            }
        }
        o
    }

    /// The representative of a wire. The redirects on the way are
    /// shortened to point straight at it.
    pub fn resolve(&mut self, wire: Wire) -> (r: Wire)
        requires
            old(self).wf(),
            wire.0 < old(self).size(),
        ensures
            final(self).wf(),
            final(self).same_classes(old(self)),
            r.0 == old(self).root_of(wire.0 as nat),
            r.0 < old(self).size(),
            is_root(final(self).redirects@, final(self).fixed as nat, r.0 as nat),
            final(self).redirects@ == compressed(
                old(self).redirects@,
                old(self).fixed as nat,
                wire.0 as nat,
            ),
        decreases wire.0,
    {
        proof {
            lemma_root_is_root(self.redirects@, self.fixed as nat, wire.0 as nat);
        }
        if wire.0 < self.fixed {
            return wire;
        }
        let i = wire.0 - self.fixed;
        match self.redirects[i] {
            None => wire,
            Some(next) => {
                let r = self.resolve(next);
                let ghost before = self.redirects@;
                proof {
                    lemma_root_is_root(before, self.fixed as nat, wire.0 as nat);
                    lemma_root_is_root(before, self.fixed as nat, next.0 as nat);
                    assert(old(self).root_of(wire.0 as nat) == old(self).root_of(next.0 as nat));
                    assert(self.root_of(wire.0 as nat) == old(self).root_of(wire.0 as nat));
                    assert forall|v: Seq<bool>| #[trigger]
                        solves(v, self.size(), self.origin@) implies agrees(
                        v,
                        before.update(i as int, Some(r)),
                        self.fixed as nat,
                    ) by {
                        lemma_root_value(v, before, self.fixed as nat, wire.0 as nat);
                    }
                    assert forall|w: nat|
                        root(#[trigger] before.update(i as int, Some(r)), self.fixed as nat, w)
                            == old(self).root_of(w) by {
                        lemma_compress(before, self.fixed as nat, i as int, r, w);
                        assert(self.root_of(w) == old(self).root_of(w));
                    }
                }
                self.redirects[i] = Some(r);
                proof {
                    assert(self.redirects@ == before.update(i as int, Some(r)));
                    assert forall|w: nat| #[trigger] self.root_of(w) == old(self).root_of(w) by {
                        assert(root(before.update(i as int, Some(r)), self.fixed as nat, w)
                            == old(self).root_of(w));
                    }
                }
                r
            },
        }
    }

    /// Joins the classes of two representatives of equal value: the one
    /// with the larger index is redirected to the other, which is returned
    /// and takes over its readers.
    pub fn merge(&mut self, a: Wire, b: Wire) -> (r: Wire)
        requires
            old(self).wf(),
            a.0 < old(self).size(),
            b.0 < old(self).size(),
            is_root(old(self).redirects@, old(self).fixed as nat, a.0 as nat),
            is_root(old(self).redirects@, old(self).fixed as nat, b.0 as nat),
            a != b ==> a.0 >= old(self).fixed || b.0 >= old(self).fixed,
            always_equal(old(self).size(), old(self).origin@, a.0 as nat, b.0 as nat),
        ensures
            final(self).wf(),
            final(self).fixed == old(self).fixed,
            final(self).wires == old(self).wires,
            final(self).nands == old(self).nands,
            final(self).origin == old(self).origin,
            final(self).stamp == old(self).stamp,
            final(self).pos == old(self).pos,
            final(self).redirects.len() == old(self).redirects.len(),
            r.0 == if a.0 < b.0 { a.0 } else { b.0 },
            a != b ==> final(self).redirects@ == old(self).redirects@.update(
                (if a.0 < b.0 { b.0 } else { a.0 }) - old(self).fixed,
                Some(r),
            ),
            a != b ==> final(self).references@ == joined(
                old(self).references@,
                r.0 as int,
                (if a.0 < b.0 { b.0 } else { a.0 }) as int,
            ),
            a == b ==> final(self).redirects == old(self).redirects && final(self).references
                == old(self).references,
            forall|w: nat| #[trigger]
                final(self).root_of(w) == if a != b && old(self).root_of(w) == (if a.0 < b.0 {
                    b.0
                } else {
                    a.0
                }) {
                    r.0 as nat
                } else {
                    old(self).root_of(w)
                },
    {
        if a.0 == b.0 {
            return a;
        }
        let (lo, hi) = if b.0 < a.0 { (b, a) } else { (a, b) };
        let ghost before = self.redirects@;
        proof {
            assert forall|v: Seq<bool>| #[trigger]
                solves(v, self.size(), self.origin@) implies agrees(
                v,
                before.update(hi.0 - self.fixed, Some(lo)),
                self.fixed as nat,
            ) by {
                assert(v[a.0 as int] == v[b.0 as int]);
            }
            assert forall|w: nat|
                root(#[trigger] before.update(hi.0 - self.fixed, Some(lo)), self.fixed as nat, w)
                    == if old(self).root_of(w) == hi.0 {
                    lo.0 as nat
                } else {
                    old(self).root_of(w)
                } by {
                lemma_link(before, self.fixed as nat, hi.0 as nat, lo, w);
            }
        }
        self.redirects[hi.0 - self.fixed] = Some(lo);
        let moved = self.references[hi.0];
        self.references[hi.0] = 0;
        self.references[lo.0] = self.references[lo.0].saturating_add(moved);
        proof {
            assert(self.redirects@ == before.update(hi.0 - self.fixed, Some(lo)));
            assert forall|w: nat| #[trigger]
                self.root_of(w) == if old(self).root_of(w) == hi.0 {
                    lo.0 as nat
                } else {
                    old(self).root_of(w)
                } by {
                assert(root(before.update(hi.0 - self.fixed, Some(lo)), self.fixed as nat, w)
                    == if old(self).root_of(w) == hi.0 {
                    lo.0 as nat
                } else {
                    old(self).root_of(w)
                });
            }
        }
        lo
    }

    /// Whether every entry of the table names, for a pair of wires, a wire
    /// that is their NAND in every solution.
    pub open spec fn table_sound(&self, table: Map<(usize, usize), usize>) -> bool {
        forall|key: (usize, usize)| #[trigger]
            table.contains_key(key) ==> {
                &&& key.0 < self.size()
                &&& key.1 < self.size()
                &&& table[key] < self.size()
                &&& always_nand(
                    self.size(),
                    self.origin@,
                    key.0 as nat,
                    key.1 as nat,
                    table[key] as nat,
                )
            }
    }

    /// What holds of the gates kept so far in a pass in which no gate has
    /// been dropped: each is the form of its source; a key is in
    /// the table once a gate with that key was kept; a gate that shares its
    /// key with an earlier one, or reads the constant FALSE, writes a fixed
    /// wire; and every output that is not fixed has a reader.
    #[verifier::opaque]
    pub open spec fn settled(
        &self,
        table: Map<(usize, usize), usize>,
        kept: Seq<Gate>,
        gates: Seq<Gate>,
    ) -> bool {
        &&& kept.len() <= gates.len()
        &&& forall|i: int|
            0 <= i < kept.len() ==> is_form(
                #[trigger] kept[i],
                form(self.redirects@, self.fixed as nat, gates[i]),
            )
        &&& forall|i: int|
            0 <= i < kept.len() ==> (#[trigger] kept[i]).1.0 < 2 || table.contains_key(
                (kept[i].0.0, kept[i].1.0),
            )
        &&& forall|i: int, j: int|
            0 <= i < j < kept.len() && (#[trigger] kept[i]).0 == (#[trigger] kept[j]).0
                && kept[i].1 == kept[j].1 ==> kept[j].2.0 < self.fixed
        &&& forall|i: int|
            0 <= i < kept.len() && ((#[trigger] kept[i]).1.0 == 0 || kept[i].0.0 == 1)
                ==> kept[i].2.0 < self.fixed
        &&& forall|i: int|
            0 <= i < kept.len() && (#[trigger] kept[i]).2.0 >= self.fixed
                ==> self.references[kept[i].2.0 as int] > 0
    }

    /// Whether a wire has a count above zero exactly when it is fixed or
    /// some gate of `gates` reads its class.
    pub open spec fn counted(&self, gates: Seq<Gate>) -> bool {
        forall|w: int|
            0 <= w < self.references.len() ==> ((#[trigger] self.references[w]) > 0 <==> (w
                < self.fixed || read_by(gates, self.redirects@, self.fixed as nat, w as nat)))
    }

    /// Whether each count is one for a fixed wire, and none for another,
    /// and one more for each input of the gates `gates` that is of the class
    /// of the wire.
    pub open spec fn tallied(&self, gates: Seq<Gate>) -> bool {
        forall|w: int|
            0 <= w < self.references.len() ==> (#[trigger] self.references[w]) == capped(
                ((if w < self.fixed {
                    1nat
                } else {
                    0nat
                }) + reads_of(gates, self.redirects@, self.fixed as nat, w as nat)) as nat,
            )
    }

    /// Counts that are tallied are above zero exactly for the fixed wires
    /// and the classes that have a reader.
    pub proof fn lemma_tallied_counted(&self, gates: Seq<Gate>)
        requires
            self.tallied(gates),
        ensures
            self.counted(gates),
    {
        assert forall|w: int| 0 <= w < self.references.len() implies ((
        #[trigger] self.references[w]) > 0 <==> (w < self.fixed || read_by(
            gates,
            self.redirects@,
            self.fixed as nat,
            w as nat,
        ))) by {
            lemma_reads_positive(gates, self.redirects@, self.fixed as nat, w as nat);
        }
    }

    /// One more gate, whose inputs are of the classes `a` and `b`, tallied.
    pub proof fn lemma_tallied_more(
        &self,
        before: &Optimizer,
        done: Seq<Gate>,
        g: Gate,
        a: Wire,
        b: Wire,
    )
        requires
            before.tallied(done),
            self.fixed == before.fixed,
            self.references.len() == before.references.len(),
            forall|x: nat| #[trigger] self.root_of(x) == before.root_of(x),
            a.0 == self.root_of(g.0.0 as nat),
            b.0 == self.root_of(g.1.0 as nat),
            a.0 < self.references.len(),
            b.0 < self.references.len(),
            forall|w: int|
                0 <= w < self.references.len() ==> (#[trigger] self.references[w]) == capped(
                    (before.references[w] + (if w == a.0 {
                        1nat
                    } else {
                        0nat
                    }) + (if w == b.0 {
                        1nat
                    } else {
                        0nat
                    })) as nat,
                ),
        ensures
            self.tallied(done.push(g)),
    {
        let more = done.push(g);
        let f = self.fixed as nat;
        assert(more.drop_last() =~= done);
        assert(more.last() == g);
        assert forall|w: int| 0 <= w < self.references.len() implies (
        #[trigger] self.references[w]) == capped(
            ((if w < self.fixed {
                1nat
            } else {
                0nat
            }) + reads_of(more, self.redirects@, f, w as nat)) as nat,
        ) by {
            assert forall|x: nat| #[trigger]
                root(self.redirects@, f, x) == root(before.redirects@, f, x) by {
                assert(self.root_of(x) == before.root_of(x));
            }
            lemma_reads_same(done, self.redirects@, before.redirects@, f, w as nat);
            assert(before.references[w] == capped(
                ((if w < self.fixed {
                    1nat
                } else {
                    0nat
                }) + reads_of(done, before.redirects@, f, w as nat)) as nat,
            ));
        }
    }

    /// Counts the readers of every class afresh from the gates.
    #[verifier::rlimit(100)]
    pub fn count_references(&mut self)
        requires
            old(self).wf(),
            gates_in_range(old(self).nands@, old(self).size()),
        ensures
            final(self).wf(),
            final(self).fixed == old(self).fixed,
            final(self).wires == old(self).wires,
            final(self).nands == old(self).nands,
            final(self).origin == old(self).origin,
            final(self).stamp == old(self).stamp,
            final(self).pos == old(self).pos,
            final(self).redirects.len() == old(self).redirects.len(),
            forall|i: int|
                0 <= i < final(self).redirects.len() ==> ((#[trigger] final(self).redirects[i])
                    is None <==> old(self).redirects[i] is None),
            forall|w: nat| #[trigger] final(self).root_of(w) == old(self).root_of(w),
            final(self).tallied(final(self).nands@),
            final(self).counted(final(self).nands@),
    {
        let n = self.references.len();
        let mut w: usize = 0;
        while w < n
            invariant
                w <= n,
                n == self.references.len(),
                self.fixed == old(self).fixed,
                self.redirects == old(self).redirects,
                self.wires == old(self).wires,
                self.nands == old(self).nands,
                self.origin == old(self).origin,
                self.stamp == old(self).stamp,
                self.pos == old(self).pos,
                n == self.size(),
                forall|x: int|
                    0 <= x < w ==> (#[trigger] self.references[x]) == (if x < self.fixed {
                        1usize
                    } else {
                        0usize
                    }),
            decreases n - w,
        {
            self.references[w] = if w < self.fixed { 1 } else { 0 };
            w += 1;
        }
        let mut k: usize = 0;
        assert(self.tallied(self.nands@.take(0)));
        while k < self.nands.len()
            invariant
                k <= self.nands.len(),
                self.wf(),
                self.fixed == old(self).fixed,
                self.wires == old(self).wires,
                self.nands == old(self).nands,
                self.origin == old(self).origin,
                self.stamp == old(self).stamp,
                self.pos == old(self).pos,
                self.redirects.len() == old(self).redirects.len(),
                gates_in_range(self.nands@, self.size()),
                forall|i: int|
                    0 <= i < self.redirects.len() ==> ((#[trigger] self.redirects[i]) is None
                        <==> old(self).redirects[i] is None),
                forall|x: nat| #[trigger] self.root_of(x) == old(self).root_of(x),
                self.tallied(self.nands@.take(k as int)),
            decreases self.nands.len() - k,
        {
            let g = self.nands[k];
            assert(gate_in_range(self.nands@[k as int], self.size()));
            let ghost before = *self;
            let a = self.resolve(g.0);
            let b = self.resolve(g.1);
            let ghost mid = *self;
            self.references[a.0] = self.references[a.0].saturating_add(1);
            self.references[b.0] = self.references[b.0].saturating_add(1);
            proof {
                let done = self.nands@.take(k as int);
                let more = self.nands@.take(k + 1);
                let f = self.fixed as nat;
                assert(more.drop_last() =~= done);
                assert(more.last() == g);
                assert forall|x: nat| #[trigger] self.root_of(x) == before.root_of(x) by {
                    assert(mid.root_of(x) == before.root_of(x));
                }
                assert(self.faithful()) by {
                    assert(mid.faithful());
                }
                assert(more =~= done.push(g));
                self.lemma_tallied_more(&before, done, g, a, b);
            }
            k += 1;
        }
        assert(self.nands@.take(k as int) =~= self.nands@);
        proof {
            self.lemma_tallied_counted(self.nands@);
        }
    }

    /// Keeping the classes is transitive.
    pub proof fn lemma_same_twice(&self, mid: &Optimizer, first: &Optimizer)
        requires
            self.same_classes(mid),
            mid.same_classes(first),
        ensures
            self.same_classes(first),
    {
        assert forall|i: int| 0 <= i < self.redirects.len() implies ((
        #[trigger] self.redirects[i]) is None <==> first.redirects[i] is None) by {
            assert(mid.redirects[i] is None <==> first.redirects[i] is None);
        }
        assert forall|w: nat| #[trigger] self.root_of(w) == first.root_of(w) by {
            assert(mid.root_of(w) == first.root_of(w));
        }
    }

    /// The form of a gate: its wires resolved, the input with the larger
    /// index first, a constant TRUE beside another input replaced by that
    /// input.
    #[verifier::rlimit(100)]
    pub fn canonical(&mut self, g: Gate) -> (r: Gate)
        requires
            old(self).wf(),
            gate_in_range(g, old(self).size()),
        ensures
            final(self).wf(),
            final(self).same_classes(old(self)),
            gate_in_range(r, final(self).size()),
            is_form(r, form(final(self).redirects@, final(self).fixed as nat, g)),
            is_root(final(self).redirects@, final(self).fixed as nat, r.0.0 as nat),
            is_root(final(self).redirects@, final(self).fixed as nat, r.1.0 as nat),
            is_root(final(self).redirects@, final(self).fixed as nat, r.2.0 as nat),
            r.0.0 >= r.1.0,
            r.1.0 == 1 ==> r.0.0 == 1,
            always_nand(
                old(self).size(),
                old(self).origin@,
                g.0.0 as nat,
                g.1.0 as nat,
                g.2.0 as nat,
            ) ==> always_nand(
                old(self).size(),
                old(self).origin@,
                r.0.0 as nat,
                r.1.0 as nat,
                r.2.0 as nat,
            ),
    {
        let ghost s0 = *self;
        let a = self.resolve(g.0);
        let ghost s1 = *self;
        let b = self.resolve(g.1);
        let ghost s2 = *self;
        let val = self.resolve(g.2);
        let (hi, lo) = if a.0 < b.0 { (b, a) } else { (a, b) };
        let (ka, kb) = if lo.0 == 1 && hi.0 != 1 { (hi, hi) } else { (hi, lo) };
        proof {
            let n = self.size();
            let f = self.fixed as nat;
            s2.lemma_same_twice(&s1, &s0);
            self.lemma_same_twice(&s2, &s0);
            assert(self.root_of(g.0.0 as nat) == s0.root_of(g.0.0 as nat));
            assert(self.root_of(g.1.0 as nat) == s1.root_of(g.1.0 as nat)) by {
                assert(self.root_of(g.1.0 as nat) == s2.root_of(g.1.0 as nat));
                assert(s2.root_of(g.1.0 as nat) == s1.root_of(g.1.0 as nat));
            }
            assert(self.root_of(g.2.0 as nat) == s2.root_of(g.2.0 as nat));
            lemma_root_is_root(self.redirects@, f, g.0.0 as nat);
            lemma_root_is_root(self.redirects@, f, g.1.0 as nat);
            lemma_root_is_root(self.redirects@, f, g.2.0 as nat);
            if always_nand(n, self.origin@, g.0.0 as nat, g.1.0 as nat, g.2.0 as nat) {
                assert forall|v: Seq<bool>| #[trigger]
                    solves(v, n, self.origin@) implies v[val.0 as int] == !(v[ka.0 as int]
                    && v[kb.0 as int]) by {
                    lemma_form_holds(v, n, self.redirects@, f, g);
                }
            }
        }
        (ka, kb, val)
    }

    /// The wire that already has the value that `r` computes, `r` being in its
    /// form: the constant TRUE where an input is FALSE, the constant FALSE
    /// where both are TRUE, else the entry of the table under the inputs,
    /// resolved, if there is one.
    #[verifier::rlimit(100)]
    pub fn target(&mut self, table: &Table, r: Gate) -> (t: Option<Wire>)
        requires
            old(self).wf(),
            old(self).table_sound(table@),
            gate_in_range(r, old(self).size()),
            r.0.0 >= r.1.0,
            always_nand(
                old(self).size(),
                old(self).origin@,
                r.0.0 as nat,
                r.1.0 as nat,
                r.2.0 as nat,
            ),
        ensures
            final(self).wf(),
            final(self).same_classes(old(self)),
            match t {
                Some(t) => {
                    &&& t.0 < final(self).size()
                    &&& is_root(final(self).redirects@, final(self).fixed as nat, t.0 as nat)
                    &&& always_equal(
                        final(self).size(),
                        final(self).origin@,
                        t.0 as nat,
                        r.2.0 as nat,
                    )
                    &&& t.0 == 0 || t.0 == 1 || exists|key: (usize, usize)|
                        table@.contains_key(key) && final(self).root_of(table@[key] as nat) == t.0
                    &&& r.1.0 == 0 || r.0.0 == 1 || table@.contains_key((r.0.0, r.1.0))
                    &&& t == (if r.1.0 == 0 {
                        Wire(1)
                    } else if r.0.0 == 1 {
                        Wire(0)
                    } else {
                        Wire(old(self).root_of(table@[(r.0.0, r.1.0)] as nat) as usize)
                    })
                },
                None => r.1.0 != 0 && r.0.0 != 1 && !table@.contains_key((r.0.0, r.1.0)),
            },
    {
        let ghost n = self.size();
        let ghost f = self.fixed as nat;
        if r.1.0 == 0 {
            proof {
                assert forall|v: Seq<bool>| #[trigger]
                    solves(v, n, self.origin@) implies v[1] == v[r.2.0 as int] by {
                    assert(v[r.2.0 as int] == !(v[r.0.0 as int] && v[r.1.0 as int]));
                }
            }
            Some(Wire(1))
        } else if r.0.0 == 1 {
            proof {
                assert forall|v: Seq<bool>| #[trigger]
                    solves(v, n, self.origin@) implies v[0] == v[r.2.0 as int] by {
                    assert(v[r.2.0 as int] == !(v[r.0.0 as int] && v[r.1.0 as int]));
                }
            }
            Some(Wire(0))
        } else {
            match table.get(r.0.0, r.1.0) {
                Some(e) => {
                    let ghost key = (r.0.0, r.1.0);
                    assert(table@.contains_key(key));
                    let t = self.resolve(Wire(e));
                    proof {
                        assert(t.0 == self.root_of(e as nat)) by {
                            assert(self.root_of(e as nat) == old(self).root_of(e as nat));
                        }
                        assert forall|v: Seq<bool>| #[trigger]
                            solves(v, n, self.origin@) implies v[t.0 as int]
                            == v[r.2.0 as int] by {
                            assert(v[r.2.0 as int] == !(v[r.0.0 as int] && v[r.1.0 as int]));
                            assert(always_nand(
                                n,
                                self.origin@,
                                key.0 as nat,
                                key.1 as nat,
                                table@[key] as nat,
                            ));
                            assert(v[e as int] == !(v[r.0.0 as int] && v[r.1.0 as int]));
                            lemma_root_value(v, self.redirects@, f, e as nat);
                        }
                        assert(table@.contains_key(key) && self.root_of(table@[key] as nat) == t.0);
                    }
                    Some(t)
                },
                None => None,
            }
        }
    }

    /// A gate in its form, kept with at most entries for its output and
    /// for its negated input added, keeps the table sound.
    pub proof fn lemma_table_sound_keep(
        &self,
        before: Map<(usize, usize), usize>,
        after: Map<(usize, usize), usize>,
        r: Gate,
    )
        requires
            self.table_sound(before),
            gate_in_range(r, self.size()),
            always_nand(self.size(), self.origin@, r.0.0 as nat, r.1.0 as nat, r.2.0 as nat),
            forall|key: (usize, usize)| #[trigger]
                after.contains_key(key) ==> (before.contains_key(key) && before[key] == after[key])
                    || (key == (r.0.0, r.1.0) && after[key] == r.2.0) || (r.0 == r.1 && key == (
                    r.2.0,
                    r.2.0,
                ) && after[key] == r.0.0),
        ensures
            self.table_sound(after),
    {
        let n = self.size();
        assert forall|key: (usize, usize)| #[trigger] after.contains_key(key) implies {
            &&& key.0 < n
            &&& key.1 < n
            &&& after[key] < n
            &&& always_nand(n, self.origin@, key.0 as nat, key.1 as nat, after[key] as nat)
        } by {
            if before.contains_key(key) && before[key] == after[key] {
            } else if key == (r.0.0, r.1.0) && after[key] == r.2.0 {
            } else {
                assert forall|v: Seq<bool>| #[trigger]
                    solves(v, n, self.origin@) implies v[r.0.0 as int] == !(v[r.2.0 as int]
                    && v[r.2.0 as int]) by {
                    assert(v[r.2.0 as int] == !(v[r.0.0 as int] && v[r.1.0 as int]));
                }
            }
        }
    }

    /// One more gate that is in range and holds in every solution.
    pub proof fn lemma_implied_push(&self, kept: Seq<Gate>, r: Gate)
        requires
            gates_in_range(kept, self.size()),
            implied(self.size(), self.origin@, kept),
            gate_in_range(r, self.size()),
            always_nand(self.size(), self.origin@, r.0.0 as nat, r.1.0 as nat, r.2.0 as nat),
        ensures
            gates_in_range(kept.push(r), self.size()),
            implied(self.size(), self.origin@, kept.push(r)),
    {
        let more = kept.push(r);
        assert forall|i: int| 0 <= i < more.len() implies gate_in_range(
            #[trigger] more[i],
            self.size(),
        ) by {
            if i < kept.len() {
                assert(more[i] == kept[i]);
            }
        }
        assert forall|i: int| 0 <= i < more.len() implies always_nand(
            self.size(),
            self.origin@,
            (#[trigger] more[i]).0.0 as nat,
            more[i].1.0 as nat,
            more[i].2.0 as nat,
        ) by {
            if i < kept.len() {
                assert(more[i] == kept[i]);
            }
        }
    }

    /// A pass starts with no gate kept.
    pub proof fn lemma_settled_start(&self, gates: Seq<Gate>)
        ensures
            self.settled(Map::<(usize, usize), usize>::empty(), Seq::<Gate>::empty(), gates),
    {
        reveal(Optimizer::settled);
    }

    /// A gate in its form that is kept, in a pass that has dropped none,
    /// keeps what holds of the kept gates: either its inputs were not in
    /// the table and are now, or it writes a fixed wire.
    pub proof fn lemma_settled_keep(
        &self,
        before: Map<(usize, usize), usize>,
        after: Map<(usize, usize), usize>,
        kept: Seq<Gate>,
        gates: Seq<Gate>,
        r: Gate,
    )
        requires
            self.settled(before, kept, gates),
            kept.len() < gates.len(),
            is_form(r, form(self.redirects@, self.fixed as nat, gates[kept.len() as int])),
            r.0.0 >= r.1.0,
            r.1.0 == 1 ==> r.0.0 == 1,
            forall|key: (usize, usize)| #[trigger]
                before.contains_key(key) ==> after.contains_key(key),
            r.1.0 < 2 || after.contains_key((r.0.0, r.1.0)),
            (!before.contains_key((r.0.0, r.1.0)) && r.1.0 != 0 && r.0.0 != 1) || r.2.0
                < self.fixed,
            r.2.0 >= self.fixed ==> r.2.0 < self.references.len() && self.references[r.2.0 as int]
                > 0,
        ensures
            self.settled(after, kept.push(r), gates),
    {
        reveal(Optimizer::settled);
        let more = kept.push(r);
        let f = self.fixed as nat;
        assert forall|i: int| 0 <= i < more.len() implies is_form(
            #[trigger] more[i],
            form(self.redirects@, f, gates[i]),
        ) by {
            if i < kept.len() {
                assert(more[i] == kept[i]);
            }
        }
        assert forall|i: int| 0 <= i < more.len() implies (#[trigger] more[i]).1.0 < 2
            || after.contains_key((more[i].0.0, more[i].1.0)) by {
            if i < kept.len() {
                assert(more[i] == kept[i]);
                if kept[i].1.0 >= 2 {
                    assert(before.contains_key((kept[i].0.0, kept[i].1.0)));
                }
            }
        }
        assert forall|i: int, j: int|
            0 <= i < j < more.len() && (#[trigger] more[i]).0 == (#[trigger] more[j]).0
                && more[i].1 == more[j].1 implies more[j].2.0 < self.fixed by {
            assert(more[i] == kept[i]);
            if j < kept.len() {
                assert(more[j] == kept[j]);
            } else {
                if kept[i].1.0 >= 2 {
                    assert(before.contains_key((kept[i].0.0, kept[i].1.0)));
                }
            }
        }
        assert forall|i: int|
            0 <= i < more.len() && ((#[trigger] more[i]).1.0 == 0
                || more[i].0.0 == 1) implies more[i].2.0 < self.fixed by {
            if i < kept.len() {
                assert(more[i] == kept[i]);
            }
        }
        assert forall|i: int|
            0 <= i < more.len() && (#[trigger] more[i]).2.0
                >= self.fixed implies self.references[more[i].2.0 as int] > 0 by {
            if i < kept.len() {
                assert(more[i] == kept[i]);
            }
        }
    }

    /// One pass over the gates. Each gate is brought into its form. It is
    /// dropped, and its output joined to the wire that already has its
    /// value, where its value is a constant or an earlier gate has the same
    /// inputs, unless both wires are fixed; it is dropped as well where
    /// nothing reads its output. Says whether any gate was dropped.
    #[verifier::rlimit(100)]
    pub fn deduplicate_nands(&mut self) -> (changed: bool)
        requires
            old(self).wf(),
            gates_in_range(old(self).nands@, old(self).size()),
            implied(old(self).size(), old(self).origin@, old(self).nands@),
            combinational(old(self).origin@, old(self).size()) ==> old(self).staged(
                old(self).nands@,
                old(self).pos@,
            ),
        ensures
            final(self).wf(),
            final(self).fixed == old(self).fixed,
            final(self).wires == old(self).wires,
            final(self).origin == old(self).origin,
            final(self).redirects.len() == old(self).redirects.len(),
            gates_in_range(final(self).nands@, final(self).size()),
            implied(final(self).size(), final(self).origin@, final(self).nands@),
            final(self).nands.len() <= old(self).nands.len(),
            changed <==> final(self).nands.len() < old(self).nands.len(),
            !changed ==> final(self).minimal(),
            !changed ==> forall|w: nat| #[trigger] final(self).root_of(w) == old(self).root_of(w),
            !changed ==> forall|i: int|
                0 <= i < final(self).nands.len() ==> is_form(
                    #[trigger] final(self).nands[i],
                    form(final(self).redirects@, final(self).fixed as nat, old(self).nands[i]),
                ),
            final(self).coarser(old(self)),
            exists|picks: Seq<int>| #[trigger]
                final(self).traced(picks, final(self).nands@, old(self).nands@),
            ({
                let end = scan(
                    old(self).fixed as nat,
                    outset(old(self).nands@, old(self).classes(), old(self).fixed as nat),
                    old(self).nands@,
                    old(self).nands.len() as int,
                );
                &&& final(self).nands@ == end.3
                &&& final(self).classes() == end.0
                &&& final(self).references@ == end.1
            }),
            combinational(final(self).origin@, final(self).size()) ==> final(self).staged(
                final(self).nands@,
                final(self).pos@,
            ),
    {
        self.count_references();
        let ghost start = *self;
        let ghost comb = combinational(self.origin@, self.size());
        let mut gates: Vec<Gate> = Vec::new();
        core::mem::swap(&mut self.nands, &mut gates);
        let mut kept: Vec<Gate> = Vec::new();
        let mut table = Table::new();
        let mut changed = false;
        let mut k: usize = 0;
        let ghost mut cur = gates@;
        let ghost mut cp = self.pos@;
        let ghost mut picks = Seq::<int>::empty();
        let ghost begin = outset(gates@, old(self).classes(), old(self).fixed as nat);
        proof {
            start.lemma_outset(old(self), gates@);
            start.lemma_passed_none(begin, gates@);
            self.lemma_passed_same(&start, table@, kept@, begin, gates@, 0);
            self.lemma_coarser_same(&start);
            self.lemma_traced_none(gates@);
            if comb {
                start.lemma_staged_same(old(self), cur, cp);
                start.lemma_counted_watched(cur);
                self.lemma_staged_same(&start, cur, cp);
                self.lemma_watched_same(&start, cur);
                self.lemma_scanned_start(cur, cp);
            }
            self.lemma_settled_start(gates@);
        }
        while k < gates.len()
            invariant
                k <= gates.len(),
                gates == start.nands,
                comb == combinational(self.origin@, self.size()),
                comb ==> self.scanned(table@, kept@, gates@, k as int, cur, cp),
                self.wf(),
                self.fixed == start.fixed,
                self.wires == start.wires,
                self.origin == start.origin,
                self.redirects.len() == start.redirects.len(),
                gates_in_range(gates@, self.size()),
                implied(self.size(), self.origin@, gates@),
                gates_in_range(kept@, self.size()),
                implied(self.size(), self.origin@, kept@),
                self.table_sound(table@),
                kept.len() <= k,
                changed <==> kept.len() < k,
                !changed ==> self.references == start.references,
                !changed ==> forall|w: nat| #[trigger] self.root_of(w) == start.root_of(w),
                !changed ==> self.settled(table@, kept@, gates@),
                self.coarser(&start),
                self.traced(picks, kept@, gates@),
                forall|i: int| 0 <= i < picks.len() ==> (#[trigger] picks[i]) < k,
                self.passed(table@, kept@, begin, gates@, k as int),
            decreases gates.len() - k,
        {
            let g = gates[k];
            let ghost s0 = *self;
            proof {
                assert(gate_in_range(gates@[k as int], self.size()));
                assert(always_nand(
                    self.size(),
                    self.origin@,
                    gates@[k as int].0.0 as nat,
                    gates@[k as int].1.0 as nat,
                    gates@[k as int].2.0 as nat,
                ));
            }
            let r = self.canonical(g);
            let ghost s1 = *self;
            let target = self.target(&table, r);
            let val = r.2;
            proof {
                self.lemma_same_twice(&s1, &s0);
                assert(self.root_of(g.0.0 as nat) == s1.root_of(g.0.0 as nat));
                assert(self.root_of(g.1.0 as nat) == s1.root_of(g.1.0 as nat));
                assert(self.root_of(g.2.0 as nat) == s1.root_of(g.2.0 as nat));
                assert(is_form(r, form(self.redirects@, self.fixed as nat, g)));
                self.lemma_coarser_same(&s0);
                self.lemma_coarser_twice(&s0, &start);
                self.lemma_traced_coarser(&s0, picks, kept@, gates@);
                self.lemma_passed_same(&s0, table@, kept@, begin, gates@, k as int);
                self.lemma_shaped(g, r);
                assert(aim(self.classes(), table@, r) == (match target {
                    Some(t) => Some(t.0 as nat),
                    None => None,
                })) by {
                    if r.1.0 != 0 && r.0.0 != 1 && table@.contains_key((r.0.0, r.1.0)) {
                        let e = table@[(r.0.0, r.1.0)];
                        assert(s0.table_sound(table@));
                        assert(e < self.size());
                        assert(self.root_of(e as nat) == s1.root_of(e as nat));
                        lemma_root_is_root(s1.redirects@, s1.fixed as nat, e as nat);
                        assert(self.classes()[e as int] == self.root_of(e as nat));
                        assert(target is Some);
                        let found: Wire = target->0;
                        assert(found.0 == s1.root_of(e as nat));
                    }
                }
                if !changed {
                    self.lemma_settled_same(&s0, table@, kept@, gates@);
                    assert forall|w: nat| #[trigger] self.root_of(w) == start.root_of(w) by {
                        assert(s0.root_of(w) == start.root_of(w));
                    }
                }
                if comb {
                    self.lemma_scanned_same(&s0, table@, kept@, gates@, k as int, cur, cp);
                }
                assert(self.table_sound(table@));
            }
            let mut dropped = false;
            let ghost pre = *self;
            match target {
                Some(t) => {
                    if t.0 == val.0 || t.0 >= self.fixed || val.0 >= self.fixed {
                        proof {
                            if comb {
                                pre.lemma_scanned_target(
                                    table@,
                                    kept@,
                                    gates@,
                                    k as int,
                                    cur,
                                    cp,
                                    t.0 as int,
                                );
                            }
                        }
                        let low = self.merge(t, val);
                        let ghost mid = *self;
                        proof {
                            self.stamp@ = pre.stamp@.update(low.0 as int, pre.stamp@[t.0 as int]);
                            assert forall|w: nat| #[trigger] self.root_of(w) == mid.root_of(w) by {}
                            assert(self.faithful()) by {
                                assert(mid.faithful());
                            }
                            if t == val {
                                self.lemma_coarser_same(&pre);
                                pre.lemma_passed_skip(table@, kept@, begin, gates@, k as int, r);
                                self.lemma_passed_same(
                                    &pre,
                                    table@,
                                    kept@,
                                    begin,
                                    gates@,
                                    k + 1,
                                );
                            } else {
                                self.lemma_coarser_merge(
                                    &pre,
                                    (if t.0 < val.0 { val.0 } else { t.0 }) as nat,
                                    low.0 as nat,
                                );
                                mid.lemma_passed_join(
                                    &pre,
                                    table@,
                                    kept@,
                                    begin,
                                    gates@,
                                    k as int,
                                    r,
                                    t.0 as nat,
                                );
                                self.lemma_passed_same(
                                    &mid,
                                    table@,
                                    kept@,
                                    begin,
                                    gates@,
                                    k + 1,
                                );
                            }
                            self.lemma_coarser_twice(&pre, &start);
                            self.lemma_traced_coarser(&pre, picks, kept@, gates@);
                            if comb {
                                self.lemma_scanned_merge(
                                    &pre,
                                    table@,
                                    kept@,
                                    gates@,
                                    k as int,
                                    cur,
                                    cp,
                                    t.0 as int,
                                    val.0 as int,
                                    low,
                                    (if t.0 < val.0 { val.0 } else { t.0 }) as int,
                                );
                                cur = cur.remove(kept.len() as int);
                                cp = cp.remove(kept.len() as int);
                            }
                        }
                        dropped = true;
                    }
                },
                None => {
                    if val.0 >= self.fixed && self.references[val.0] == 0 {
                        proof {
                            self.stamp@ = pre.stamp@.update(val.0 as int, -2);
                            assert forall|w: nat| #[trigger] self.root_of(w) == pre.root_of(w) by {}
                            assert(self.faithful()) by {
                                assert(pre.faithful());
                            }
                            self.lemma_coarser_same(&pre);
                            self.lemma_coarser_twice(&pre, &start);
                            self.lemma_traced_coarser(&pre, picks, kept@, gates@);
                            pre.lemma_passed_skip(table@, kept@, begin, gates@, k as int, r);
                            self.lemma_passed_same(&pre, table@, kept@, begin, gates@, k + 1);
                            if comb {
                                self.lemma_scanned_dead(
                                    &pre,
                                    table@,
                                    kept@,
                                    gates@,
                                    k as int,
                                    cur,
                                    cp,
                                    val.0 as int,
                                );
                                cur = cur.remove(kept.len() as int);
                                cp = cp.remove(kept.len() as int);
                            }
                        }
                        dropped = true;
                    }
                },
            }
            if dropped {
                changed = true;
            } else {
                let ghost before = table@;
                if target.is_none() {
                    table.insert(r.0.0, r.1.0, val.0);
                    if r.0.0 == r.1.0 {
                        table.insert(val.0, val.0, r.0.0);
                    }
                }
                proof {
                    self.lemma_table_sound_keep(before, table@, r);
                    self.lemma_implied_push(kept@, r);
                    if !changed {
                        self.lemma_settled_keep(before, table@, kept@, gates@, r);
                    }
                    self.lemma_traced_push(picks, kept@, gates@, k as int, r);
                    picks = picks.push(k as int);
                    self.lemma_passed_keep(before, table@, kept@, begin, gates@, k as int, r);
                    if comb {
                        self.lemma_scanned_keep(
                            before,
                            table@,
                            kept@,
                            gates@,
                            k as int,
                            cur,
                            cp,
                            r,
                        );
                        cur = cur.update(kept.len() as int, r);
                    }
                }
                kept.push(r);
            }
            k += 1;
        }
        let ghost scanned = *self;
        core::mem::swap(&mut self.nands, &mut kept);
        proof {
            self.pos@ = cp;
            assert forall|w: nat| #[trigger] self.root_of(w) == scanned.root_of(w) by {}
            self.lemma_passed_same(
                &scanned,
                table@,
                self.nands@,
                begin,
                gates@,
                gates.len() as int,
            );
            self.lemma_passed_all(table@, self.nands@, begin, gates@, gates.len() as int);
            self.lemma_coarser_same(&scanned);
            self.lemma_traced_coarser(&scanned, picks, self.nands@, gates@);
            self.lemma_coarser_twice(&scanned, &start);
            start.lemma_coarser_same(old(self));
            self.lemma_coarser_twice(&start, old(self));
            if comb {
                scanned.lemma_scanned_end(table@, self.nands@, gates@, cur, cp);
                self.lemma_staged_same(&scanned, self.nands@, cp);
            }
            if !changed {
                assert forall|w: nat| #[trigger] self.root_of(w) == start.root_of(w) by {
                    assert(scanned.root_of(w) == start.root_of(w));
                }
                self.lemma_settled_same(&scanned, table@, self.nands@, gates@);
                self.lemma_minimal(&start, table@);
                self.lemma_settled_forms(table@, self.nands@, gates@);
                assert forall|w: nat| #[trigger] self.root_of(w) == old(self).root_of(w) by {
                    assert(self.root_of(w) == start.root_of(w));
                }
            }
        }
        changed
    }

    /// Gates that were all kept are the forms of their sources, place by
    /// place.
    pub proof fn lemma_settled_forms(
        &self,
        table: Map<(usize, usize), usize>,
        kept: Seq<Gate>,
        gates: Seq<Gate>,
    )
        requires
            self.settled(table, kept, gates),
        ensures
            forall|i: int|
                0 <= i < kept.len() ==> is_form(
                    #[trigger] kept[i],
                    form(self.redirects@, self.fixed as nat, gates[i]),
                ),
    {
        reveal(Optimizer::settled);
    }

    /// Redirects that keep every representative keep what holds of the
    /// kept gates.
    pub proof fn lemma_settled_same(
        &self,
        other: &Optimizer,
        table: Map<(usize, usize), usize>,
        kept: Seq<Gate>,
        gates: Seq<Gate>,
    )
        requires
            other.settled(table, kept, gates),
            self.fixed == other.fixed,
            self.references == other.references,
            forall|w: nat| #[trigger] self.root_of(w) == other.root_of(w),
        ensures
            self.settled(table, kept, gates),
    {
        reveal(Optimizer::settled);
        assert forall|i: int| 0 <= i < kept.len() implies is_form(
            #[trigger] kept[i],
            form(self.redirects@, self.fixed as nat, gates[i]),
        ) by {
            let g = gates[i];
            assert(self.root_of(g.0.0 as nat) == other.root_of(g.0.0 as nat));
            assert(self.root_of(g.1.0 as nat) == other.root_of(g.1.0 as nat));
            assert(self.root_of(g.2.0 as nat) == other.root_of(g.2.0 as nat));
            assert(is_form(kept[i], form(other.redirects@, other.fixed as nat, gates[i])));
        }
    }

    /// Renumbers the wires that are representatives and have readers, in
    /// order and without gaps after the fixed ones, rewrites the gates to
    /// the new numbers and cuts the store to the new size. Returns, for each
    /// new index, the old one.
    #[verifier::rlimit(100)]
    pub fn thin_state(&mut self) -> (back: Ghost<Seq<usize>>)
        requires
            old(self).wf(),
            gates_in_range(old(self).nands@, old(self).size()),
            old(self).minimal(),
            combinational(old(self).origin@, old(self).size()) ==> old(self).staged(
                old(self).nands@,
                old(self).pos@,
            ),
        ensures
            final(self).fixed == old(self).fixed,
            final(self).origin == old(self).origin,
            back@.len() <= old(self).size(),
            combinational(old(self).origin@, old(self).size()) ==> tidy(
                old(self).origin@,
                old(self).size(),
                final(self).nands@,
                old(self).fixed as nat,
                back@,
            ),
            final(self).wires@ == old(self).wires@.take(back@.len() as int),
            final(self).references@ == Seq::new(
                (back@.len() - old(self).fixed) as nat,
                |i: int| 0usize,
            ),
            renumbered(
                old(self).nands@,
                old(self).size(),
                final(self).nands@,
                old(self).fixed as nat,
                back@,
            ),
            forall|y: int|
                old(self).fixed <= y < back@.len() ==> old(self).references[(
                #[trigger] back@[y]) as int] > 0 && is_root(
                    old(self).redirects@,
                    old(self).fixed as nat,
                    back@[y] as nat,
                ),
            forall|w: int|
                old(self).fixed <= w < old(self).size() && is_root(
                    old(self).redirects@,
                    old(self).fixed as nat,
                    w as nat,
                ) && (#[trigger] old(self).references[w]) > 0 ==> exists|y: int|
                    old(self).fixed <= y < back@.len() && #[trigger] back@[y] == w,
    {
        let ghost f = self.fixed as nat;
        let ghost before = self.redirects@;
        let mut back: Ghost<Seq<usize>> = Ghost(Seq::new(f, |y: int| y as usize));
        let mut j: usize = self.fixed;
        let mut i: usize = 0;
        while i < self.redirects.len()
            invariant
                i <= self.redirects.len(),
                self.fixed == old(self).fixed,
                self.origin == old(self).origin,
                self.wires == old(self).wires,
                self.nands == old(self).nands,
                self.references == old(self).references,
                self.redirects.len() == before.len(),
                self.references.len() == f + before.len(),
                f == self.fixed,
                before == old(self).redirects@,
                f <= j <= f + i,
                back@.len() == j,
                forall|y: int| 0 <= y < f ==> (#[trigger] back@[y]) == y,
                forall|y: int| f <= y < j ==> f <= (#[trigger] back@[y]) < f + i,
                forall|x: int, y: int|
                    0 <= x < y < j ==> (#[trigger] back@[x]) < (#[trigger] back@[y]),
                forall|y: int|
                    f <= y < j ==> self.redirects[(#[trigger] back@[y]) - f] == Some(
                        Wire(y as usize),
                    ),
                forall|y: int| f <= y < j ==> self.references[(#[trigger] back@[y]) as int] > 0,
                forall|y: int| f <= y < j ==> before[(#[trigger] back@[y]) - f] is None,
                forall|x: int|
                    0 <= x < i ==> ((#[trigger] self.redirects[x]) matches Some(w) ==> f <= w.0
                        < j && back@[w.0 as int] == f + x),
                forall|x: int|
                    0 <= x < i && before[x] is None && self.references[f + x] > 0 ==> (
                    #[trigger] self.redirects[x]) is Some,
                forall|x: int| i <= x < before.len() ==> (#[trigger] self.redirects[x]) == before[x],
            decreases self.redirects.len() - i,
        {
            let taken = match self.redirects[i] {
                Some(_) => true,
                None => false,
            };
            if taken || self.references[i + self.fixed] == 0 {
                self.redirects[i] = None;
            } else {
                self.redirects[i] = Some(Wire(j));
                proof {
                    back@ = back@.push((i + self.fixed) as usize);
                }
                j += 1;
            }
            i += 1;
        }
        let mut k: usize = 0;
        let ghost gates = self.nands@;
        proof {
            assert forall|y: int| f <= y < j implies old(self).references[(
            #[trigger] back@[y]) as int] > 0 && is_root(before, f, back@[y] as nat) by {
                assert(before[back@[y] - f] is None);
            }
        }
        let ghost ready = forall|y: int|
            f <= y < back@.len() ==> old(self).references[(#[trigger] back@[y]) as int] > 0
                && is_root(before, f, back@[y] as nat);
        proof {
            assert forall|w: int|
                f <= w < f + before.len() && is_root(before, f, w as nat) && (
                #[trigger] old(self).references[w]) > 0 implies exists|y: int|
                f <= y < back@.len() && #[trigger] back@[y] == w by {
                let x = w - f;
                assert(before[x] is None);
                assert(self.redirects[x] is Some);
                let y = self.redirects[x]->0;
                assert(back@[y.0 as int] == w);
            }
        }
        let ghost whole = forall|w: int|
            f <= w < f + before.len() && is_root(before, f, w as nat) && (
            #[trigger] old(self).references[w]) > 0 ==> exists|y: int|
                f <= y < back@.len() && #[trigger] back@[y] == w;
        while k < self.nands.len()
            invariant
                k <= self.nands.len(),
                ready,
                whole,
                self.fixed == old(self).fixed,
                self.origin == old(self).origin,
                self.wires == old(self).wires,
                self.references == old(self).references,
                self.redirects.len() == before.len(),
                self.references.len() == f + before.len(),
                self.nands.len() == gates.len(),
                gates == old(self).nands@,
                gates_in_range(gates, f + before.len()),
                old(self).minimal(),
                f == self.fixed,
                before == old(self).redirects@,
                f <= j <= f + before.len(),
                back@.len() == j,
                forall|y: int| 0 <= y < f ==> (#[trigger] back@[y]) == y,
                forall|x: int|
                    0 <= x < before.len() ==> ((#[trigger] self.redirects[x]) matches Some(w)
                        ==> f <= w.0 < j && back@[w.0 as int] == f + x),
                forall|x: int|
                    0 <= x < before.len() && before[x] is None && self.references[f + x] > 0 ==> (
                    #[trigger] self.redirects[x]) is Some,
                forall|i: int| k <= i < gates.len() ==> (#[trigger] self.nands[i]) == gates[i],
                forall|i: int|
                    0 <= i < k ==> {
                        let g = #[trigger] self.nands[i];
                        &&& gate_in_range(g, j as nat)
                        &&& back@[g.0.0 as int] == gates[i].0.0
                        &&& back@[g.1.0 as int] == gates[i].1.0
                        &&& back@[g.2.0 as int] == gates[i].2.0
                    },
            decreases self.nands.len() - k,
        {
            let g = self.nands[k];
            proof {
                assert(gate_in_range(gates[k as int], f + before.len()));
                let g0 = old(self).nands[k as int];
                assert(g0 == g);
                assert(g.2.0 >= f ==> old(self).references[g.2.0 as int] > 0);
                assert(g.0.0 >= f ==> old(self).references[g.0.0 as int] > 0);
                assert(g.1.0 >= f ==> old(self).references[g.1.0 as int] > 0);
            }
            let a = self.renamed(g.0);
            let b = self.renamed(g.1);
            let o = self.renamed(g.2);
            self.nands[k] = (a, b, o);
            k += 1;
        }
        self.wires.truncate(j);
        self.references.clear();
        while self.references.len() < j - self.fixed
            invariant
                ready,
                whole,
                self.fixed == old(self).fixed,
                self.origin == old(self).origin,
                self.wires@ == old(self).wires@.take(j as int),
                f == self.fixed,
                f <= j,
                self.nands.len() == gates.len(),
                forall|i: int|
                    0 <= i < gates.len() ==> {
                        let g = #[trigger] self.nands[i];
                        &&& gate_in_range(g, j as nat)
                        &&& back@[g.0.0 as int] == gates[i].0.0
                        &&& back@[g.1.0 as int] == gates[i].1.0
                        &&& back@[g.2.0 as int] == gates[i].2.0
                    },
                self.references.len() <= j - f,
                forall|i: int| 0 <= i < self.references.len() ==> self.references[i] == 0,
            decreases j - f - self.references.len(),
        {
            self.references.push(0);
        }
        assert(self.references@ =~= Seq::new((j - f) as nat, |i: int| 0usize));
        proof {
            if combinational(old(self).origin@, old(self).size()) {
                lemma_renumbered_tidy(old(self), self.nands@, back@);
            }
        }
        back
    }

    /// The new index of a wire that is kept.
    fn renamed(&self, w: Wire) -> (r: Wire)
        requires
            w.0 < self.fixed + self.redirects.len(),
            w.0 >= self.fixed ==> self.redirects[w.0 - self.fixed] is Some,
        ensures
            r == (if w.0 < self.fixed {
                w
            } else {
                self.redirects[w.0 - self.fixed]->0
            }),
    {
        if w.0 < self.fixed {
            w
        } else {
            match self.redirects[w.0 - self.fixed] {
                Some(r) => r,
                None => w,
            }
        }
    }

    /// What holds of the gates after a pass that dropped none: each gate
    /// has representatives for wires, the input with the larger index
    /// first, the second the constant TRUE only where the first is; a gate
    /// that has its two inputs in common with an earlier gate, or reads
    /// constants only, or the constant FALSE, writes a fixed wire; and a wire
    /// that is not fixed has a count above zero exactly when a gate reads
    /// it, as every such output does.
    pub open spec fn minimal(&self) -> bool {
        &&& forall|i: int|
            0 <= i < self.nands.len() ==> {
                let g = #[trigger] self.nands[i];
                &&& g.0.0 >= g.1.0
                &&& is_root(self.redirects@, self.fixed as nat, g.0.0 as nat)
                &&& is_root(self.redirects@, self.fixed as nat, g.1.0 as nat)
                &&& is_root(self.redirects@, self.fixed as nat, g.2.0 as nat)
                &&& g.1.0 == 1 ==> g.0.0 == 1
                &&& g.1.0 == 0 || g.0.0 == 1 ==> g.2.0 < self.fixed
                &&& g.2.0 >= self.fixed ==> self.references[g.2.0 as int] > 0
            }
        &&& forall|i: int, j: int|
            0 <= i < j < self.nands.len() && (#[trigger] self.nands[i]).0 == (
            #[trigger] self.nands[j]).0 && self.nands[i].1 == self.nands[j].1
                ==> self.nands[j].2.0 < self.fixed
        &&& forall|w: int|
            self.fixed <= w < self.references.len() ==> ((#[trigger] self.references[w]) > 0
                <==> has_reader(self.nands@, w))
    }

    /// A pass that dropped no gate leaves the gates minimal.
    pub proof fn lemma_minimal(&self, start: &Optimizer, table: Map<(usize, usize), usize>)
        requires
            self.wf(),
            start.wf(),
            self.fixed == start.fixed,
            self.references == start.references,
            self.redirects.len() == start.redirects.len(),
            self.nands.len() == start.nands.len(),
            gates_in_range(start.nands@, start.size()),
            forall|w: nat| #[trigger] self.root_of(w) == start.root_of(w),
            self.settled(table, self.nands@, start.nands@),
            start.counted(start.nands@),
        ensures
            self.minimal(),
    {
        reveal(Optimizer::settled);
        let f = self.fixed as nat;
        let r = self.redirects@;
        assert forall|i: int| 0 <= i < self.nands.len() implies {
            let g = #[trigger] self.nands[i];
            &&& g.0.0 >= g.1.0
            &&& is_root(r, f, g.0.0 as nat)
            &&& is_root(r, f, g.1.0 as nat)
            &&& is_root(r, f, g.2.0 as nat)
            &&& g.1.0 == 1 ==> g.0.0 == 1
            &&& g.1.0 == 0 || g.0.0 == 1 ==> g.2.0 < self.fixed
            &&& g.2.0 >= self.fixed ==> self.references[g.2.0 as int] > 0
        } by {
            let g0 = start.nands[i];
            assert(is_form(self.nands[i], form(r, f, g0)));
            lemma_root_is_root(r, f, g0.0.0 as nat);
            lemma_root_is_root(r, f, g0.1.0 as nat);
            lemma_root_is_root(r, f, g0.2.0 as nat);
        }
        assert forall|w: int| self.fixed <= w < self.references.len() implies ((
        #[trigger] self.references[w]) > 0 <==> has_reader(self.nands@, w)) by {
            assert(start.references[w] > 0 <==> read_by(
                start.nands@,
                start.redirects@,
                f,
                w as nat,
            ));
            if read_by(start.nands@, start.redirects@, f, w as nat) {
                let i = choose|i: int|
                    0 <= i < start.nands.len() && (root(
                        start.redirects@,
                        f,
                        (#[trigger] start.nands@[i]).0.0 as nat,
                    ) == w || root(start.redirects@, f, start.nands@[i].1.0 as nat) == w);
                let g0 = start.nands[i];
                assert(is_form(self.nands[i], form(r, f, g0)));
                assert(self.root_of(g0.0.0 as nat) == start.root_of(g0.0.0 as nat));
                assert(self.root_of(g0.1.0 as nat) == start.root_of(g0.1.0 as nat));
                assert(self.nands@[i].0.0 == w || self.nands@[i].1.0 == w);
            }
            if has_reader(self.nands@, w) {
                let i = choose|i: int|
                    0 <= i < self.nands@.len() && ((#[trigger] self.nands@[i]).0.0 == w
                        || self.nands@[i].1.0 == w);
                let g0 = start.nands[i];
                assert(is_form(self.nands[i], form(r, f, g0)));
                assert(self.root_of(g0.0.0 as nat) == start.root_of(g0.0.0 as nat));
                assert(self.root_of(g0.1.0 as nat) == start.root_of(g0.1.0 as nat));
                assert(start.nands@[i] == g0);
                assert(read_by(start.nands@, start.redirects@, f, w as nat));
            }
        }
    }
}

/// Whether, with the wire `back[y]` of `before` for each wire `y` of
/// `after`, the gates of `after` state nothing new, and every gate of
/// `after` is kept from a gate of `before`, the one at its place in
/// `picks`, with the wire `rep[w]` for each wire `w` of `before`; and
/// whether, where `before` is combinational, one tick leaves on every wire
/// of `after` what it left on the wire of `before` that stands for it, from
/// whatever fresh store, and every wire of `after` that no gate writes
/// stands for a wire that one tick leaves as it was.
pub open spec fn carried(
    before: Seq<Gate>,
    size: nat,
    after: Seq<Gate>,
    fixed: nat,
    back: Seq<usize>,
    picks: Seq<int>,
    rep: Seq<nat>,
) -> bool {
    &&& sound(before, size, after, fixed, back)
    &&& kept_from(before, size, after, fixed, back, picks, rep)
    &&& combinational(before, size) ==> preserved(before, size, after, fixed, back) && rests(
        before,
        size,
        after,
        fixed,
        back,
    )
}

/// Whether every wire of `after` that no gate writes stands for a wire of
/// `before` that one tick leaves as it was, from whatever fresh store.
pub open spec fn rests(
    before: Seq<Gate>,
    size: nat,
    after: Seq<Gate>,
    fixed: nat,
    back: Seq<usize>,
) -> bool {
    forall|y: int|
        0 <= y < back.len() && !written(after, y) ==> inert(
            before,
            size,
            fixed,
            (#[trigger] back[y]) as int,
        )
}

/// Whether `after` is `before` optimized. The inputs and the memo are the
/// same and the store is cut to the wires that are left. The netlist is
/// lean, and its gates and the number of its wires are those that the
/// passes of the optimizer and the renumbering give, as `optimum` states
/// them. For some choice of a wire of `before` for each wire of `after`, in
/// order and the fixed wires being themselves, the gates of `after` state
/// nothing new, and they are gates of `before`, in the order they had
/// there, each wire replaced by a wire that always has its value. Where
/// `before` is combinational, so is `after`, no fixed wire has a writer
/// that had none, and one tick leaves on every wire of `after` what it left
/// on the wire of `before` that was chosen for it, from whatever fresh
/// store. Of a netlist with state, in which sharing gates can change what
/// a tick leaves, no values are promised.
pub open spec fn optimized(before: &Circuit, after: &Circuit) -> bool {
    let fixed = (before.inputs + 2) as nat;
    let size = before.wires.len() as nat;
    &&& after.inputs == before.inputs
    &&& after.memo == before.memo
    &&& after.wf()
    &&& after.closed()
    &&& after.nands.len() <= before.nands.len()
    &&& after.wires.len() <= before.wires.len()
    &&& after.wires@ == before.wires@.take(after.wires.len() as int)
    &&& lean(after.nands@, fixed, after.wires.len() as nat)
    &&& after.nands@ == optimum(fixed, size, before.nands@).0
    &&& after.wires.len() == optimum(fixed, size, before.nands@).1
    &&& exists|back: Seq<usize>, picks: Seq<int>, rep: Seq<nat>|
        back.len() == after.wires.len() && #[trigger] carried(
            before.nands@,
            size,
            after.nands@,
            fixed,
            back,
            picks,
            rep,
        )
    &&& combinational(before.nands@, size) ==> combinational(
        after.nands@,
        after.wires.len() as nat,
    ) && forall|p: int|
        0 <= p < fixed && #[trigger] written(after.nands@, p) ==> written(before.nands@, p)
}

/// Optimizing a combinational netlist changes nothing that can be seen
/// from outside: one tick leaves on every fixed wire what it left before,
/// from whatever fresh store.
pub proof fn lemma_optimized_fixed(before: &Circuit, after: &Circuit, s: Seq<bool>, p: int)
    requires
        optimized(before, after),
        combinational(before.nands@, before.wires.len() as nat),
        s.len() == before.wires.len(),
        fresh(s, before.nands@, (before.inputs + 2) as nat),
        0 <= p < before.inputs + 2,
    ensures
        run(s.take(after.wires.len() as int), after.nands@)[p] == run(s, before.nands@)[p],
{
    let fixed = (before.inputs + 2) as nat;
    let size = before.wires.len() as nat;
    let (back, picks, rep) = choose|back: Seq<usize>, picks: Seq<int>, rep: Seq<nat>|
        back.len() == after.wires.len() && #[trigger] carried(
            before.nands@,
            size,
            after.nands@,
            fixed,
            back,
            picks,
            rep,
        );
    assert(run(s.take(back.len() as int), after.nands@) == pulled(run(s, before.nands@), back));
    assert(back[p] == p);
}

impl Circuit {
    /// Makes the netlist smaller without changing what it states. Gates
    /// with the same inputs are shared and gates with constant inputs
    /// folded, their outputs joined to the wire that has their value,
    /// except that a fixed wire is never joined to another; gates that
    /// nothing reads are dropped; this is repeated until a pass drops no
    /// gate. Then the wires that are left are renumbered and the store is
    /// cut to them. What a tick of a combinational netlist leaves is kept;
    /// in a netlist with state, where a gate reads a wire that it or a
    /// later gate writes, or a wire has two writers, shared gates can
    /// change it.
    pub fn optimize(&mut self)
        requires
            old(self).wf(),
            old(self).closed(),
        ensures
            optimized(old(self), final(self)),
    {
        let fixed = 2 + self.inputs;
        let mut wires: Vec<bool> = Vec::new();
        let mut nands: Vec<Gate> = Vec::new();
        core::mem::swap(&mut self.wires, &mut wires);
        core::mem::swap(&mut self.nands, &mut nands);
        let mut optimizer = Optimizer::new(fixed, wires, nands);
        let ghost origin = optimizer.origin@;
        let ghost size = optimizer.size();
        let ghost comb = combinational(origin, size);
        let ghost mut trail = Seq::new(origin.len(), |i: int| i);
        proof {
            if comb {
                lemma_untouched_staged(&optimizer);
            }
            optimizer.lemma_traced_all(origin);
        }
        proof {
            assert(optimizer.classes() =~= Seq::new(size, |w: int| w as nat)) by {
                assert forall|w: nat| w < size implies #[trigger] optimizer.root_of(w) == w by {
                    lemma_root_untouched(optimizer.redirects@, fixed as nat, w);
                }
            }
        }
        loop
            invariant_except_break
                settle(fixed as nat, Seq::new(size, |w: int| w as nat), origin) == settle(
                    fixed as nat,
                    optimizer.classes(),
                    optimizer.nands@,
                ),
            invariant
                optimizer.wf(),
                optimizer.traced(trail, optimizer.nands@, origin),
                optimizer.fixed == fixed,
                optimizer.origin@ == origin,
                optimizer.size() == size,
                optimizer.wires == old(self).wires,
                optimizer.nands.len() <= origin.len(),
                gates_in_range(optimizer.nands@, size),
                implied(size, origin, optimizer.nands@),
                comb == combinational(origin, size),
                comb ==> optimizer.staged(optimizer.nands@, optimizer.pos@),
            ensures
                optimizer.minimal(),
                settle(fixed as nat, Seq::new(size, |w: int| w as nat), origin) == (
                    optimizer.classes(),
                    optimizer.references@,
                    optimizer.nands@,
                ),
            decreases optimizer.nands.len(),
        {
            let ghost last = optimizer;
            let changed = optimizer.deduplicate_nands();
            proof {
                let picks = choose|picks: Seq<int>| #[trigger]
                    optimizer.traced(picks, optimizer.nands@, last.nands@);
                let first = trail;
                optimizer.lemma_traced_coarser(&last, first, last.nands@, origin);
                optimizer.lemma_traced_twice(first, last.nands@, origin, picks, optimizer.nands@);
                trail = Seq::new(picks.len(), |i: int| first[picks[i]]);
            }
            if !changed {
                break;
            }
        }
        let ghost before = optimizer.nands@;
        let ghost counts = optimizer.references@;
        let ghost settled = optimizer;
        let back = optimizer.thin_state();
        core::mem::swap(&mut self.wires, &mut optimizer.wires);
        core::mem::swap(&mut self.nands, &mut optimizer.nands);
        proof {
            lemma_renumbered_sound(origin, before, size, self.nands@, fixed as nat, back@);
            lemma_renumbered_lean(before, size, self.nands@, fixed as nat, back@, counts);
            assert(self.closed());
            if comb {
                assert(tidy(origin, size, self.nands@, fixed as nat, back@));
                lemma_tidy_preserved(origin, size, self.nands@, fixed as nat, back@);
                assert(rests(origin, size, self.nands@, fixed as nat, back@));
            }
            lemma_kept_from(&settled, self.nands@, back@, trail);
            lemma_lists(&settled, self.nands@, back@);
            lemma_slim(
                fixed as nat,
                settled.classes(),
                settled.references@,
                size,
                back@,
                before,
                self.nands@,
            );
            let rep = Seq::new(size, |w: int| settled.root_of(w as nat));
            let witness = back@;
            let before_size = old(self).wires.len() as nat;
            let before_fixed = (old(self).inputs + 2) as nat;
            assert(before_size == size);
            assert(before_fixed == fixed as nat);
            assert(witness.len() == self.wires.len() && sound(
                old(self).nands@,
                before_size,
                self.nands@,
                before_fixed,
                witness,
            ));
            assert(carried(
                old(self).nands@,
                before_size,
                self.nands@,
                before_fixed,
                witness,
                trail,
                rep,
            ));
        }
    }
}

} // verus!
