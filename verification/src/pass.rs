//! One pass of the optimizer as a function. The state of a pass is the
//! representative of every wire, the count of every wire, the table of the
//! inputs seen, and the gates kept so far; a pass takes the gates one after
//! the other, first to last.

use vstd::prelude::*;
use crate::circuit::{gate_in_range, gates_in_range, Gate};
use crate::classes::{capped, is_root, lemma_root_is_root, reads_of, root};
use crate::optimize::{form, is_form, joined, renumbered, Optimizer};
use crate::wire::Wire;

verus! {

/// The state of a pass: representatives, counts, table, gates kept.
pub type Scan = (Seq<nat>, Seq<usize>, Map<(usize, usize), usize>, Seq<Gate>);

/// How many inputs of the gates have the wire `w` for representative.
pub open spec fn reads_at(gates: Seq<Gate>, rep: Seq<nat>, w: nat) -> nat
    decreases gates.len(),
{
    if gates.len() == 0 {
        0
    } else {
        let g = gates.last();
        reads_at(gates.drop_last(), rep, w) + (if rep[g.0.0 as int] == w {
            1nat
        } else {
            0nat
        }) + (if rep[g.1.0 as int] == w {
            1nat
        } else {
            0nat
        })
    }
}

/// The counts that a pass starts with: one for a fixed wire, and one more
/// for each input of the gates that has the wire for representative;
/// numbers that do not fit are kept as the largest that does.
pub open spec fn tally(gates: Seq<Gate>, rep: Seq<nat>, fixed: nat) -> Seq<usize> {
    Seq::new(
        rep.len(),
        |w: int|
            capped(
                ((if w < fixed {
                    1nat
                } else {
                    0nat
                }) + reads_at(gates, rep, w as nat)) as nat,
            ),
    )
}

/// The state that a pass over `gates` starts with.
pub open spec fn outset(gates: Seq<Gate>, rep: Seq<nat>, fixed: nat) -> Scan {
    (rep, tally(gates, rep, fixed), Map::empty(), Seq::empty())
}

/// The representatives, the counts and the gates after as many passes as
/// it takes until one drops no gate.
pub open spec fn settle(fixed: nat, rep: Seq<nat>, gates: Seq<Gate>) -> (
    Seq<nat>,
    Seq<usize>,
    Seq<Gate>,
)
    decreases gates.len(),
{
    let end = scan(fixed, outset(gates, rep, fixed), gates, gates.len() as int);
    if end.3.len() < gates.len() {
        settle(fixed, end.0, end.3)
    } else {
        (end.0, end.1, end.3)
    }
}

/// Counting by representatives is counting by classes.
pub proof fn lemma_reads_at(
    gates: Seq<Gate>,
    redirects: Seq<Option<Wire>>,
    fixed: nat,
    rep: Seq<nat>,
    w: nat,
)
    requires
        gates_in_range(gates, rep.len()),
        forall|x: int| 0 <= x < rep.len() ==> (#[trigger] rep[x]) == root(redirects, fixed, x as nat),
    ensures
        reads_of(gates, redirects, fixed, w) == reads_at(gates, rep, w),
    decreases gates.len(),
{
    if gates.len() > 0 {
        let shorter = gates.drop_last();
        assert forall|i: int| 0 <= i < shorter.len() implies gate_in_range(
            #[trigger] shorter[i],
            rep.len(),
        ) by {
            assert(shorter[i] == gates[i]);
        }
        lemma_reads_at(shorter, redirects, fixed, rep, w);
        let g = gates.last();
        assert(gates[gates.len() - 1] == g);
        assert(gate_in_range(g, rep.len()));
    }
}

/// A gate with each wire replaced by its representative, the input with
/// the larger index first, and a constant TRUE beside another input
/// replaced by that input.
pub open spec fn shaped(rep: Seq<nat>, g: Gate) -> Gate {
    let a = rep[g.0.0 as int];
    let b = rep[g.1.0 as int];
    let hi = if a < b { b } else { a };
    let lo = if a < b { a } else { b };
    let o = rep[g.2.0 as int];
    if lo == 1 && hi != 1 {
        (Wire(hi as usize), Wire(hi as usize), Wire(o as usize))
    } else {
        (Wire(hi as usize), Wire(lo as usize), Wire(o as usize))
    }
}

/// The wire that already has the value of a gate in its form: the
/// constant TRUE where an input is the constant FALSE, the constant FALSE
/// where both are TRUE, else the representative of the entry of the table
/// under the inputs, if there is one.
pub open spec fn aim(rep: Seq<nat>, table: Map<(usize, usize), usize>, r: Gate) -> Option<nat> {
    if r.1.0 == 0 {
        Some(1nat)
    } else if r.0.0 == 1 {
        Some(0nat)
    } else if table.contains_key((r.0.0, r.1.0)) {
        Some(rep[table[(r.0.0, r.1.0)] as int])
    } else {
        None
    }
}

/// The state after one more gate, which is first brought into its form.
/// Where a wire has its value already, and one of the two is not fixed or
/// they are the same, it is dropped and the class of the wire with the
/// larger index joins that of the other, which takes over its count. Where
/// none has and nothing reads its output, which is not fixed, it is
/// dropped. Else it is kept, and where no wire had its value the table
/// gets its inputs with its output, and the output with the input for a
/// gate that negates.
pub open spec fn scan_one(fixed: nat, st: Scan, g: Gate) -> Scan {
    let r = shaped(st.0, g);
    let val = r.2.0 as nat;
    match aim(st.0, st.2, r) {
        Some(t) => if t == val {
            st
        } else if t >= fixed || val >= fixed {
            let lo = if t < val { t } else { val };
            let hi = if t < val { val } else { t };
            (
                Seq::new(st.0.len(), |w: int| if st.0[w] == hi { lo } else { st.0[w] }),
                joined(st.1, lo as int, hi as int),
                st.2,
                st.3,
            )
        } else {
            (st.0, st.1, st.2, st.3.push(r))
        },
        None => if val >= fixed && st.1[val as int] == 0 {
            st
        } else {
            let first = st.2.insert((r.0.0, r.1.0), r.2.0);
            let second = if r.0.0 == r.1.0 {
                first.insert((r.2.0, r.2.0), r.0.0)
            } else {
                first
            };
            (st.0, st.1, second, st.3.push(r))
        },
    }
}

/// The state after the first `k` gates.
pub open spec fn scan(fixed: nat, start: Scan, gates: Seq<Gate>, k: int) -> Scan
    decreases k,
{
    if k <= 0 {
        start
    } else {
        scan_one(fixed, scan(fixed, start, gates, k - 1), gates[k - 1])
    }
}

/// Whether a wire stays when the store is cut: a fixed wire does, and a
/// wire that is its own representative and is counted.
pub open spec fn stays(fixed: nat, rep: Seq<nat>, counts: Seq<usize>, w: int) -> bool {
    w < fixed || (rep[w] == w && counts[w] > 0)
}

/// How many of the wires before `w` stay: the index that `w` gets where it
/// stays.
pub open spec fn rank(fixed: nat, rep: Seq<nat>, counts: Seq<usize>, w: int) -> int
    decreases w,
{
    if w <= 0 {
        0
    } else {
        rank(fixed, rep, counts, w - 1) + (if stays(fixed, rep, counts, w - 1) {
            1int
        } else {
            0int
        })
    }
}

/// The gates with every wire under the index that it gets.
pub open spec fn slim(fixed: nat, rep: Seq<nat>, counts: Seq<usize>, gates: Seq<Gate>) -> Seq<Gate> {
    Seq::new(
        gates.len(),
        |i: int|
            (
                Wire(rank(fixed, rep, counts, gates[i].0.0 as int) as usize),
                Wire(rank(fixed, rep, counts, gates[i].1.0 as int) as usize),
                Wire(rank(fixed, rep, counts, gates[i].2.0 as int) as usize),
            ),
    )
}

/// Whether `back` lists, in rising order, the wires that stay.
pub open spec fn lists(fixed: nat, rep: Seq<nat>, counts: Seq<usize>, size: nat, back: Seq<usize>) -> bool {
    &&& fixed <= back.len()
    &&& fixed <= size
    &&& forall|y: int| 0 <= y < back.len() ==> (#[trigger] back[y]) < size
    &&& forall|y: int| 0 <= y < fixed ==> (#[trigger] back[y]) == y
    &&& forall|x: int, y: int| 0 <= x < y < back.len() ==> (#[trigger] back[x]) < (#[trigger] back[y])
    &&& forall|y: int| 0 <= y < back.len() ==> stays(fixed, rep, counts, (#[trigger] back[y]) as int)
    &&& forall|w: int|
        0 <= w < size && #[trigger] stays(fixed, rep, counts, w) ==> exists|y: int|
            0 <= y < back.len() && #[trigger] back[y] == w
}

/// In a list of the wires that stay, those before `w` come first, and
/// there are as many of them as the index of `w` says.
pub proof fn lemma_rank_splits(
    fixed: nat,
    rep: Seq<nat>,
    counts: Seq<usize>,
    size: nat,
    back: Seq<usize>,
    w: int,
)
    requires
        lists(fixed, rep, counts, size, back),
        0 <= w <= size,
    ensures
        0 <= rank(fixed, rep, counts, w) <= back.len(),
        forall|y: int| 0 <= y < rank(fixed, rep, counts, w) ==> (#[trigger] back[y]) < w,
        forall|y: int| rank(fixed, rep, counts, w) <= y < back.len() ==> (#[trigger] back[y]) >= w,
    decreases w,
{
    if w > 0 {
        lemma_rank_splits(fixed, rep, counts, size, back, w - 1);
        let r = rank(fixed, rep, counts, w - 1);
        if stays(fixed, rep, counts, w - 1) {
            let y0 = choose|y: int| 0 <= y < back.len() && #[trigger] back[y] == w - 1;
            if y0 < r {
                assert(back[y0] < w - 1);
            }
            if r < y0 {
                assert(back[r] < back[y0]);
                assert(back[r] >= w - 1);
            }
            assert(back[r] == w - 1);
            assert forall|y: int| r + 1 <= y < back.len() implies (#[trigger] back[y]) >= w by {
                assert(back[r] < back[y]);
            }
        } else {
            assert forall|y: int| r <= y < back.len() implies (#[trigger] back[y]) >= w by {
                assert(stays(fixed, rep, counts, back[y] as int));
            }
        }
    }
}

/// In a list of the wires that stay, each stands at its index, and the
/// list is as long as the index of the end says.
pub proof fn lemma_rank_finds(
    fixed: nat,
    rep: Seq<nat>,
    counts: Seq<usize>,
    size: nat,
    back: Seq<usize>,
    y: int,
)
    requires
        lists(fixed, rep, counts, size, back),
        0 <= y < back.len(),
    ensures
        rank(fixed, rep, counts, back[y] as int) == y,
        rank(fixed, rep, counts, size as int) == back.len(),
{
    let v = back[y] as int;
    lemma_rank_splits(fixed, rep, counts, size, back, v);
    lemma_rank_splits(fixed, rep, counts, size, back, v + 1);
    lemma_rank_splits(fixed, rep, counts, size, back, size as int);
    let r = rank(fixed, rep, counts, v);
    assert(stays(fixed, rep, counts, v));
    assert(rank(fixed, rep, counts, v + 1) == r + 1);
    if y < r {
        assert(back[y] < v);
    }
    if y > r {
        assert(back[y] >= v + 1);
    }
    let e = rank(fixed, rep, counts, size as int);
    if e < back.len() {
        assert(back[e] >= size);
    }
}

/// Gates renumbered along a list of the wires that stay are the gates
/// with every wire under its index.
pub proof fn lemma_slim(
    fixed: nat,
    rep: Seq<nat>,
    counts: Seq<usize>,
    size: nat,
    back: Seq<usize>,
    gates: Seq<Gate>,
    after: Seq<Gate>,
)
    requires
        lists(fixed, rep, counts, size, back),
        size <= usize::MAX,
        renumbered(gates, size, after, fixed, back),
    ensures
        after == slim(fixed, rep, counts, gates),
        back.len() == rank(fixed, rep, counts, size as int),
{
    if back.len() > 0 {
        lemma_rank_finds(fixed, rep, counts, size, back, 0);
    } else {
        lemma_rank_splits(fixed, rep, counts, size, back, size as int);
    }
    let want = slim(fixed, rep, counts, gates);
    assert forall|i: int| 0 <= i < after.len() implies after[i] == want[i] by {
        let h = after[i];
        assert(gate_in_range(h, back.len()));
        lemma_rank_finds(fixed, rep, counts, size, back, h.0.0 as int);
        lemma_rank_finds(fixed, rep, counts, size, back, h.1.0 as int);
        lemma_rank_finds(fixed, rep, counts, size, back, h.2.0 as int);
    }
    assert(after =~= want);
}

/// What the optimizer makes of the gates `gates` over `size` wires of
/// which `fixed` are fixed: the gates that are left after the passes, with
/// every wire under the index that it gets, and the number of the wires
/// that stay.
pub open spec fn optimum(fixed: nat, size: nat, gates: Seq<Gate>) -> (Seq<Gate>, int) {
    let end = settle(fixed, Seq::new(size, |w: int| w as nat), gates);
    (slim(fixed, end.0, end.1, end.2), rank(fixed, end.0, end.1, size as int))
}

/// The wires that the renumbering has kept are the wires that stay, in
/// rising order.
pub proof fn lemma_lists(o: &Optimizer, after: Seq<Gate>, back: Seq<usize>)
    requires
        o.wf(),
        renumbered(o.nands@, o.size(), after, o.fixed as nat, back),
        forall|y: int|
            o.fixed <= y < back.len() ==> o.references[(#[trigger] back[y]) as int] > 0 && is_root(
                o.redirects@,
                o.fixed as nat,
                back[y] as nat,
            ),
        forall|w: int|
            o.fixed <= w < o.size() && is_root(o.redirects@, o.fixed as nat, w as nat) && (
            #[trigger] o.references[w]) > 0 ==> exists|y: int|
                o.fixed <= y < back.len() && #[trigger] back[y] == w,
    ensures
        lists(o.fixed as nat, o.classes(), o.references@, o.size(), back),
{
    let f = o.fixed as nat;
    let rep = o.classes();
    let counts = o.references@;
    assert forall|y: int| 0 <= y < back.len() implies stays(
        f,
        rep,
        counts,
        (#[trigger] back[y]) as int,
    ) by {
        if y >= f {
            lemma_root_is_root(o.redirects@, f, back[y] as nat);
        }
    }
    assert forall|w: int| 0 <= w < o.size() && #[trigger] stays(f, rep, counts, w) implies exists|
        y: int,
    |
        0 <= y < back.len() && #[trigger] back[y] == w by {
        if w < f {
            assert(back[w] == w);
        } else {
            lemma_root_is_root(o.redirects@, f, w as nat);
            assert(is_root(o.redirects@, f, w as nat));
            assert(o.references[w] > 0);
            let y = choose|y: int| o.fixed <= y < back.len() && #[trigger] back[y] == w;
            assert(back[y] == w);
        }
    }
}

impl Optimizer {
    /// The representative of every wire.
    pub open spec fn classes(&self) -> Seq<nat> {
        Seq::new(self.size(), |w: int| self.root_of(w as nat))
    }

    /// Whether the optimizer, the table and the gates kept are the state
    /// of a pass from `start` after the first `k` of `gates`.
    #[verifier::opaque]
    pub open spec fn passed(
        &self,
        table: Map<(usize, usize), usize>,
        kept: Seq<Gate>,
        start: Scan,
        gates: Seq<Gate>,
        k: int,
    ) -> bool {
        (self.classes(), self.references@, table, kept) == scan(
            self.fixed as nat,
            start,
            gates,
            k,
        )
    }

    /// Counts that were tallied afresh, with the representatives, are the
    /// state that a pass starts with.
    pub proof fn lemma_outset(&self, other: &Optimizer, gates: Seq<Gate>)
        requires
            self.tallied(gates),
            self.wf(),
            gates_in_range(gates, self.size()),
            self.fixed == other.fixed,
            self.redirects.len() == other.redirects.len(),
            forall|w: nat| #[trigger] self.root_of(w) == other.root_of(w),
        ensures
            outset(gates, other.classes(), other.fixed as nat) == (
                self.classes(),
                self.references@,
                Map::<(usize, usize), usize>::empty(),
                Seq::<Gate>::empty(),
            ),
    {
        let f = self.fixed as nat;
        let rep = self.classes();
        assert(rep =~= other.classes());
        assert forall|w: int| 0 <= w < self.size() implies self.references@[w] == tally(
            gates,
            rep,
            f,
        )[w] by {
            lemma_reads_at(gates, self.redirects@, f, rep, w as nat);
        }
        assert(self.references@ =~= tally(gates, rep, f));
    }

    /// What the state of a pass says.
    pub proof fn lemma_passed_all(
        &self,
        table: Map<(usize, usize), usize>,
        kept: Seq<Gate>,
        start: Scan,
        gates: Seq<Gate>,
        k: int,
    )
        requires
            self.passed(table, kept, start, gates, k),
        ensures
            (self.classes(), self.references@, table, kept) == scan(
                self.fixed as nat,
                start,
                gates,
                k,
            ),
    {
        reveal(Optimizer::passed);
    }

    /// A pass starts at its start.
    pub proof fn lemma_passed_none(&self, start: Scan, gates: Seq<Gate>)
        requires
            start == (
                self.classes(),
                self.references@,
                Map::<(usize, usize), usize>::empty(),
                Seq::<Gate>::empty(),
            ),
        ensures
            self.passed(Map::empty(), Seq::empty(), start, gates, 0),
    {
        reveal(Optimizer::passed);
    }

    /// Redirects that keep every representative, with the counts, keep the
    /// state of a pass.
    pub proof fn lemma_passed_same(
        &self,
        other: &Optimizer,
        table: Map<(usize, usize), usize>,
        kept: Seq<Gate>,
        start: Scan,
        gates: Seq<Gate>,
        k: int,
    )
        requires
            other.passed(table, kept, start, gates, k),
            self.fixed == other.fixed,
            self.redirects.len() == other.redirects.len(),
            self.references@ == other.references@,
            forall|w: nat| #[trigger] self.root_of(w) == other.root_of(w),
        ensures
            self.passed(table, kept, start, gates, k),
    {
        reveal(Optimizer::passed);
        assert(self.classes() =~= other.classes());
    }

    /// The form of a gate as the optimizer finds it is its form over the
    /// representatives.
    pub proof fn lemma_shaped(&self, g: Gate, r: Gate)
        requires
            self.wf(),
            gate_in_range(g, self.size()),
            is_form(r, form(self.redirects@, self.fixed as nat, g)),
        ensures
            r == shaped(self.classes(), g),
            gate_in_range(r, self.size()),
    {
        let f = self.fixed as nat;
        lemma_root_is_root(self.redirects@, f, g.0.0 as nat);
        lemma_root_is_root(self.redirects@, f, g.1.0 as nat);
        lemma_root_is_root(self.redirects@, f, g.2.0 as nat);
        let s = shaped(self.classes(), g);
        assert(r.0.0 == s.0.0 && r.1.0 == s.1.0 && r.2.0 == s.2.0);
    }

    /// A gate that is dropped without a change of the classes takes the
    /// pass one gate on: a wire of its own class has its value, or none has
    /// and nothing reads its output, which is not fixed.
    pub proof fn lemma_passed_skip(
        &self,
        table: Map<(usize, usize), usize>,
        kept: Seq<Gate>,
        start: Scan,
        gates: Seq<Gate>,
        k: int,
        r: Gate,
    )
        requires
            self.wf(),
            self.passed(table, kept, start, gates, k),
            0 <= k < gates.len(),
            r == shaped(self.classes(), gates[k]),
            gate_in_range(r, self.size()),
            aim(self.classes(), table, r) == Some(r.2.0 as nat) || (aim(self.classes(), table, r)
                is None && r.2.0 >= self.fixed && self.references[r.2.0 as int] == 0),
        ensures
            self.passed(table, kept, start, gates, k + 1),
    {
        reveal(Optimizer::passed);
    }

    /// A gate that is dropped with its class joined to another takes the
    /// pass one gate on.
    pub proof fn lemma_passed_join(
        &self,
        other: &Optimizer,
        table: Map<(usize, usize), usize>,
        kept: Seq<Gate>,
        start: Scan,
        gates: Seq<Gate>,
        k: int,
        r: Gate,
        t: nat,
    )
        requires
            other.wf(),
            other.passed(table, kept, start, gates, k),
            0 <= k < gates.len(),
            r == shaped(other.classes(), gates[k]),
            aim(other.classes(), table, r) == Some(t),
            t != r.2.0,
            t >= other.fixed || r.2.0 >= other.fixed,
            self.fixed == other.fixed,
            self.redirects.len() == other.redirects.len(),
            self.references@ == joined(
                other.references@,
                (if t < r.2.0 { t } else { r.2.0 as nat }) as int,
                (if t < r.2.0 { r.2.0 as nat } else { t }) as int,
            ),
            forall|w: nat| #[trigger]
                self.root_of(w) == if other.root_of(w) == (if t < r.2.0 {
                    r.2.0 as nat
                } else {
                    t
                }) {
                    if t < r.2.0 {
                        t
                    } else {
                        r.2.0 as nat
                    }
                } else {
                    other.root_of(w)
                },
        ensures
            self.passed(table, kept, start, gates, k + 1),
    {
        reveal(Optimizer::passed);
        let st = scan(other.fixed as nat, start, gates, k);
        let lo = if t < r.2.0 { t } else { r.2.0 as nat };
        let hi = if t < r.2.0 { r.2.0 as nat } else { t };
        assert(self.classes() =~= Seq::new(
            st.0.len(),
            |w: int| if st.0[w] == hi { lo } else { st.0[w] },
        ));
    }

    /// A gate that is kept takes the pass one gate on: two fixed wires have
    /// its value and the table stays, or none had and the table gets it.
    pub proof fn lemma_passed_keep(
        &self,
        before: Map<(usize, usize), usize>,
        after: Map<(usize, usize), usize>,
        kept: Seq<Gate>,
        start: Scan,
        gates: Seq<Gate>,
        k: int,
        r: Gate,
    )
        requires
            self.wf(),
            self.passed(before, kept, start, gates, k),
            0 <= k < gates.len(),
            r == shaped(self.classes(), gates[k]),
            gate_in_range(r, self.size()),
            match aim(self.classes(), before, r) {
                Some(t) => t != r.2.0 && t < self.fixed && r.2.0 < self.fixed && after == before,
                None => !(r.2.0 >= self.fixed && self.references[r.2.0 as int] == 0) && after == (
                if r.0.0 == r.1.0 {
                    before.insert((r.0.0, r.1.0), r.2.0).insert((r.2.0, r.2.0), r.0.0)
                } else {
                    before.insert((r.0.0, r.1.0), r.2.0)
                }),
            },
        ensures
            self.passed(after, kept.push(r), start, gates, k + 1),
    {
        reveal(Optimizer::passed);
    }
}

} // verus!
