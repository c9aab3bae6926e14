//! What the optimizer keeps of the order of a combinational netlist: each
//! class of wires has at most one gate that writes it, every gate reads
//! classes that were written before it, and a class that no gate writes
//! keeps the value that the store had.

use vstd::prelude::*;
use crate::circuit::{gate_in_range, gates_in_range, run, Gate};
use crate::combinational::{
    combinational, fresh, has_reader, lemma_run_determined, lemma_run_keeps, lemma_run_solves,
    solves, written,
};
use crate::classes::{descending, is_root, lemma_root_is_root, read_by, root};
use crate::optimize::{
    always_equal, joined, pulled, renumbered, sound, Optimizer,
};
use crate::wire::Wire;

verus! {

/// Whether one tick from any fresh store leaves the wire `r` as it was.
pub open spec fn inert(origin: Seq<Gate>, size: nat, fixed: nat, r: int) -> bool {
    forall|s: Seq<bool>|
        s.len() == size && #[trigger] fresh(s, origin, fixed) ==> run(s, origin)[r] == s[r]
}

/// A wire that no gate writes is left as it was.
pub proof fn lemma_inert_unwritten(origin: Seq<Gate>, size: nat, fixed: nat, r: int)
    requires
        gates_in_range(origin, size),
        0 <= r < size,
        !written(origin, r),
    ensures
        inert(origin, size, fixed, r),
{
    assert forall|s: Seq<bool>| s.len() == size && #[trigger] fresh(s, origin, fixed) implies run(
        s,
        origin,
    )[r] == s[r] by {
        lemma_run_keeps(s, origin);
    }
}

/// A wire that starts as FALSE and always equals a wire that is left FALSE
/// is left as it was.
pub proof fn lemma_inert_joined(origin: Seq<Gate>, size: nat, fixed: nat, x: int, e: int)
    requires
        combinational(origin, size),
        always_equal(size, origin, e as nat, x as nat),
        inert(origin, size, fixed, e),
        2 <= fixed <= e < size,
        2 <= x < size,
        x >= fixed || written(origin, x),
    ensures
        inert(origin, size, fixed, x),
{
    assert forall|s: Seq<bool>| s.len() == size && #[trigger] fresh(s, origin, fixed) implies run(
        s,
        origin,
    )[x] == s[x] by {
        lemma_run_solves(s, origin);
        let v = run(s, origin);
        assert(solves(v, size, origin));
        assert(v[e] == v[x]);
        assert(v[e] == s[e]);
        assert(!s[e]);
        assert(!s[x]);
    }
}

impl Optimizer {
    /// Whether `g`, which stems from the place `p`, writes the
    /// class stamped `p` and reads classes that are written before `p`, or
    /// by no gate, and that were not dropped.
    pub open spec fn timely(&self, g: Gate, p: int) -> bool {
        &&& 0 <= p < self.origin@.len()
        &&& self.stamp@[self.root_of(g.2.0 as nat) as int] == p
        &&& -1 <= self.stamp@[self.root_of(g.0.0 as nat) as int] < p
        &&& -1 <= self.stamp@[self.root_of(g.1.0 as nat) as int] < p
    }

    /// Whether some gate of `cur` writes the class of `r`.
    pub open spec fn writes(&self, cur: Seq<Gate>, r: int) -> bool {
        exists|i: int| 0 <= i < cur.len() && self.root_of((#[trigger] cur[i]).2.0 as nat) == r
    }

    /// Whether the gates `cur`, which stem from the gates at the places
    /// `cp`, are in the order of those places and timely; the stamps say
    /// which classes they write; a fixed wire with a gate that writes it was
    /// written from the start; and a class that no gate writes is left as
    /// it was.
    pub open spec fn staged(&self, cur: Seq<Gate>, cp: Seq<int>) -> bool {
        let n = self.size();
        &&& self.stamp@.len() == n
        &&& cp.len() == cur.len()
        &&& self.fixed >= 2
        &&& forall|i: int| 0 <= i < cur.len() ==> self.timely(#[trigger] cur[i], cp[i])
        &&& forall|i: int, j: int| 0 <= i < j < cp.len() ==> (#[trigger] cp[i]) < (#[trigger] cp[j])
        &&& forall|r: int| 0 <= r < n ==> -2 <= (#[trigger] self.stamp@[r]) < self.origin@.len()
        &&& self.stamp@[0] == -1
        &&& self.stamp@[1] == -1
        &&& forall|r: int|
            0 <= r < self.fixed ==> (#[trigger] self.stamp@[r]) >= -1 && (self.stamp@[r] >= 0
                ==> written(self.origin@, r))
        &&& forall|r: int|
            0 <= r < n && is_root(self.redirects@, self.fixed as nat, r as nat) && (
            #[trigger] self.stamp@[r]) == -1 ==> inert(self.origin@, n, self.fixed as nat, r)
        &&& forall|r: int|
            0 <= r < n && is_root(self.redirects@, self.fixed as nat, r as nat) && (
            #[trigger] self.stamp@[r]) >= 0 ==> self.writes(cur, r)
    }

    /// Whether a representative with the count zero is not fixed and has no
    /// reader among the gates `cur`.
    pub open spec fn watched(&self, cur: Seq<Gate>) -> bool {
        forall|r: int|
            0 <= r < self.references.len() && is_root(self.redirects@, self.fixed as nat, r as nat)
                && (#[trigger] self.references[r]) == 0 ==> r >= self.fixed && !read_by(
                cur,
                self.redirects@,
                self.fixed as nat,
                r as nat,
            )
    }

    /// Whether every entry of the table is a wire of a class that was not
    /// dropped and that is written before each of the gates from `from` on.
    pub open spec fn table_timed(
        &self,
        table: Map<(usize, usize), usize>,
        cp: Seq<int>,
        from: int,
    ) -> bool {
        forall|key: (usize, usize)| #[trigger]
            table.contains_key(key) ==> {
                let e = self.root_of(table[key] as nat) as int;
                &&& -1 <= self.stamp@[e]
                &&& forall|j: int| from <= j < cp.len() ==> self.stamp@[e] < #[trigger] cp[j]
            }
    }

    /// Redirects that keep every representative keep the order.
    pub proof fn lemma_staged_same(&self, other: &Optimizer, cur: Seq<Gate>, cp: Seq<int>)
        requires
            other.staged(cur, cp),
            self.fixed == other.fixed,
            self.origin == other.origin,
            self.stamp == other.stamp,
            self.redirects.len() == other.redirects.len(),
            forall|i: int|
                0 <= i < self.redirects.len() ==> ((#[trigger] self.redirects[i]) is None
                    <==> other.redirects[i] is None),
            forall|w: nat| #[trigger] self.root_of(w) == other.root_of(w),
        ensures
            self.staged(cur, cp),
    {
        let n = self.size();
        let f = self.fixed as nat;
        assert forall|i: int| 0 <= i < cur.len() implies self.timely(#[trigger] cur[i], cp[i]) by {
            let g = cur[i];
            assert(other.timely(g, cp[i]));
            assert(self.root_of(g.0.0 as nat) == other.root_of(g.0.0 as nat));
            assert(self.root_of(g.1.0 as nat) == other.root_of(g.1.0 as nat));
            assert(self.root_of(g.2.0 as nat) == other.root_of(g.2.0 as nat));
        }
        assert forall|r: int|
            0 <= r < n && is_root(self.redirects@, f, r as nat) && (#[trigger] self.stamp@[r])
                == -1 implies inert(self.origin@, n, f, r) by {
            assert(is_root(other.redirects@, f, r as nat));
        }
        assert forall|r: int|
            0 <= r < n && is_root(self.redirects@, f, r as nat) && (#[trigger] self.stamp@[r])
                >= 0 implies self.writes(cur, r) by {
            assert(is_root(other.redirects@, f, r as nat));
            assert(other.writes(cur, r));
            let i = choose|i: int|
                0 <= i < cur.len() && other.root_of((#[trigger] cur[i]).2.0 as nat) == r;
            assert(self.root_of(cur[i].2.0 as nat) == other.root_of(cur[i].2.0 as nat));
        }
    }

    /// Redirects that keep every representative keep the watch.
    pub proof fn lemma_watched_same(&self, other: &Optimizer, cur: Seq<Gate>)
        requires
            other.watched(cur),
            self.fixed == other.fixed,
            self.references == other.references,
            self.redirects.len() == other.redirects.len(),
            forall|i: int|
                0 <= i < self.redirects.len() ==> ((#[trigger] self.redirects[i]) is None
                    <==> other.redirects[i] is None),
            forall|w: nat| #[trigger] self.root_of(w) == other.root_of(w),
        ensures
            self.watched(cur),
    {
        let f = self.fixed as nat;
        assert forall|r: int|
            0 <= r < self.references.len() && is_root(self.redirects@, f, r as nat) && (
            #[trigger] self.references[r]) == 0 implies r >= self.fixed && !read_by(
            cur,
            self.redirects@,
            f,
            r as nat,
        ) by {
            assert(is_root(other.redirects@, f, r as nat));
            if read_by(cur, self.redirects@, f, r as nat) {
                let k = choose|k: int|
                    0 <= k < cur.len() && (root(self.redirects@, f, (#[trigger] cur[k]).0.0 as nat)
                        == r || root(self.redirects@, f, cur[k].1.0 as nat) == r);
                assert(self.root_of(cur[k].0.0 as nat) == other.root_of(cur[k].0.0 as nat));
                assert(self.root_of(cur[k].1.0 as nat) == other.root_of(cur[k].1.0 as nat));
                assert(read_by(cur, other.redirects@, f, r as nat));
            }
        }
    }

    /// Redirects that keep every representative keep the table in time.
    pub proof fn lemma_table_same(
        &self,
        other: &Optimizer,
        table: Map<(usize, usize), usize>,
        cp: Seq<int>,
        from: int,
    )
        requires
            other.table_timed(table, cp, from),
            self.stamp == other.stamp,
            forall|w: nat| #[trigger] self.root_of(w) == other.root_of(w),
        ensures
            self.table_timed(table, cp, from),
    {
        assert forall|key: (usize, usize)| #[trigger] table.contains_key(key) implies {
            let e = self.root_of(table[key] as nat) as int;
            &&& -1 <= self.stamp@[e]
            &&& forall|j: int| from <= j < cp.len() ==> self.stamp@[e] < #[trigger] cp[j]
        } by {
            assert(self.root_of(table[key] as nat) == other.root_of(table[key] as nat));
        }
    }

    /// A gate replaced by one that writes the same class and reads classes
    /// that it read keeps the order and the watch.
    pub proof fn lemma_staged_rewrite(&self, cur: Seq<Gate>, cp: Seq<int>, i: int, g: Gate)
        requires
            self.staged(cur, cp),
            self.watched(cur),
            0 <= i < cur.len(),
            self.root_of(g.2.0 as nat) == self.root_of(cur[i].2.0 as nat),
            self.root_of(g.0.0 as nat) == self.root_of(cur[i].0.0 as nat) || self.root_of(
                g.0.0 as nat,
            ) == self.root_of(cur[i].1.0 as nat),
            self.root_of(g.1.0 as nat) == self.root_of(cur[i].0.0 as nat) || self.root_of(
                g.1.0 as nat,
            ) == self.root_of(cur[i].1.0 as nat),
        ensures
            self.staged(cur.update(i, g), cp),
            self.watched(cur.update(i, g)),
    {
        let n = self.size();
        let f = self.fixed as nat;
        let next = cur.update(i, g);
        assert(self.timely(cur[i], cp[i]));
        assert forall|j: int| 0 <= j < next.len() implies self.timely(#[trigger] next[j], cp[j]) by {
            if j != i {
                assert(next[j] == cur[j]);
                assert(self.timely(cur[j], cp[j]));
            }
        }
        assert forall|r: int|
            0 <= r < n && is_root(self.redirects@, f, r as nat) && (#[trigger] self.stamp@[r])
                >= 0 implies self.writes(next, r) by {
            assert(self.writes(cur, r));
            let j = choose|j: int|
                0 <= j < cur.len() && self.root_of((#[trigger] cur[j]).2.0 as nat) == r;
            if j != i {
                assert(next[j] == cur[j]);
            } else {
                assert(next[j] == g);
            }
        }
        assert forall|r: int|
            0 <= r < self.references.len() && is_root(self.redirects@, f, r as nat) && (
            #[trigger] self.references[r]) == 0 implies r >= self.fixed && !read_by(
            next,
            self.redirects@,
            f,
            r as nat,
        ) by {
            if read_by(next, self.redirects@, f, r as nat) {
                let k = choose|k: int|
                    0 <= k < next.len() && (root(
                        self.redirects@,
                        f,
                        (#[trigger] next[k]).0.0 as nat,
                    ) == r || root(self.redirects@, f, next[k].1.0 as nat) == r);
                if k != i {
                    assert(next[k] == cur[k]);
                } else {
                    assert(next[k] == g);
                    assert(root(self.redirects@, f, cur[i].0.0 as nat) == r || root(
                        self.redirects@,
                        f,
                        cur[i].1.0 as nat,
                    ) == r);
                }
                assert(read_by(cur, self.redirects@, f, r as nat));
            }
        }
    }

    /// Dropping a gate whose class is joined to a class that was written
    /// before it keeps the order and the watch.
    #[verifier::rlimit(100)]
    pub proof fn lemma_staged_merge(
        &self,
        old: &Optimizer,
        cur: Seq<Gate>,
        cp: Seq<int>,
        i: int,
        t: int,
        x: int,
        lo: Wire,
        hi: int,
    )
        requires
            combinational(old.origin@, old.size()),
            descending(old.redirects@, old.fixed as nat),
            old.references.len() == old.size(),
            gates_in_range(cur, old.size()),
            old.staged(cur, cp),
            old.watched(cur),
            0 <= i < cur.len(),
            x == old.root_of(cur[i].2.0 as nat),
            0 <= t < old.size(),
            is_root(old.redirects@, old.fixed as nat, t as nat),
            -1 <= old.stamp@[t] < cp[i],
            lo.0 == (if t < x { t } else { x }),
            hi == (if t < x { x } else { t }),
            hi >= old.fixed,
            always_equal(old.size(), old.origin@, t as nat, x as nat),
            self.fixed == old.fixed,
            self.origin == old.origin,
            self.redirects@ == old.redirects@.update(hi - old.fixed, Some(lo)),
            forall|w: nat| #[trigger]
                self.root_of(w) == (if old.root_of(w) == hi {
                    lo.0 as nat
                } else {
                    old.root_of(w)
                }),
            self.stamp@ == old.stamp@.update(lo.0 as int, old.stamp@[t]),
            self.references@ == joined(old.references@, lo.0 as int, hi),
        ensures
            self.staged(cur.remove(i), cp.remove(i)),
            self.watched(cur.remove(i)),
    {
        let n = old.size();
        let f = old.fixed as nat;
        let next = cur.remove(i);
        let np = cp.remove(i);
        let l = lo.0 as int;
        let st = old.stamp@[t];
        lemma_root_is_root(old.redirects@, f, cur[i].2.0 as nat);
        assert(gate_in_range(cur[i], n));
        assert(old.timely(cur[i], cp[i]));
        assert(old.stamp@[x] == cp[i]);
        assert(t != x);
        assert(0 <= l < hi < n);
        assert forall|r: int| 0 <= r < n && r != hi implies (#[trigger] is_root(
            self.redirects@,
            f,
            r as nat,
        ) <==> is_root(old.redirects@, f, r as nat)) by {
            if r >= f {
                assert(self.redirects@[r - f] == old.redirects@[r - f]);
            }
        }
        assert(!is_root(self.redirects@, f, hi as nat));
        // The gates that are left are timely.
        assert forall|j: int| 0 <= j < next.len() implies self.timely(#[trigger] next[j], np[j]) by {
            let jj = if j < i { j } else { j + 1 };
            let g = cur[jj];
            assert(next[j] == g);
            assert(np[j] == cp[jj]);
            assert(old.timely(g, cp[jj]));
            assert(cp[jj] != cp[i]) by {
                if jj < i {
                    assert(cp[jj] < cp[i]);
                } else {
                    assert(cp[i] < cp[jj]);
                }
            }
            assert(gate_in_range(g, n));
            lemma_root_is_root(old.redirects@, f, g.0.0 as nat);
            lemma_root_is_root(old.redirects@, f, g.1.0 as nat);
            lemma_root_is_root(old.redirects@, f, g.2.0 as nat);
            let ro = old.root_of(g.2.0 as nat) as int;
            let ra = old.root_of(g.0.0 as nat) as int;
            let rb = old.root_of(g.1.0 as nat) as int;
            assert(self.root_of(g.2.0 as nat) == (if ro == hi { l } else { ro }));
            assert(self.root_of(g.0.0 as nat) == (if ra == hi { l } else { ra }));
            assert(self.root_of(g.1.0 as nat) == (if rb == hi { l } else { rb }));
            assert(ro != x);
            assert(old.stamp@[ro] == cp[jj]);
            assert(-1 <= old.stamp@[ra] < cp[jj]);
            assert(-1 <= old.stamp@[rb] < cp[jj]);
            if jj < i {
                assert(cp[jj] < cp[i]);
                assert(ra != x && rb != x);
            } else {
                assert(cp[i] < cp[jj]);
            }
        }
        assert forall|a: int, b: int| 0 <= a < b < np.len() implies (#[trigger] np[a]) < (
        #[trigger] np[b]) by {
            let aa = if a < i { a } else { a + 1 };
            let bb = if b < i { b } else { b + 1 };
            assert(np[a] == cp[aa] && np[b] == cp[bb]);
            assert(cp[aa] < cp[bb]);
        }
        assert(self.stamp@[0] == -1 && self.stamp@[1] == -1) by {
            if l == 0 || l == 1 {
                if x == l {
                    assert(old.stamp@[l] == -1);
                } else {
                    assert(t == l);
                }
            }
        }
        assert forall|r: int| 0 <= r < self.fixed implies (#[trigger] self.stamp@[r]) >= -1 && (
        self.stamp@[r] >= 0 ==> written(self.origin@, r)) by {
            if r == l {
                if t == l {
                    assert(old.stamp@[t] >= 0 ==> written(old.origin@, t));
                } else {
                    assert(x == l);
                    assert(old.stamp@[x] >= 0 ==> written(old.origin@, x));
                }
            } else {
                assert(old.stamp@[r] >= -1 && (old.stamp@[r] >= 0 ==> written(old.origin@, r)));
            }
        }
        assert forall|r: int|
            0 <= r < n && is_root(self.redirects@, f, r as nat) && (#[trigger] self.stamp@[r])
                == -1 implies inert(self.origin@, n, f, r) by {
            if r == l {
                assert(st == -1);
                assert(inert(old.origin@, n, f, t));
                if t != l {
                    assert(x == l && t == hi);
                    assert(old.stamp@[x] >= 0);
                    assert(x != 0 && x != 1);
                    if x < f {
                        assert(old.stamp@[x] >= 0 ==> written(old.origin@, x));
                    }
                    lemma_inert_joined(old.origin@, n, f, x, t);
                }
            } else {
                assert(is_root(old.redirects@, f, r as nat));
                assert(old.stamp@[r] == -1);
            }
        }
        assert forall|r: int|
            0 <= r < n && is_root(self.redirects@, f, r as nat) && (#[trigger] self.stamp@[r])
                >= 0 implies self.writes(next, r) by {
            let q = if r == l { t } else { r };
            assert(is_root(old.redirects@, f, q as nat));
            assert(old.stamp@[q] >= 0);
            assert(old.writes(cur, q));
            let j = choose|j: int|
                0 <= j < cur.len() && old.root_of((#[trigger] cur[j]).2.0 as nat) == q;
            assert(old.timely(cur[j], cp[j]));
            assert(q != x) by {
                if r != l {
                    assert(r != hi);
                }
            }
            assert(j != i);
            let jn = if j < i { j } else { j - 1 };
            assert(next[jn] == cur[j]);
            assert(self.root_of(cur[j].2.0 as nat) == (if q == hi { l } else { q }));
        }
        // The counts still cover every reader.
        assert forall|r: int|
            0 <= r < self.references.len() && is_root(self.redirects@, f, r as nat) && (
            #[trigger] self.references[r]) == 0 implies r >= self.fixed && !read_by(
            next,
            self.redirects@,
            f,
            r as nat,
        ) by {
            assert(r != hi);
            assert(is_root(old.redirects@, f, r as nat));
            assert(is_root(old.redirects@, f, hi as nat)) by {
                lemma_root_is_root(old.redirects@, f, cur[i].2.0 as nat);
            }
            if r == l {
                assert(old.references[l] == 0 && old.references[hi] == 0);
            } else {
                assert(old.references[r] == 0);
            }
            if read_by(next, self.redirects@, f, r as nat) {
                let k = choose|k: int|
                    0 <= k < next.len() && (root(
                        self.redirects@,
                        f,
                        (#[trigger] next[k]).0.0 as nat,
                    ) == r || root(self.redirects@, f, next[k].1.0 as nat) == r);
                let kk = if k < i { k } else { k + 1 };
                let g = cur[kk];
                assert(next[k] == g);
                let ra = old.root_of(g.0.0 as nat) as int;
                let rb = old.root_of(g.1.0 as nat) as int;
                assert(self.root_of(g.0.0 as nat) == (if ra == hi { l } else { ra }));
                assert(self.root_of(g.1.0 as nat) == (if rb == hi { l } else { rb }));
                if ra == r || rb == r {
                    assert(read_by(cur, old.redirects@, f, r as nat));
                } else {
                    assert(r == l && (ra == hi || rb == hi));
                    assert(read_by(cur, old.redirects@, f, hi as nat));
                }
            }
        }
    }

    /// Dropping a gate whose class nothing reads keeps the order and the
    /// watch.
    #[verifier::rlimit(100)]
    pub proof fn lemma_staged_dead(
        &self,
        old: &Optimizer,
        cur: Seq<Gate>,
        cp: Seq<int>,
        i: int,
        x: int,
    )
        requires
            descending(old.redirects@, old.fixed as nat),
            old.references.len() == old.size(),
            gates_in_range(cur, old.size()),
            old.staged(cur, cp),
            old.watched(cur),
            0 <= i < cur.len(),
            x == old.root_of(cur[i].2.0 as nat),
            x >= old.fixed,
            old.references[x] == 0,
            self.fixed == old.fixed,
            self.origin == old.origin,
            self.redirects == old.redirects,
            self.references == old.references,
            self.stamp@ == old.stamp@.update(x, -2),
        ensures
            self.staged(cur.remove(i), cp.remove(i)),
            self.watched(cur.remove(i)),
    {
        let n = old.size();
        let f = old.fixed as nat;
        let next = cur.remove(i);
        let np = cp.remove(i);
        lemma_root_is_root(old.redirects@, f, cur[i].2.0 as nat);
        assert(gate_in_range(cur[i], n));
        assert(old.timely(cur[i], cp[i]));
        assert(!read_by(cur, old.redirects@, f, x as nat));
        assert forall|j: int| 0 <= j < next.len() implies self.timely(#[trigger] next[j], np[j]) by {
            let jj = if j < i { j } else { j + 1 };
            let g = cur[jj];
            assert(next[j] == g);
            assert(np[j] == cp[jj]);
            assert(old.timely(g, cp[jj]));
            assert(cp[jj] != cp[i]) by {
                if jj < i {
                    assert(cp[jj] < cp[i]);
                } else {
                    assert(cp[i] < cp[jj]);
                }
            }
            assert(gate_in_range(g, n));
            lemma_root_is_root(old.redirects@, f, g.0.0 as nat);
            lemma_root_is_root(old.redirects@, f, g.1.0 as nat);
            lemma_root_is_root(old.redirects@, f, g.2.0 as nat);
            assert(old.root_of(g.0.0 as nat) != x && old.root_of(g.1.0 as nat) != x) by {
                if old.root_of(g.0.0 as nat) == x || old.root_of(g.1.0 as nat) == x {
                    assert(read_by(cur, old.redirects@, f, x as nat));
                }
            }
            assert(old.root_of(g.2.0 as nat) != x);
        }
        assert forall|a: int, b: int| 0 <= a < b < np.len() implies (#[trigger] np[a]) < (
        #[trigger] np[b]) by {
            let aa = if a < i { a } else { a + 1 };
            let bb = if b < i { b } else { b + 1 };
            assert(np[a] == cp[aa] && np[b] == cp[bb]);
            assert(cp[aa] < cp[bb]);
        }
        assert forall|r: int| 0 <= r < self.fixed implies (#[trigger] self.stamp@[r]) >= -1 && (
        self.stamp@[r] >= 0 ==> written(self.origin@, r)) by {
            assert(old.stamp@[r] >= -1 && (old.stamp@[r] >= 0 ==> written(old.origin@, r)));
        }
        assert forall|r: int|
            0 <= r < n && is_root(self.redirects@, f, r as nat) && (#[trigger] self.stamp@[r])
                == -1 implies inert(self.origin@, n, f, r) by {
            assert(old.stamp@[r] == -1);
        }
        assert forall|r: int|
            0 <= r < n && is_root(self.redirects@, f, r as nat) && (#[trigger] self.stamp@[r])
                >= 0 implies self.writes(next, r) by {
            assert(old.stamp@[r] >= 0);
            assert(old.writes(cur, r));
            let j = choose|j: int|
                0 <= j < cur.len() && old.root_of((#[trigger] cur[j]).2.0 as nat) == r;
            assert(j != i);
            let jn = if j < i { j } else { j - 1 };
            assert(next[jn] == cur[j]);
        }
        assert forall|r: int|
            0 <= r < self.references.len() && is_root(self.redirects@, f, r as nat) && (
            #[trigger] self.references[r]) == 0 implies r >= self.fixed && !read_by(
            next,
            self.redirects@,
            f,
            r as nat,
        ) by {
            if read_by(next, self.redirects@, f, r as nat) {
                let k = choose|k: int|
                    0 <= k < next.len() && (root(
                        self.redirects@,
                        f,
                        (#[trigger] next[k]).0.0 as nat,
                    ) == r || root(self.redirects@, f, next[k].1.0 as nat) == r);
                let kk = if k < i { k } else { k + 1 };
                assert(next[k] == cur[kk]);
                assert(read_by(cur, old.redirects@, f, r as nat));
            }
        }
    }

    /// Joining the class that is written at `i` to a class that was written
    /// before it keeps the table in time for the gates after it.
    pub proof fn lemma_table_merge(
        &self,
        old: &Optimizer,
        table: Map<(usize, usize), usize>,
        cp: Seq<int>,
        i: int,
        t: int,
        x: int,
        lo: Wire,
        hi: int,
    )
        requires
            old.table_timed(table, cp, i),
            0 <= i < cp.len(),
            0 <= x < old.size(),
            0 <= t < old.size(),
            old.stamp@[x] == cp[i],
            -1 <= old.stamp@[t] < cp[i],
            lo.0 == (if t < x { t } else { x }),
            hi == (if t < x { x } else { t }),
            old.stamp@.len() == old.size(),
            forall|key: (usize, usize)| #[trigger]
                table.contains_key(key) ==> table[key] < old.size(),
            descending(old.redirects@, old.fixed as nat),
            forall|w: nat| #[trigger]
                self.root_of(w) == (if old.root_of(w) == hi {
                    lo.0 as nat
                } else {
                    old.root_of(w)
                }),
            self.stamp@ == old.stamp@.update(lo.0 as int, old.stamp@[t]),
        ensures
            self.table_timed(table, cp.remove(i), i),
    {
        let np = cp.remove(i);
        assert forall|key: (usize, usize)| #[trigger] table.contains_key(key) implies {
            let e = self.root_of(table[key] as nat) as int;
            &&& -1 <= self.stamp@[e]
            &&& forall|j: int| i <= j < np.len() ==> self.stamp@[e] < #[trigger] np[j]
        } by {
            let w = table[key] as nat;
            lemma_root_is_root(old.redirects@, old.fixed as nat, w);
            let re = old.root_of(w) as int;
            assert(0 <= re < old.size());
            assert(old.stamp@[re] < cp[i]);
            assert(re != x);
            assert(self.root_of(w) == (if re == hi { lo.0 as nat } else { re as nat }));
            let e = self.root_of(w) as int;
            assert(self.stamp@[e] == old.stamp@[re]);
            assert forall|j: int| i <= j < np.len() implies self.stamp@[e] < #[trigger] np[j] by {
                assert(np[j] == cp[j + 1]);
                assert(old.stamp@[re] < cp[j + 1]);
            }
        }
    }

    /// Dropping what stands at `i`, whose class nothing reads, keeps the table
    /// in time for the gates after it.
    pub proof fn lemma_table_dead(
        &self,
        old: &Optimizer,
        table: Map<(usize, usize), usize>,
        cp: Seq<int>,
        i: int,
        x: int,
    )
        requires
            old.table_timed(table, cp, i),
            0 <= i < cp.len(),
            0 <= x < old.size(),
            old.stamp@[x] == cp[i],
            old.stamp@.len() == old.size(),
            forall|key: (usize, usize)| #[trigger]
                table.contains_key(key) ==> table[key] < old.size(),
            descending(old.redirects@, old.fixed as nat),
            self.fixed == old.fixed,
            self.redirects == old.redirects,
            self.stamp@ == old.stamp@.update(x, -2),
        ensures
            self.table_timed(table, cp.remove(i), i),
    {
        let np = cp.remove(i);
        assert forall|key: (usize, usize)| #[trigger] table.contains_key(key) implies {
            let e = self.root_of(table[key] as nat) as int;
            &&& -1 <= self.stamp@[e]
            &&& forall|j: int| i <= j < np.len() ==> self.stamp@[e] < #[trigger] np[j]
        } by {
            let w = table[key] as nat;
            lemma_root_is_root(old.redirects@, old.fixed as nat, w);
            let re = old.root_of(w) as int;
            assert(0 <= re < old.size());
            assert(old.stamp@[re] < cp[i]);
            assert(re != x);
            assert(self.stamp@[re] == old.stamp@[re]);
            assert forall|j: int| i <= j < np.len() implies self.stamp@[re] < #[trigger] np[j] by {
                assert(np[j] == cp[j + 1]);
                assert(old.stamp@[re] < cp[j + 1]);
            }
        }
    }

    /// New entries for classes that are written at the place `from` or
    /// before it keep the table in time for the gates after it.
    pub proof fn lemma_table_keep(
        &self,
        before: Map<(usize, usize), usize>,
        after: Map<(usize, usize), usize>,
        cp: Seq<int>,
        from: int,
    )
        requires
            self.table_timed(before, cp, from),
            0 <= from < cp.len(),
            forall|i: int, j: int| 0 <= i < j < cp.len() ==> (#[trigger] cp[i]) < (#[trigger] cp[j]),
            forall|key: (usize, usize)| #[trigger]
                after.contains_key(key) ==> (before.contains_key(key) && before[key] == after[key])
                    || -1 <= self.stamp@[self.root_of(after[key] as nat) as int] <= cp[from],
        ensures
            self.table_timed(after, cp, from + 1),
    {
        assert forall|key: (usize, usize)| #[trigger] after.contains_key(key) implies {
            let e = self.root_of(after[key] as nat) as int;
            &&& -1 <= self.stamp@[e]
            &&& forall|j: int| from + 1 <= j < cp.len() ==> self.stamp@[e] < #[trigger] cp[j]
        } by {
            let e = self.root_of(after[key] as nat) as int;
            if before.contains_key(key) && before[key] == after[key] {
            } else {
                assert forall|j: int| from + 1 <= j < cp.len() implies self.stamp@[e]
                    < #[trigger] cp[j] by {
                    assert(cp[from] < cp[j]);
                }
            }
        }
    }

    /// What holds in the middle of a pass over a combinational netlist. The
    /// gates `cur` are those kept so far followed by those from `k` on that
    /// the pass has yet to see; they are in order and watched, and the table
    /// is in time for those yet to see.
    #[verifier::opaque]
    pub open spec fn scanned(
        &self,
        table: Map<(usize, usize), usize>,
        kept: Seq<Gate>,
        gates: Seq<Gate>,
        k: int,
        cur: Seq<Gate>,
        cp: Seq<int>,
    ) -> bool {
        &&& self.staged(cur, cp)
        &&& self.watched(cur)
        &&& self.table_timed(table, cp, kept.len() as int)
        &&& gates_in_range(cur, self.size())
        &&& 0 <= k <= gates.len()
        &&& cur.len() == kept.len() + gates.len() - k
        &&& forall|i: int| 0 <= i < kept.len() ==> (#[trigger] cur[i]) == kept[i]
        &&& forall|i: int|
            kept.len() <= i < cur.len() ==> (#[trigger] cur[i]) == gates[k + i - kept.len()]
    }

    /// Redirects that keep every representative keep what holds in the
    /// middle of a pass.
    pub proof fn lemma_scanned_same(
        &self,
        other: &Optimizer,
        table: Map<(usize, usize), usize>,
        kept: Seq<Gate>,
        gates: Seq<Gate>,
        k: int,
        cur: Seq<Gate>,
        cp: Seq<int>,
    )
        requires
            other.scanned(table, kept, gates, k, cur, cp),
            self.fixed == other.fixed,
            self.origin == other.origin,
            self.stamp == other.stamp,
            self.references == other.references,
            self.redirects.len() == other.redirects.len(),
            forall|i: int|
                0 <= i < self.redirects.len() ==> ((#[trigger] self.redirects[i]) is None
                    <==> other.redirects[i] is None),
            forall|w: nat| #[trigger] self.root_of(w) == other.root_of(w),
        ensures
            self.scanned(table, kept, gates, k, cur, cp),
    {
        reveal(Optimizer::scanned);
        self.lemma_staged_same(other, cur, cp);
        self.lemma_watched_same(other, cur);
        self.lemma_table_same(other, table, cp, kept.len() as int);
    }

    /// What the pass sees next and the wire that a table entry or
    /// a constant offers for its value are of different classes, the wire
    /// of one that was written before.
    pub proof fn lemma_scanned_target(
        &self,
        table: Map<(usize, usize), usize>,
        kept: Seq<Gate>,
        gates: Seq<Gate>,
        k: int,
        cur: Seq<Gate>,
        cp: Seq<int>,
        t: int,
    )
        requires
            self.scanned(table, kept, gates, k, cur, cp),
            k < gates.len(),
            t == 0 || t == 1 || exists|key: (usize, usize)|
                table.contains_key(key) && self.root_of(table[key] as nat) == t,
        ensures
            -1 <= self.stamp@[t] < cp[kept.len() as int],
            self.stamp@[self.root_of(gates[k].2.0 as nat) as int] == cp[kept.len() as int],
            t != self.root_of(gates[k].2.0 as nat),
    {
        reveal(Optimizer::scanned);
        let idx = kept.len() as int;
        assert(cur[idx] == gates[k]);
        assert(self.timely(cur[idx], cp[idx]));
        if t != 0 && t != 1 {
            let key = choose|key: (usize, usize)|
                table.contains_key(key) && self.root_of(table[key] as nat) == t;
            assert(table.contains_key(key));
            assert(self.stamp@[t] < cp[idx]);
        }
    }

    /// Dropping what the pass sees, its class joined to one that
    /// was written before it, keeps what holds in the middle of the pass.
    #[verifier::rlimit(100)]
    pub proof fn lemma_scanned_merge(
        &self,
        old: &Optimizer,
        table: Map<(usize, usize), usize>,
        kept: Seq<Gate>,
        gates: Seq<Gate>,
        k: int,
        cur: Seq<Gate>,
        cp: Seq<int>,
        t: int,
        x: int,
        lo: Wire,
        hi: int,
    )
        requires
            combinational(old.origin@, old.size()),
            descending(old.redirects@, old.fixed as nat),
            old.references.len() == old.size(),
            old.scanned(table, kept, gates, k, cur, cp),
            k < gates.len(),
            forall|key: (usize, usize)| #[trigger]
                table.contains_key(key) ==> table[key] < old.size(),
            x == old.root_of(gates[k].2.0 as nat),
            0 <= t < old.size(),
            is_root(old.redirects@, old.fixed as nat, t as nat),
            -1 <= old.stamp@[t] < cp[kept.len() as int],
            lo.0 == (if t < x { t } else { x }),
            hi == (if t < x { x } else { t }),
            hi >= old.fixed,
            always_equal(old.size(), old.origin@, t as nat, x as nat),
            self.fixed == old.fixed,
            self.origin == old.origin,
            self.redirects@ == old.redirects@.update(hi - old.fixed, Some(lo)),
            forall|w: nat| #[trigger]
                self.root_of(w) == (if old.root_of(w) == hi {
                    lo.0 as nat
                } else {
                    old.root_of(w)
                }),
            self.stamp@ == old.stamp@.update(lo.0 as int, old.stamp@[t]),
            self.references@ == joined(old.references@, lo.0 as int, hi),
        ensures
            self.scanned(
                table,
                kept,
                gates,
                k + 1,
                cur.remove(kept.len() as int),
                cp.remove(kept.len() as int),
            ),
    {
        reveal(Optimizer::scanned);
        let idx = kept.len() as int;
        let next = cur.remove(idx);
        assert(cur[idx] == gates[k]);
        assert(gate_in_range(cur[idx], old.size()));
        lemma_root_is_root(old.redirects@, old.fixed as nat, cur[idx].2.0 as nat);
        assert(old.timely(cur[idx], cp[idx]));
        self.lemma_staged_merge(old, cur, cp, idx, t, x, lo, hi);
        self.lemma_table_merge(old, table, cp, idx, t, x, lo, hi);
        assert forall|i: int| 0 <= i < next.len() implies gate_in_range(
            #[trigger] next[i],
            self.size(),
        ) by {
            let ii = if i < idx { i } else { i + 1 };
            assert(next[i] == cur[ii]);
            assert(gate_in_range(cur[ii], old.size()));
        }
        assert forall|i: int| 0 <= i < kept.len() implies (#[trigger] next[i]) == kept[i] by {
            assert(next[i] == cur[i]);
        }
        assert forall|i: int| kept.len() <= i < next.len() implies (#[trigger] next[i])
            == gates[k + 1 + i - kept.len()] by {
            assert(next[i] == cur[i + 1]);
        }
    }

    /// Dropping what the pass sees, whose class nothing reads,
    /// keeps what holds in the middle of the pass.
    pub proof fn lemma_scanned_dead(
        &self,
        old: &Optimizer,
        table: Map<(usize, usize), usize>,
        kept: Seq<Gate>,
        gates: Seq<Gate>,
        k: int,
        cur: Seq<Gate>,
        cp: Seq<int>,
        x: int,
    )
        requires
            descending(old.redirects@, old.fixed as nat),
            old.references.len() == old.size(),
            old.scanned(table, kept, gates, k, cur, cp),
            k < gates.len(),
            forall|key: (usize, usize)| #[trigger]
                table.contains_key(key) ==> table[key] < old.size(),
            x == old.root_of(gates[k].2.0 as nat),
            x >= old.fixed,
            old.references[x] == 0,
            self.fixed == old.fixed,
            self.origin == old.origin,
            self.redirects == old.redirects,
            self.references == old.references,
            self.stamp@ == old.stamp@.update(x, -2),
        ensures
            self.scanned(
                table,
                kept,
                gates,
                k + 1,
                cur.remove(kept.len() as int),
                cp.remove(kept.len() as int),
            ),
    {
        reveal(Optimizer::scanned);
        let idx = kept.len() as int;
        let next = cur.remove(idx);
        assert(cur[idx] == gates[k]);
        assert(gate_in_range(cur[idx], old.size()));
        lemma_root_is_root(old.redirects@, old.fixed as nat, cur[idx].2.0 as nat);
        assert(old.timely(cur[idx], cp[idx]));
        self.lemma_staged_dead(old, cur, cp, idx, x);
        self.lemma_table_dead(old, table, cp, idx, x);
        assert forall|i: int| 0 <= i < next.len() implies gate_in_range(
            #[trigger] next[i],
            self.size(),
        ) by {
            let ii = if i < idx { i } else { i + 1 };
            assert(next[i] == cur[ii]);
            assert(gate_in_range(cur[ii], old.size()));
        }
        assert forall|i: int| 0 <= i < kept.len() implies (#[trigger] next[i]) == kept[i] by {
            assert(next[i] == cur[i]);
        }
        assert forall|i: int| kept.len() <= i < next.len() implies (#[trigger] next[i])
            == gates[k + 1 + i - kept.len()] by {
            assert(next[i] == cur[i + 1]);
        }
    }

    /// Keeping what the pass sees, in its form `g`, with at most
    /// entries for its output and for its negated input added to the table,
    /// keeps what holds in the middle of the pass.
    #[verifier::rlimit(100)]
    pub proof fn lemma_scanned_keep(
        &self,
        before: Map<(usize, usize), usize>,
        after: Map<(usize, usize), usize>,
        kept: Seq<Gate>,
        gates: Seq<Gate>,
        k: int,
        cur: Seq<Gate>,
        cp: Seq<int>,
        g: Gate,
    )
        requires
            self.scanned(before, kept, gates, k, cur, cp),
            k < gates.len(),
            gate_in_range(g, self.size()),
            descending(self.redirects@, self.fixed as nat),
            is_root(self.redirects@, self.fixed as nat, g.0.0 as nat),
            is_root(self.redirects@, self.fixed as nat, g.1.0 as nat),
            g.2.0 == self.root_of(gates[k].2.0 as nat),
            g.0.0 == self.root_of(gates[k].0.0 as nat) || g.0.0 == self.root_of(
                gates[k].1.0 as nat,
            ),
            g.1.0 == self.root_of(gates[k].0.0 as nat) || g.1.0 == self.root_of(
                gates[k].1.0 as nat,
            ),
            forall|key: (usize, usize)| #[trigger]
                after.contains_key(key) ==> (before.contains_key(key) && before[key] == after[key])
                    || after[key] == g.2.0 || after[key] == g.0.0,
        ensures
            self.scanned(after, kept.push(g), gates, k + 1, cur.update(kept.len() as int, g), cp),
    {
        reveal(Optimizer::scanned);
        let idx = kept.len() as int;
        let f = self.fixed as nat;
        let next = cur.update(idx, g);
        assert(cur[idx] == gates[k]);
        assert(gate_in_range(cur[idx], self.size()));
        lemma_root_is_root(self.redirects@, f, gates[k].0.0 as nat);
        lemma_root_is_root(self.redirects@, f, gates[k].1.0 as nat);
        lemma_root_is_root(self.redirects@, f, gates[k].2.0 as nat);
        lemma_root_is_root(self.redirects@, f, g.0.0 as nat);
        lemma_root_is_root(self.redirects@, f, g.1.0 as nat);
        lemma_root_is_root(self.redirects@, f, g.2.0 as nat);
        assert(self.timely(cur[idx], cp[idx]));
        self.lemma_staged_rewrite(cur, cp, idx, g);
        assert forall|key: (usize, usize)| #[trigger] after.contains_key(key) implies (
        before.contains_key(key) && before[key] == after[key]) || -1
            <= self.stamp@[self.root_of(after[key] as nat) as int] <= cp[idx] by {}
        self.lemma_table_keep(before, after, cp, idx);
        assert forall|i: int| 0 <= i < next.len() implies gate_in_range(
            #[trigger] next[i],
            self.size(),
        ) by {
            if i != idx {
                assert(next[i] == cur[i]);
                assert(gate_in_range(cur[i], self.size()));
            }
        }
        let more = kept.push(g);
        assert forall|i: int| 0 <= i < more.len() implies (#[trigger] next[i]) == more[i] by {
            if i < idx {
                assert(next[i] == cur[i]);
            }
        }
        assert forall|i: int| more.len() <= i < next.len() implies (#[trigger] next[i])
            == gates[k + 1 + i - more.len()] by {
            assert(next[i] == cur[i]);
        }
    }

    /// A pass starts with no gate kept, an empty table and every gate yet
    /// to see.
    pub proof fn lemma_scanned_start(&self, gates: Seq<Gate>, cp: Seq<int>)
        requires
            self.staged(gates, cp),
            self.watched(gates),
            gates_in_range(gates, self.size()),
        ensures
            self.scanned(
                Map::<(usize, usize), usize>::empty(),
                Seq::<Gate>::empty(),
                gates,
                0,
                gates,
                cp,
            ),
    {
        reveal(Optimizer::scanned);
    }

    /// A pass ends with every gate seen: those kept are in order.
    pub proof fn lemma_scanned_end(
        &self,
        table: Map<(usize, usize), usize>,
        kept: Seq<Gate>,
        gates: Seq<Gate>,
        cur: Seq<Gate>,
        cp: Seq<int>,
    )
        requires
            self.scanned(table, kept, gates, gates.len() as int, cur, cp),
        ensures
            self.staged(kept, cp),
    {
        reveal(Optimizer::scanned);
        assert(cur =~= kept);
    }

    /// Counts that are above zero for every class with a reader keep the
    /// watch.
    pub proof fn lemma_counted_watched(&self, cur: Seq<Gate>)
        requires
            self.counted(cur),
        ensures
            self.watched(cur),
    {
    }
}

/// The place of the writer of the wire `w`, or -1 where no gate
/// writes it.
pub open spec fn writer(origin: Seq<Gate>, w: int) -> int {
    if written(origin, w) {
        choose|k: int| 0 <= k < origin.len() && (#[trigger] origin[k]).2.0 == w
    } else {
        -1
    }
}

/// Whether `o` is in the state in which it takes over the gates `origin`:
/// nothing is redirected, each gate is at its own place, and each wire is
/// stamped with the place of its writer.
pub open spec fn untouched(o: &Optimizer) -> bool {
    &&& forall|i: int| 0 <= i < o.redirects.len() ==> (#[trigger] o.redirects[i]) is None
    &&& o.nands@ == o.origin@
    &&& o.stamp@ == Seq::new(o.size(), |w: int| writer(o.origin@, w))
    &&& o.pos@ == Seq::new(o.origin@.len(), |i: int| i)
    &&& o.fixed >= 2
}

/// Where nothing is redirected every wire is its own representative.
pub proof fn lemma_root_untouched(redirects: Seq<Option<Wire>>, fixed: nat, w: nat)
    requires
        forall|i: int| 0 <= i < redirects.len() ==> (#[trigger] redirects[i]) is None,
    ensures
        root(redirects, fixed, w) == w,
{
}

/// A combinational netlist is in order as the optimizer takes it over.
pub proof fn lemma_untouched_staged(o: &Optimizer)
    requires
        untouched(o),
        combinational(o.origin@, o.size()),
    ensures
        o.staged(o.nands@, o.pos@),
{
    let n = o.size();
    let f = o.fixed as nat;
    let origin = o.origin@;
    assert forall|w: int| 0 <= w < n && written(origin, w) implies 0 <= writer(origin, w)
        < origin.len() && origin[writer(origin, w)].2.0 == w by {}
    assert forall|i: int| 0 <= i < origin.len() implies o.timely(#[trigger] origin[i], i) by {
        let g = origin[i];
        assert(gate_in_range(g, n));
        lemma_root_untouched(o.redirects@, f, g.0.0 as nat);
        lemma_root_untouched(o.redirects@, f, g.1.0 as nat);
        lemma_root_untouched(o.redirects@, f, g.2.0 as nat);
        assert(written(origin, g.2.0 as int));
        let k = writer(origin, g.2.0 as int);
        if k < i {
            assert(origin[k].2 != origin[i].2);
        }
        if i < k {
            assert(origin[i].2 != origin[k].2);
        }
        if written(origin, g.0.0 as int) {
            let a = writer(origin, g.0.0 as int);
            if i <= a {
                assert(origin[a].2 != origin[i].0);
            }
        }
        if written(origin, g.1.0 as int) {
            let b = writer(origin, g.1.0 as int);
            if i <= b {
                assert(origin[b].2 != origin[i].1);
            }
        }
    }
    assert(!written(origin, 0));
    assert(!written(origin, 1));
    assert forall|r: int|
        0 <= r < n && is_root(o.redirects@, f, r as nat) && (#[trigger] o.stamp@[r])
            == -1 implies inert(origin, n, f, r) by {
        lemma_inert_unwritten(origin, n, f, r);
    }
    assert forall|r: int|
        0 <= r < n && is_root(o.redirects@, f, r as nat) && (#[trigger] o.stamp@[r])
            >= 0 implies o.writes(o.nands@, r) by {
        let k = writer(origin, r);
        lemma_root_untouched(o.redirects@, f, origin[k].2.0 as nat);
    }
}

/// Whether a renumbered netlist is combinational, every new wire that no
/// gate writes stands for a wire that one tick leaves as it was, and every
/// fixed wire that a gate writes had a gate that wrote it.
pub open spec fn tidy(origin: Seq<Gate>, size: nat, after: Seq<Gate>, fixed: nat, back: Seq<usize>) -> bool {
    &&& combinational(after, back.len())
    &&& forall|y: int|
        0 <= y < back.len() && !written(after, y) ==> inert(
            origin,
            size,
            fixed,
            (#[trigger] back[y]) as int,
        )
    &&& forall|p: int| 0 <= p < fixed && #[trigger] written(after, p) ==> written(origin, p)
}

/// Gates that have representatives for wires, in an order in which each
/// is written before it is read, are tidy once renumbered, where every wire
/// that is counted has a reader.
#[verifier::rlimit(100)]
pub proof fn lemma_renumbered_tidy(o: &Optimizer, after: Seq<Gate>, back: Seq<usize>)
    requires
        o.wf(),
        gates_in_range(o.nands@, o.size()),
        forall|i: int|
            0 <= i < o.nands.len() ==> is_root(
                o.redirects@,
                o.fixed as nat,
                (#[trigger] o.nands[i]).0.0 as nat,
            ) && is_root(o.redirects@, o.fixed as nat, o.nands[i].1.0 as nat) && is_root(
                o.redirects@,
                o.fixed as nat,
                o.nands[i].2.0 as nat,
            ),
        forall|w: int|
            o.fixed <= w < o.references.len() && (#[trigger] o.references[w]) > 0 ==> has_reader(
                o.nands@,
                w,
            ),
        o.staged(o.nands@, o.pos@),
        renumbered(o.nands@, o.size(), after, o.fixed as nat, back),
        forall|y: int|
            o.fixed <= y < back.len() ==> o.references[(#[trigger] back[y]) as int] > 0 && is_root(
                o.redirects@,
                o.fixed as nat,
                back[y] as nat,
            ),
    ensures
        tidy(o.origin@, o.size(), after, o.fixed as nat, back),
{
    let n = o.size();
    let f = o.fixed as nat;
    let before = o.nands@;
    let cp = o.pos@;
    assert forall|i: int| 0 <= i < before.len() implies o.stamp@[(#[trigger] before[i]).2.0 as int]
        == cp[i] && -1 <= o.stamp@[before[i].0.0 as int] < cp[i] && -1
        <= o.stamp@[before[i].1.0 as int] < cp[i] by {
        let g = before[i];
        assert(o.timely(g, cp[i]));
        assert(gate_in_range(g, n));
        let h = o.nands[i];
        assert(h == g);
        lemma_root_is_root(o.redirects@, f, g.0.0 as nat);
        lemma_root_is_root(o.redirects@, f, g.1.0 as nat);
        lemma_root_is_root(o.redirects@, f, g.2.0 as nat);
    }
    assert forall|k: int| 0 <= k < after.len() implies (#[trigger] after[k]).2.0 >= 2 by {
        let g = after[k];
        assert(gate_in_range(g, back.len()));
        assert(o.stamp@[before[k].2.0 as int] == cp[k]);
        assert(o.timely(before[k], cp[k]));
        if g.2.0 < 2 {
            assert(back[g.2.0 as int] == g.2.0);
        }
    }
    assert forall|i: int, j: int| 0 <= i < j < after.len() implies (#[trigger] after[i]).2 != (
    #[trigger] after[j]).2 by {
        assert(gate_in_range(after[i], back.len()));
        assert(gate_in_range(after[j], back.len()));
        assert(o.stamp@[before[i].2.0 as int] == cp[i]);
        assert(o.stamp@[before[j].2.0 as int] == cp[j]);
        assert(cp[i] < cp[j]);
    }
    assert forall|i: int, j: int| 0 <= i <= j < after.len() implies (#[trigger] after[j]).2 != (
    #[trigger] after[i]).0 && after[j].2 != after[i].1 by {
        assert(gate_in_range(after[i], back.len()));
        assert(gate_in_range(after[j], back.len()));
        assert(o.stamp@[before[j].2.0 as int] == cp[j]);
        assert(o.stamp@[before[i].0.0 as int] < cp[i]);
        assert(o.stamp@[before[i].1.0 as int] < cp[i]);
        if i < j {
            assert(cp[i] < cp[j]);
        }
    }
    assert forall|y: int| 0 <= y < back.len() && !written(after, y) implies inert(
        o.origin@,
        n,
        f,
        (#[trigger] back[y]) as int,
    ) by {
        let r = back[y] as int;
        if y < f {
            assert(back[y] == y);
        } else {
            assert(back[(f - 1) as int] < back[y]);
        }
        assert(is_root(o.redirects@, f, r as nat));
        if o.writes(before, r) {
            let i = choose|i: int|
                0 <= i < before.len() && o.root_of((#[trigger] before[i]).2.0 as nat) == r;
            let h = o.nands[i];
            assert(h == before[i]);
            lemma_root_is_root(o.redirects@, f, before[i].2.0 as nat);
            assert(before[i].2.0 == r);
            let g = after[i];
            assert(gate_in_range(g, back.len()));
            assert(back[g.2.0 as int] == r);
            if g.2.0 < y {
                assert(back[g.2.0 as int] < back[y]);
            }
            if y < g.2.0 {
                assert(back[y] < back[g.2.0 as int]);
            }
            assert(written(after, y));
        }
        assert(o.stamp@[r] < 0);
        if r >= f {
            assert(o.references[r] > 0);
            assert(has_reader(before, r));
            let i = choose|i: int|
                0 <= i < before.len() && ((#[trigger] before[i]).0.0 == r || before[i].1.0 == r);
            assert(-1 <= o.stamp@[before[i].0.0 as int]);
            assert(-1 <= o.stamp@[before[i].1.0 as int]);
        }
        assert(o.stamp@[r] == -1);
    }
    assert forall|p: int| 0 <= p < f && #[trigger] written(after, p) implies written(
        o.origin@,
        p,
    ) by {
        let k = choose|k: int| 0 <= k < after.len() && (#[trigger] after[k]).2.0 == p;
        let g = after[k];
        assert(gate_in_range(g, back.len()));
        assert(back[p] == p);
        assert(before[k].2.0 == p);
        assert(o.stamp@[before[k].2.0 as int] == cp[k]);
        assert(o.timely(before[k], cp[k]));
        assert(o.stamp@[p] >= 0);
    }
    assert(gates_in_range(after, back.len()));
}

/// Whether one tick of the renumbered netlist `after`, from the store cut
/// to the new size, leaves on every wire the value that one tick of
/// `before` leaves on the wire it stands for, whatever fresh store both
/// start from.
pub open spec fn preserved(
    before: Seq<Gate>,
    size: nat,
    after: Seq<Gate>,
    fixed: nat,
    back: Seq<usize>,
) -> bool {
    forall|s: Seq<bool>|
        s.len() == size && #[trigger] fresh(s, before, fixed) ==> run(
            s.take(back.len() as int),
            after,
        ) == pulled(run(s, before), back)
}

/// A tidy renumbered netlist that states nothing new computes what the
/// netlist before it computed.
pub proof fn lemma_tidy_preserved(
    before: Seq<Gate>,
    size: nat,
    after: Seq<Gate>,
    fixed: nat,
    back: Seq<usize>,
)
    requires
        combinational(before, size),
        2 <= fixed,
        back.len() <= size,
        sound(before, size, after, fixed, back),
        tidy(before, size, after, fixed, back),
    ensures
        preserved(before, size, after, fixed, back),
{
    assert forall|s: Seq<bool>| s.len() == size && #[trigger] fresh(s, before, fixed) implies run(
        s.take(back.len() as int),
        after,
    ) == pulled(run(s, before), back) by {
        lemma_run_solves(s, before);
        let v = run(s, before);
        assert(solves(v, size, before));
        let p = pulled(v, back);
        let cut = s.take(back.len() as int);
        assert forall|y: int| 0 <= y < cut.len() && !written(after, y) implies cut[y] == p[y] by {
            let r = back[y] as int;
            assert(inert(before, size, fixed, r));
            assert(v[r] == s[r]);
            if y < fixed {
                assert(back[y] == y);
            } else {
                assert(back[(fixed - 1) as int] < back[y]);
                assert(!s[y]);
                assert(!s[r]);
            }
        }
        lemma_run_determined(cut, after, p);
    }
}

} // verus!
