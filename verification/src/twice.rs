//! Optimizing what was optimized changes nothing.

use vstd::prelude::*;
use crate::circuit::{gate_in_range, gates_in_range, Circuit, Gate};
use crate::optimize::optimized;
use crate::pass::{
    aim, optimum, outset, rank, reads_at, scan, scan_one, settle, shaped, slim, stays, tally, Scan,
};
use crate::steady::{
    forms, lemma_pass_steady, lemma_reads_more, lemma_scan_full, lemma_shaped_twice,
    settled_classes,
};

verus! {

/// Whether every fixed wire is its own representative.
pub open spec fn anchored(fixed: nat, rep: Seq<nat>) -> bool {
    &&& 2 <= fixed <= rep.len()
    &&& forall|w: int| 0 <= w < fixed ==> (#[trigger] rep[w]) == w
}

/// Whether the state of a pass is in order: the representatives are
/// settled and anchored, there is a count for each wire, and the table and
/// the gates kept name wires of the store.
pub open spec fn orderly(fixed: nat, st: Scan) -> bool {
    &&& settled_classes(st.0)
    &&& anchored(fixed, st.0)
    &&& st.1.len() == st.0.len()
    &&& forall|key: (usize, usize)| #[trigger] st.2.contains_key(key) ==> st.2[key] < st.0.len()
    &&& gates_in_range(st.3, st.0.len())
}

/// One gate more keeps the state of a pass in order.
pub proof fn lemma_one_orderly(fixed: nat, st: Scan, g: Gate)
    requires
        orderly(fixed, st),
        gate_in_range(g, st.0.len()),
    ensures
        orderly(fixed, scan_one(fixed, st, g)),
        scan_one(fixed, st, g).0.len() == st.0.len(),
{
    let n = st.0.len();
    let rep = st.0;
    lemma_shaped_twice(rep, g);
    let r = shaped(rep, g);
    let val = r.2.0 as nat;
    let next = scan_one(fixed, st, g);
    assert(rep[1] == 1 && rep[0] == 0);
    assert(rep[g.2.0 as int] == val);
    assert(rep[val as int] == val);
    match aim(rep, st.2, r) {
        Some(t) => {
            assert(t < n && rep[t as int] == t) by {
                if r.1.0 != 0 && r.0.0 != 1 {
                    assert(st.2.contains_key((r.0.0, r.1.0)));
                }
            }
            if t == val {
            } else if t >= fixed || val >= fixed {
                let lo = if t < val { t } else { val };
                let hi = if t < val { val } else { t };
                assert forall|w: int| 0 <= w < n implies (#[trigger] next.0[w]) < n
                    && next.0[next.0[w] as int] == next.0[w] by {
                    let x = rep[w];
                    assert(rep[x as int] == x);
                }
            } else {
                assert forall|i: int| 0 <= i < next.3.len() implies gate_in_range(
                    #[trigger] next.3[i],
                    n,
                ) by {
                    if i < st.3.len() {
                        assert(next.3[i] == st.3[i]);
                    }
                }
            }
        },
        None => {
            if val >= fixed && st.1[val as int] == 0 {
            } else {
                assert forall|i: int| 0 <= i < next.3.len() implies gate_in_range(
                    #[trigger] next.3[i],
                    n,
                ) by {
                    if i < st.3.len() {
                        assert(next.3[i] == st.3[i]);
                    }
                }
            }
        },
    }
}

/// A pass keeps its state in order.
pub proof fn lemma_scan_orderly(fixed: nat, start: Scan, gates: Seq<Gate>, k: int)
    requires
        orderly(fixed, start),
        gates_in_range(gates, start.0.len()),
        0 <= k <= gates.len(),
    ensures
        orderly(fixed, scan(fixed, start, gates, k)),
        scan(fixed, start, gates, k).0.len() == start.0.len(),
    decreases k,
{
    if k > 0 {
        lemma_scan_orderly(fixed, start, gates, k - 1);
        assert(gate_in_range(gates[k - 1], start.0.len()));
        lemma_one_orderly(fixed, scan(fixed, start, gates, k - 1), gates[k - 1]);
    }
}

/// A class that the forms of gates read is a class that the gates read.
pub proof fn lemma_reads_fewer(rep: Seq<nat>, gates: Seq<Gate>, w: nat)
    requires
        settled_classes(rep),
        gates_in_range(gates, rep.len()),
        reads_at(forms(rep, gates), rep, w) > 0,
    ensures
        reads_at(gates, rep, w) > 0,
    decreases gates.len(),
{
    if gates.len() > 0 {
        let shorter = gates.drop_last();
        assert forall|i: int| 0 <= i < shorter.len() implies gate_in_range(
            #[trigger] shorter[i],
            rep.len(),
        ) by {
            assert(shorter[i] == gates[i]);
        }
        let g = gates.last();
        assert(gates[gates.len() - 1] == g);
        assert(gate_in_range(g, rep.len()));
        assert(forms(rep, gates).drop_last() =~= forms(rep, shorter));
        assert(forms(rep, gates).last() == shaped(rep, g));
        let a = rep[g.0.0 as int];
        let b = rep[g.1.0 as int];
        assert(rep[a as int] == a && rep[b as int] == b);
        if reads_at(forms(rep, shorter), rep, w) > 0 {
            lemma_reads_fewer(rep, shorter, w);
        }
    }
}

/// What the passes leave: representatives that are settled and anchored,
/// gates that are their own forms, which one more pass keeps as they are
/// with the representatives, and counts that are above zero for the wires
/// that the gates read, of those that are not fixed.
pub open spec fn at_rest(fixed: nat, rep: Seq<nat>, counts: Seq<usize>, gates: Seq<Gate>) -> bool {
    &&& settled_classes(rep)
    &&& anchored(fixed, rep)
    &&& counts.len() == rep.len()
    &&& gates_in_range(gates, rep.len())
    &&& gates == forms(rep, gates)
    &&& scan(fixed, outset(gates, rep, fixed), gates, gates.len() as int).3 == gates
    &&& scan(fixed, outset(gates, rep, fixed), gates, gates.len() as int).0 == rep
    &&& forall|w: int|
        fixed <= w < rep.len() ==> ((#[trigger] counts[w]) > 0 <==> reads_at(gates, rep, w as nat)
            > 0)
}

/// The passes leave the gates at rest.
pub proof fn lemma_settle_rests(fixed: nat, rep: Seq<nat>, gates: Seq<Gate>)
    requires
        settled_classes(rep),
        anchored(fixed, rep),
        gates_in_range(gates, rep.len()),
    ensures
        ({
            let end = settle(fixed, rep, gates);
            at_rest(fixed, end.0, end.1, end.2) && end.0.len() == rep.len()
        }),
    decreases gates.len(),
{
    let m = gates.len() as int;
    let start = outset(gates, rep, fixed);
    let end = scan(fixed, start, gates, m);
    assert(orderly(fixed, start));
    lemma_scan_orderly(fixed, start, gates, m);
    if end.3.len() < gates.len() {
        lemma_settle_rests(fixed, end.0, end.3);
    } else {
        crate::steady::lemma_scan_bound(fixed, start, gates, m);
        lemma_pass_steady(fixed, rep, gates);
        lemma_scan_full(fixed, start, gates, m);
        let kept = forms(rep, gates);
        assert(end.3 == kept);
        assert(end.1 == tally(gates, rep, fixed));
        assert(kept =~= forms(rep, kept)) by {
            assert forall|i: int| 0 <= i < kept.len() implies kept[i] == shaped(rep, kept[i]) by {
                assert(gate_in_range(gates[i], rep.len()));
                lemma_shaped_twice(rep, gates[i]);
            }
        }
        assert forall|w: int| fixed <= w < rep.len() implies ((#[trigger] end.1[w]) > 0
            <==> reads_at(kept, rep, w as nat) > 0) by {
            lemma_reads_more(rep, gates, w as nat);
            if reads_at(kept, rep, w as nat) > 0 {
                lemma_reads_fewer(rep, gates, w as nat);
            }
        }
    }
}

/// A wire that is fixed keeps its index.
pub proof fn lemma_rank_fixed(fixed: nat, rep: Seq<nat>, counts: Seq<usize>, w: int)
    requires
        0 <= w <= fixed,
    ensures
        rank(fixed, rep, counts, w) == w,
    decreases w,
{
    if w > 0 {
        lemma_rank_fixed(fixed, rep, counts, w - 1);
    }
}

/// The index rises with the wire, by one at most for each wire.
pub proof fn lemma_rank_grows(fixed: nat, rep: Seq<nat>, counts: Seq<usize>, a: int, b: int)
    requires
        0 <= a <= b,
    ensures
        rank(fixed, rep, counts, a) <= rank(fixed, rep, counts, b) <= rank(fixed, rep, counts, a)
            + (b - a),
        stays(fixed, rep, counts, a) && a < b ==> rank(fixed, rep, counts, a) < rank(
            fixed,
            rep,
            counts,
            b,
        ),
    decreases b - a,
{
    if a < b {
        lemma_rank_grows(fixed, rep, counts, a, b - 1);
        if a == b - 1 {
        }
    }
}

/// Every index below the index of `u` is the index of a wire before `u`
/// that stays.
pub proof fn lemma_rank_onto(fixed: nat, rep: Seq<nat>, counts: Seq<usize>, u: int, w: int) -> (v:
    int)
    requires
        0 <= w < rank(fixed, rep, counts, u),
    ensures
        0 <= v < u,
        stays(fixed, rep, counts, v),
        rank(fixed, rep, counts, v) == w,
    decreases u,
{
    if w < rank(fixed, rep, counts, u - 1) {
        lemma_rank_onto(fixed, rep, counts, u - 1, w)
    } else {
        u - 1
    }
}

/// Whether the three wires of every gate stay.
pub open spec fn all_stay(fixed: nat, rep: Seq<nat>, counts: Seq<usize>, gates: Seq<Gate>) -> bool {
    forall|i: int|
        0 <= i < gates.len() ==> stays(fixed, rep, counts, (#[trigger] gates[i]).0.0 as int)
            && stays(fixed, rep, counts, gates[i].1.0 as int) && stays(
            fixed,
            rep,
            counts,
            gates[i].2.0 as int,
        )
}

/// A wire that a gate reads is read.
pub proof fn lemma_reads_has(rep: Seq<nat>, gates: Seq<Gate>, i: int)
    requires
        0 <= i < gates.len(),
    ensures
        reads_at(gates, rep, rep[gates[i].0.0 as int]) > 0,
        reads_at(gates, rep, rep[gates[i].1.0 as int]) > 0,
    decreases gates.len(),
{
    if i < gates.len() - 1 {
        assert(gates.drop_last()[i] == gates[i]);
        lemma_reads_has(rep, gates.drop_last(), i);
    } else {
        assert(gates.last() == gates[i]);
    }
}

/// The wires of gates at rest stay.
pub proof fn lemma_rest_stays(fixed: nat, rep: Seq<nat>, counts: Seq<usize>, gates: Seq<Gate>)
    requires
        at_rest(fixed, rep, counts, gates),
    ensures
        all_stay(fixed, rep, counts, gates),
        forall|i: int|
            0 <= i < gates.len() ==> rep[(#[trigger] gates[i]).0.0 as int] == gates[i].0.0
                && rep[gates[i].1.0 as int] == gates[i].1.0 && rep[gates[i].2.0 as int]
                == gates[i].2.0,
{
    let m = gates.len() as int;
    let start = outset(gates, rep, fixed);
    assert forall|i: int| 0 <= i < gates.len() implies rep[(#[trigger] gates[i]).0.0 as int]
        == gates[i].0.0 && rep[gates[i].1.0 as int] == gates[i].1.0 && rep[gates[i].2.0 as int]
        == gates[i].2.0 && stays(fixed, rep, counts, gates[i].0.0 as int) && stays(
        fixed,
        rep,
        counts,
        gates[i].1.0 as int,
    ) && stays(fixed, rep, counts, gates[i].2.0 as int) by {
        let g = gates[i];
        assert(gate_in_range(g, rep.len()));
        lemma_shaped_twice(rep, g);
        assert(forms(rep, gates)[i] == shaped(rep, g));
        assert(g == shaped(rep, g));
        let a = rep[g.0.0 as int];
        let b = rep[g.1.0 as int];
        let o = rep[g.2.0 as int];
        assert(rep[a as int] == a && rep[b as int] == b && rep[o as int] == o);
        lemma_reads_has(rep, gates, i);
        // the output: the pass kept this gate
        lemma_scan_full(fixed, start, gates, i);
        lemma_scan_full(fixed, start, gates, i + 1);
        let here = scan(fixed, start, gates, i);
        let next = scan(fixed, start, gates, i + 1);
        assert(next == scan_one(fixed, here, g));
        assert(here.3.len() == i && next.3.len() == i + 1);
        let val = g.2.0 as int;
        if val >= fixed {
            assert(aim(rep, here.2, g) is None);
            assert(here.1[val] > 0);
            assert(tally(gates, rep, fixed)[val] > 0);
            assert(reads_at(gates, rep, val as nat) > 0);
        }
    }
}

/// The key of the table under which, after the renumbering, stands what
/// stood under `key`.
pub open spec fn moved(fixed: nat, rep: Seq<nat>, counts: Seq<usize>, key: (usize, usize)) -> (
    usize,
    usize,
) {
    (rank(fixed, rep, counts, key.0 as int) as usize, rank(fixed, rep, counts, key.1 as int) as usize)
}

/// Whether the table `second` is the table `first` after the renumbering,
/// as far as wires that stay go.
pub open spec fn linked(
    fixed: nat,
    rep: Seq<nat>,
    counts: Seq<usize>,
    first: Map<(usize, usize), usize>,
    second: Map<(usize, usize), usize>,
) -> bool {
    forall|key: (usize, usize)|
        key.0 < rep.len() && key.1 < rep.len() && stays(fixed, rep, counts, key.0 as int) && stays(
            fixed,
            rep,
            counts,
            key.1 as int,
        ) ==> {
            &&& first.contains_key(key) <==> second.contains_key(
                #[trigger] moved(fixed, rep, counts, key),
            )
            &&& first.contains_key(key) ==> {
                &&& first[key] < rep.len()
                &&& stays(fixed, rep, counts, first[key] as int)
                &&& rep[first[key] as int] == first[key]
                &&& second[moved(fixed, rep, counts, key)] == rank(
                    fixed,
                    rep,
                    counts,
                    first[key] as int,
                )
            }
        }
}

/// The renumbered gates read the renumbered wire as often as the gates
/// read the wire.
pub proof fn lemma_reads_moved(
    fixed: nat,
    rep: Seq<nat>,
    counts: Seq<usize>,
    gates: Seq<Gate>,
    w: int,
)
    requires
        rep.len() <= usize::MAX,
        gates_in_range(gates, rep.len()),
        all_stay(fixed, rep, counts, gates),
        forall|i: int|
            0 <= i < gates.len() ==> rep[(#[trigger] gates[i]).0.0 as int] == gates[i].0.0
                && rep[gates[i].1.0 as int] == gates[i].1.0,
        0 <= w < rep.len(),
        stays(fixed, rep, counts, w),
    ensures
        reads_at(
            slim(fixed, rep, counts, gates),
            Seq::new(rank(fixed, rep, counts, rep.len() as int) as nat, |x: int| x as nat),
            rank(fixed, rep, counts, w) as nat,
        ) == reads_at(gates, rep, w as nat),
    decreases gates.len(),
{
    if gates.len() > 0 {
        let shorter = gates.drop_last();
        let g = gates.last();
        let n = rep.len() as int;
        assert(gates[gates.len() - 1] == g);
        assert(gate_in_range(g, rep.len()));
        assert forall|i: int| 0 <= i < shorter.len() implies gate_in_range(
            #[trigger] shorter[i],
            rep.len(),
        ) && stays(fixed, rep, counts, shorter[i].0.0 as int) && stays(
            fixed,
            rep,
            counts,
            shorter[i].1.0 as int,
        ) && stays(fixed, rep, counts, shorter[i].2.0 as int) && rep[shorter[i].0.0 as int]
            == shorter[i].0.0 && rep[shorter[i].1.0 as int] == shorter[i].1.0 by {
            assert(shorter[i] == gates[i]);
        }
        lemma_reads_moved(fixed, rep, counts, shorter, w);
        assert(slim(fixed, rep, counts, gates).drop_last() =~= slim(fixed, rep, counts, shorter));
        let a = g.0.0 as int;
        let b = g.1.0 as int;
        lemma_rank_grows(fixed, rep, counts, a, n);
        lemma_rank_grows(fixed, rep, counts, b, n);
        lemma_rank_grows(fixed, rep, counts, 0, a);
        lemma_rank_grows(fixed, rep, counts, 0, b);
        if a < w {
            lemma_rank_grows(fixed, rep, counts, a, w);
        }
        if w < a {
            lemma_rank_grows(fixed, rep, counts, w, a);
        }
        if b < w {
            lemma_rank_grows(fixed, rep, counts, b, w);
        }
        if w < b {
            lemma_rank_grows(fixed, rep, counts, w, b);
        }
        lemma_rank_grows(fixed, rep, counts, w, n);
        let thin = slim(fixed, rep, counts, gates);
        let same = Seq::new(rank(fixed, rep, counts, n) as nat, |x: int| x as nat);
        let h = thin.last();
        let ra = rank(fixed, rep, counts, a);
        let rb = rank(fixed, rep, counts, b);
        let rw = rank(fixed, rep, counts, w);
        assert(h == thin[gates.len() - 1]);
        assert(h.0.0 == ra && h.1.0 == rb);
        assert(same[ra] == ra && same[rb] == rb);
        assert(ra == rw <==> a == w);
        assert(rb == rw <==> b == w);
        assert(rep[a] == a && rep[b] == b);
        lemma_rank_grows(fixed, rep, counts, 0, w);
        assert(rw >= 0);
        assert(thin.len() > 0);
        assert(same[h.0.0 as int] == ra);
        assert(same[h.1.0 as int] == rb);
        assert(reads_at(thin, same, rw as nat) == reads_at(thin.drop_last(), same, rw as nat) + (
        if ra == rw {
            1nat
        } else {
            0nat
        }) + (if rb == rw {
            1nat
        } else {
            0nat
        }));
        assert(reads_at(gates, rep, w as nat) == reads_at(shorter, rep, w as nat) + (if a == w {
            1nat
        } else {
            0nat
        }) + (if b == w {
            1nat
        } else {
            0nat
        }));
    } else {
        assert(slim(fixed, rep, counts, gates).len() == 0);
    }
}

/// Wires that stay and get one index are one wire, and no index is past
/// its wire.
pub proof fn lemma_rank_apart(fixed: nat, rep: Seq<nat>, counts: Seq<usize>, x: int, y: int)
    requires
        0 <= x,
        0 <= y,
        stays(fixed, rep, counts, x),
        stays(fixed, rep, counts, y),
    ensures
        rank(fixed, rep, counts, x) == rank(fixed, rep, counts, y) ==> x == y,
        0 <= rank(fixed, rep, counts, x) <= x,
        x < fixed ==> rank(fixed, rep, counts, x) == x,
        x >= fixed ==> rank(fixed, rep, counts, x) >= fixed,
{
    if x < y {
        lemma_rank_grows(fixed, rep, counts, x, y);
    }
    if y < x {
        lemma_rank_grows(fixed, rep, counts, y, x);
    }
    lemma_rank_grows(fixed, rep, counts, 0, x);
    if x < fixed {
        lemma_rank_fixed(fixed, rep, counts, x);
    } else {
        lemma_rank_fixed(fixed, rep, counts, fixed as int);
        lemma_rank_grows(fixed, rep, counts, fixed as int, x);
    }
}

/// An entry more in both tables, the second for the renumbered wires of
/// the first, keeps the tables linked.
pub proof fn lemma_linked_insert(
    fixed: nat,
    rep: Seq<nat>,
    counts: Seq<usize>,
    first: Map<(usize, usize), usize>,
    second: Map<(usize, usize), usize>,
    key: (usize, usize),
    v: usize,
)
    requires
        rep.len() <= usize::MAX,
        linked(fixed, rep, counts, first, second),
        key.0 < rep.len(),
        key.1 < rep.len(),
        v < rep.len(),
        stays(fixed, rep, counts, key.0 as int),
        stays(fixed, rep, counts, key.1 as int),
        stays(fixed, rep, counts, v as int),
        rep[v as int] == v,
    ensures
        linked(
            fixed,
            rep,
            counts,
            first.insert(key, v),
            second.insert(moved(fixed, rep, counts, key), rank(fixed, rep, counts, v as int) as usize),
        ),
{
    let more = first.insert(key, v);
    let other = second.insert(
        moved(fixed, rep, counts, key),
        rank(fixed, rep, counts, v as int) as usize,
    );
    lemma_rank_apart(fixed, rep, counts, v as int, v as int);
    assert forall|k: (usize, usize)|
        k.0 < rep.len() && k.1 < rep.len() && stays(fixed, rep, counts, k.0 as int) && stays(
            fixed,
            rep,
            counts,
            k.1 as int,
        ) implies {
        &&& more.contains_key(k) <==> other.contains_key(#[trigger] moved(fixed, rep, counts, k))
        &&& more.contains_key(k) ==> {
            &&& more[k] < rep.len()
            &&& stays(fixed, rep, counts, more[k] as int)
            &&& rep[more[k] as int] == more[k]
            &&& other[moved(fixed, rep, counts, k)] == rank(fixed, rep, counts, more[k] as int)
        }
    } by {
        lemma_rank_apart(fixed, rep, counts, k.0 as int, key.0 as int);
        lemma_rank_apart(fixed, rep, counts, k.1 as int, key.1 as int);
        lemma_rank_apart(fixed, rep, counts, key.0 as int, key.0 as int);
        lemma_rank_apart(fixed, rep, counts, key.1 as int, key.1 as int);
        if k == key {
        } else {
            assert(k.0 != key.0 || k.1 != key.1);
            assert(moved(fixed, rep, counts, k) != moved(fixed, rep, counts, key));
            assert(first.contains_key(k) <==> second.contains_key(moved(fixed, rep, counts, k)));
        }
    }
}

/// A pass over the renumbered gates at rest, with every wire its own
/// representative, goes as the pass over the gates goes: it keeps every
/// gate and joins no classes.
pub proof fn lemma_fresh_scan(
    fixed: nat,
    rep: Seq<nat>,
    counts: Seq<usize>,
    gates: Seq<Gate>,
    k: int,
)
    requires
        at_rest(fixed, rep, counts, gates),
        0 <= k <= gates.len(),
    ensures
        ({
            let size = rank(fixed, rep, counts, rep.len() as int) as nat;
            let same = Seq::new(size, |x: int| x as nat);
            let thin = slim(fixed, rep, counts, gates);
            let before = scan(fixed, outset(gates, rep, fixed), gates, k);
            let after = scan(fixed, outset(thin, same, fixed), thin, k);
            &&& after.0 == same
            &&& after.1 == tally(thin, same, fixed)
            &&& after.3 == thin.take(k)
            &&& linked(fixed, rep, counts, before.2, after.2)
        }),
    decreases k,
{
    let n = rep.len() as int;
    let size = rank(fixed, rep, counts, n) as nat;
    let same = Seq::new(size, |x: int| x as nat);
    let thin = slim(fixed, rep, counts, gates);
    let start = outset(gates, rep, fixed);
    let begin = outset(thin, same, fixed);
    lemma_rest_stays(fixed, rep, counts, gates);
    if k == 0 {
        assert(thin.take(0) =~= Seq::<Gate>::empty());
    } else {
        lemma_fresh_scan(fixed, rep, counts, gates, k - 1);
        let g = gates[k - 1];
        let h = thin[k - 1];
        assert(gate_in_range(g, rep.len()));
        lemma_scan_full(fixed, start, gates, k - 1);
        lemma_scan_full(fixed, start, gates, k);
        let here = scan(fixed, start, gates, k - 1);
        let next = scan(fixed, start, gates, k);
        assert(next == scan_one(fixed, here, g));
        assert(here.3.len() == k - 1 && next.3.len() == k);
        let there = scan(fixed, begin, thin, k - 1);
        let then = scan(fixed, begin, thin, k);
        assert(then == scan_one(fixed, there, h));
        let a = g.0.0 as int;
        let b = g.1.0 as int;
        let o = g.2.0 as int;
        let ra = rank(fixed, rep, counts, a);
        let rb = rank(fixed, rep, counts, b);
        let ro = rank(fixed, rep, counts, o);
        lemma_rank_apart(fixed, rep, counts, a, b);
        lemma_rank_apart(fixed, rep, counts, b, a);
        lemma_rank_apart(fixed, rep, counts, o, o);
        lemma_rank_apart(fixed, rep, counts, a, o);
        lemma_rank_grows(fixed, rep, counts, a, n);
        lemma_rank_grows(fixed, rep, counts, b, n);
        lemma_rank_grows(fixed, rep, counts, o, n);
        assert(forms(rep, gates)[k - 1] == shaped(rep, g));
        assert(g == shaped(rep, g));
        assert(rep[a] == a && rep[b] == b && rep[o] == o);
        assert(a >= b);
        if b < a {
            lemma_rank_grows(fixed, rep, counts, b, a);
        }
        assert(ra >= rb);
        assert(h.0.0 == ra && h.1.0 == rb && h.2.0 == ro);
        assert(same[ra] == ra && same[rb] == rb && same[ro] == ro);
        assert(b == 1 ==> a == 1);
        assert(rb == 1 <==> b == 1);
        assert(ra == 1 <==> a == 1);
        assert(rb == 0 <==> b == 0);
        assert(shaped(same, h) == h);
        let key = (g.0.0, g.1.0);
        assert(moved(fixed, rep, counts, key) == (h.0.0, h.1.0));
        let was = aim(rep, here.2, g);
        let now = aim(same, there.2, h);
        if b != 0 && a != 1 {
            assert(here.2.contains_key(key) <==> there.2.contains_key(
                moved(fixed, rep, counts, key),
            ));
            if here.2.contains_key(key) {
                let v = here.2[key] as int;
                lemma_rank_apart(fixed, rep, counts, v, o);
                lemma_rank_apart(fixed, rep, counts, o, v);
                lemma_rank_grows(fixed, rep, counts, v, n);
                let rv = rank(fixed, rep, counts, v);
                assert(there.2[(h.0.0, h.1.0)] == rv);
                assert(same[rv] == rv);
                assert(was == Some(v as nat));
                assert(now == Some(rv as nat));
                // the pass kept this gate: two fixed wires have its value
                assert(v != o && v < fixed && o < fixed);
                assert(rv == v && ro == o);
            }
        }
        if was is None {
            assert(now is None);
            if ro >= fixed {
                assert(o >= fixed);
                assert(here.1[o] > 0);
                assert(reads_at(gates, rep, o as nat) > 0);
                lemma_reads_moved(fixed, rep, counts, gates, o);
                assert(there.1[ro] > 0);
            }
            lemma_linked_insert(fixed, rep, counts, here.2, there.2, key, g.2.0);
            if a == b {
                let once = here.2.insert(key, g.2.0);
                let also = there.2.insert((h.0.0, h.1.0), h.2.0);
                lemma_linked_insert(fixed, rep, counts, once, also, (g.2.0, g.2.0), g.0.0);
                assert(moved(fixed, rep, counts, (g.2.0, g.2.0)) == (h.2.0, h.2.0));
            }
        } else {
            let t = was->0;
            assert(now is Some);
            if b == 0 {
                assert(t == 1 && now == Some(1nat));
                assert(o < fixed && o != 1);
            } else if a == 1 {
                assert(t == 0 && now == Some(0nat));
                assert(o < fixed && o != 0);
            }
        }
        assert(thin.take(k) =~= thin.take(k - 1).push(h));
    }
}

/// Where every wire before `u` stays, each has its own index.
pub proof fn lemma_rank_all(fixed: nat, rep: Seq<nat>, counts: Seq<usize>, u: int, w: int)
    requires
        forall|x: int| 0 <= x < u ==> #[trigger] stays(fixed, rep, counts, x),
        0 <= w <= u,
    ensures
        rank(fixed, rep, counts, w) == w,
    decreases w,
{
    if w > 0 {
        lemma_rank_all(fixed, rep, counts, u, w - 1);
        assert(stays(fixed, rep, counts, w - 1));
    }
}

/// What the optimizer makes of what it has made is the same: the gates
/// and the number of wires that it gives are those that it gives for them
/// again.
pub proof fn lemma_optimum_twice(fixed: nat, size: nat, gates: Seq<Gate>)
    requires
        2 <= fixed <= size <= usize::MAX,
        gates_in_range(gates, size),
    ensures
        optimum(fixed, size, gates).1 >= 0,
        optimum(fixed, optimum(fixed, size, gates).1 as nat, optimum(fixed, size, gates).0)
            == optimum(fixed, size, gates),
{
    let id = Seq::new(size, |w: int| w as nat);
    lemma_settle_rests(fixed, id, gates);
    let end = settle(fixed, id, gates);
    let rep = end.0;
    let counts = end.1;
    let kept = end.2;
    let m = kept.len() as int;
    let n = rank(fixed, rep, counts, size as int);
    lemma_rank_grows(fixed, rep, counts, 0, size as int);
    lemma_rank_fixed(fixed, rep, counts, fixed as int);
    lemma_rank_grows(fixed, rep, counts, fixed as int, size as int);
    let same = Seq::new(n as nat, |x: int| x as nat);
    let thin = slim(fixed, rep, counts, kept);
    lemma_fresh_scan(fixed, rep, counts, kept, m);
    lemma_rest_stays(fixed, rep, counts, kept);
    let last = scan(fixed, outset(thin, same, fixed), thin, m);
    assert(thin.take(m) =~= thin);
    assert(settle(fixed, same, thin) == (last.0, last.1, last.3));
    let again = tally(thin, same, fixed);
    // every wire that is left stays
    assert forall|w: int| 0 <= w < n implies #[trigger] stays(fixed, same, again, w) by {
        if w >= fixed {
            let v = lemma_rank_onto(fixed, rep, counts, size as int, w);
            lemma_rank_apart(fixed, rep, counts, v, v);
            assert(v >= fixed);
            assert(counts[v] > 0);
            assert(reads_at(kept, rep, v as nat) > 0);
            lemma_reads_moved(fixed, rep, counts, kept, v);
        }
    }
    assert forall|w: int| 0 <= w <= n implies #[trigger] rank(fixed, same, again, w) == w by {
        lemma_rank_all(fixed, same, again, n, w);
    }
    assert(slim(fixed, same, again, thin) =~= thin) by {
        assert forall|i: int| 0 <= i < thin.len() implies slim(fixed, same, again, thin)[i]
            == thin[i] by {
            let g = kept[i];
            assert(gate_in_range(g, rep.len()));
            lemma_rank_apart(fixed, rep, counts, g.0.0 as int, g.0.0 as int);
            lemma_rank_apart(fixed, rep, counts, g.1.0 as int, g.1.0 as int);
            lemma_rank_apart(fixed, rep, counts, g.2.0 as int, g.2.0 as int);
            lemma_rank_grows(fixed, rep, counts, g.0.0 as int, size as int);
            lemma_rank_grows(fixed, rep, counts, g.1.0 as int, size as int);
            lemma_rank_grows(fixed, rep, counts, g.2.0 as int, size as int);
        }
    }
}

/// Optimizing what was optimized changes nothing: the circuit that a
/// second call leaves has the gates, the store, the inputs and the memo
/// that the first call left.
pub proof fn lemma_optimized_twice(before: &Circuit, once: &Circuit, twice: &Circuit)
    requires
        before.wf(),
        before.closed(),
        optimized(before, once),
        optimized(once, twice),
    ensures
        twice.nands@ == once.nands@,
        twice.wires@ == once.wires@,
        twice.inputs == once.inputs,
        twice.memo == once.memo,
{
    let fixed = (before.inputs + 2) as nat;
    let size = before.wires.len() as nat;
    lemma_optimum_twice(fixed, size, before.nands@);
    assert(twice.wires.len() == once.wires.len());
    assert(twice.wires@ =~= once.wires@);
}

} // verus!
