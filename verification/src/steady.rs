//! A pass that drops no gate is the last that changes anything: the pass
//! after it keeps the same gates, and joins no classes.

use vstd::prelude::*;
use crate::circuit::{gate_in_range, gates_in_range, Gate};
use crate::classes::lemma_root_is_root;
use crate::optimize::Optimizer;
use crate::pass::{aim, outset, reads_at, scan, scan_one, shaped, tally, Scan};

verus! {

/// Whether every representative is a wire of the store and its own
/// representative.
pub open spec fn settled_classes(rep: Seq<nat>) -> bool {
    &&& rep.len() <= usize::MAX
    &&& forall|w: int| 0 <= w < rep.len() ==> (#[trigger] rep[w]) < rep.len() && rep[rep[w] as int] == rep[w]
}

/// The representatives of an optimizer are wires of the store and their
/// own representatives.
pub proof fn lemma_classes_settled(o: &Optimizer)
    requires
        o.wf(),
    ensures
        settled_classes(o.classes()),
{
    let rep = o.classes();
    assert forall|w: int| 0 <= w < rep.len() implies (#[trigger] rep[w]) < rep.len()
        && rep[rep[w] as int] == rep[w] by {
        lemma_root_is_root(o.redirects@, o.fixed as nat, w as nat);
        o.lemma_root_twice(w as nat);
    }
}

/// The forms of the gates.
pub open spec fn forms(rep: Seq<nat>, gates: Seq<Gate>) -> Seq<Gate> {
    Seq::new(gates.len(), |i: int| shaped(rep, gates[i]))
}

/// The form of a form is that form.
pub proof fn lemma_shaped_twice(rep: Seq<nat>, g: Gate)
    requires
        settled_classes(rep),
        gate_in_range(g, rep.len()),
    ensures
        shaped(rep, shaped(rep, g)) == shaped(rep, g),
        gate_in_range(shaped(rep, g), rep.len()),
{
    let a = rep[g.0.0 as int];
    let b = rep[g.1.0 as int];
    let o = rep[g.2.0 as int];
    assert(rep[a as int] == a && rep[b as int] == b && rep[o as int] == o);
}

/// A pass keeps at most one gate for each gate that it takes.
pub proof fn lemma_scan_bound(fixed: nat, start: Scan, gates: Seq<Gate>, k: int)
    requires
        0 <= k,
    ensures
        scan(fixed, start, gates, k).3.len() <= start.3.len() + k,
    decreases k,
{
    if k > 0 {
        lemma_scan_bound(fixed, start, gates, k - 1);
    }
}

/// Where a pass has kept every gate, it has kept every gate so far, and
/// has left the representatives and the counts as they were.
pub proof fn lemma_scan_full(fixed: nat, start: Scan, gates: Seq<Gate>, k: int)
    requires
        start.3.len() == 0,
        0 <= k <= gates.len(),
        scan(fixed, start, gates, gates.len() as int).3.len() == gates.len(),
    ensures
        scan(fixed, start, gates, k).3 == forms(start.0, gates).take(k),
        scan(fixed, start, gates, k).0 == start.0,
        scan(fixed, start, gates, k).1 == start.1,
    decreases gates.len() - k,
{
    let m = gates.len() as int;
    if k < m {
        lemma_scan_full(fixed, start, gates, k + 1);
        let here = scan(fixed, start, gates, k);
        let next = scan(fixed, start, gates, k + 1);
        assert(next == scan_one(fixed, here, gates[k]));
        lemma_scan_bound(fixed, start, gates, k);
        assert(next.3.len() == k + 1);
        assert(here.3.len() == k);
        assert(next.3 == here.3.push(shaped(here.0, gates[k])));
        assert(here.0 == next.0 && here.1 == next.1);
        assert(here.3 =~= next.3.drop_last());
        assert(here.3 =~= forms(start.0, gates).take(k));
    } else {
        let end = scan(fixed, start, gates, m);
        lemma_scan_start(fixed, start, gates, m);
        assert(end.3 =~= forms(start.0, gates).take(m));
    }
}

/// Where a pass has kept every gate, the gates kept are the forms of the
/// gates under the representatives that it started with, which it has left
/// as they were with the counts.
pub proof fn lemma_scan_start(fixed: nat, start: Scan, gates: Seq<Gate>, k: int)
    requires
        start.3.len() == 0,
        0 <= k <= gates.len(),
        scan(fixed, start, gates, k).3.len() == k,
    ensures
        scan(fixed, start, gates, k).0 == start.0,
        scan(fixed, start, gates, k).1 == start.1,
        scan(fixed, start, gates, k).3 =~= forms(start.0, gates).take(k),
    decreases k,
{
    if k > 0 {
        let here = scan(fixed, start, gates, k - 1);
        let next = scan(fixed, start, gates, k);
        assert(next == scan_one(fixed, here, gates[k - 1]));
        lemma_scan_bound(fixed, start, gates, k - 1);
        assert(here.3.len() == k - 1);
        lemma_scan_start(fixed, start, gates, k - 1);
        assert(next.3 == here.3.push(shaped(here.0, gates[k - 1])));
    }
}

/// The forms of gates read every class but that of the constant TRUE as
/// often as the gates do, or more often.
pub proof fn lemma_reads_more(rep: Seq<nat>, gates: Seq<Gate>, w: nat)
    requires
        settled_classes(rep),
        gates_in_range(gates, rep.len()),
        w != 1,
    ensures
        reads_at(forms(rep, gates), rep, w) >= reads_at(gates, rep, w),
    decreases gates.len(),
{
    if gates.len() > 0 {
        let shorter = gates.drop_last();
        assert forall|i: int| 0 <= i < shorter.len() implies gate_in_range(
            #[trigger] shorter[i],
            rep.len(),
        ) by {
            assert(shorter[i] == gates[i]);
        }
        lemma_reads_more(rep, shorter, w);
        let g = gates.last();
        assert(gates[gates.len() - 1] == g);
        assert(gate_in_range(g, rep.len()));
        assert(forms(rep, gates).drop_last() =~= forms(rep, shorter));
        assert(forms(rep, gates).last() == shaped(rep, g));
        let a = rep[g.0.0 as int];
        let b = rep[g.1.0 as int];
        assert(rep[a as int] == a && rep[b as int] == b);
    }
}

/// A pass after a pass that has kept every gate keeps every gate too, the
/// same gates, and leaves the representatives as they were.
pub proof fn lemma_scan_again(fixed: nat, rep: Seq<nat>, gates: Seq<Gate>, k: int)
    requires
        fixed >= 2,
        settled_classes(rep),
        gates_in_range(gates, rep.len()),
        scan(fixed, outset(gates, rep, fixed), gates, gates.len() as int).3.len() == gates.len(),
        0 <= k <= gates.len(),
    ensures
        scan(fixed, outset(forms(rep, gates), rep, fixed), forms(rep, gates), k) == (
            rep,
            tally(forms(rep, gates), rep, fixed),
            scan(fixed, outset(gates, rep, fixed), gates, k).2,
            forms(rep, gates).take(k),
        ),
    decreases k,
{
    let kept = forms(rep, gates);
    let first = outset(gates, rep, fixed);
    let second = outset(kept, rep, fixed);
    if k == 0 {
        assert(kept.take(0) =~= Seq::<Gate>::empty());
    } else {
        lemma_scan_again(fixed, rep, gates, k - 1);
        let g = gates[k - 1];
        let r = shaped(rep, g);
        assert(gate_in_range(g, rep.len()));
        lemma_shaped_twice(rep, g);
        assert(kept[k - 1] == r);
        lemma_scan_full(fixed, first, gates, k - 1);
        lemma_scan_full(fixed, first, gates, k);
        let here = scan(fixed, first, gates, k - 1);
        let next = scan(fixed, first, gates, k);
        assert(next == scan_one(fixed, here, g));
        assert(here.3.len() == k - 1 && next.3.len() == k);
        let there = scan(fixed, second, kept, k - 1);
        assert(scan(fixed, second, kept, k) == scan_one(fixed, there, r));
        let val = r.2.0 as int;
        if aim(rep, here.2, r) is None {
            if val >= fixed {
                assert(here.1[val] > 0);
                lemma_reads_more(rep, gates, val as nat);
                assert(val < rep.len());
                assert(there.1[val] > 0);
            }
        }
        assert(kept.take(k) =~= kept.take(k - 1).push(r));
    }
}

/// A pass that drops no gate is the last that changes anything. Where a
/// pass over gates has kept every gate, the gates that it has kept are the
/// forms of the gates, the representatives are as they were, and a pass
/// over those gates keeps them all again, as they are, and leaves the
/// representatives as they are.
pub proof fn lemma_pass_steady(fixed: nat, rep: Seq<nat>, gates: Seq<Gate>)
    requires
        fixed >= 2,
        settled_classes(rep),
        gates_in_range(gates, rep.len()),
        scan(fixed, outset(gates, rep, fixed), gates, gates.len() as int).3.len() == gates.len(),
    ensures
        ({
            let end = scan(fixed, outset(gates, rep, fixed), gates, gates.len() as int);
            let again = scan(fixed, outset(end.3, end.0, fixed), end.3, end.3.len() as int);
            &&& end.0 == rep
            &&& end.3 == forms(rep, gates)
            &&& again.0 == end.0
            &&& again.3 == end.3
        }),
{
    let m = gates.len() as int;
    let kept = forms(rep, gates);
    lemma_scan_full(fixed, outset(gates, rep, fixed), gates, m);
    assert(kept.take(m) =~= kept);
    lemma_scan_again(fixed, rep, gates, m);
}

} // verus!
