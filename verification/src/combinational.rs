//! Netlists as equations, and netlists without state. A netlist states
//! that every output is the NAND of its inputs; values of the wires that
//! satisfy all of it are a solution. In a netlist without state every wire
//! is written at most once and no gate reads a wire that it or a later gate
//! writes: one tick of it leaves a solution, which depends on the wires
//! that no gate writes alone.

use vstd::prelude::*;
use crate::circuit::{fire, gate_in_range, gates_in_range, run, Gate};

verus! {

/// Whether the values `v` satisfy the equation of one gate.
pub open spec fn holds(v: Seq<bool>, g: Gate) -> bool {
    v[g.2.0 as int] == !(v[g.0.0 as int] && v[g.1.0 as int])
}

/// Whether the values `v` satisfy the equation of every gate.
pub open spec fn models(v: Seq<bool>, gates: Seq<Gate>) -> bool {
    forall|k: int| 0 <= k < gates.len() ==> holds(v, #[trigger] gates[k])
}

/// Whether the two constants have their values in `v`.
pub open spec fn grounded(v: Seq<bool>) -> bool {
    v.len() >= 2 && !v[0] && v[1]
}

/// Whether `v` gives a value to each of `n` wires, has the constants right
/// and satisfies every gate of `origin`.
pub open spec fn solves(v: Seq<bool>, n: nat, origin: Seq<Gate>) -> bool {
    v.len() == n && grounded(v) && models(v, origin)
}

/// Whether some gate writes the wire `w`.
pub open spec fn written(gates: Seq<Gate>, w: int) -> bool {
    exists|k: int| 0 <= k < gates.len() && (#[trigger] gates[k]).2.0 == w
}

/// Whether no two gates write one wire and no gate reads a wire that it or
/// a later gate writes.
pub open spec fn acyclic(gates: Seq<Gate>) -> bool {
    &&& forall|i: int, j: int|
        0 <= i < j < gates.len() ==> (#[trigger] gates[i]).2 != (#[trigger] gates[j]).2
    &&& forall|i: int, j: int|
        0 <= i <= j < gates.len() ==> (#[trigger] gates[j]).2 != (#[trigger] gates[i]).0
            && gates[j].2 != gates[i].1
}

/// Whether a netlist over `size` wires is without state and leaves the two
/// constants alone.
pub open spec fn combinational(gates: Seq<Gate>, size: nat) -> bool {
    &&& gates_in_range(gates, size)
    &&& forall|k: int| 0 <= k < gates.len() ==> (#[trigger] gates[k]).2.0 >= 2
    &&& acyclic(gates)
}

/// Whether some gate has the wire `w` as an input.
pub open spec fn has_reader(gates: Seq<Gate>, w: int) -> bool {
    exists|k: int| 0 <= k < gates.len() && ((#[trigger] gates[k]).0.0 == w || gates[k].1.0 == w)
}

/// Whether `s` is the store of a newly built circuit in which at most
/// external inputs that no gate writes were given a value: the constants
/// hold, and every wire that is not fixed, or that a gate writes, reads
/// FALSE.
pub open spec fn fresh(s: Seq<bool>, gates: Seq<Gate>, fixed: nat) -> bool {
    &&& grounded(s)
    &&& forall|w: int|
        2 <= w < s.len() && (w >= fixed || written(gates, w)) ==> !(#[trigger] s[w])
}

/// The first `k` gates are in range and without state as all are.
pub proof fn lemma_take_acyclic(gates: Seq<Gate>, size: nat, k: int)
    requires
        0 <= k <= gates.len(),
        gates_in_range(gates, size),
        acyclic(gates),
    ensures
        gates_in_range(gates.take(k), size),
        acyclic(gates.take(k)),
{
    let part = gates.take(k);
    assert forall|i: int| 0 <= i < part.len() implies gate_in_range(#[trigger] part[i], size) by {
        assert(part[i] == gates[i]);
    }
    assert forall|i: int, j: int| 0 <= i < j < part.len() implies (#[trigger] part[i]).2 != (
    #[trigger] part[j]).2 by {
        assert(part[i] == gates[i] && part[j] == gates[j]);
    }
    assert forall|i: int, j: int| 0 <= i <= j < part.len() implies (#[trigger] part[j]).2 != (
    #[trigger] part[i]).0 && part[j].2 != part[i].1 by {
        assert(part[i] == gates[i] && part[j] == gates[j]);
    }
}

/// One tick keeps the size of the store and the value of every wire that
/// no gate writes.
pub proof fn lemma_run_keeps(s: Seq<bool>, gates: Seq<Gate>)
    requires
        gates_in_range(gates, s.len()),
    ensures
        run(s, gates).len() == s.len(),
        forall|w: int| 0 <= w < s.len() && !written(gates, w) ==> run(s, gates)[w] == s[w],
    decreases gates.len(),
{
    if gates.len() > 0 {
        let shorter = gates.drop_last();
        assert(gates_in_range(shorter, s.len())) by {
            assert forall|i: int| 0 <= i < shorter.len() implies gate_in_range(
                #[trigger] shorter[i],
                s.len(),
            ) by {
                assert(shorter[i] == gates[i]);
            }
        }
        lemma_run_keeps(s, shorter);
        let g = gates.last();
        assert(gates[gates.len() - 1] == g);
        assert(gate_in_range(g, s.len()));
        assert forall|w: int| 0 <= w < s.len() && !written(gates, w) implies run(s, gates)[w]
            == s[w] by {
            if written(shorter, w) {
                let k = choose|k: int| 0 <= k < shorter.len() && (#[trigger] shorter[k]).2.0 == w;
                assert(gates[k] == shorter[k]);
                assert(written(gates, w));
            }
            assert(g.2.0 != w);
        }
    }
}

/// One tick of two lists of gates, one after the other, is one tick of the
/// first and then one tick of the second.
pub proof fn lemma_run_concat(s: Seq<bool>, first: Seq<Gate>, second: Seq<Gate>)
    ensures
        run(s, first + second) == run(run(s, first), second),
    decreases second.len(),
{
    if second.len() == 0 {
        assert(first + second =~= first);
    } else {
        lemma_run_concat(s, first, second.drop_last());
        assert((first + second).drop_last() =~= first + second.drop_last());
        assert((first + second).last() == second.last());
    }
}

/// Two combinational netlists, one after the other, are combinational
/// where the second writes no wire that the first reads or writes.
pub proof fn lemma_concat_combinational(first: Seq<Gate>, second: Seq<Gate>, size: nat)
    requires
        combinational(first, size),
        combinational(second, size),
        forall|i: int, j: int|
            0 <= i < first.len() && 0 <= j < second.len() ==> (#[trigger] second[j]).2 != (
            #[trigger] first[i]).0 && second[j].2 != first[i].1 && second[j].2 != first[i].2,
    ensures
        combinational(first + second, size),
{
    let all = first + second;
    let n = first.len() as int;
    assert forall|k: int| 0 <= k < all.len() implies gate_in_range(#[trigger] all[k], size)
        && all[k].2.0 >= 2 by {
        if k < n {
            assert(all[k] == first[k]);
            assert(gate_in_range(first[k], size));
        } else {
            assert(all[k] == second[k - n]);
            assert(gate_in_range(second[k - n], size));
        }
    }
    assert forall|i: int, j: int| 0 <= i < j < all.len() implies (#[trigger] all[i]).2 != (
    #[trigger] all[j]).2 by {
        if j < n {
            assert(all[i] == first[i] && all[j] == first[j]);
        } else if i >= n {
            assert(all[i] == second[i - n] && all[j] == second[j - n]);
        } else {
            assert(all[i] == first[i] && all[j] == second[j - n]);
        }
    }
    assert forall|i: int, j: int| 0 <= i <= j < all.len() implies (#[trigger] all[j]).2 != (
    #[trigger] all[i]).0 && all[j].2 != all[i].1 by {
        if j < n {
            assert(all[i] == first[i] && all[j] == first[j]);
        } else if i >= n {
            assert(all[i] == second[i - n] && all[j] == second[j - n]);
        } else {
            assert(all[i] == first[i] && all[j] == second[j - n]);
        }
    }
}

/// One tick of a netlist without state leaves values that satisfy every
/// gate.
pub proof fn lemma_run_models(s: Seq<bool>, gates: Seq<Gate>)
    requires
        gates_in_range(gates, s.len()),
        acyclic(gates),
    ensures
        models(run(s, gates), gates),
    decreases gates.len(),
{
    if gates.len() > 0 {
        let n = gates.len() - 1;
        let shorter = gates.drop_last();
        assert(shorter =~= gates.take(n));
        lemma_take_acyclic(gates, s.len(), n);
        lemma_run_models(s, shorter);
        lemma_run_keeps(s, shorter);
        let g = gates.last();
        assert(gates[n] == g);
        assert(gate_in_range(g, s.len()));
        let r = run(s, shorter);
        let after = run(s, gates);
        assert(after == fire(r, g));
        assert forall|k: int| 0 <= k < gates.len() implies holds(after, #[trigger] gates[k]) by {
            let h = gates[k];
            assert(gate_in_range(h, s.len()));
            assert(g.2 != h.0 && g.2 != h.1);
            if k < n {
                assert(shorter[k] == h);
                assert(holds(r, h));
                assert(h.2 != g.2);
            }
        }
    }
}

/// One tick of a combinational netlist, from a store in which the
/// constants hold, leaves a solution of the netlist.
pub proof fn lemma_run_solves(s: Seq<bool>, gates: Seq<Gate>)
    requires
        combinational(gates, s.len()),
        grounded(s),
    ensures
        solves(run(s, gates), s.len(), gates),
{
    lemma_run_models(s, gates);
    lemma_run_keeps(s, gates);
    assert(!written(gates, 0));
    assert(!written(gates, 1));
}

/// One tick of a netlist without state leaves the values `v` where `v`
/// satisfies every gate and is, on the wires that no gate writes, what the
/// store was.
pub proof fn lemma_run_determined(s: Seq<bool>, gates: Seq<Gate>, v: Seq<bool>)
    requires
        gates_in_range(gates, s.len()),
        acyclic(gates),
        v.len() == s.len(),
        models(v, gates),
        forall|w: int| 0 <= w < s.len() && !written(gates, w) ==> s[w] == v[w],
    ensures
        run(s, gates) == v,
{
    lemma_run_partly(s, gates, v, gates.len() as int);
    assert(gates.take(gates.len() as int) =~= gates);
    lemma_run_keeps(s, gates);
    assert(run(s, gates) =~= v);
}

/// After the first `k` gates of a netlist without state, the wires that
/// they write have their values of `v`, and the others what the store had.
proof fn lemma_run_partly(s: Seq<bool>, gates: Seq<Gate>, v: Seq<bool>, k: int)
    requires
        0 <= k <= gates.len(),
        gates_in_range(gates, s.len()),
        acyclic(gates),
        v.len() == s.len(),
        models(v, gates),
        forall|w: int| 0 <= w < s.len() && !written(gates, w) ==> s[w] == v[w],
    ensures
        run(s, gates.take(k)).len() == s.len(),
        forall|w: int|
            0 <= w < s.len() ==> run(s, gates.take(k))[w] == (if written(gates.take(k), w) {
                v[w]
            } else {
                s[w]
            }),
    decreases k,
{
    let part = gates.take(k);
    lemma_take_acyclic(gates, s.len(), k);
    lemma_run_keeps(s, part);
    if k > 0 {
        let shorter = gates.take(k - 1);
        assert(part.drop_last() =~= shorter);
        lemma_run_partly(s, gates, v, k - 1);
        let g = gates[k - 1];
        assert(part.last() == g);
        assert(part[k - 1] == g);
        assert(gate_in_range(g, s.len()));
        assert(holds(v, g));
        let r = run(s, shorter);
        assert(run(s, part) == fire(r, g));
        assert forall|x: int|
            (x == g.0.0 || x == g.1.0) && !written(shorter, x) implies !written(gates, x) by {
            if written(gates, x) {
                let j = choose|j: int| 0 <= j < gates.len() && (#[trigger] gates[j]).2.0 == x;
                if j < k - 1 {
                    assert(shorter[j] == gates[j]);
                    assert(written(shorter, x));
                } else {
                    assert(gates[j].2 != gates[k - 1].0 && gates[j].2 != gates[k - 1].1);
                }
            }
        }
        assert(r[g.0.0 as int] == v[g.0.0 as int]);
        assert(r[g.1.0 as int] == v[g.1.0 as int]);
        assert forall|w: int| 0 <= w < s.len() implies run(s, part)[w] == (if written(part, w) {
            v[w]
        } else {
            s[w]
        }) by {
            if w == g.2.0 {
                assert(written(part, w));
            } else {
                if written(shorter, w) {
                    let j = choose|j: int|
                        0 <= j < shorter.len() && (#[trigger] shorter[j]).2.0 == w;
                    assert(part[j] == shorter[j]);
                    assert(written(part, w));
                }
                if written(part, w) {
                    let j = choose|j: int| 0 <= j < part.len() && (#[trigger] part[j]).2.0 == w;
                    assert(j < k - 1);
                    assert(shorter[j] == part[j]);
                    assert(written(shorter, w));
                }
            }
        }
    } else {
        assert(!exists|j: int| 0 <= j < part.len() && (#[trigger] part[j]).2.0 == 0);
        assert forall|w: int| 0 <= w < s.len() implies !written(part, w) by {}
    }
}

} // verus!
