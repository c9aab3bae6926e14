//! Tick after tick. Between two ticks the external inputs that no gate
//! writes may be given new values; what an optimized combinational netlist
//! leaves is then, after every tick, what the netlist left before it was
//! optimized.

use vstd::prelude::*;
use crate::circuit::{run, Circuit, Gate};
use crate::combinational::{
    combinational, fresh, grounded, lemma_run_determined, lemma_run_keeps, lemma_run_models,
    written,
};
use crate::optimize::{carried, optimized, pulled, rests, sound};
use crate::order::{inert, preserved};

verus! {

/// The store `s` with new values for the external inputs: each wire among
/// the first `fixed`, the constants left out, that no gate of `gates`
/// writes gets its value of `values`.
pub open spec fn fed(s: Seq<bool>, gates: Seq<Gate>, fixed: nat, values: Seq<bool>) -> Seq<bool> {
    Seq::new(
        s.len(),
        |w: int|
            if 2 <= w < fixed && !written(gates, w) {
                values[w]
            } else {
                s[w]
            },
    )
}

/// The store after `k` ticks of `gates` from the store `s`, where before
/// tick `i` the external inputs get the values `values[i]`; `inputs` are
/// the gates that say which wires are external inputs.
pub open spec fn ticked(
    gates: Seq<Gate>,
    inputs: Seq<Gate>,
    fixed: nat,
    s: Seq<bool>,
    values: Seq<Seq<bool>>,
    k: nat,
) -> Seq<bool>
    decreases k,
{
    if k == 0 {
        s
    } else {
        run(
            fed(
                ticked(gates, inputs, fixed, s, values, (k - 1) as nat),
                inputs,
                fixed,
                values[k - 1],
            ),
            gates,
        )
    }
}

/// Whether the store `u` can be the store of the netlist `gates` between
/// two ticks: the constants hold, and such wires read FALSE as are not
/// fixed and have no writer, or have a writer and are left as they were by
/// one tick from whatever fresh store.
pub open spec fn between(u: Seq<bool>, gates: Seq<Gate>, size: nat, fixed: nat) -> bool {
    &&& u.len() == size
    &&& grounded(u)
    &&& forall|w: int| fixed <= w < size && !written(gates, w) ==> !(#[trigger] u[w])
    &&& forall|r: int|
        0 <= r < size && written(gates, r) && inert(gates, size, fixed, r) ==> !(#[trigger] u[r])
}

/// One tick of an optimized netlist, after the inputs were given anew,
/// follows one tick of the netlist that it was made from.
pub proof fn lemma_tick_follows(
    before: Seq<Gate>,
    size: nat,
    after: Seq<Gate>,
    fixed: nat,
    back: Seq<usize>,
    u: Seq<bool>,
    values: Seq<bool>,
)
    requires
        combinational(before, size),
        combinational(after, back.len()),
        2 <= fixed,
        back.len() <= size,
        sound(before, size, after, fixed, back),
        preserved(before, size, after, fixed, back),
        rests(before, size, after, fixed, back),
        between(u, before, size, fixed),
    ensures
        run(fed(pulled(u, back), before, fixed, values), after) == pulled(
            run(fed(u, before, fixed, values), before),
            back,
        ),
        between(run(fed(u, before, fixed, values), before), before, size, fixed),
{
    let n = back.len() as int;
    let next = fed(u, before, fixed, values);
    let other = fed(pulled(u, back), before, fixed, values);
    assert(!written(before, 0) && !written(before, 1));
    assert forall|y: int| fixed <= y < n implies (#[trigger] back[y]) >= fixed by {
        assert(back[(fixed - 1) as int] < back[y]);
    }
    assert(other =~= pulled(next, back));
    // the store as it would be had the circuit just been built
    let f = Seq::new(size, |w: int| if written(before, w) { false } else { next[w] });
    assert(fresh(f, before, fixed));
    let v = run(f, before);
    lemma_run_models(f, before);
    lemma_run_keeps(f, before);
    lemma_run_determined(next, before, v);
    let cut = f.take(n);
    let v2 = run(cut, after);
    lemma_run_models(cut, after);
    lemma_run_keeps(cut, after);
    assert forall|y: int| 0 <= y < n && !written(after, y) implies other[y] == v2[y] by {
        let r = back[y] as int;
        assert(inert(before, size, fixed, r));
        assert(v2[y] == f[y]);
        assert(other[y] == next[r]);
        if y < fixed {
            assert(r == y);
            if written(before, y) {
                assert(!u[y]);
            }
        } else {
            assert(r >= fixed);
            if written(before, r) {
                assert(!u[r]);
            } else {
                assert(!u[r]);
            }
            if !written(before, y) {
                assert(!u[y]);
            }
        }
    }
    lemma_run_determined(other, after, v2);
    assert(v2 == pulled(v, back));
    let w = run(next, before);
    assert(w == v);
    assert forall|r: int|
        0 <= r < size && written(before, r) && inert(before, size, fixed, r) implies !(
    #[trigger] w[r]) by {
        assert(v[r] == f[r]);
    }
}

/// After every tick an optimized combinational netlist has left what the
/// netlist that it was made from has left, from whatever fresh store and
/// whatever values the inputs were given between the ticks.
pub proof fn lemma_ticks_follow(
    before: Seq<Gate>,
    size: nat,
    after: Seq<Gate>,
    fixed: nat,
    back: Seq<usize>,
    s: Seq<bool>,
    values: Seq<Seq<bool>>,
    k: nat,
)
    requires
        combinational(before, size),
        combinational(after, back.len()),
        2 <= fixed,
        back.len() <= size,
        sound(before, size, after, fixed, back),
        preserved(before, size, after, fixed, back),
        rests(before, size, after, fixed, back),
        s.len() == size,
        fresh(s, before, fixed),
    ensures
        ticked(after, before, fixed, pulled(s, back), values, k) == pulled(
            ticked(before, before, fixed, s, values, k),
            back,
        ),
        between(ticked(before, before, fixed, s, values, k), before, size, fixed),
    decreases k,
{
    if k > 0 {
        lemma_ticks_follow(before, size, after, fixed, back, s, values, (k - 1) as nat);
        let u = ticked(before, before, fixed, s, values, (k - 1) as nat);
        lemma_tick_follows(before, size, after, fixed, back, u, values[k - 1]);
    }
}

/// Optimizing a combinational netlist changes nothing that can be seen
/// from outside, tick after tick: after every tick every fixed wire reads
/// what it read after as many ticks before the netlist was optimized, from
/// whatever fresh store and whatever values the inputs were given between
/// the ticks.
pub proof fn lemma_optimized_ticks(
    before: &Circuit,
    after: &Circuit,
    s: Seq<bool>,
    values: Seq<Seq<bool>>,
    k: nat,
    p: int,
)
    requires
        optimized(before, after),
        before.wf(),
        combinational(before.nands@, before.wires.len() as nat),
        s.len() == before.wires.len(),
        fresh(s, before.nands@, (before.inputs + 2) as nat),
        0 <= p < before.inputs + 2,
    ensures
        ticked(
            after.nands@,
            before.nands@,
            (before.inputs + 2) as nat,
            s.take(after.wires.len() as int),
            values,
            k,
        )[p] == ticked(before.nands@, before.nands@, (before.inputs + 2) as nat, s, values, k)[p],
{
    let fixed = (before.inputs + 2) as nat;
    let size = before.wires.len() as nat;
    let (back, picks, rep) = choose|back: Seq<usize>, picks: Seq<int>, rep: Seq<nat>|
        back.len() == after.wires.len() && #[trigger] carried(
            before.nands@,
            size,
            after.nands@,
            fixed,
            back,
            picks,
            rep,
        );
    assert forall|y: int| fixed <= y < back.len() implies (#[trigger] back[y]) >= fixed by {
        assert(back[(fixed - 1) as int] < back[y]);
    }
    assert(pulled(s, back) =~= s.take(back.len() as int));
    lemma_ticks_follow(before.nands@, size, after.nands@, fixed, back, s, values, k);
    assert(back[p] == p);
}

} // verus!
