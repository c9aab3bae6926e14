//! Where components come from when a circuit starts without any: the first
//! use of the negation, of the half adder and of the adder synthesizes
//! them from their descriptions.

use vstd::prelude::*;
use crate::bundle::Wiring;
use crate::circuit::Circuit;
use crate::component::{chained, described, placed, synthesized, used, Description};
use crate::bundle::Bundle;
use crate::components::add::{
    add_leaf, add_leaves, carry_into, half_added, placed_leaf, Add, HalfAdd, ADD, HALF_ADD,
};
use crate::components::not::{Not, NOT};
use crate::memo::{keyed, lemma_place, Template};
use crate::wire::Wire;

verus! {

/// The first use of the negation of one wire has synthesized it: the
/// component that the memo has gained was made from the description.
pub proof fn lemma_not_first(before: &Circuit, after: &Circuit) -> (r: (
    Circuit,
    Circuit,
    Circuit,
    (Wire, Wire),
))
    requires
        described::<(Wire, Wire), Not>(before, after, &Not),
        !before.memo.has(NOT, 2),
    ensures
        synthesized::<(Wire, Wire), Not>(
            &Not,
            &before.memo,
            &r.0,
            &r.1,
            &r.2,
            r.3,
            &after.memo.template(NOT, 2),
        ),
        after.memo.has(NOT, 2),
        after.memo.templates@ == before.memo.templates@.push(after.memo.template(NOT, 2)),
{
    let (c0, c1, c2, ports, t) = choose|
        c0: Circuit,
        c1: Circuit,
        c2: Circuit,
        ports: (Wire, Wire),
        t: Template,
    |
        #[trigger] synthesized::<(Wire, Wire), Not>(&Not, &before.memo, &c0, &c1, &c2, ports, &t)
            && after.memo.templates@ == (if c1.memo.has(NOT, 2) {
            c1.memo.templates@
        } else {
            c1.memo.templates@.push(t)
        });
    assert(c1.memo == c0.memo);
    assert(c0.memo == before.memo);
    let all = after.memo.templates@;
    let i = before.memo.templates@.len() as int;
    assert(all == before.memo.templates@.push(t));
    assert(all[i] == t);
    assert(keyed(all, i, NOT, 2));
    assert forall|j: int| 0 <= j < i implies !keyed(all, j, NOT, 2) by {
        assert(all[j] == before.memo.templates@[j]);
        assert(!keyed(before.memo.templates@, j, NOT, 2));
    }
    lemma_place(all, NOT, 2, i);
    (c0, c1, c2, ports)
}

/// The first use of the half adder, in a memo that has no negation
/// either, has synthesized both: the half adder from its description, and
/// on the way the negation that it uses.
pub proof fn lemma_half_first(before: &Circuit, after: &Circuit) -> (r: (
    Circuit,
    Circuit,
    Circuit,
    (Wire, Wire, Wire, Wire),
    Circuit,
    Circuit,
    Circuit,
    (Wire, Wire),
))
    requires
        described::<(Wire, Wire, Wire, Wire), HalfAdd>(before, after, &HalfAdd),
        !before.memo.has(HALF_ADD, 4),
        !before.memo.has(NOT, 2),
    ensures
        synthesized::<(Wire, Wire, Wire, Wire), HalfAdd>(
            &HalfAdd,
            &before.memo,
            &r.0,
            &r.1,
            &r.2,
            r.3,
            &after.memo.template(HALF_ADD, 4),
        ),
        synthesized::<(Wire, Wire), Not>(
            &Not,
            &before.memo,
            &r.4,
            &r.5,
            &r.6,
            r.7,
            &r.1.memo.template(NOT, 2),
        ),
        r.1.memo.template(NOT, 2).wf(),
        after.memo.has(HALF_ADD, 4),
        after.memo.templates@ == before.memo.templates@.push(r.1.memo.template(NOT, 2)).push(
            after.memo.template(HALF_ADD, 4),
        ),
        r.1.memo.template(NOT, 2).id == NOT,
        after.memo.template(HALF_ADD, 4).id == HALF_ADD,
{
    let (h0, h1, h2, hports, t) = choose|
        h0: Circuit,
        h1: Circuit,
        h2: Circuit,
        hports: (Wire, Wire, Wire, Wire),
        t: Template,
    |
        #[trigger] synthesized::<(Wire, Wire, Wire, Wire), HalfAdd>(
            &HalfAdd,
            &before.memo,
            &h0,
            &h1,
            &h2,
            hports,
            &t,
        ) && after.memo.templates@ == (if h1.memo.has(HALF_ADD, 4) {
            h1.memo.templates@
        } else {
            h1.memo.templates@.push(t)
        });
    assert(HalfAdd.built(&h0, &h1, hports));
    let mid = choose|mid: Circuit| #[trigger] half_added(&h0, &mid, &h1, hports);
    assert(mid.memo == before.memo);
    let n = h0.wires.len();
    let x = Wire(n as usize);
    let args = seq![x, hports.3];
    assert(used::<(Wire, Wire), Not>(&mid, &h1, &Not, args));
    assert(placed(&mid, &h1, NOT, args));
    let (n0, n1, n2, nports) = lemma_not_first(&mid, &h1);
    let tn = h1.memo.template(NOT, 2);
    let mine = h1.memo.templates@;
    let base = before.memo.templates@;
    assert(mine == base.push(tn));
    crate::memo::lemma_place_first(mine, NOT, 2);
    assert(tn.wf());
    assert(tn.id == NOT);
    assert(!h1.memo.has(HALF_ADD, 4)) by {
        if h1.memo.has(HALF_ADD, 4) {
            let j = choose|j: int| keyed(mine, j, HALF_ADD, 4);
            if j < base.len() {
                assert(mine[j] == base[j]);
                assert(keyed(base, j, HALF_ADD, 4));
            } else {
                assert(mine[j] == tn);
            }
        }
    }
    let all = after.memo.templates@;
    let i = mine.len() as int;
    assert(all == mine.push(t));
    assert(all[i] == t);
    assert(keyed(all, i, HALF_ADD, 4));
    assert forall|j: int| 0 <= j < i implies !keyed(all, j, HALF_ADD, 4) by {
        assert(all[j] == mine[j]);
        assert(!keyed(mine, j, HALF_ADD, 4));
    }
    lemma_place(all, HALF_ADD, 4, i);
    (h0, h1, h2, hports, n0, n1, n2, nports)
}

/// A place of an adder leaves the memo as it is once the half adder is in
/// it.
pub proof fn lemma_place_same(
    before: &Circuit,
    m1: &Circuit,
    m2: &Circuit,
    m3: &Circuit,
    after: &Circuit,
    a: Wire,
    b: Wire,
    c: Wire,
    o: Wire,
)
    requires
        placed_leaf(before, m1, m2, m3, after, a, b, c, o),
        before.memo.has(HALF_ADD, 4),
    ensures
        after.memo == before.memo,
{
    let n = before.wires.len();
    let o0 = Wire(n);
    let c0 = Wire((n + 1) as usize);
    let c1 = Wire((n + 2) as usize);
    assert(m1.memo == before.memo);
    assert(placed(m1, m2, HALF_ADD, seq![a, b, o0, c0]));
    assert(m2.memo == m1.memo);
    assert(placed(m2, m3, HALF_ADD, seq![o0, c, o, c1]));
    assert(m3.memo == m2.memo);
    assert(after.memo == m3.memo);
}

/// As the law before this one, for the place between two circuits of
/// which only the adder of one place is known.
pub proof fn lemma_leaf_same(before: &Circuit, after: &Circuit, i: int, a: Wire, b: Wire, o: Wire)
    requires
        add_leaf(before, after, i, a, b, o),
        before.memo.has(HALF_ADD, 4),
    ensures
        after.memo == before.memo,
{
    let cin = carry_into(before, i);
    let (m1, m2, m3) = choose|m1: Circuit, m2: Circuit, m3: Circuit| #[trigger]
        placed_leaf(before, &m1, &m2, &m3, after, a, b, cin, o);
    lemma_place_same(before, &m1, &m2, &m3, after, a, b, cin, o);
}

/// Once the half adder is in the memo, the places of an adder leave the
/// memo as it is.
pub proof fn lemma_add_memo(
    trail: Seq<Circuit>,
    a: Seq<Wire>,
    b: Seq<Wire>,
    o: Seq<Wire>,
    j: int,
)
    requires
        chained(trail, add_leaves(a, b, o)),
        1 <= j < trail.len(),
        trail[1].memo.has(HALF_ADD, 4),
    ensures
        trail[j].memo == trail[1].memo,
    decreases j,
{
    if j > 1 {
        lemma_add_memo(trail, a, b, o, j - 1);
        let before = trail[j - 1];
        let after = trail[j];
        assert(add_leaves(a, b, o)(before, after, j - 1));
        lemma_leaf_same(&before, &after, j - 1, a[j - 1], b[j - 1], o[j - 1]);
    }
}

/// The first place of an adder on a circuit whose memo is empty has
/// synthesized the half adder and the negation, and the memo holds those
/// two from then on.
pub proof fn lemma_add_first_place(before: &Circuit, after: &Circuit, a: Wire, b: Wire, o: Wire)
    -> (r: (
    Circuit,
    Circuit,
    Circuit,
    (Wire, Wire, Wire, Wire),
    Circuit,
    Circuit,
    Circuit,
    (Wire, Wire),
))
    requires
        add_leaf(before, after, 0, a, b, o),
        before.memo.templates@ == Seq::<Template>::empty(),
    ensures
        synthesized::<(Wire, Wire, Wire, Wire), HalfAdd>(
            &HalfAdd,
            &before.memo,
            &r.0,
            &r.1,
            &r.2,
            r.3,
            &after.memo.template(HALF_ADD, 4),
        ),
        synthesized::<(Wire, Wire), Not>(
            &Not,
            &before.memo,
            &r.4,
            &r.5,
            &r.6,
            r.7,
            &r.1.memo.template(NOT, 2),
        ),
        r.1.memo.template(NOT, 2).wf(),
        after.memo.has(HALF_ADD, 4),
        after.memo.templates@ == seq![
            r.1.memo.template(NOT, 2),
            after.memo.template(HALF_ADD, 4),
        ],
        r.1.memo.template(NOT, 2).id == NOT,
        after.memo.template(HALF_ADD, 4).id == HALF_ADD,
{
    let cin = carry_into(before, 0);
    let (m1, m2, m3) = choose|m1: Circuit, m2: Circuit, m3: Circuit| #[trigger]
        placed_leaf(before, &m1, &m2, &m3, after, a, b, cin, o);
    let n = before.wires.len();
    let o0 = Wire(n);
    let c0 = Wire((n + 1) as usize);
    let c1 = Wire((n + 2) as usize);
    assert(m1.memo == before.memo);
    assert(used::<(Wire, Wire, Wire, Wire), HalfAdd>(&m1, &m2, &HalfAdd, seq![a, b, o0, c0]));
    assert forall|id: u64, k: nat| !before.memo.has(id, k) by {
        if before.memo.has(id, k) {
            let j = choose|j: int| keyed(before.memo.templates@, j, id, k);
        }
    }
    let r = lemma_half_first(&m1, &m2);
    assert(placed(&m2, &m3, HALF_ADD, seq![o0, cin, o, c1]));
    assert(m3.memo == m2.memo);
    assert(after.memo == m3.memo);
    assert(after.memo.templates@ =~= seq![
        r.1.memo.template(NOT, 2),
        after.memo.template(HALF_ADD, 4),
    ]);
    r
}

/// The places of an adder on a circuit whose memo is empty have
/// synthesized the half adder and the negation, and leave a memo that holds
/// those two.
pub proof fn lemma_add_trail_first(
    trail: Seq<Circuit>,
    a: Seq<Wire>,
    b: Seq<Wire>,
    o: Seq<Wire>,
    w: nat,
) -> (r: (
    Circuit,
    Circuit,
    Circuit,
    (Wire, Wire, Wire, Wire),
    Circuit,
    Circuit,
    Circuit,
    (Wire, Wire),
))
    requires
        chained(trail, add_leaves(a, b, o)),
        trail.len() == w + 1,
        w > 0,
        trail[0].memo.templates@ == Seq::<Template>::empty(),
    ensures
        synthesized::<(Wire, Wire, Wire, Wire), HalfAdd>(
            &HalfAdd,
            &trail[0].memo,
            &r.0,
            &r.1,
            &r.2,
            r.3,
            &trail[w as int].memo.template(HALF_ADD, 4),
        ),
        synthesized::<(Wire, Wire), Not>(
            &Not,
            &trail[0].memo,
            &r.4,
            &r.5,
            &r.6,
            r.7,
            &r.1.memo.template(NOT, 2),
        ),
        r.1.memo.template(NOT, 2).wf(),
        trail[w as int].memo.templates@.len() == 2,
        trail[w as int].memo.templates@[0].id == NOT,
        trail[w as int].memo.templates@[1].id == HALF_ADD,
{
    let first = trail[0];
    let second = trail[1];
    assert(add_leaves(a, b, o)(first, second, 0));
    let r = lemma_add_first_place(&first, &second, a[0], b[0], o[0]);
    lemma_add_memo(trail, a, b, o, w as int);
    r
}

/// The first use of the adder on a circuit whose memo is empty has
/// synthesized the adder from its description, and on the way the half
/// adder and the negation from theirs.
pub proof fn lemma_add_parts<T: Wiring>(before: &Circuit, after: &Circuit) -> (r: (
    Circuit,
    Circuit,
    Circuit,
    (T, T, T),
    Circuit,
    Circuit,
    Circuit,
    (Wire, Wire, Wire, Wire),
    Circuit,
    Circuit,
    Circuit,
    (Wire, Wire),
))
    requires
        T::width() > 0,
        described::<(T, T, T), Add>(before, after, &Add),
        before.memo.templates@ == Seq::<Template>::empty(),
    ensures
        synthesized::<(T, T, T), Add>(
            &Add,
            &before.memo,
            &r.0,
            &r.1,
            &r.2,
            r.3,
            &after.memo.template(ADD, 3 * T::width()),
        ),
        synthesized::<(Wire, Wire, Wire, Wire), HalfAdd>(
            &HalfAdd,
            &before.memo,
            &r.4,
            &r.5,
            &r.6,
            r.7,
            &r.1.memo.template(HALF_ADD, 4),
        ),
        synthesized::<(Wire, Wire), Not>(
            &Not,
            &before.memo,
            &r.8,
            &r.9,
            &r.10,
            r.11,
            &r.5.memo.template(NOT, 2),
        ),
        r.5.memo.template(NOT, 2).wf(),
        after.memo.has(ADD, 3 * T::width()),
{
    let w = T::width();
    assert forall|id: u64, k: nat| !before.memo.has(id, k) by {
        if before.memo.has(id, k) {
            let j = choose|j: int| keyed(before.memo.templates@, j, id, k);
        }
    }
    let (c0, c1, c2, ports, t) = choose|
        c0: Circuit,
        c1: Circuit,
        c2: Circuit,
        ports: (T, T, T),
        t: Template,
    |
        #[trigger] synthesized::<(T, T, T), Add>(&Add, &before.memo, &c0, &c1, &c2, ports, &t)
            && after.memo.templates@ == (if c1.memo.has(ADD, 3 * w) {
            c1.memo.templates@
        } else {
            c1.memo.templates@.push(t)
        });
    let a = ports.0.leaves();
    let b = ports.1.leaves();
    let o = ports.2.leaves();
    let steps = add_leaves(a, b, o);
    assert(Add.built(&c0, &c1, ports));
    let trail = choose|trail: Seq<Circuit>|
        #![trigger chained(trail, steps)]
        trail.len() == w + 1 && trail[0] == c0 && trail[w as int] == c1 && chained(trail, steps);
    let h = lemma_add_trail_first(trail, a, b, o, w);
    let mine = c1.memo.templates@;
    let n = 3 * w;
    assert(!c1.memo.has(ADD, n)) by {
        if c1.memo.has(ADD, n) {
            let j = choose|j: int| keyed(mine, j, ADD, n);
            assert(j == 0 || j == 1);
        }
    }
    let all = after.memo.templates@;
    assert(all == mine.push(t));
    assert(all[2] == t);
    assert(keyed(all, 2, ADD, n));
    assert forall|j: int| 0 <= j < 2 implies !keyed(all, j, ADD, n) by {
        assert(all[j] == mine[j]);
    }
    lemma_place(all, ADD, n, 2);
    (c0, c1, c2, ports, h.0, h.1, h.2, h.3, h.4, h.5, h.6, h.7)
}

} // verus!
