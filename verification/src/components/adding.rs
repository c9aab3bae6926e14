//! What the adder computes.

use vstd::prelude::*;
use crate::bundle::{Bundle, Wiring};
use crate::circuit::{
    consecutive, gate_in_range, gates_in_range, run, wires_in_range, Circuit, Gate,
};
use crate::combinational::{
    combinational, fresh, lemma_concat_combinational, lemma_run_concat, lemma_run_keeps, written,
};
use crate::component::{
    chained, entered, lemma_copy_again, lemma_outputs_apart, lemma_spliced_all,
    lemma_spliced_stateless, lemma_spliced_touches, lively, placed, synthesized, Description,
};
use crate::components::add::{
    add_leaf, add_leaves, carry_into, lemma_half_add_built, lemma_half_add_copy, placed_leaf, Add,
    HalfAdd, HALF_ADD,
};
use crate::components::not::{Not, NOT};
use crate::components::xor::{lemma_xor_computes, lemma_xor_writes, xor_gates};
use crate::memo::{lemma_extends_keeps, spliced, Memo, Template};
use crate::optimize::optimized;
use crate::wire::Wire;

verus! {

/// Whether at least two of three bits are TRUE.
pub open spec fn majority(a: bool, b: bool, c: bool) -> bool {
    (a && b) || (a && c) || (b && c)
}

/// The gates of one place of the adder, where the half adder has the gates
/// `half` and `inner` wires of its own: seven fresh wires from `base` on
/// and, between them, a copy of the half adder for the two bits, one for
/// their sum and the carry that comes in, and the exclusive or of the two
/// carries.
pub open spec fn place_gates(
    half: Seq<Gate>,
    inner: nat,
    a: Wire,
    b: Wire,
    cin: Wire,
    o: Wire,
    base: nat,
) -> Seq<Gate> {
    let o0 = Wire(base as usize);
    let c0 = Wire((base + 1) as usize);
    let c1 = Wire((base + 2) as usize);
    let c2 = Wire((base + 3) as usize);
    spliced(half, seq![a, b, o0, c0], base + 4) + spliced(
        half,
        seq![o0, cin, o, c1],
        base + 4 + inner,
    ) + xor_gates(seq![c0], seq![c1], seq![c2], base + 4 + 2 * inner)
}

/// One place of the adder adds three bits. Where the half adder and the
/// negation that it uses were made from their descriptions, the two bits,
/// the carry that comes in and the output are wires that the circuit had,
/// the output no constant and none of the others, and the fresh wires of
/// the place read FALSE, one tick of the gates of the place leaves the sum
/// bit on the output and the carry on the fourth of the fresh wires, and
/// leaves every other wire that the circuit had, and every wire after the
/// fresh wires of the place, as it was.
pub proof fn lemma_add_place(
    th: &Template,
    he: &Memo,
    h0: &Circuit,
    h1: &Circuit,
    h2: &Circuit,
    hports: (Wire, Wire, Wire, Wire),
    ne: &Memo,
    n0: &Circuit,
    n1: &Circuit,
    n2: &Circuit,
    nports: (Wire, Wire),
    a: Wire,
    b: Wire,
    cin: Wire,
    o: Wire,
    base: nat,
    v: Seq<bool>,
)
    requires
        synthesized::<(Wire, Wire, Wire, Wire), HalfAdd>(&HalfAdd, he, h0, h1, h2, hports, th),
        synthesized::<(Wire, Wire), Not>(&Not, ne, n0, n1, n2, nports, &h1.memo.template(NOT, 2)),
        h1.memo.template(NOT, 2).wf(),
        2 <= base,
        a.0 < base,
        b.0 < base,
        cin.0 < base,
        2 <= o.0 < base,
        o != a,
        o != b,
        o != cin,
        base + 7 + 2 * th.inner() <= v.len() <= usize::MAX,
        !v[0],
        v[1],
        forall|c: int| base <= c < base + 7 + 2 * th.inner() ==> !(#[trigger] v[c]),
    ensures
        run(v, place_gates(th.nands@, th.inner(), a, b, cin, o, base)).len() == v.len(),
        run(v, place_gates(th.nands@, th.inner(), a, b, cin, o, base))[o.0 as int] == ((v[a.0 as int]
            != v[b.0 as int]) != v[cin.0 as int]),
        run(v, place_gates(th.nands@, th.inner(), a, b, cin, o, base))[base as int + 3] == majority(
            v[a.0 as int],
            v[b.0 as int],
            v[cin.0 as int],
        ),
        forall|c: int|
            0 <= c < base && c != o.0 ==> run(
                v,
                place_gates(th.nands@, th.inner(), a, b, cin, o, base),
            )[c] == v[c],
        forall|c: int|
            base + 7 + 2 * th.inner() <= c < v.len() ==> run(
                v,
                place_gates(th.nands@, th.inner(), a, b, cin, o, base),
            )[c] == v[c],
{
    let h = th.inner();
    let o0 = Wire(base as usize);
    let c0 = Wire((base + 1) as usize);
    let c1 = Wire((base + 2) as usize);
    let c2 = Wire((base + 3) as usize);
    let args1 = seq![a, b, o0, c0];
    let args2 = seq![o0, cin, o, c1];
    let start1 = base + 4;
    let start2 = base + 4 + h;
    let start3 = base + 4 + 2 * h;
    let first = spliced(th.nands@, args1, start1);
    let second = spliced(th.nands@, args2, start2);
    let third = xor_gates(seq![c0], seq![c1], seq![c2], start3);
    let s1 = run(v, first);
    assert(args1[0] == a && args1[1] == b && args1[2] == o0 && args1[3] == c0);
    lemma_half_add_copy(th, he, h0, h1, h2, hports, ne, n0, n1, n2, nports, args1, start1, v);
    let s2 = run(s1, second);
    assert(args2[0] == o0 && args2[1] == cin && args2[2] == o && args2[3] == c1);
    assert forall|w: int| start2 <= w < v.len() implies #[trigger] s1[w] == v[w] by {}
    assert(!s1[0] && s1[1]);
    lemma_half_add_copy(th, he, h0, h1, h2, hports, ne, n0, n1, n2, nports, args2, start2, s1);
    let s3 = run(s2, third);
    let xa = seq![c0];
    let xb = seq![c1];
    let xo = seq![c2];
    assert(xa[0] == c0 && xb[0] == c1 && xo[0] == c2);
    lemma_xor_computes(s2, xa, xb, xo, start3, 0);
    lemma_xor_writes(xa, xb, xo, start3, v.len());
    lemma_run_keeps(s2, third);
    assert forall|c: int| 0 <= c < v.len() && c != base + 3 && !(start3 <= c < start3 + 3)
        implies s3[c] == s2[c] by {
        if written(third, c) {
            let k = choose|k: int| 0 <= k < third.len() && (#[trigger] third[k]).2.0 == c;
            let w = third[k].2;
            if !(start3 <= w.0 < start3 + 3) {
                let j = choose|j: int| 0 <= j < xo.len() && xo[j] == w;
                assert(xo[j] == c2);
            }
        }
    }
    assert forall|w: int| start3 <= w < v.len() implies #[trigger] s2[w] == s1[w] by {}
    lemma_run_concat(v, first, second);
    lemma_run_concat(v, first + second, third);
    assert(run(v, place_gates(th.nands@, h, a, b, cin, o, base)) == s3);
    assert(s1[base as int] == (v[a.0 as int] != v[b.0 as int]));
    assert(s1[base as int + 1] == (v[a.0 as int] && v[b.0 as int]));
    assert(s1[cin.0 as int] == v[cin.0 as int]);
    assert(s2[o.0 as int] == (s1[base as int] != s1[cin.0 as int]));
    assert(s2[base as int + 2] == (s1[base as int] && s1[cin.0 as int]));
    assert(s2[base as int + 1] == s1[base as int + 1]);
    assert(s3[base as int + 3] == (s2[base as int + 1] != s2[base as int + 2]));
}

/// The carry into place `k` of an adder over numbers of `w` bits, from
/// the store `e` of its ports: the first number from the third wire on,
/// then the second.
pub open spec fn carry_bit(e: Seq<bool>, w: nat, k: nat) -> bool
    decreases k,
{
    if k == 0 {
        false
    } else {
        majority(e[2 + k - 1], e[2 + w + k - 1], carry_bit(e, w, (k - 1) as nat))
    }
}

/// Bit `k` of the sum of the two numbers on the ports.
pub open spec fn sum_bit(e: Seq<bool>, w: nat, k: nat) -> bool {
    (e[2 + k as int] != e[2 + w as int + k as int]) != carry_bit(e, w, k)
}

/// A memo that extends a memo that extends a third extends the third.
pub proof fn lemma_extends_twice(later: &Memo, mid: &Memo, earlier: &Memo)
    requires
        later.extends(mid),
        mid.extends(earlier),
    ensures
        later.extends(earlier),
{
    assert forall|i: int| 0 <= i < earlier.templates.len() implies (#[trigger] later.templates[i])
        == earlier.templates[i] by {
        assert(mid.templates[i] == earlier.templates[i]);
    }
}

/// One place of the adder as gates. Where `later` is a memo that extends
/// the memo after the place, the place has appended the gates of one place
/// with the half adder of `later`, and seven wires and twice those of the
/// half adder.
pub proof fn lemma_place_shape(
    before: &Circuit,
    m1: &Circuit,
    m2: &Circuit,
    m3: &Circuit,
    after: &Circuit,
    a: Wire,
    b: Wire,
    c: Wire,
    o: Wire,
    later: &Memo,
)
    requires
        placed_leaf(before, m1, m2, m3, after, a, b, c, o),
        later.extends(&after.memo),
    ensures
        later.has(HALF_ADD, 4),
        after.memo.has(HALF_ADD, 4),
        after.memo.template(HALF_ADD, 4) == later.template(HALF_ADD, 4),
        after.memo.extends(&before.memo),
        after.inputs == before.inputs,
        after.wires.len() == before.wires.len() + 7 + 2 * later.template(HALF_ADD, 4).inner(),
        after.nands@ == before.nands@ + place_gates(
            later.template(HALF_ADD, 4).nands@,
            later.template(HALF_ADD, 4).inner(),
            a,
            b,
            c,
            o,
            before.wires.len() as nat,
        ),
{
    let n = before.wires.len();
    let o0 = Wire(n);
    let c0 = Wire((n + 1) as usize);
    let c1 = Wire((n + 2) as usize);
    let args1 = seq![a, b, o0, c0];
    let args2 = seq![o0, c, o, c1];
    assert(placed(m1, m2, HALF_ADD, args1));
    assert(placed(m2, m3, HALF_ADD, args2));
    lemma_extends_twice(&after.memo, &m2.memo, &m1.memo);
    lemma_extends_twice(later, &after.memo, &m2.memo);
    lemma_extends_keeps(later, &m2.memo, HALF_ADD, 4);
    lemma_extends_keeps(later, &m3.memo, HALF_ADD, 4);
    lemma_extends_keeps(later, &after.memo, HALF_ADD, 4);
    let th = later.template(HALF_ADD, 4);
    assert(m1.wires@.len() == n + 4);
    assert(m2.wires@.len() == n + 4 + th.inner());
    assert(m3.wires@.len() == n + 4 + 2 * th.inner());
    assert(after.wires@.len() == m3.wires@.len() + 3);
    assert(after.nands@ =~= before.nands@ + place_gates(
        th.nands@,
        th.inner(),
        a,
        b,
        c,
        o,
        n as nat,
    ));
}

/// One place of the adder as gates, as the law before this one, for the
/// place between two circuits of which only the adder of one place is
/// known.
pub proof fn lemma_leaf_shape(
    before: &Circuit,
    after: &Circuit,
    i: int,
    a: Wire,
    b: Wire,
    o: Wire,
    later: &Memo,
)
    requires
        add_leaf(before, after, i, a, b, o),
        later.extends(&after.memo),
    ensures
        later.has(HALF_ADD, 4),
        after.memo.has(HALF_ADD, 4),
        after.memo.template(HALF_ADD, 4) == later.template(HALF_ADD, 4),
        after.memo.extends(&before.memo),
        after.inputs == before.inputs,
        after.wires.len() == before.wires.len() + 7 + 2 * later.template(HALF_ADD, 4).inner(),
        after.nands@ == before.nands@ + place_gates(
            later.template(HALF_ADD, 4).nands@,
            later.template(HALF_ADD, 4).inner(),
            a,
            b,
            carry_into(before, i),
            o,
            before.wires.len() as nat,
        ),
{
    let cin = carry_into(before, i);
    let (m1, m2, m3) = choose|m1: Circuit, m2: Circuit, m3: Circuit| #[trigger]
        placed_leaf(before, &m1, &m2, &m3, after, a, b, cin, o);
    lemma_place_shape(before, &m1, &m2, &m3, after, a, b, cin, o, later);
}

/// Through the places of an adder the memo only grows and so do the
/// wires.
pub proof fn lemma_add_grows(
    trail: Seq<Circuit>,
    a: Seq<Wire>,
    b: Seq<Wire>,
    o: Seq<Wire>,
    i: int,
    j: int,
)
    requires
        chained(trail, add_leaves(a, b, o)),
        0 <= i <= j < trail.len(),
    ensures
        trail[j].memo.extends(&trail[i].memo),
        trail[i].wires.len() <= trail[j].wires.len(),
        trail[j].inputs == trail[i].inputs,
    decreases j - i,
{
    if i < j {
        lemma_add_grows(trail, a, b, o, i, j - 1);
        let before = trail[j - 1];
        let after = trail[j];
        assert(add_leaves(a, b, o)(before, after, j - 1));
        lemma_leaf_shape(&before, &after, j - 1, a[j - 1], b[j - 1], o[j - 1], &after.memo);
        lemma_extends_twice(&after.memo, &before.memo, &trail[i].memo);
    }
}

/// Place `i` of an adder as gates: with the half adder of the memo at the
/// end, the circuit after the place has the gates of the circuit before it
/// and those of one place, between the bits of the place, the carry that
/// comes in and the output of the place; the carry that comes in is the
/// constant FALSE at the first place and else the fourth of the fresh
/// wires of the place before.
pub proof fn lemma_add_at(
    trail: Seq<Circuit>,
    a: Seq<Wire>,
    b: Seq<Wire>,
    o: Seq<Wire>,
    w: nat,
    i: int,
) -> (cin: Wire)
    requires
        chained(trail, add_leaves(a, b, o)),
        trail.len() == w + 1,
        0 <= i < w,
        trail[0].wires.len() == 3 * w + 2,
        forall|k: int| 0 <= k < w ==> (#[trigger] a[k]) == Wire((2 + k) as usize),
        forall|k: int| 0 <= k < w ==> (#[trigger] b[k]) == Wire((2 + w + k) as usize),
        forall|k: int| 0 <= k < w ==> (#[trigger] o[k]) == Wire((2 + 2 * w + k) as usize),
    ensures
        ({
            let th = trail[w as int].memo.template(HALF_ADD, 4);
            let base = trail[i].wires.len() as nat;
            &&& trail[i + 1].nands@ == trail[i].nands@ + place_gates(
                th.nands@,
                th.inner(),
                Wire((2 + i) as usize),
                Wire((2 + w + i) as usize),
                cin,
                Wire((2 + 2 * w + i) as usize),
                base,
            )
            &&& trail[i + 1].wires.len() == base + 7 + 2 * th.inner()
            &&& 3 * w + 2 <= base
            &&& trail[i + 1].wires.len() <= trail[w as int].wires.len()
            &&& i == 0 ==> cin == Wire(0)
            &&& i > 0 ==> cin.0 == base - 4 - 2 * th.inner() && base >= 3 * w + 9 + 2 * th.inner()
            &&& trail[i + 1].memo.has(HALF_ADD, 4)
            &&& trail[i + 1].memo.template(HALF_ADD, 4) == th
        }),
    decreases i,
{
    let last = trail[w as int];
    let th = last.memo.template(HALF_ADD, 4);
    let before = trail[i];
    let after = trail[i + 1];
    lemma_add_grows(trail, a, b, o, i + 1, w as int);
    lemma_add_grows(trail, a, b, o, 0, i);
    if i > 0 {
        let c = lemma_add_at(trail, a, b, o, w, i - 1);
    }
    assert(add_leaves(a, b, o)(before, after, i));
    let cin = carry_into(&before, i);
    lemma_leaf_shape(&before, &after, i, a[i], b[i], o[i], &last.memo);
    assert(a[i] == Wire((2 + i) as usize));
    assert(b[i] == Wire((2 + w + i) as usize));
    assert(o[i] == Wire((2 + 2 * w + i) as usize));
    cin
}

/// Whether `v` is what the places of an adder before place `j` leave of
/// the store `e`, where the circuit has `len` wires after them and the half
/// adder `h` wires of its own: the two numbers are as they were, the bits
/// of their sum are on the outputs of the places before `j`, the wires
/// that are still to come read FALSE, and the carry into place `j` is on
/// the fourth of the fresh wires of the place before it.
pub open spec fn summed(e: Seq<bool>, w: nat, j: nat, v: Seq<bool>, len: nat, h: nat) -> bool {
    &&& v.len() == e.len()
    &&& 3 * w + 2 <= len <= e.len()
    &&& forall|p: int| 0 <= p < 2 + 2 * w ==> (#[trigger] v[p]) == e[p]
    &&& forall|k: int| 0 <= k < j ==> v[2 + 2 * w + k] == #[trigger] sum_bit(e, w, k as nat)
    &&& forall|c: int| len <= c < e.len() ==> !(#[trigger] v[c])
    &&& j > 0 ==> len >= 3 * w + 9 + 2 * h && v[len - 4 - 2 * h] == carry_bit(e, w, j)
}

/// One place more of an adder leaves one bit more of the sum.
pub proof fn lemma_add_next(
    th: &Template,
    he: &Memo,
    h0: &Circuit,
    h1: &Circuit,
    h2: &Circuit,
    hports: (Wire, Wire, Wire, Wire),
    ne: &Memo,
    n0: &Circuit,
    n1: &Circuit,
    n2: &Circuit,
    nports: (Wire, Wire),
    e: Seq<bool>,
    w: nat,
    i: nat,
    v: Seq<bool>,
    base: nat,
    cin: Wire,
)
    requires
        synthesized::<(Wire, Wire, Wire, Wire), HalfAdd>(&HalfAdd, he, h0, h1, h2, hports, th),
        synthesized::<(Wire, Wire), Not>(&Not, ne, n0, n1, n2, nports, &h1.memo.template(NOT, 2)),
        h1.memo.template(NOT, 2).wf(),
        i < w,
        summed(e, w, i, v, base, th.inner()),
        base + 7 + 2 * th.inner() <= e.len() <= usize::MAX,
        !e[0],
        e[1],
        i == 0 ==> cin == Wire(0),
        i > 0 ==> cin.0 == base - 4 - 2 * th.inner(),
    ensures
        summed(
            e,
            w,
            i + 1,
            run(
                v,
                place_gates(
                    th.nands@,
                    th.inner(),
                    Wire((2 + i) as usize),
                    Wire((2 + w + i) as usize),
                    cin,
                    Wire((2 + 2 * w + i) as usize),
                    base,
                ),
            ),
            base + 7 + 2 * th.inner(),
            th.inner(),
        ),
{
    let h = th.inner();
    let ii = i as int;
    let ww = w as int;
    let a = Wire((2 + i) as usize);
    let b = Wire((2 + w + i) as usize);
    let o = Wire((2 + 2 * w + i) as usize);
    let part = place_gates(th.nands@, h, a, b, cin, o, base);
    assert(v[0] == e[0] && v[1] == e[1]);
    lemma_add_place(th, he, h0, h1, h2, hports, ne, n0, n1, n2, nports, a, b, cin, o, base, v);
    let r = run(v, part);
    assert(v[2 + ii] == e[2 + ii]);
    assert(v[2 + ww + ii] == e[2 + ww + ii]);
    if i == 0 {
        assert(!v[cin.0 as int]);
    } else {
        assert(v[cin.0 as int] == carry_bit(e, w, i));
    }
    assert(r[2 + 2 * ww + ii] == sum_bit(e, w, i));
    assert(carry_bit(e, w, i + 1) == majority(e[2 + ii], e[2 + ww + ii], carry_bit(e, w, i)));
    assert(r[base as int + 3] == carry_bit(e, w, i + 1));
    assert forall|k: int| 0 <= k < i + 1 implies r[2 + 2 * w + k] == #[trigger] sum_bit(
        e,
        w,
        k as nat,
    ) by {
        if k < i {
            assert(v[2 + 2 * w + k] == sum_bit(e, w, k as nat));
        }
    }
    assert forall|p: int| 0 <= p < 2 + 2 * w implies (#[trigger] r[p]) == e[p] by {
        assert(v[p] == e[p]);
    }
    let len = base + 7 + 2 * h;
    assert forall|c: int| len <= c < e.len() implies !(#[trigger] r[c]) by {
        assert(!v[c]);
    }
    assert(r.len() == e.len());
    assert(len - 4 - 2 * h == base + 3);
    assert(r[len - 4 - 2 * h] == carry_bit(e, w, i + 1));
}

/// What the places of an adder leave. On a circuit without gates whose
/// ports are the two numbers and the sum, one tick of the gates up to
/// place `j`, from a store in which the constants hold and all but the two
/// numbers reads FALSE, leaves the two numbers as they were, the bits of
/// their sum on the outputs of the places before `j`, and the carry into
/// place `j` on the fourth of the fresh wires of the place before it.
pub proof fn lemma_add_runs(
    trail: Seq<Circuit>,
    a: Seq<Wire>,
    b: Seq<Wire>,
    o: Seq<Wire>,
    w: nat,
    he: &Memo,
    h0: &Circuit,
    h1: &Circuit,
    h2: &Circuit,
    hports: (Wire, Wire, Wire, Wire),
    ne: &Memo,
    n0: &Circuit,
    n1: &Circuit,
    n2: &Circuit,
    nports: (Wire, Wire),
    e: Seq<bool>,
    j: int,
)
    requires
        chained(trail, add_leaves(a, b, o)),
        trail.len() == w + 1,
        0 <= j <= w,
        0 < w,
        trail[0].nands@ == Seq::<Gate>::empty(),
        trail[0].wires.len() == 3 * w + 2,
        forall|k: int| 0 <= k < w ==> (#[trigger] a[k]) == Wire((2 + k) as usize),
        forall|k: int| 0 <= k < w ==> (#[trigger] b[k]) == Wire((2 + w + k) as usize),
        forall|k: int| 0 <= k < w ==> (#[trigger] o[k]) == Wire((2 + 2 * w + k) as usize),
        synthesized::<(Wire, Wire, Wire, Wire), HalfAdd>(
            &HalfAdd,
            he,
            h0,
            h1,
            h2,
            hports,
            &trail[w as int].memo.template(HALF_ADD, 4),
        ),
        synthesized::<(Wire, Wire), Not>(&Not, ne, n0, n1, n2, nports, &h1.memo.template(NOT, 2)),
        h1.memo.template(NOT, 2).wf(),
        e.len() == trail[w as int].wires.len(),
        !e[0],
        e[1],
        forall|c: int| 2 + 2 * w <= c < e.len() ==> !(#[trigger] e[c]),
    ensures
        summed(
            e,
            w,
            j as nat,
            run(e, trail[j].nands@),
            trail[j].wires.len() as nat,
            trail[w as int].memo.template(HALF_ADD, 4).inner(),
        ),
        j > 0 ==> trail[j].memo.has(HALF_ADD, 4) && trail[j].memo.template(HALF_ADD, 4)
            == trail[w as int].memo.template(HALF_ADD, 4),
    decreases j,
{
    let th = trail[w as int].memo.template(HALF_ADD, 4);
    lemma_add_grows(trail, a, b, o, j, w as int);
    lemma_add_grows(trail, a, b, o, 0, j);
    if j > 0 {
        let i = j - 1;
        lemma_add_runs(trail, a, b, o, w, he, h0, h1, h2, hports, ne, n0, n1, n2, nports, e, i);
        let cin = lemma_add_at(trail, a, b, o, w, i);
        let v = run(e, trail[i].nands@);
        let base = trail[i].wires.len() as nat;
        let part = place_gates(
            th.nands@,
            th.inner(),
            Wire((2 + i) as usize),
            Wire((2 + w + i) as usize),
            cin,
            Wire((2 + 2 * w + i) as usize),
            base,
        );
        lemma_run_concat(e, trail[i].nands@, part);
        lemma_add_next(
            &th,
            he,
            h0,
            h1,
            h2,
            hports,
            ne,
            n0,
            n1,
            n2,
            nports,
            e,
            w,
            i as nat,
            v,
            base,
            cin,
        );
    }
}

/// Whether `w` is a wire that a copy of a component with four ports may
/// read: a constant, one of its arguments, or one of its fresh wires.
pub open spec fn read_of_four(w: Wire, args: Seq<Wire>, start: nat, inner: nat) -> bool {
    w.0 < 2 || start <= w.0 < start + inner || w == args[0] || w == args[1] || w == args[2] || w
        == args[3]
}

/// Whether `w` is a wire that a copy of the half adder may write: one of
/// its two outputs, or one of its fresh wires.
pub open spec fn written_of_half(w: Wire, args: Seq<Wire>, start: nat, inner: nat) -> bool {
    start <= w.0 < start + inner || w == args[2] || w == args[3]
}

/// A copy of the half adder is a combinational netlist whose gates read
/// constants, arguments and fresh wires, and write outputs and fresh
/// wires.
pub proof fn lemma_half_copy_shape(
    th: &Template,
    he: &Memo,
    h0: &Circuit,
    h1: &Circuit,
    h2: &Circuit,
    hports: (Wire, Wire, Wire, Wire),
    ne: &Memo,
    n0: &Circuit,
    n1: &Circuit,
    n2: &Circuit,
    nports: (Wire, Wire),
    args: Seq<Wire>,
    start: nat,
    n: nat,
)
    requires
        synthesized::<(Wire, Wire, Wire, Wire), HalfAdd>(&HalfAdd, he, h0, h1, h2, hports, th),
        synthesized::<(Wire, Wire), Not>(&Not, ne, n0, n1, n2, nports, &h1.memo.template(NOT, 2)),
        h1.memo.template(NOT, 2).wf(),
        args.len() == 4,
        2 <= start,
        forall|p: int| 0 <= p < args.len() ==> (#[trigger] args[p]).0 < start,
        forall|p: int| 2 <= p < args.len() ==> (#[trigger] args[p]).0 >= 2,
        forall|p: int, q: int|
            2 <= p < args.len() && 0 <= q < args.len() && p != q ==> (#[trigger] args[p]) != (
            #[trigger] args[q]),
        start + th.inner() <= n <= usize::MAX,
    ensures
        combinational(spliced(th.nands@, args, start), n),
        forall|k: int|
            0 <= k < spliced(th.nands@, args, start).len() ==> {
                let g = #[trigger] spliced(th.nands@, args, start)[k];
                &&& read_of_four(g.0, args, start, th.inner())
                &&& read_of_four(g.1, args, start, th.inner())
                &&& written_of_half(g.2, args, start, th.inner())
            },
{
    let size = h1.wires.len() as nat;
    let blank = Seq::new(size, |x: int| x == 1);
    lemma_half_add_built(th, he, h0, h1, h2, hports, ne, n0, n1, n2, nports, blank);
    let gates = th.nands@;
    let copy = spliced(gates, args, start);
    let m = th.size as nat;
    assert(th.nands == h2.nands && th.size == h2.wires.len() && th.inputs == 4);
    assert forall|q: int| 2 <= q < 6 && #[trigger] written(gates, q) implies q >= 4 by {
        assert(written(h1.nands@, q));
    }
    lemma_outputs_apart(gates, m, args, start);
    lemma_spliced_stateless(gates, m, args, start, n);
    assert(wires_in_range(args, n));
    lemma_spliced_all(gates, 4, m, args, start, n);
    assert forall|k: int| 0 <= k < copy.len() implies {
        let g = #[trigger] copy[k];
        &&& read_of_four(g.0, args, start, th.inner())
        &&& read_of_four(g.1, args, start, th.inner())
        &&& written_of_half(g.2, args, start, th.inner())
    } by {
        lemma_spliced_touches(gates, 4, m, args, start, n, k);
        let g = copy[k];
        assert(gates[k].2.0 >= 2);
        if g.2.0 < start {
            let p = choose|p: int|
                0 <= p < args.len() && #[trigger] args[p] == g.2 && written(gates, 2 + p);
            assert(p == 2 || p == 3);
        }
        if exists|p: int| 0 <= p < args.len() && #[trigger] args[p] == g.0 {
            let p = choose|p: int| 0 <= p < args.len() && #[trigger] args[p] == g.0;
            assert(p == 0 || p == 1 || p == 2 || p == 3);
        }
        if exists|p: int| 0 <= p < args.len() && #[trigger] args[p] == g.1 {
            let p = choose|p: int| 0 <= p < args.len() && #[trigger] args[p] == g.1;
            assert(p == 0 || p == 1 || p == 2 || p == 3);
        }
    }
}

/// The exclusive or of one place is four gates over three fresh wires.
pub proof fn lemma_xor_one(a: Wire, b: Wire, o: Wire, start: nat)
    requires
        o != Wire::spec_void(),
    ensures
        xor_gates(seq![a], seq![b], seq![o], start) == seq![
            (a, b, Wire(start as usize)),
            (a, Wire(start as usize), Wire((start + 1) as usize)),
            (b, Wire(start as usize), Wire((start + 2) as usize)),
            (Wire((start + 1) as usize), Wire((start + 2) as usize), o),
        ],
{
    let sa = seq![a];
    let sb = seq![b];
    let so = seq![o];
    reveal_with_fuel(xor_gates, 2);
    assert(sa.drop_last() =~= Seq::<Wire>::empty());
    assert(sb.drop_last() =~= Seq::<Wire>::empty());
    assert(so.drop_last() =~= Seq::<Wire>::empty());
    assert(sa.last() == a && sb.last() == b && so.last() == o);
    assert(xor_gates(sa.drop_last(), sb.drop_last(), so.drop_last(), start) =~= Seq::<
        Gate,
    >::empty());
    assert(xor_gates(sa, sb, so, start) =~= seq![
        (a, b, Wire(start as usize)),
        (a, Wire(start as usize), Wire((start + 1) as usize)),
        (b, Wire(start as usize), Wire((start + 2) as usize)),
        (Wire((start + 1) as usize), Wire((start + 2) as usize), o),
    ]);
}

/// Whether `w` is a wire that one place of the adder may read: a
/// constant, one of the two bits, the carry that comes in, the output, or
/// one of the `more` fresh wires of the place.
pub open spec fn read_of_place(
    w: Wire,
    a: Wire,
    b: Wire,
    cin: Wire,
    o: Wire,
    base: nat,
    more: nat,
) -> bool {
    w.0 < 2 || base <= w.0 < base + more || w == a || w == b || w == cin || w == o
}

/// One place of the adder is a combinational netlist whose gates read
/// constants, the wires of the place and its fresh wires, and write the
/// output and fresh wires.
pub proof fn lemma_place_stateless(
    th: &Template,
    he: &Memo,
    h0: &Circuit,
    h1: &Circuit,
    h2: &Circuit,
    hports: (Wire, Wire, Wire, Wire),
    ne: &Memo,
    n0: &Circuit,
    n1: &Circuit,
    n2: &Circuit,
    nports: (Wire, Wire),
    a: Wire,
    b: Wire,
    cin: Wire,
    o: Wire,
    base: nat,
    n: nat,
)
    requires
        synthesized::<(Wire, Wire, Wire, Wire), HalfAdd>(&HalfAdd, he, h0, h1, h2, hports, th),
        synthesized::<(Wire, Wire), Not>(&Not, ne, n0, n1, n2, nports, &h1.memo.template(NOT, 2)),
        h1.memo.template(NOT, 2).wf(),
        2 <= base,
        a.0 < base,
        b.0 < base,
        cin.0 < base,
        2 <= o.0 < base,
        o != a,
        o != b,
        o != cin,
        base + 7 + 2 * th.inner() <= n <= usize::MAX,
    ensures
        combinational(place_gates(th.nands@, th.inner(), a, b, cin, o, base), n),
        forall|k: int|
            0 <= k < place_gates(th.nands@, th.inner(), a, b, cin, o, base).len() ==> {
                let g = #[trigger] place_gates(th.nands@, th.inner(), a, b, cin, o, base)[k];
                &&& read_of_place(g.0, a, b, cin, o, base, 7 + 2 * th.inner())
                &&& read_of_place(g.1, a, b, cin, o, base, 7 + 2 * th.inner())
                &&& (g.2 == o || base <= g.2.0 < base + 7 + 2 * th.inner())
            },
{
    let h = th.inner();
    let o0 = Wire(base as usize);
    let c0 = Wire((base + 1) as usize);
    let c1 = Wire((base + 2) as usize);
    let c2 = Wire((base + 3) as usize);
    let args1 = seq![a, b, o0, c0];
    let args2 = seq![o0, cin, o, c1];
    let start1 = base + 4;
    let start2 = base + 4 + h;
    let start3 = base + 4 + 2 * h;
    let first = spliced(th.nands@, args1, start1);
    let second = spliced(th.nands@, args2, start2);
    let third = xor_gates(seq![c0], seq![c1], seq![c2], start3);
    assert(args1[0] == a && args1[1] == b && args1[2] == o0 && args1[3] == c0);
    assert(args2[0] == o0 && args2[1] == cin && args2[2] == o && args2[3] == c1);
    lemma_half_copy_shape(th, he, h0, h1, h2, hports, ne, n0, n1, n2, nports, args1, start1, n);
    lemma_half_copy_shape(th, he, h0, h1, h2, hports, ne, n0, n1, n2, nports, args2, start2, n);
    lemma_xor_one(c0, c1, c2, start3);
    let x = Wire(start3 as usize);
    let ax = Wire((start3 + 1) as usize);
    let bx = Wire((start3 + 2) as usize);
    assert(third[0] == (c0, c1, x) && third[1] == (c0, x, ax) && third[2] == (c1, x, bx)
        && third[3] == (ax, bx, c2));
    assert(combinational(third, n)) by {
        assert forall|k: int| 0 <= k < third.len() implies gate_in_range(#[trigger] third[k], n)
            && third[k].2.0 >= 2 by {
            assert(k == 0 || k == 1 || k == 2 || k == 3);
        }
    }
    assert forall|i: int, j: int| 0 <= i < first.len() && 0 <= j < second.len() implies (
    #[trigger] second[j]).2 != (#[trigger] first[i]).0 && second[j].2 != first[i].1 && second[j].2
        != first[i].2 by {}
    lemma_concat_combinational(first, second, n);
    let both = first + second;
    assert forall|k: int| 0 <= k < both.len() implies {
        let g = #[trigger] both[k];
        &&& read_of_place(g.0, a, b, cin, o, base, 7 + 2 * h)
        &&& read_of_place(g.1, a, b, cin, o, base, 7 + 2 * h)
        &&& (g.2 == o || base <= g.2.0 < base + 7 + 2 * h)
        &&& g.2 != c2
        &&& !(start3 <= g.2.0)
        &&& g.0 != c2 && g.1 != c2 && !(start3 <= g.0.0) && !(start3 <= g.1.0)
    } by {
        if k < first.len() {
            assert(both[k] == first[k]);
        } else {
            assert(both[k] == second[k - first.len()]);
        }
    }
    assert forall|i: int, j: int| 0 <= i < both.len() && 0 <= j < third.len() implies (
    #[trigger] third[j]).2 != (#[trigger] both[i]).0 && third[j].2 != both[i].1 && third[j].2
        != both[i].2 by {
        assert(j == 0 || j == 1 || j == 2 || j == 3);
    }
    lemma_concat_combinational(both, third, n);
    let all = place_gates(th.nands@, h, a, b, cin, o, base);
    assert(all == both + third);
    assert forall|k: int| 0 <= k < all.len() implies {
        let g = #[trigger] all[k];
        &&& read_of_place(g.0, a, b, cin, o, base, 7 + 2 * h)
        &&& read_of_place(g.1, a, b, cin, o, base, 7 + 2 * h)
        &&& (g.2 == o || base <= g.2.0 < base + 7 + 2 * h)
    } by {
        if k < both.len() {
            assert(all[k] == both[k]);
        } else {
            let j = k - both.len();
            assert(all[k] == third[j]);
            assert(j == 0 || j == 1 || j == 2 || j == 3);
        }
    }
}

/// Whether the gates `gates` can be those of an adder over numbers of `w`
/// bits before place `j`, on a circuit of `len` wires: they read and write
/// wires of the circuit, write no constant and no bit of the two numbers,
/// and neither read nor write the output of a place that is still to come.
pub open spec fn kept_apart(gates: Seq<Gate>, w: nat, j: nat, len: nat) -> bool {
    forall|k: int|
        0 <= k < gates.len() ==> {
            let g = #[trigger] gates[k];
            &&& gate_in_range(g, len)
            &&& g.2.0 >= 2 + 2 * w
            &&& !(2 + 2 * w + j <= g.0.0 < 3 * w + 2)
            &&& !(2 + 2 * w + j <= g.1.0 < 3 * w + 2)
            &&& !(2 + 2 * w + j <= g.2.0 < 3 * w + 2)
        }
}

/// One place more keeps the gates of an adder combinational and apart
/// from the outputs that are still to come.
pub proof fn lemma_add_joined(
    first: Seq<Gate>,
    part: Seq<Gate>,
    w: nat,
    i: nat,
    cin: Wire,
    base: nat,
    more: nat,
    n: nat,
)
    requires
        i < w,
        3 * w + 2 <= base,
        base + more <= n <= usize::MAX,
        combinational(first, n),
        kept_apart(first, w, i, base),
        combinational(part, n),
        cin.0 < 2 || 3 * w + 2 <= cin.0 < base,
        forall|k: int|
            0 <= k < part.len() ==> {
                let g = #[trigger] part[k];
                &&& read_of_place(
                    g.0,
                    Wire((2 + i) as usize),
                    Wire((2 + w + i) as usize),
                    cin,
                    Wire((2 + 2 * w + i) as usize),
                    base,
                    more,
                )
                &&& read_of_place(
                    g.1,
                    Wire((2 + i) as usize),
                    Wire((2 + w + i) as usize),
                    cin,
                    Wire((2 + 2 * w + i) as usize),
                    base,
                    more,
                )
                &&& (g.2 == Wire((2 + 2 * w + i) as usize) || base <= g.2.0 < base + more)
            },
    ensures
        combinational(first + part, n),
        kept_apart(first + part, w, i + 1, base + more),
{
    assert forall|x: int, y: int| 0 <= x < first.len() && 0 <= y < part.len() implies (
    #[trigger] part[y]).2 != (#[trigger] first[x]).0 && part[y].2 != first[x].1 && part[y].2
        != first[x].2 by {
        assert(gate_in_range(first[x], base));
    }
    lemma_concat_combinational(first, part, n);
    let all = first + part;
    assert forall|k: int| 0 <= k < all.len() implies {
        let g = #[trigger] all[k];
        &&& gate_in_range(g, base + more)
        &&& g.2.0 >= 2 + 2 * w
        &&& !(2 + 2 * w + (i + 1) <= g.0.0 < 3 * w + 2)
        &&& !(2 + 2 * w + (i + 1) <= g.1.0 < 3 * w + 2)
        &&& !(2 + 2 * w + (i + 1) <= g.2.0 < 3 * w + 2)
    } by {
        if k < first.len() {
            assert(all[k] == first[k]);
            assert(gate_in_range(first[k], base));
        } else {
            assert(all[k] == part[k - first.len()]);
        }
    }
}

/// The gates of an adder up to place `j` make a combinational netlist and
/// are kept apart from the outputs that are still to come.
pub proof fn lemma_add_stateless(
    trail: Seq<Circuit>,
    a: Seq<Wire>,
    b: Seq<Wire>,
    o: Seq<Wire>,
    w: nat,
    he: &Memo,
    h0: &Circuit,
    h1: &Circuit,
    h2: &Circuit,
    hports: (Wire, Wire, Wire, Wire),
    ne: &Memo,
    n0: &Circuit,
    n1: &Circuit,
    n2: &Circuit,
    nports: (Wire, Wire),
    j: int,
)
    requires
        chained(trail, add_leaves(a, b, o)),
        trail.len() == w + 1,
        0 <= j <= w,
        0 < w,
        trail[0].nands@ == Seq::<Gate>::empty(),
        trail[0].wires.len() == 3 * w + 2,
        forall|k: int| 0 <= k < w ==> (#[trigger] a[k]) == Wire((2 + k) as usize),
        forall|k: int| 0 <= k < w ==> (#[trigger] b[k]) == Wire((2 + w + k) as usize),
        forall|k: int| 0 <= k < w ==> (#[trigger] o[k]) == Wire((2 + 2 * w + k) as usize),
        synthesized::<(Wire, Wire, Wire, Wire), HalfAdd>(
            &HalfAdd,
            he,
            h0,
            h1,
            h2,
            hports,
            &trail[w as int].memo.template(HALF_ADD, 4),
        ),
        synthesized::<(Wire, Wire), Not>(&Not, ne, n0, n1, n2, nports, &h1.memo.template(NOT, 2)),
        h1.memo.template(NOT, 2).wf(),
    ensures
        combinational(trail[j].nands@, trail[w as int].wires.len() as nat),
        kept_apart(trail[j].nands@, w, j as nat, trail[j].wires.len() as nat),
        3 * w + 2 <= trail[j].wires.len() <= trail[w as int].wires.len(),
        j > 0 ==> trail[j].memo.has(HALF_ADD, 4) && trail[j].memo.template(HALF_ADD, 4)
            == trail[w as int].memo.template(HALF_ADD, 4) && trail[j].wires.len() >= 3 * w + 9 + 2
            * trail[w as int].memo.template(HALF_ADD, 4).inner(),
    decreases j,
{
    let th = trail[w as int].memo.template(HALF_ADD, 4);
    let h = th.inner();
    let n = trail[w as int].wires.len() as nat;
    lemma_add_grows(trail, a, b, o, j, w as int);
    lemma_add_grows(trail, a, b, o, 0, j);
    if j > 0 {
        let i = j - 1;
        lemma_add_stateless(trail, a, b, o, w, he, h0, h1, h2, hports, ne, n0, n1, n2, nports, i);
        let cin = lemma_add_at(trail, a, b, o, w, i);
        let base = trail[i].wires.len() as nat;
        let ai = Wire((2 + i) as usize);
        let bi = Wire((2 + w + i) as usize);
        let oi = Wire((2 + 2 * w + i) as usize);
        let part = place_gates(th.nands@, h, ai, bi, cin, oi, base);
        lemma_place_stateless(
            &th,
            he,
            h0,
            h1,
            h2,
            hports,
            ne,
            n0,
            n1,
            n2,
            nports,
            ai,
            bi,
            cin,
            oi,
            base,
            n,
        );
        lemma_add_joined(trail[i].nands@, part, w, i as nat, cin, base, 7 + 2 * h, n);
    }
}

/// The ports of an adder that is built on a circuit without gates: the
/// leaves of the two numbers, then those of the sum.
pub proof fn lemma_add_ports<T: Wiring>(ports: (T, T, T))
    requires
        ports.leaves() == consecutive(2, 3 * T::width()),
    ensures
        ports.0.leaves().len() == T::width(),
        ports.1.leaves().len() == T::width(),
        ports.2.leaves().len() == T::width(),
        forall|k: int|
            0 <= k < T::width() ==> (#[trigger] ports.0.leaves()[k]) == Wire((2 + k) as usize),
        forall|k: int|
            0 <= k < T::width() ==> (#[trigger] ports.1.leaves()[k]) == Wire(
                (2 + T::width() + k) as usize,
            ),
        forall|k: int|
            0 <= k < T::width() ==> (#[trigger] ports.2.leaves()[k]) == Wire(
                (2 + 2 * T::width() + k) as usize,
            ),
{
    let w = T::width();
    let (a, b, o) = ports;
    a.lemma_leaves_len();
    b.lemma_leaves_len();
    o.lemma_leaves_len();
    let all = ports.leaves();
    assert(all == a.leaves() + b.leaves() + o.leaves());
    assert forall|k: int| 0 <= k < w implies (#[trigger] a.leaves()[k]) == Wire(
        (2 + k) as usize,
    ) by {
        assert(all[k] == a.leaves()[k]);
    }
    assert forall|k: int| 0 <= k < w implies (#[trigger] b.leaves()[k]) == Wire(
        (2 + w + k) as usize,
    ) by {
        assert(all[w + k] == b.leaves()[k]);
    }
    assert forall|k: int| 0 <= k < w implies (#[trigger] o.leaves()[k]) == Wire(
        (2 + 2 * w + k) as usize,
    ) by {
        assert(all[2 * w + k] == o.leaves()[k]);
    }
}

/// What the description of the adder builds. Where the half adder in the
/// memo of `c1` and the negation that it uses were made from their
/// descriptions, `c1` is a combinational netlist that writes no constant
/// and no bit of the two numbers, and one tick of it, from a store in
/// which the constants hold and all but the two numbers reads FALSE, leaves
/// on each output port the bit of the sum of its place.
pub proof fn lemma_add_built<T: Wiring>(
    c0: &Circuit,
    c1: &Circuit,
    ports: (T, T, T),
    he: &Memo,
    h0: &Circuit,
    h1: &Circuit,
    h2: &Circuit,
    hports: (Wire, Wire, Wire, Wire),
    ne: &Memo,
    n0: &Circuit,
    n1: &Circuit,
    n2: &Circuit,
    nports: (Wire, Wire),
    e: Seq<bool>,
)
    requires
        T::width() > 0,
        c0.inputs == 3 * T::width(),
        c0.wires.len() == 3 * T::width() + 2,
        c0.nands@ == Seq::<Gate>::empty(),
        ports.leaves() == consecutive(2, 3 * T::width()),
        Add.built(c0, c1, ports),
        synthesized::<(Wire, Wire, Wire, Wire), HalfAdd>(
            &HalfAdd,
            he,
            h0,
            h1,
            h2,
            hports,
            &c1.memo.template(HALF_ADD, 4),
        ),
        synthesized::<(Wire, Wire), Not>(&Not, ne, n0, n1, n2, nports, &h1.memo.template(NOT, 2)),
        h1.memo.template(NOT, 2).wf(),
        e.len() == c1.wires.len(),
        !e[0],
        e[1],
        forall|c: int| 2 + 2 * T::width() <= c < e.len() ==> !(#[trigger] e[c]),
    ensures
        c1.inputs == 3 * T::width(),
        c1.wires.len() >= 3 * T::width() + 2,
        combinational(c1.nands@, c1.wires.len() as nat),
        forall|q: int| 0 <= q < 2 + 2 * T::width() ==> !written(c1.nands@, q),
        run(e, c1.nands@).len() == e.len(),
        forall|k: int|
            0 <= k < T::width() ==> run(e, c1.nands@)[2 + 2 * T::width() + k] == #[trigger] sum_bit(
                e,
                T::width(),
                k as nat,
            ),
{
    let w = T::width();
    lemma_add_ports::<T>(ports);
    let a = ports.0.leaves();
    let b = ports.1.leaves();
    let o = ports.2.leaves();
    let steps = add_leaves(a, b, o);
    let trail = choose|trail: Seq<Circuit>|
        #![trigger chained(trail, steps)]
        trail.len() == w + 1 && trail[0] == *c0 && trail[w as int] == *c1 && chained(trail, steps);
    lemma_add_runs(
        trail,
        a,
        b,
        o,
        w,
        he,
        h0,
        h1,
        h2,
        hports,
        ne,
        n0,
        n1,
        n2,
        nports,
        e,
        w as int,
    );
    lemma_add_stateless(
        trail,
        a,
        b,
        o,
        w,
        he,
        h0,
        h1,
        h2,
        hports,
        ne,
        n0,
        n1,
        n2,
        nports,
        w as int,
    );
    lemma_add_grows(trail, a, b, o, 0, w as int);
    let built = c1.nands@;
    assert forall|q: int| 0 <= q < 2 + 2 * w implies !written(built, q) by {
        if written(built, q) {
            let k = choose|k: int| 0 <= k < built.len() && (#[trigger] built[k]).2.0 == q;
            assert(built[k].2.0 >= 2 + 2 * w);
        }
    }
}

/// The carry into place `k` of the sum of two numbers in bits, least
/// significant bit first.
pub open spec fn carry_of(x: Seq<bool>, y: Seq<bool>, k: nat) -> bool
    decreases k,
{
    if k == 0 {
        false
    } else {
        majority(x[k - 1], y[k - 1], carry_of(x, y, (k - 1) as nat))
    }
}

/// Bit `k` of the sum of two numbers in bits.
pub open spec fn sum_of(x: Seq<bool>, y: Seq<bool>, k: nat) -> bool {
    (x[k as int] != y[k as int]) != carry_of(x, y, k)
}

/// The bits of the sum on the ports are those of the sum of the two
/// numbers that the ports hold.
pub proof fn lemma_bits_of_store(e: Seq<bool>, w: nat, x: Seq<bool>, y: Seq<bool>, k: nat)
    requires
        k <= w,
        forall|i: int| 0 <= i < w ==> (#[trigger] x[i]) == e[2 + i],
        forall|i: int| 0 <= i < w ==> (#[trigger] y[i]) == e[2 + w + i],
    ensures
        carry_bit(e, w, k) == carry_of(x, y, k),
        k < w ==> sum_bit(e, w, k) == sum_of(x, y, k),
    decreases k,
{
    if k > 0 {
        lemma_bits_of_store(e, w, x, y, (k - 1) as nat);
        assert(x[k - 1] == e[2 + (k - 1)]);
        assert(y[k - 1] == e[2 + w + (k - 1)]);
    }
    if k < w {
        assert(x[k as int] == e[2 + k as int]);
        assert(y[k as int] == e[2 + w as int + k as int]);
    }
}

/// No carry comes into a place where all the bits before it are FALSE.
pub proof fn lemma_no_carry(e: Seq<bool>, w: nat, k: nat)
    requires
        forall|i: int| 0 <= i < k ==> !(#[trigger] e[2 + i]) && !e[2 + w + i],
    ensures
        !carry_bit(e, w, k),
    decreases k,
{
    if k > 0 {
        lemma_no_carry(e, w, (k - 1) as nat);
        assert(!e[2 + (k - 1)]);
    }
}

/// The store in which, of all wires but the constant TRUE, only bit `k`
/// of the first number is TRUE.
pub open spec fn only_bit(n: nat, k: int) -> Seq<bool> {
    Seq::new(n, |x: int| x == 1 || x == 2 + k)
}

/// An output of an adder on which one tick leaves the bit of the sum has a
/// gate and can become TRUE.
pub proof fn lemma_sum_lively(built: Seq<Gate>, n: nat, w: nat, k: int)
    requires
        0 <= k < w,
        3 * w + 2 <= n,
        gates_in_range(built, n),
        forall|q: int| 0 <= q < 2 + 2 * w ==> !written(built, q),
        run(only_bit(n, k), built)[2 + 2 * w + k] == sum_bit(only_bit(n, k), w, k as nat),
    ensures
        written(built, 2 + 2 * w + k),
        lively(built, n, (3 * w + 2) as nat, 2 + 2 * w + k),
{
    let e = only_bit(n, k);
    lemma_no_carry(e, w, k as nat);
    assert(e[2 + k] && !e[2 + w + k]);
    assert(sum_bit(e, w, k as nat));
    assert(fresh(e, built, (3 * w + 2) as nat)) by {
        assert forall|x: int|
            2 <= x < e.len() && (x >= 3 * w + 2 || written(built, x)) implies !(
        #[trigger] e[x]) by {
            if x == 2 + k {
                assert(!written(built, 2 + k));
            }
        }
    }
    lemma_run_keeps(e, built);
}

/// Every output of the adder has a gate and can become TRUE.
pub proof fn lemma_add_lively<T: Wiring>(
    c0: &Circuit,
    c1: &Circuit,
    ports: (T, T, T),
    he: &Memo,
    h0: &Circuit,
    h1: &Circuit,
    h2: &Circuit,
    hports: (Wire, Wire, Wire, Wire),
    ne: &Memo,
    n0: &Circuit,
    n1: &Circuit,
    n2: &Circuit,
    nports: (Wire, Wire),
    k: int,
)
    requires
        T::width() > 0,
        c0.inputs == 3 * T::width(),
        c0.wires.len() == 3 * T::width() + 2,
        c0.nands@ == Seq::<Gate>::empty(),
        ports.leaves() == consecutive(2, 3 * T::width()),
        Add.built(c0, c1, ports),
        synthesized::<(Wire, Wire, Wire, Wire), HalfAdd>(
            &HalfAdd,
            he,
            h0,
            h1,
            h2,
            hports,
            &c1.memo.template(HALF_ADD, 4),
        ),
        synthesized::<(Wire, Wire), Not>(&Not, ne, n0, n1, n2, nports, &h1.memo.template(NOT, 2)),
        h1.memo.template(NOT, 2).wf(),
        0 <= k < T::width(),
        2 <= c1.wires.len(),
    ensures
        written(c1.nands@, 2 + 2 * T::width() + k),
        lively(
            c1.nands@,
            c1.wires.len() as nat,
            (3 * T::width() + 2) as nat,
            2 + 2 * T::width() + k,
        ),
{
    let e = only_bit(c1.wires.len() as nat, k);
    lemma_add_built::<T>(c0, c1, ports, he, h0, h1, h2, hports, ne, n0, n1, n2, nports, e);
    assert(run(e, c1.nands@)[2 + 2 * T::width() + k] == sum_bit(e, T::width(), k as nat));
    lemma_sum_lively(c1.nands@, c1.wires.len() as nat, T::width(), k);
}

/// The bits of the first number of an adder over numbers of `w` bits
/// between the arguments `args`, in the store `s`.
pub open spec fn first_bits(s: Seq<bool>, args: Seq<Wire>, w: nat) -> Seq<bool> {
    Seq::new(w, |i: int| s[args[i].0 as int])
}

/// The bits of the second number.
pub open spec fn second_bits(s: Seq<bool>, args: Seq<Wire>, w: nat) -> Seq<bool> {
    Seq::new(w, |i: int| s[args[w + i].0 as int])
}

/// The store that the description of an adder starts from holds the two
/// numbers of the arguments and FALSE on the sum, where every output has a
/// gate and no bit of the two numbers has.
pub proof fn lemma_entered_bits(
    built: Seq<Gate>,
    n: nat,
    w: nat,
    args: Seq<Wire>,
    s: Seq<bool>,
    k: nat,
)
    requires
        k < w,
        3 * w + 2 <= n,
        args.len() == 3 * w,
        forall|q: int| 0 <= q < 2 + 2 * w ==> !written(built, q),
        forall|q: int| 2 + 2 * w <= q < 2 + 3 * w ==> #[trigger] written(built, q),
    ensures
        forall|c: int| 2 + 2 * w <= c < n ==> !(#[trigger] entered(s, built, n, args)[c]),
        !entered(s, built, n, args)[0],
        entered(s, built, n, args)[1],
        entered(s, built, n, args).len() == n,
        sum_bit(entered(s, built, n, args), w, k) == sum_of(
            first_bits(s, args, w),
            second_bits(s, args, w),
            k,
        ),
{
    let e = entered(s, built, n, args);
    let x = first_bits(s, args, w);
    let y = second_bits(s, args, w);
    assert forall|i: int| 0 <= i < w implies (#[trigger] x[i]) == e[2 + i] by {
        assert(!written(built, 2 + i));
    }
    assert forall|i: int| 0 <= i < w implies (#[trigger] y[i]) == e[2 + w + i] by {
        assert(!written(built, 2 + w + i));
    }
    lemma_bits_of_store(e, w, x, y, k);
    assert forall|c: int| 2 + 2 * w <= c < n implies !(#[trigger] e[c]) by {
        if c < 2 + 3 * w {
            assert(written(built, c));
        }
    }
}

/// What a copy of the adder leaves is what its description leaves on the
/// ports, from the store in which the two numbers are those of the
/// arguments.
pub proof fn lemma_add_entered<T: Wiring>(
    c0: &Circuit,
    c1: &Circuit,
    ports: (T, T, T),
    he: &Memo,
    h0: &Circuit,
    h1: &Circuit,
    h2: &Circuit,
    hports: (Wire, Wire, Wire, Wire),
    ne: &Memo,
    n0: &Circuit,
    n1: &Circuit,
    n2: &Circuit,
    nports: (Wire, Wire),
    args: Seq<Wire>,
    s: Seq<bool>,
    k: int,
)
    requires
        T::width() > 0,
        c0.inputs == 3 * T::width(),
        c0.wires.len() == 3 * T::width() + 2,
        c0.nands@ == Seq::<Gate>::empty(),
        ports.leaves() == consecutive(2, 3 * T::width()),
        Add.built(c0, c1, ports),
        synthesized::<(Wire, Wire, Wire, Wire), HalfAdd>(
            &HalfAdd,
            he,
            h0,
            h1,
            h2,
            hports,
            &c1.memo.template(HALF_ADD, 4),
        ),
        synthesized::<(Wire, Wire), Not>(&Not, ne, n0, n1, n2, nports, &h1.memo.template(NOT, 2)),
        h1.memo.template(NOT, 2).wf(),
        args.len() == 3 * T::width(),
        0 <= k < T::width(),
        2 <= c1.wires.len(),
    ensures
        run(entered(s, c1.nands@, c1.wires.len() as nat, args), c1.nands@)[2 + 2 * T::width() + k]
            == sum_of(
            first_bits(s, args, T::width()),
            second_bits(s, args, T::width()),
            k as nat,
        ),
{
    let w = T::width();
    let n = c1.wires.len() as nat;
    let built = c1.nands@;
    let blank = Seq::new(n, |x: int| x == 1);
    lemma_add_built::<T>(c0, c1, ports, he, h0, h1, h2, hports, ne, n0, n1, n2, nports, blank);
    assert forall|q: int| 2 + 2 * w <= q < 2 + 3 * w implies #[trigger] written(built, q) by {
        lemma_add_lively::<T>(
            c0,
            c1,
            ports,
            he,
            h0,
            h1,
            h2,
            hports,
            ne,
            n0,
            n1,
            n2,
            nports,
            q - 2 - 2 * w,
        );
    }
    lemma_entered_bits(built, n, w, args, s, k as nat);
    let e = entered(s, built, n, args);
    lemma_add_built::<T>(c0, c1, ports, he, h0, h1, h2, hports, ne, n0, n1, n2, nports, e);
    assert(run(e, built)[2 + 2 * w + k] == sum_bit(e, w, k as nat));
}

/// The gates of a copy of the adder add. Where the adder `t`, the half
/// adder that it uses and the negation that the half adder uses were made
/// from their descriptions, the arguments are wires that the circuit had,
/// each bit of the sum no constant and the argument of no other port, and
/// the fresh wires of the copy that none of its gates writes read FALSE, as
/// they do at every tick, one tick of the gates of the copy leaves on the
/// output of each place the bit of that place of the sum of the two
/// numbers, and leaves every other wire that the circuit had as it was. The
/// bits of the two numbers may be constants, or the same wires.
#[verifier::rlimit(100)]
pub proof fn lemma_add_copy<T: Wiring>(
    t: &Template,
    earlier: &Memo,
    c0: &Circuit,
    c1: &Circuit,
    c2: &Circuit,
    ports: (T, T, T),
    he: &Memo,
    h0: &Circuit,
    h1: &Circuit,
    h2: &Circuit,
    hports: (Wire, Wire, Wire, Wire),
    ne: &Memo,
    n0: &Circuit,
    n1: &Circuit,
    n2: &Circuit,
    nports: (Wire, Wire),
    args: Seq<Wire>,
    start: nat,
    s: Seq<bool>,
)
    requires
        T::width() > 0,
        synthesized::<(T, T, T), Add>(&Add, earlier, c0, c1, c2, ports, t),
        synthesized::<(Wire, Wire, Wire, Wire), HalfAdd>(
            &HalfAdd,
            he,
            h0,
            h1,
            h2,
            hports,
            &c1.memo.template(HALF_ADD, 4),
        ),
        synthesized::<(Wire, Wire), Not>(&Not, ne, n0, n1, n2, nports, &h1.memo.template(NOT, 2)),
        h1.memo.template(NOT, 2).wf(),
        args.len() == 3 * T::width(),
        2 <= start,
        forall|p: int| 0 <= p < args.len() ==> (#[trigger] args[p]).0 < start,
        forall|p: int| 2 * T::width() <= p < args.len() ==> (#[trigger] args[p]).0 >= 2,
        forall|p: int, q: int|
            2 * T::width() <= p < args.len() && 0 <= q < args.len() && p != q ==> (
            #[trigger] args[p]) != (#[trigger] args[q]),
        start + t.inner() <= s.len() <= usize::MAX,
        !s[0],
        s[1],
        forall|w: int|
            start <= w < start + t.inner() && !written(spliced(t.nands@, args, start), w) ==> !(
            #[trigger] s[w]),
    ensures
        run(s, spliced(t.nands@, args, start)).len() == s.len(),
        forall|k: int|
            0 <= k < T::width() ==> run(s, spliced(t.nands@, args, start))[(
            #[trigger] args[2 * T::width() + k]).0 as int] == sum_of(
                first_bits(s, args, T::width()),
                second_bits(s, args, T::width()),
                k as nat,
            ),
        forall|c: int|
            0 <= c < start && (forall|p: int|
                2 * T::width() <= p < args.len() ==> (#[trigger] args[p]).0 != c) ==> run(
                s,
                spliced(t.nands@, args, start),
            )[c] == s[c],
{
    let w = T::width();
    let n = c1.wires.len() as nat;
    let built = c1.nands@;
    assert(c0.wires@.len() == 3 * w + 2);
    assert(optimized(c1, c2));
    assert(c2.wf() && c2.wires.len() <= c1.wires.len());
    assert(c1.wires.len() >= 2);
    let blank = Seq::new(n, |x: int| x == 1);
    assert(!blank[0] && blank[1]);
    assert(c0.inputs == 3 * w);
    assert(ports.leaves() == consecutive(2, 3 * w));
    assert(Add.built(c0, c1, ports));
    lemma_add_built::<T>(c0, c1, ports, he, h0, h1, h2, hports, ne, n0, n1, n2, nports, blank);
    assert forall|q: int| 2 <= q < 2 + args.len() && #[trigger] written(built, q) implies lively(
        built,
        n,
        (2 + args.len()) as nat,
        q,
    ) by {
        assert(q >= 2 + 2 * w);
        lemma_add_lively::<T>(
            c0,
            c1,
            ports,
            he,
            h0,
            h1,
            h2,
            hports,
            ne,
            n0,
            n1,
            n2,
            nports,
            q - 2 - 2 * w,
        );
        assert(lively(built, n, (3 * w + 2) as nat, q));
    }
    assert(t.nands == c2.nands && t.size == c2.wires.len());
    assert(c1.inputs == args.len());
    assert(combinational(built, n));
    assert forall|p: int| 0 <= p < args.len() && written(built, 2 + p) implies (
    #[trigger] args[p]).0 >= 2 by {}
    assert forall|p: int, q: int|
        0 <= p < args.len() && 0 <= q < args.len() && p != q && written(built, 2 + p) implies (
    #[trigger] args[p]) != (#[trigger] args[q]) by {}
    assert(start + c2.wires.len() - 2 - args.len() <= s.len());
    assert(t.nands@ == c2.nands@);
    assert forall|x: int|
        start <= x < start + c2.wires.len() - 2 - args.len() && !written(
            spliced(c2.nands@, args, start),
            x,
        ) implies !(#[trigger] s[x]) by {
        assert(t.inner() == c2.wires.len() - 2 - args.len());
    }
    lemma_copy_again(c1, c2, args, start, s);
    let copy = spliced(t.nands@, args, start);
    assert(copy == spliced(c2.nands@, args, start));
    assert forall|k: int| 0 <= k < w implies run(s, copy)[(#[trigger] args[2 * w + k]).0 as int]
        == sum_of(
        first_bits(s, args, w),
        second_bits(s, args, w),
        k as nat,
    ) by {
        lemma_add_entered::<T>(
            c0,
            c1,
            ports,
            he,
            h0,
            h1,
            h2,
            hports,
            ne,
            n0,
            n1,
            n2,
            nports,
            args,
            s,
            k,
        );
        let p = 2 * w + k;
        assert(run(s, copy)[args[p].0 as int] == run(entered(s, built, n, args), built)[2 + p]);
    }
    assert forall|c: int|
        0 <= c < start && (forall|p: int| 2 * w <= p < args.len() ==> (#[trigger] args[p]).0
            != c) implies run(s, copy)[c] == s[c] by {
        assert forall|p: int| 0 <= p < args.len() && written(built, 2 + p) implies (
        #[trigger] args[p]).0 != c by {
            assert(p >= 2 * w);
        }
    }

}

} // verus!
