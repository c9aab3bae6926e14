//! The adder adds: the bits that it leaves spell the sum of the two
//! numbers, modulo two to the number of bits.

use vstd::prelude::*;
use vstd::arithmetic::div_mod::lemma_fundamental_div_mod_converse;
use vstd::arithmetic::power2::{lemma_pow2_pos, lemma_pow2_unfold, pow2};
use crate::bundle::{Bundle, Wiring};
use crate::circuit::{run, value, wires_in_range, Circuit};
use crate::combinational::written;
use crate::component::{described, placed, synthesized};
use crate::components::add::{Add, HalfAdd, ADD, HALF_ADD};
use crate::components::first::lemma_add_parts;
use crate::components::adding::{carry_of, first_bits, lemma_add_copy, second_bits, sum_of};
use crate::components::not::{Not, NOT};
use crate::memo::{spliced, Memo, Template};
use crate::wire::Wire;

verus! {

/// The number that bits spell, least significant bit first.
pub open spec fn number(bits: Seq<bool>) -> nat
    decreases bits.len(),
{
    if bits.len() == 0 {
        0
    } else {
        number(bits.drop_last()) + if bits.last() {
            pow2((bits.len() - 1) as nat)
        } else {
            0
        }
    }
}

/// The values of the wires `ws` in the store `s`.
pub open spec fn bits_at(s: Seq<bool>, ws: Seq<Wire>) -> Seq<bool> {
    Seq::new(ws.len(), |i: int| s[ws[i].0 as int])
}

/// The bits of the sum of two numbers of `w` bits.
pub open spec fn sums_of(x: Seq<bool>, y: Seq<bool>, w: nat) -> Seq<bool> {
    Seq::new(w, |i: int| sum_of(x, y, i as nat))
}

/// The number that wires spell in a store is the number that their values
/// spell.
pub proof fn lemma_value_number(s: Seq<bool>, ws: Seq<Wire>)
    ensures
        value(s, ws) == number(bits_at(s, ws)),
    decreases ws.len(),
{
    if ws.len() > 0 {
        lemma_value_number(s, ws.drop_last());
        assert(bits_at(s, ws).drop_last() =~= bits_at(s, ws.drop_last()));
        assert(bits_at(s, ws).last() == s[ws.last().0 as int]);
    }
}

/// Bits spell a number below two to their count.
pub proof fn lemma_number_bound(bits: Seq<bool>)
    ensures
        number(bits) < pow2(bits.len()),
    decreases bits.len(),
{
    if bits.len() == 0 {
        lemma_pow2_pos(0);
    } else {
        lemma_number_bound(bits.drop_last());
        lemma_pow2_unfold(bits.len());
    }
}

/// The first `k` bits of the sum and the carry into place `k` spell the
/// sum of the numbers that the first `k` bits of the two numbers spell.
pub proof fn lemma_sum_number(x: Seq<bool>, y: Seq<bool>, w: nat, k: nat)
    requires
        k <= w,
        x.len() == w,
        y.len() == w,
    ensures
        number(sums_of(x, y, w).take(k as int)) + (if carry_of(x, y, k) {
            pow2(k)
        } else {
            0
        }) == number(x.take(k as int)) + number(y.take(k as int)),
    decreases k,
{
    let s = sums_of(x, y, w);
    if k > 0 {
        let i = (k - 1) as nat;
        lemma_sum_number(x, y, w, i);
        assert(s.take(k as int).drop_last() =~= s.take(i as int));
        assert(x.take(k as int).drop_last() =~= x.take(i as int));
        assert(y.take(k as int).drop_last() =~= y.take(i as int));
        assert(s.take(k as int).last() == sum_of(x, y, i));
        assert(x.take(k as int).last() == x[i as int]);
        assert(y.take(k as int).last() == y[i as int]);
        lemma_pow2_unfold(k);
        assert(pow2(k) == 2 * pow2(i));
    } else {
        assert(s.take(0).len() == 0);
        assert(x.take(0).len() == 0);
        assert(y.take(0).len() == 0);
    }
}

/// The bits of the sum spell the sum of the two numbers modulo two to the
/// number of bits.
pub proof fn lemma_sums_value(x: Seq<bool>, y: Seq<bool>, w: nat)
    requires
        x.len() == w,
        y.len() == w,
    ensures
        number(sums_of(x, y, w)) == (number(x) + number(y)) % pow2(w),
{
    let s = sums_of(x, y, w);
    lemma_sum_number(x, y, w, w);
    assert(s.take(w as int) =~= s);
    assert(x.take(w as int) =~= x);
    assert(y.take(w as int) =~= y);
    lemma_number_bound(s);
    lemma_pow2_pos(w);
    let q: int = if carry_of(x, y, w) { 1 } else { 0 };
    assert(q * pow2(w) == if carry_of(x, y, w) { pow2(w) as int } else { 0 }) by (nonlinear_arith)
        requires
            q == (if carry_of(x, y, w) { 1int } else { 0int }),
    ;
    lemma_fundamental_div_mod_converse(
        (number(x) + number(y)) as int,
        pow2(w) as int,
        q,
        number(s) as int,
    );
}

/// Wires that hold, bit by bit, the sum of the numbers on two rows of
/// wires spell the sum of the two numbers modulo two to the number of bits.
pub proof fn lemma_bits_spell(args: Seq<Wire>, w: nat, s: Seq<bool>, r: Seq<bool>)
    requires
        args.len() == 3 * w,
        forall|k: int|
            0 <= k < w ==> r[(#[trigger] args[2 * w + k]).0 as int] == sum_of(
                first_bits(s, args, w),
                second_bits(s, args, w),
                k as nat,
            ),
    ensures
        value(r, args.subrange(2 * w as int, 3 * w as int)) == (value(
            s,
            args.subrange(0, w as int),
        ) + value(s, args.subrange(w as int, 2 * w as int))) % pow2(w),
{
    let a = args.subrange(0, w as int);
    let b = args.subrange(w as int, 2 * w as int);
    let o = args.subrange(2 * w as int, 3 * w as int);
    let x = first_bits(s, args, w);
    let y = second_bits(s, args, w);
    assert(bits_at(s, a) =~= x);
    assert(bits_at(s, b) =~= y) by {
        assert forall|i: int| 0 <= i < w implies bits_at(s, b)[i] == y[i] by {
            assert(b[i] == args[w + i]);
        }
    }
    assert(bits_at(r, o) =~= sums_of(x, y, w)) by {
        assert forall|k: int| 0 <= k < w implies bits_at(r, o)[k] == sums_of(x, y, w)[k] by {
            assert(o[k] == args[2 * w + k]);
        }
    }
    lemma_value_number(s, a);
    lemma_value_number(s, b);
    lemma_value_number(r, o);
    lemma_sums_value(x, y, w);
}

/// A copy of the adder adds. Where the adder `t`, the half adder that it
/// uses and the negation that the half adder uses were made from their
/// descriptions, the arguments are wires that the circuit had, each bit of
/// the sum no constant and the argument of no other port, and the fresh
/// wires of the copy that none of its gates writes read FALSE, as they do
/// at every tick, the number that the outputs spell after one tick of the
/// gates of the copy is the sum of the numbers that the two inputs spelt
/// before it, modulo two to the number of bits.
pub proof fn lemma_add_sums<T: Wiring>(
    t: &Template,
    earlier: &Memo,
    c0: &Circuit,
    c1: &Circuit,
    c2: &Circuit,
    ports: (T, T, T),
    he: &Memo,
    h0: &Circuit,
    h1: &Circuit,
    h2: &Circuit,
    hports: (Wire, Wire, Wire, Wire),
    ne: &Memo,
    n0: &Circuit,
    n1: &Circuit,
    n2: &Circuit,
    nports: (Wire, Wire),
    args: Seq<Wire>,
    start: nat,
    s: Seq<bool>,
)
    requires
        T::width() > 0,
        synthesized::<(T, T, T), Add>(&Add, earlier, c0, c1, c2, ports, t),
        synthesized::<(Wire, Wire, Wire, Wire), HalfAdd>(
            &HalfAdd,
            he,
            h0,
            h1,
            h2,
            hports,
            &c1.memo.template(HALF_ADD, 4),
        ),
        synthesized::<(Wire, Wire), Not>(&Not, ne, n0, n1, n2, nports, &h1.memo.template(NOT, 2)),
        h1.memo.template(NOT, 2).wf(),
        args.len() == 3 * T::width(),
        2 <= start,
        forall|p: int| 0 <= p < args.len() ==> (#[trigger] args[p]).0 < start,
        forall|p: int| 2 * T::width() <= p < args.len() ==> (#[trigger] args[p]).0 >= 2,
        forall|p: int, q: int|
            2 * T::width() <= p < args.len() && 0 <= q < args.len() && p != q ==> (
            #[trigger] args[p]) != (#[trigger] args[q]),
        start + t.inner() <= s.len() <= usize::MAX,
        !s[0],
        s[1],
        forall|w: int|
            start <= w < start + t.inner() && !written(spliced(t.nands@, args, start), w) ==> !(
            #[trigger] s[w]),
    ensures
        value(
            run(s, spliced(t.nands@, args, start)),
            args.subrange(2 * T::width() as int, 3 * T::width() as int),
        ) == (value(s, args.subrange(0, T::width() as int)) + value(
            s,
            args.subrange(T::width() as int, 2 * T::width() as int),
        )) % pow2(T::width()),
{
    lemma_add_copy::<T>(
        t,
        earlier,
        c0,
        c1,
        c2,
        ports,
        he,
        h0,
        h1,
        h2,
        hports,
        ne,
        n0,
        n1,
        n2,
        nports,
        args,
        start,
        s,
    );
    lemma_bits_spell(args, T::width(), s, run(s, spliced(t.nands@, args, start)));
}

/// The adder adds, on a circuit that starts without components. Where
/// the memo was empty before the adder was used between `a`, `b` and `o`,
/// wires that the circuit had, each leaf of `o` no constant and no other
/// leaf, and the wires that the use has added read FALSE, the number that
/// `o` spells after one tick of the gates that the use has added is the sum
/// of the numbers that `a` and `b` spelt before it, modulo two to the
/// number of bits; and those gates are all the gates where the circuit had
/// none.
pub proof fn lemma_add_first<T: Wiring>(
    before: &Circuit,
    after: &Circuit,
    a: T,
    b: T,
    o: T,
    s: Seq<bool>,
)
    requires
        T::width() > 0,
        before.memo.templates@ == Seq::<Template>::empty(),
        2 <= before.wires.len(),
        placed(before, after, ADD, a.leaves() + b.leaves() + o.leaves()),
        described::<(T, T, T), Add>(before, after, &Add),
        wires_in_range(a.leaves() + b.leaves() + o.leaves(), before.wires.len() as nat),
        forall|p: int|
            2 * T::width() <= p < 3 * T::width() ==> (#[trigger] (a.leaves() + b.leaves()
                + o.leaves())[p]).0 >= 2,
        forall|p: int, q: int|
            2 * T::width() <= p < 3 * T::width() && 0 <= q < 3 * T::width() && p != q ==> (
            #[trigger] (a.leaves() + b.leaves() + o.leaves())[p]) != (#[trigger] (a.leaves()
                + b.leaves() + o.leaves())[q]),
        s.len() == after.wires.len(),
        !s[0],
        s[1],
        forall|c: int| before.wires.len() <= c < s.len() ==> !(#[trigger] s[c]),
    ensures
        after.nands@ == before.nands@ + spliced(
            after.memo.template(ADD, 3 * T::width()).nands@,
            a.leaves() + b.leaves() + o.leaves(),
            before.wires.len() as nat,
        ),
        value(
            run(
                s,
                spliced(
                    after.memo.template(ADD, 3 * T::width()).nands@,
                    a.leaves() + b.leaves() + o.leaves(),
                    before.wires.len() as nat,
                ),
            ),
            o.leaves(),
        ) == (value(s, a.leaves()) + value(s, b.leaves())) % pow2(T::width()),
        before.nands@.len() == 0 ==> value(run(s, after.nands@), o.leaves()) == (value(
            s,
            a.leaves(),
        ) + value(s, b.leaves())) % pow2(T::width()),
{
    let w = T::width();
    let args = a.leaves() + b.leaves() + o.leaves();
    let start = before.wires.len() as nat;
    a.lemma_leaves_len();
    b.lemma_leaves_len();
    o.lemma_leaves_len();
    assert(args.len() == 3 * w);
    let t = after.memo.template(ADD, 3 * w);
    assert(t == after.memo.template(ADD, args.len()));
    assert(after.wires@ == before.wires@ + Seq::new(t.inner(), |i: int| false));
    assert(after.wires@.len() == start + t.inner());
    assert(after.nands@ == before.nands@ + spliced(t.nands@, args, start));
    let r = lemma_add_parts::<T>(before, after);
    assert forall|p: int| 0 <= p < args.len() implies (#[trigger] args[p]).0 < start by {}
    assert(start + t.inner() <= s.len() <= usize::MAX);
    assert forall|x: int|
        start <= x < start + t.inner() && !written(spliced(t.nands@, args, start), x) implies !(
    #[trigger] s[x]) by {}
    lemma_add_sums::<T>(
        &t,
        &before.memo,
        &r.0,
        &r.1,
        &r.2,
        r.3,
        &before.memo,
        &r.4,
        &r.5,
        &r.6,
        r.7,
        &before.memo,
        &r.8,
        &r.9,
        &r.10,
        r.11,
        args,
        start,
        s,
    );
    assert(args.subrange(0, w as int) =~= a.leaves());
    assert(args.subrange(w as int, 2 * w as int) =~= b.leaves());
    assert(args.subrange(2 * w as int, 3 * w as int) =~= o.leaves());
    if before.nands@.len() == 0 {
        assert(before.nands@ + spliced(t.nands@, args, start) =~= spliced(t.nands@, args, start));
    }
}

} // verus!
