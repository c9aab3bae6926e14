//! Addition.

use vstd::prelude::*;
use crate::bundle::{leaves_of, Bundle, Wiring};
use crate::circuit::{
    fire, lemma_pair_in_range, lemma_triple_in_range, run, wires_in_range, Circuit, Gate,
};
use crate::combinational::{
    combinational, fresh, lemma_concat_combinational, lemma_run_concat, lemma_run_keeps, written,
};
use crate::component::{
    allocated, chained, described, each, entered, lemma_chained_more, lemma_copy_again, lemma_copy_beyond,
    lemma_placed_grown, lively, placed, synthesized, used, Description,
};
use crate::components::not::{lemma_not_copy, lemma_not_copy_shape, Not, NOT};
use crate::memo::{spliced, Memo, Template};
use crate::components::xor::xor_built;
use crate::wire::Wire;

verus! {

/// The key of the half adder.
pub const HALF_ADD: u64 = 4;

/// The key of the adder.
pub const ADD: u64 = 5;

/// The half adder: `o` is the sum of the bits `a` and `b`, `co` the carry.
pub struct HalfAdd;

/// The adder: `o` is the sum of the numbers `a` and `b`, least significant
/// bit first, without the last carry.
pub struct Add;

/// One place of the adder in four steps: four fresh wires; a half adder of
/// the two inputs; a half adder of their sum and the carry `c` of the place
/// before, whose sum is the output; and the exclusive or of the two
/// carries, on the last of the fresh wires, as the carry of this place.
pub open spec fn placed_leaf(
    before: &Circuit,
    m1: &Circuit,
    m2: &Circuit,
    m3: &Circuit,
    after: &Circuit,
    a: Wire,
    b: Wire,
    c: Wire,
    o: Wire,
) -> bool {
    let n = before.wires.len();
    let o0 = Wire(n);
    let c0 = Wire((n + 1) as usize);
    let c1 = Wire((n + 2) as usize);
    let c2 = Wire((n + 3) as usize);
    &&& allocated(before, m1, 4)
    &&& used::<(Wire, Wire, Wire, Wire), HalfAdd>(m1, m2, &HalfAdd, seq![a, b, o0, c0])
    &&& used::<(Wire, Wire, Wire, Wire), HalfAdd>(m2, m3, &HalfAdd, seq![o0, c, o, c1])
    &&& xor_built(m3, after, seq![c0], seq![c1], seq![c2])
}

/// The carry that goes into the place `k` of the adder: the constant FALSE
/// into the first place, else the last of the four fresh wires of the
/// place before, which the half adders and the exclusive or of that place
/// follow.
pub open spec fn carry_into(before: &Circuit, k: int) -> Wire {
    if k == 0 {
        Wire(0)
    } else {
        Wire(
            (before.wires.len() - 4 - 2 * before.memo.template(HALF_ADD, 4).inner()) as usize,
        )
    }
}

/// The adder of one place, place `k`.
pub open spec fn add_leaf(
    before: &Circuit,
    after: &Circuit,
    k: int,
    a: Wire,
    b: Wire,
    o: Wire,
) -> bool {
    exists|m1: Circuit, m2: Circuit, m3: Circuit| #[trigger]
        placed_leaf(before, &m1, &m2, &m3, after, a, b, carry_into(before, k), o)
}

/// The adder of each place of three bundles.
pub open spec fn add_leaves(a: Seq<Wire>, b: Seq<Wire>, o: Seq<Wire>) -> spec_fn(
    Circuit,
    Circuit,
    int,
) -> bool {
    |before: Circuit, after: Circuit, k: int| add_leaf(&before, &after, k, a[k], b[k], o[k])
}

/// The half adder in two steps: three fresh wires and four gates, which
/// make `o` the exclusive or of `a` and `b`, take `before` to `mid`; a copy
/// of the negation, from the NAND of `a` and `b` to `co`, takes `mid` to
/// `after`.
pub open spec fn half_added(
    before: &Circuit,
    mid: &Circuit,
    after: &Circuit,
    wiring: (Wire, Wire, Wire, Wire),
) -> bool {
    let (a, b, o, co) = wiring;
    let n = before.wires.len();
    let x = Wire(n as usize);
    let ax = Wire((n + 1) as usize);
    let bx = Wire((n + 2) as usize);
    &&& mid.wires@ == before.wires@ + seq![false, false, false]
    &&& mid.nands@ == before.nands@ + seq![(a, b, x), (a, x, ax), (b, x, bx), (ax, bx, o)]
    &&& mid.inputs == before.inputs
    &&& mid.memo == before.memo
    &&& used::<(Wire, Wire), Not>(mid, after, &Not, seq![x, co])
}

impl Description<(Wire, Wire, Wire, Wire)> for HalfAdd {
    open spec fn key(&self) -> u64 {
        HALF_ADD
    }

    open spec fn ready(&self) -> bool {
        true
    }

    open spec fn built(
        &self,
        before: &Circuit,
        after: &Circuit,
        wiring: (Wire, Wire, Wire, Wire),
    ) -> bool {
        exists|mid: Circuit| #[trigger] half_added(before, &mid, after, wiring)
    }

    fn id(&self) -> (k: u64) {
        HALF_ADD
    }

    fn build(&self, circuit: &mut Circuit, wiring: (Wire, Wire, Wire, Wire)) {
        let (a, b, o, co) = wiring;
        proof {
            let all = wiring.leaves();
            assert(all[0] == a && all[1] == b && all[2] == o && all[3] == co);
        }
        let x = circuit.allocate();
        let ax = circuit.allocate();
        let bx = circuit.allocate();
        circuit.gate(a, b, x);
        circuit.gate(a, x, ax);
        circuit.gate(b, x, bx);
        circuit.gate(ax, bx, o);
        let ghost mid = *circuit;
        proof {
            lemma_pair_in_range(x, co, circuit.wires.len() as nat);
        }
        circuit.not(x, co);
        proof {
            assert(x.leaves() + co.leaves() =~= seq![x, co]);
            assert(mid.wires@ =~= old(circuit).wires@ + seq![false, false, false]);
            assert(mid.nands@ =~= old(circuit).nands@ + seq![
                (a, b, x),
                (a, x, ax),
                (b, x, bx),
                (ax, bx, o),
            ]);
            assert(half_added(old(circuit), &mid, circuit, wiring));
        }
    }
}

impl<T: Wiring> Description<(T, T, T)> for Add {
    open spec fn key(&self) -> u64 {
        ADD
    }

    open spec fn ready(&self) -> bool {
        true
    }

    open spec fn built(&self, before: &Circuit, after: &Circuit, wiring: (T, T, T)) -> bool {
        each(
            *before,
            *after,
            T::width(),
            add_leaves(wiring.0.leaves(), wiring.1.leaves(), wiring.2.leaves()),
        )
    }

    fn id(&self) -> (k: u64) {
        ADD
    }

    #[verifier::rlimit(100)]
    fn build(&self, circuit: &mut Circuit, wiring: (T, T, T)) {
        let (a, b, o) = wiring;
        proof {
            a.lemma_leaves_len();
            b.lemma_leaves_len();
            o.lemma_leaves_len();
        }
        let ghost n = circuit.wires.len() as nat;
        let ghost all = a.leaves() + b.leaves() + o.leaves();
        let va = leaves_of(a);
        let vb = leaves_of(b);
        let vo = leaves_of(o);
        proof {
            assert forall|i: int| 0 <= i < va.len() implies (#[trigger] va@[i]).0 < n by {
                assert(all[i] == va@[i]);
            }
            assert forall|i: int| 0 <= i < vb.len() implies (#[trigger] vb@[i]).0 < n by {
                assert(all[va.len() + i] == vb@[i]);
            }
            assert forall|i: int| 0 <= i < vo.len() implies (#[trigger] vo@[i]).0 < n by {
                assert(all[va.len() + vb.len() + i] == vo@[i]);
            }
        }
        let mut c = Wire(0);
        let ghost steps = add_leaves(va@, vb@, vo@);
        let ghost mut trail = seq![*circuit];
        let mut i: usize = 0;
        while i < vo.len()
            invariant
                steps == add_leaves(va@, vb@, vo@),
                trail.len() == i + 1,
                trail[0] == *old(circuit),
                trail[i as int] == *circuit,
                chained(trail, steps),
                i == 0 ==> c == Wire(0),
                i > 0 ==> circuit.memo.has(HALF_ADD, 4) && c.0 == circuit.wires.len() - 4 - 2
                    * circuit.memo.template(HALF_ADD, 4).inner(),
                i <= vo.len(),
                va.len() == vo.len(),
                vb.len() == vo.len(),
                n == old(circuit).wires.len(),
                circuit.grown_from(old(circuit)),
                circuit.closed(),
                c.0 < circuit.wires.len(),
                wires_in_range(va@, n),
                wires_in_range(vb@, n),
                wires_in_range(vo@, n),
            decreases vo.len() - i,
        {
            let ghost m0 = *circuit;
            let c2 = circuit.add_place(va[i], vb[i], c, vo[i]);
            proof {
                assert(c == carry_into(&m0, i as int));
                assert(steps(m0, *circuit, i as int));
                lemma_chained_more(trail, *circuit, steps);
                trail = trail.push(*circuit);
            }
            c = c2;
            i += 1;
        }
    }
}

/// What the description of the half adder builds. Where the negation in
/// the memo of `c1` was made from its description, `c1` is a combinational
/// netlist that writes its two output ports and no other port, and one
/// tick of it, from a store in which the constants hold and the wires that
/// are no ports read FALSE, leaves the exclusive or of the two input ports
/// on the first output port and their conjunction on the second.
pub proof fn lemma_half_add_built(
    t: &Template,
    earlier: &Memo,
    c0: &Circuit,
    c1: &Circuit,
    c2: &Circuit,
    ports: (Wire, Wire, Wire, Wire),
    ne: &Memo,
    n0: &Circuit,
    n1: &Circuit,
    n2: &Circuit,
    nports: (Wire, Wire),
    e: Seq<bool>,
)
    requires
        synthesized::<(Wire, Wire, Wire, Wire), HalfAdd>(&HalfAdd, earlier, c0, c1, c2, ports, t),
        synthesized::<(Wire, Wire), Not>(&Not, ne, n0, n1, n2, nports, &c1.memo.template(NOT, 2)),
        c1.memo.template(NOT, 2).wf(),
        e.len() == c1.wires.len(),
        !e[0],
        e[1],
        forall|w: int| 6 <= w < e.len() ==> !(#[trigger] e[w]),
    ensures
        c1.inputs == 4,
        c1.wires.len() >= 9,
        combinational(c1.nands@, c1.wires.len() as nat),
        forall|q: int| 2 <= q < 6 ==> (written(c1.nands@, q) <==> 4 <= q),
        run(e, c1.nands@)[4] == (e[2] != e[3]),
        run(e, c1.nands@)[5] == (e[2] && e[3]),
{
    let tn = c1.memo.template(NOT, 2);
    let (a, b, o, co) = ports;
    assert(ports.leaves() =~= seq![a, b, o, co]);
    assert(ports.leaves()[0] == a && ports.leaves()[1] == b && ports.leaves()[2] == o
        && ports.leaves()[3] == co);
    assert(a == Wire(2) && b == Wire(3) && o == Wire(4) && co == Wire(5));
    let x = Wire(6);
    let ax = Wire(7);
    let bx = Wire(8);
    assert(c0.wires.len() == 6);
    assert(HalfAdd.built(c0, c1, ports));
    let mid = choose|mid: Circuit| #[trigger] half_added(c0, &mid, c1, ports);
    let four = seq![(a, b, x), (a, x, ax), (b, x, bx), (ax, bx, o)];
    assert(mid.nands@ =~= four);
    assert(mid.wires.len() == 9);
    let args = seq![x, co];
    let copy = spliced(tn.nands@, args, 9);
    assert(c1.nands@ == four + copy);
    let n = c1.wires.len() as nat;
    assert(n == 9 + tn.inner());
    assert(args[0] == x && args[1] == co);
    lemma_not_copy_shape::<Wire>(&tn, ne, n0, n1, n2, nports, args, 9, n);
    // the four gates
    assert(combinational(four, n)) by {
        assert(four[0] == (a, b, x) && four[1] == (a, x, ax) && four[2] == (b, x, bx) && four[3]
            == (ax, bx, o));
    }
    assert forall|i: int, j: int| 0 <= i < four.len() && 0 <= j < copy.len() implies (
    #[trigger] copy[j]).2 != (#[trigger] four[i]).0 && copy[j].2 != four[i].1 && copy[j].2
        != four[i].2 by {
        assert(four[0] == (a, b, x) && four[1] == (a, x, ax) && four[2] == (b, x, bx) && four[3]
            == (ax, bx, o));
        if copy[j].2.0 < 9 {
            let p = choose|p: int| 1 <= p < args.len() && copy[j].2 == #[trigger] args[p];
            assert(copy[j].2 == co);
        }
    }
    lemma_concat_combinational(four, copy, n);
    assert forall|q: int| 2 <= q < 6 implies (written(c1.nands@, q) <==> 4 <= q) by {
        let all = c1.nands@;
        if written(all, q) {
            let g = choose|g: int| 0 <= g < all.len() && (#[trigger] all[g]).2.0 == q;
            if g < 4 {
                assert(all[g] == four[g]);
                assert(four[0] == (a, b, x) && four[1] == (a, x, ax) && four[2] == (b, x, bx)
                    && four[3] == (ax, bx, o));
            } else {
                assert(all[g] == copy[g - 4]);
                if copy[g - 4].2.0 < 9 {
                    let p = choose|p: int|
                        1 <= p < args.len() && copy[g - 4].2 == #[trigger] args[p];
                }
            }
        }
        if q == 4 {
            assert(all[3] == four[3]);
            assert(four[3] == (ax, bx, o));
        }
        if q == 5 {
            // the output of the copy has a gate: the rest is shown below
            lemma_half_add_carry(tn, ne, n0, n1, n2, nports, copy, n);
            let j = choose|j: int| 0 <= j < copy.len() && (#[trigger] copy[j]).2 == Wire(5);
            assert(all[4 + j] == copy[j]);
        }
    }
    // one tick
    let r1 = fire(e, (a, b, x));
    let r2 = fire(r1, (a, x, ax));
    let r3 = fire(r2, (b, x, bx));
    let r4 = fire(r3, (ax, bx, o));
    let g0 = seq![(a, b, x)];
    assert(g0.drop_last() =~= Seq::<Gate>::empty());
    assert(g0.last() == (a, b, x));
    assert(run(e, g0.drop_last()) == e);
    assert(run(e, g0) == r1);
    assert(g0.push((a, x, ax)).drop_last() =~= g0);
    assert(run(e, g0.push((a, x, ax))) == r2);
    assert(g0.push((a, x, ax)).push((b, x, bx)).drop_last() =~= g0.push((a, x, ax)));
    assert(run(e, g0.push((a, x, ax)).push((b, x, bx))) == r3);
    assert(four =~= g0.push((a, x, ax)).push((b, x, bx)).push((ax, bx, o)));
    assert(four.drop_last() =~= g0.push((a, x, ax)).push((b, x, bx)));
    assert(run(e, four) == r4);
    lemma_run_concat(e, four, copy);
    assert(r4[4] == (e[2] != e[3]));
    assert(r4[6] == !(e[2] && e[3]));
    assert forall|w: int| 9 <= w < 9 + tn.inner() implies !(#[trigger] r4[w]) by {
        assert(!e[w]);
    }
    lemma_not_copy::<Wire>(&tn, ne, n0, n1, n2, nports, args, 9, r4);
    assert(run(r4, copy)[args[1int + 0].0 as int] == !r4[args[0].0 as int]);
    assert(args[1int + 0].0 != 4);
    assert(run(r4, copy)[4] == r4[4]);
}

/// A copy of the negation has a gate that writes its output.
proof fn lemma_half_add_carry(
    tn: Template,
    ne: &Memo,
    n0: &Circuit,
    n1: &Circuit,
    n2: &Circuit,
    nports: (Wire, Wire),
    copy: Seq<Gate>,
    n: nat,
)
    requires
        synthesized::<(Wire, Wire), Not>(&Not, ne, n0, n1, n2, nports, &tn),
        tn.wf(),
        copy == spliced(tn.nands@, seq![Wire(6), Wire(5)], 9),
        n == 9 + tn.inner(),
        n <= usize::MAX,
    ensures
        exists|j: int| 0 <= j < copy.len() && (#[trigger] copy[j]).2 == Wire(5),
{
    let args = seq![Wire(6), Wire(5)];
    assert(args[0] == Wire(6) && args[1] == Wire(5));
    let s = Seq::new(n, |w: int| w == 1);
    lemma_not_copy::<Wire>(&tn, ne, n0, n1, n2, nports, args, 9, s);
    assert(run(s, copy)[args[1int + 0].0 as int] == !s[args[0].0 as int]);
    assert(run(s, copy)[5]);
    lemma_not_copy_shape::<Wire>(&tn, ne, n0, n1, n2, nports, args, 9, n);
    lemma_run_keeps(s, copy);
    assert(written(copy, 5));
    let j = choose|j: int| 0 <= j < copy.len() && (#[trigger] copy[j]).2.0 == 5;
    assert(copy[j].2 == Wire(5));
}

/// The gates of a copy of the half adder add two bits. Where the half adder
/// `t` and the negation that it uses were made from their descriptions, the
/// arguments are wires that the circuit had, the two outputs no constants
/// and each the argument of no other port, and the fresh wires of the copy
/// that none of its gates writes read FALSE, as they do at every tick, one
/// tick of the gates of the copy leaves the exclusive or of the first two
/// arguments on the third and their conjunction on the fourth, and leaves
/// every other wire that the circuit had as it was. The two bits may be
/// constants, or one wire.
pub proof fn lemma_half_add_copy(
    t: &Template,
    earlier: &Memo,
    c0: &Circuit,
    c1: &Circuit,
    c2: &Circuit,
    ports: (Wire, Wire, Wire, Wire),
    ne: &Memo,
    n0: &Circuit,
    n1: &Circuit,
    n2: &Circuit,
    nports: (Wire, Wire),
    args: Seq<Wire>,
    start: nat,
    s: Seq<bool>,
)
    requires
        synthesized::<(Wire, Wire, Wire, Wire), HalfAdd>(&HalfAdd, earlier, c0, c1, c2, ports, t),
        synthesized::<(Wire, Wire), Not>(&Not, ne, n0, n1, n2, nports, &c1.memo.template(NOT, 2)),
        c1.memo.template(NOT, 2).wf(),
        args.len() == 4,
        2 <= start,
        forall|p: int| 0 <= p < args.len() ==> (#[trigger] args[p]).0 < start,
        forall|p: int| 2 <= p < args.len() ==> (#[trigger] args[p]).0 >= 2,
        forall|p: int, q: int|
            2 <= p < args.len() && 0 <= q < args.len() && p != q ==> (#[trigger] args[p]) != (
            #[trigger] args[q]),
        start + t.inner() <= s.len() <= usize::MAX,
        !s[0],
        s[1],
        forall|w: int|
            start <= w < start + t.inner() && !written(spliced(t.nands@, args, start), w) ==> !(
            #[trigger] s[w]),
    ensures
        run(s, spliced(t.nands@, args, start))[args[2].0 as int] == (s[args[0].0 as int]
            != s[args[1].0 as int]),
        run(s, spliced(t.nands@, args, start))[args[3].0 as int] == (s[args[0].0 as int]
            && s[args[1].0 as int]),
        forall|c: int|
            0 <= c < start && c != args[2].0 && c != args[3].0 ==> run(
                s,
                spliced(t.nands@, args, start),
            )[c] == s[c],
        run(s, spliced(t.nands@, args, start)).len() == s.len(),
        forall|c: int|
            start + t.inner() <= c < s.len() ==> run(s, spliced(t.nands@, args, start))[c] == s[c],
{
    let n = c1.wires.len() as nat;
    let built = c1.nands@;
    assert(t.nands == c2.nands && t.size == c2.wires.len() && t.inputs == 4);
    assert forall|c: int| start + t.inner() <= c < s.len() implies run(
        s,
        spliced(t.nands@, args, start),
    )[c] == s[c] by {
        lemma_copy_beyond(t.nands@, 4, t.size as nat, args, start, s, c);
    }
    let blank = Seq::new(n, |w: int| w == 1);
    lemma_half_add_built(t, earlier, c0, c1, c2, ports, ne, n0, n1, n2, nports, blank);
    // each output can become TRUE
    let one = Seq::new(n, |w: int| w == 1 || w == 2);
    let both = Seq::new(n, |w: int| w == 1 || w == 2 || w == 3);
    lemma_half_add_built(t, earlier, c0, c1, c2, ports, ne, n0, n1, n2, nports, one);
    lemma_half_add_built(t, earlier, c0, c1, c2, ports, ne, n0, n1, n2, nports, both);
    assert(fresh(one, built, 6));
    assert(fresh(both, built, 6));
    assert(lively(built, n, 6, 4));
    assert(lively(built, n, 6, 5));
    assert(t.nands == c2.nands && t.size == c2.wires.len());
    lemma_copy_again(c1, c2, args, start, s);
    let e = entered(s, built, n, args);
    lemma_half_add_built(t, earlier, c0, c1, c2, ports, ne, n0, n1, n2, nports, e);
    assert(e[2] == s[args[0].0 as int]);
    assert(e[3] == s[args[1].0 as int]);
    assert forall|c: int| 0 <= c < start && c != args[2].0 && c != args[3].0 implies run(
        s,
        spliced(t.nands@, args, start),
    )[c] == s[c] by {
        assert forall|p: int| 0 <= p < args.len() && written(built, 2 + p) implies (
        #[trigger] args[p]).0 != c by {
            assert(p == 2 || p == 3);
        }
    }
}

impl Circuit {
    /// Appends one place of the adder, between the bits `a` and `b`, the
    /// carry `c` of the place before and the output `o`, and returns the
    /// carry of this place.
    fn add_place(&mut self, a: Wire, b: Wire, c: Wire, o: Wire) -> (carry: Wire)
        requires
            old(self).wf(),
            old(self).closed(),
            a.0 < old(self).wires.len(),
            b.0 < old(self).wires.len(),
            c.0 < old(self).wires.len(),
            o.0 < old(self).wires.len(),
        ensures
            exists|m1: Circuit, m2: Circuit, m3: Circuit| #[trigger]
                placed_leaf(old(self), &m1, &m2, &m3, final(self), a, b, c, o),
            final(self).grown_from(old(self)),
            final(self).closed(),
            final(self).memo.has(HALF_ADD, 4),
            carry.0 == old(self).wires.len() + 3,
            carry.0 == final(self).wires.len() - 4 - 2 * final(self).memo.template(
                HALF_ADD,
                4,
            ).inner(),
    {
        let o0 = self.allocate();
        let c0 = self.allocate();
        let c1 = self.allocate();
        let c2 = self.allocate();
        let ghost m1 = *self;
        self._half_add(a, b, o0, c0);
        let ghost m2 = *self;
        self._half_add(o0, c, o, c1);
        let ghost m3 = *self;
        proof {
            lemma_triple_in_range(c0, c1, c2, self.wires.len() as nat);
        }
        self.xor(c0, c1, c2);
        proof {
            assert(m1.wires@ =~= old(self).wires@ + Seq::new(4, |i: int| false));
            assert(c0.leaves() =~= seq![c0]);
            assert(c1.leaves() =~= seq![c1]);
            assert(c2.leaves() =~= seq![c2]);
            assert(m3.memo == m2.memo);
            assert(placed_leaf(old(self), &m1, &m2, &m3, self, a, b, c, o));
        }
        c2
    }

    /// Appends a copy of the half adder between `a`, `b`, `o` and `co`.
    pub fn _half_add(&mut self, a: Wire, b: Wire, o: Wire, co: Wire)
        requires
            old(self).wf(),
        ensures
            placed(old(self), final(self), HALF_ADD, seq![a, b, o, co]),
            described::<(Wire, Wire, Wire, Wire), HalfAdd>(old(self), final(self), &HalfAdd),
            final(self).grown_from(old(self)),
            old(self).closed() && a.0 < old(self).wires.len() && b.0 < old(self).wires.len() && o.0
                < old(self).wires.len() && co.0 < old(self).wires.len() ==> final(self).closed(),
    {
        assert((a, b, o, co).leaves() =~= seq![a, b, o, co]);
        self.component((a, b, o, co), HalfAdd);
        proof {
            lemma_placed_grown(old(self), self, HALF_ADD, seq![a, b, o, co]);
        }
    }

    /// Appends a copy of the adder between `a`, `b` and `o`.
    pub fn add<T: Wiring>(&mut self, a: T, b: T, o: T)
        requires
            old(self).wf(),
            T::width() + T::width() + T::width() + 2 <= usize::MAX,
        ensures
            placed(old(self), final(self), ADD, a.leaves() + b.leaves() + o.leaves()),
            described::<(T, T, T), Add>(old(self), final(self), &Add),
            final(self).grown_from(old(self)),
            old(self).closed() && wires_in_range(
                a.leaves() + b.leaves() + o.leaves(),
                old(self).wires.len() as nat,
            ) ==> final(self).closed(),
    {
        self.component((a, b, o), Add);
        proof {
            lemma_placed_grown(old(self), self, ADD, a.leaves() + b.leaves() + o.leaves());
        }
    }
}

} // verus!
