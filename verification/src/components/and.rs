//! Conjunction.

use vstd::prelude::*;
use crate::bundle::{leaves_of, Bundle, Wiring};
use crate::circuit::{
    gate_in_range,
    gates_in_range,
    lemma_front_in_range,
    lemma_pair_in_range,
    run,
    wires_in_range,
    Circuit,
    Gate,
};
use crate::combinational::{lemma_run_concat, lemma_run_keeps, written};
use crate::component::{described, lemma_spliced_in_range, placed, synthesized};
use crate::components::not::{lemma_not_copy, Not, NOT};
use crate::memo::{spliced, Memo, Template};
use crate::wire::Wire;

verus! {

/// The gates of the conjunction, place by place, where the negation has
/// the gates `not` and `inner` wires of its own. Each place has a fresh
/// wire, the first at `start`, for the NAND of the two inputs, and after it
/// the wires and gates of a copy of the negation from that wire to the
/// output.
pub open spec fn and_gates(
    not: Seq<Gate>,
    inner: nat,
    a: Seq<Wire>,
    b: Seq<Wire>,
    o: Seq<Wire>,
    start: nat,
) -> Seq<Gate>
    decreases o.len(),
{
    if o.len() == 0 {
        Seq::empty()
    } else {
        let k = (o.len() - 1) as nat;
        let at = start + k * (1 + inner);
        let x = Wire(at as usize);
        and_gates(not, inner, a.drop_last(), b.drop_last(), o.drop_last(), start).push(
            (a.last(), b.last(), x),
        ) + spliced(not, seq![x, o.last()], (at + 1) as nat)
    }
}

/// The gates of the conjunction read and write wires below the end of its
/// fresh wires.
pub proof fn lemma_and_in_range(
    not: Seq<Gate>,
    inner: nat,
    a: Seq<Wire>,
    b: Seq<Wire>,
    o: Seq<Wire>,
    start: nat,
)
    requires
        gates_in_range(not, inner + 4),
        a.len() == o.len(),
        b.len() == o.len(),
        2 <= start,
        wires_in_range(a, start),
        wires_in_range(b, start),
        wires_in_range(o, start),
        start + o.len() * (1 + inner) <= usize::MAX,
    ensures
        gates_in_range(and_gates(not, inner, a, b, o, start), start + o.len() * (1 + inner)),
    decreases o.len(),
{
    if o.len() > 0 {
        let (sa, sb, so) = (a.drop_last(), b.drop_last(), o.drop_last());
        let last = (o.len() - 1) as nat;
        let at = start + last * (1 + inner);
        let end = start + o.len() * (1 + inner);
        assert(end == at + 1 + inner) by (nonlinear_arith)
            requires
                end == start + (last + 1) * (1 + inner),
                at == start + last * (1 + inner),
        ;
        lemma_front_in_range(a, start);
        lemma_front_in_range(b, start);
        lemma_front_in_range(o, start);
        lemma_and_in_range(not, inner, sa, sb, so, start);
        let rest = and_gates(not, inner, sa, sb, so, start);
        let x = Wire(at as usize);
        let g = (a.last(), b.last(), x);
        let args = seq![x, o.last()];
        let l = last as int;
        assert(a.last() == a[l] && b.last() == b[l] && o.last() == o[l]);
        assert(wires_in_range(args, end)) by {
            assert forall|i: int| 0 <= i < args.len() implies (#[trigger] args[i]).0 < end by {
                if i == 0 {
                    assert(args[i] == x);
                } else {
                    assert(args[i] == o.last());
                }
            }
        }
        lemma_spliced_in_range(not, 2, inner + 4, args, (at + 1) as nat, end);
        let copy = spliced(not, args, (at + 1) as nat);
        let all = and_gates(not, inner, a, b, o, start);
        assert(all == rest.push(g) + copy);
        assert forall|i: int| 0 <= i < all.len() implies gate_in_range(#[trigger] all[i], end) by {
            if i < rest.len() {
                assert(all[i] == rest[i]);
                assert(gate_in_range(rest[i], at));
            } else if i == rest.len() {
                assert(all[i] == g);
            } else {
                assert(all[i] == copy[i - rest.len() - 1]);
            }
        }
    } else {
        assert(0 * (1 + inner) == 0) by (nonlinear_arith);
    }
}

/// The conjunction computes the conjunction. Where the negation `t` was
/// made from its description, the inputs are wires that the circuit had,
/// the outputs are such wires too and no constants, and the fresh wires of
/// the conjunction read FALSE, one tick of its gates leaves on each output
/// the conjunction of what the two inputs of its place had, where no
/// earlier place writes one of those inputs and no later place writes that
/// output; and it leaves every other wire that the circuit had as it was.
pub proof fn lemma_and_computes(
    t: &Template,
    earlier: &Memo,
    c0: &Circuit,
    c1: &Circuit,
    c2: &Circuit,
    ports: (Wire, Wire),
    a: Seq<Wire>,
    b: Seq<Wire>,
    o: Seq<Wire>,
    start: nat,
    s: Seq<bool>,
    k: int,
)
    requires
        synthesized::<(Wire, Wire), Not>(&Not, earlier, c0, c1, c2, ports, t),
        t.wf(),
        t.inputs == 2,
        a.len() == o.len(),
        b.len() == o.len(),
        2 <= start,
        wires_in_range(a, start),
        wires_in_range(b, start),
        forall|j: int| 0 <= j < o.len() ==> 2 <= (#[trigger] o[j]).0 < start,
        start + o.len() * (1 + t.inner()) <= s.len() <= usize::MAX,
        !s[0],
        s[1],
        forall|w: int| start <= w < start + o.len() * (1 + t.inner()) ==> !(#[trigger] s[w]),
        0 <= k < o.len(),
        forall|j: int| 0 <= j < k ==> (#[trigger] o[j]) != a[k] && o[j] != b[k],
        forall|j: int| k < j < o.len() ==> (#[trigger] o[j]) != o[k],
    ensures
        run(s, and_gates(t.nands@, t.inner(), a, b, o, start))[o[k].0 as int] == (s[a[k].0 as int]
            && s[b[k].0 as int]),
        forall|c: int|
            0 <= c < start && (forall|j: int| 0 <= j < o.len() ==> (#[trigger] o[j]).0 != c)
                ==> run(s, and_gates(t.nands@, t.inner(), a, b, o, start))[c] == s[c],
    decreases o.len(),
{
    let not = t.nands@;
    let inner = t.inner();
    let (sa, sb, so) = (a.drop_last(), b.drop_last(), o.drop_last());
    let last = (o.len() - 1) as nat;
    let at = start + last * (1 + inner);
    let end = start + o.len() * (1 + inner);
    assert(end == at + 1 + inner) by (nonlinear_arith)
        requires
            end == start + (last + 1) * (1 + inner),
            at == start + last * (1 + inner),
    ;
    assert(at >= start) by (nonlinear_arith)
        requires
            at == start + last * (1 + inner),
            last >= 0,
            inner >= 0,
    ;
    assert(wires_in_range(o, start));
    lemma_front_in_range(a, start);
    lemma_front_in_range(b, start);
    assert forall|j: int| 0 <= j < so.len() implies 2 <= (#[trigger] so[j]).0 < start by {
        assert(so[j] == o[j]);
    }
    assert(wires_in_range(so, start));
    assert(inner + 4 == t.size);
    lemma_and_in_range(not, inner, sa, sb, so, start);
    let rest = and_gates(not, inner, sa, sb, so, start);
    let x = Wire(at as usize);
    let l = last as int;
    assert(a.last() == a[l] && b.last() == b[l] && o.last() == o[l]);
    let g = (a[l], b[l], x);
    let args = seq![x, o[l]];
    let copy = spliced(not, args, (at + 1) as nat);
    let all = and_gates(not, inner, a, b, o, start);
    assert(all == rest.push(g) + copy);
    // one tick of the earlier places
    let r0 = run(s, rest);
    assert(gates_in_range(rest, s.len())) by {
        assert forall|i: int| 0 <= i < rest.len() implies gate_in_range(
            #[trigger] rest[i],
            s.len(),
        ) by {
            assert(gate_in_range(rest[i], at));
        }
    }
    lemma_run_keeps(s, rest);
    assert forall|w: int| at <= w < s.len() implies r0[w] == s[w] by {
        if written(rest, w) {
            let i = choose|i: int| 0 <= i < rest.len() && (#[trigger] rest[i]).2.0 == w;
            assert(gate_in_range(rest[i], at));
        }
    }
    assert forall|w: int| start <= w < start + so.len() * (1 + inner) implies !(
    #[trigger] s[w]) by {}
    if k < l {
        assert forall|j: int| 0 <= j < k implies (#[trigger] so[j]) != sa[k] && so[j] != sb[k] by {
            assert(so[j] == o[j]);
        }
        assert forall|j: int| k < j < so.len() implies (#[trigger] so[j]) != so[k] by {
            assert(so[j] == o[j]);
        }
        lemma_and_computes(t, earlier, c0, c1, c2, ports, sa, sb, so, start, s, k);
    }
    // what the earlier places leave alone
    assert forall|c: int|
        0 <= c < start && (forall|j: int| 0 <= j < so.len() ==> (#[trigger] so[j]).0
            != c) implies r0[c] == s[c] by {
        lemma_and_frame(t, earlier, c0, c1, c2, ports, sa, sb, so, start, s, c);
    }
    let r1 = crate::circuit::fire(r0, g);
    assert(run(s, rest.push(g)) == r1) by {
        assert(rest.push(g).drop_last() =~= rest);
    }
    lemma_run_concat(s, rest.push(g), copy);
    assert(run(s, all) == run(r1, copy));
    assert(r1.len() == s.len());
    assert forall|w: int| at + 1 <= w < at + 1 + inner implies !(#[trigger] r1[w]) by {
        assert(r0[w] == s[w]);
    }
    lemma_not_copy::<Wire>(t, earlier, c0, c1, c2, ports, args, (at + 1) as nat, r1);
    assert(args[0] == x && args[1] == o[l]);
    assert(run(r1, copy)[args[1int + 0].0 as int] == !r1[args[0].0 as int]);
    if k == l {
        assert forall|j: int| 0 <= j < so.len() implies (#[trigger] so[j]).0 != a[k].0 by {
            assert(so[j] == o[j]);
        }
        assert forall|j: int| 0 <= j < so.len() implies (#[trigger] so[j]).0 != b[k].0 by {
            assert(so[j] == o[j]);
        }
        assert(r0[a[k].0 as int] == s[a[k].0 as int]);
        assert(r0[b[k].0 as int] == s[b[k].0 as int]);
    } else {
        assert(sa[k] == a[k] && sb[k] == b[k] && so[k] == o[k]);
        assert(o[l] != o[k]);
        assert(run(r1, copy)[o[k].0 as int] == r1[o[k].0 as int]);
    }
    assert forall|c: int|
        0 <= c < start && (forall|j: int| 0 <= j < o.len() ==> (#[trigger] o[j]).0
            != c) implies run(s, all)[c] == s[c] by {
        assert(o[l].0 != c);
        assert forall|j: int| 0 <= j < so.len() implies (#[trigger] so[j]).0 != c by {
            assert(so[j] == o[j]);
        }
        assert(r0[c] == s[c]);
        assert(run(r1, copy)[c] == r1[c]);
    }
}

/// The conjunction leaves every wire that the circuit had and that is no
/// output as it was.
pub proof fn lemma_and_frame(
    t: &Template,
    earlier: &Memo,
    c0: &Circuit,
    c1: &Circuit,
    c2: &Circuit,
    ports: (Wire, Wire),
    a: Seq<Wire>,
    b: Seq<Wire>,
    o: Seq<Wire>,
    start: nat,
    s: Seq<bool>,
    c: int,
)
    requires
        synthesized::<(Wire, Wire), Not>(&Not, earlier, c0, c1, c2, ports, t),
        t.wf(),
        t.inputs == 2,
        a.len() == o.len(),
        b.len() == o.len(),
        2 <= start,
        wires_in_range(a, start),
        wires_in_range(b, start),
        forall|j: int| 0 <= j < o.len() ==> 2 <= (#[trigger] o[j]).0 < start,
        start + o.len() * (1 + t.inner()) <= s.len() <= usize::MAX,
        !s[0],
        s[1],
        forall|w: int| start <= w < start + o.len() * (1 + t.inner()) ==> !(#[trigger] s[w]),
        0 <= c < start,
        forall|j: int| 0 <= j < o.len() ==> (#[trigger] o[j]).0 != c,
    ensures
        run(s, and_gates(t.nands@, t.inner(), a, b, o, start))[c] == s[c],
    decreases o.len(),
{
    if o.len() > 0 {
        let not = t.nands@;
        let inner = t.inner();
        let (sa, sb, so) = (a.drop_last(), b.drop_last(), o.drop_last());
        let last = (o.len() - 1) as nat;
        let at = start + last * (1 + inner);
        let end = start + o.len() * (1 + inner);
        assert(end == at + 1 + inner) by (nonlinear_arith)
            requires
                end == start + (last + 1) * (1 + inner),
                at == start + last * (1 + inner),
        ;
        assert(at >= start) by (nonlinear_arith)
            requires
                at == start + last * (1 + inner),
                last >= 0,
                inner >= 0,
        ;
        lemma_front_in_range(a, start);
        lemma_front_in_range(b, start);
        assert forall|j: int| 0 <= j < so.len() implies 2 <= (#[trigger] so[j]).0 < start && so[j].0
            != c by {
            assert(so[j] == o[j]);
        }
        assert(wires_in_range(so, start));
        assert(inner + 4 == t.size);
        lemma_and_in_range(not, inner, sa, sb, so, start);
        let rest = and_gates(not, inner, sa, sb, so, start);
        let x = Wire(at as usize);
        let l = last as int;
        assert(a.last() == a[l] && b.last() == b[l] && o.last() == o[l]);
        let g = (a[l], b[l], x);
        let args = seq![x, o[l]];
        let copy = spliced(not, args, (at + 1) as nat);
        let all = and_gates(not, inner, a, b, o, start);
        assert(all == rest.push(g) + copy);
        assert forall|w: int| start <= w < start + so.len() * (1 + inner) implies !(
        #[trigger] s[w]) by {}
        lemma_and_frame(t, earlier, c0, c1, c2, ports, sa, sb, so, start, s, c);
        let r0 = run(s, rest);
        assert(gates_in_range(rest, s.len())) by {
            assert forall|i: int| 0 <= i < rest.len() implies gate_in_range(
                #[trigger] rest[i],
                s.len(),
            ) by {
                assert(gate_in_range(rest[i], at));
            }
        }
        lemma_run_keeps(s, rest);
        assert forall|w: int| at <= w < s.len() implies r0[w] == s[w] by {
            if written(rest, w) {
                let i = choose|i: int| 0 <= i < rest.len() && (#[trigger] rest[i]).2.0 == w;
                assert(gate_in_range(rest[i], at));
            }
        }
        lemma_and_frame(t, earlier, c0, c1, c2, ports, sa, sb, so, start, s, 0);
        lemma_and_frame(t, earlier, c0, c1, c2, ports, sa, sb, so, start, s, 1);
        let r1 = crate::circuit::fire(r0, g);
        assert(run(s, rest.push(g)) == r1) by {
            assert(rest.push(g).drop_last() =~= rest);
        }
        lemma_run_concat(s, rest.push(g), copy);
        assert forall|w: int| at + 1 <= w < at + 1 + inner implies !(#[trigger] r1[w]) by {
            assert(r0[w] == s[w]);
        }
        lemma_not_copy::<Wire>(t, earlier, c0, c1, c2, ports, args, (at + 1) as nat, r1);
        assert(args[0] == x && args[1] == o[l]);
        assert(args[1int + 0].0 != c);
        assert(run(r1, copy)[c] == r1[c]);
    }
}

/// Whether `after` is `before` with the wires and gates of the conjunction
/// of the leaves `a` and `b` into the leaves `o`, the negation synthesized
/// if there are leaves and the memo lacked it.
pub open spec fn and_built(
    before: &Circuit,
    after: &Circuit,
    a: Seq<Wire>,
    b: Seq<Wire>,
    o: Seq<Wire>,
) -> bool {
    let t = after.memo.template(NOT, 2);
    &&& after.nands@ == before.nands@ + and_gates(
        t.nands@,
        t.inner(),
        a,
        b,
        o,
        before.wires.len() as nat,
    )
    &&& after.wires@ == before.wires@ + Seq::new(o.len() * (1 + t.inner()), |i: int| false)
    &&& after.inputs == before.inputs
    &&& o.len() > 0 ==> after.memo.has(NOT, 2)
    &&& o.len() == 0 || before.memo.has(NOT, 2) ==> after.memo == before.memo
    &&& o.len() > 0 ==> described::<(Wire, Wire), Not>(before, after, &Not)
}

impl Circuit {
    /// Appends, for each place of the three bundles, a fresh wire, a gate
    /// that writes the NAND of the leaves of `a` and `b` to it, and a copy
    /// of the negation from it to the leaf of `o`.
    #[verifier::rlimit(100)]
    pub fn and<T: Wiring>(&mut self, a: T, b: T, o: T)
        requires
            old(self).wf(),
        ensures
            and_built(old(self), final(self), a.leaves(), b.leaves(), o.leaves()),
            final(self).grown_from(old(self)),
            old(self).closed() && wires_in_range(
                a.leaves() + b.leaves() + o.leaves(),
                old(self).wires.len() as nat,
            ) ==> final(self).closed(),
    {
        proof {
            a.lemma_leaves_len();
            b.lemma_leaves_len();
            o.lemma_leaves_len();
        }
        let ghost n = self.wires.len() as nat;
        let ghost all = a.leaves() + b.leaves() + o.leaves();
        let va = leaves_of(a);
        let vb = leaves_of(b);
        let vo = leaves_of(o);
        let ghost sure = self.closed() && wires_in_range(all, n);
        proof {
            if sure {
                assert forall|i: int| 0 <= i < va.len() implies (#[trigger] va@[i]).0 < n by {
                    assert(all[i] == va@[i]);
                }
                assert forall|i: int| 0 <= i < vb.len() implies (#[trigger] vb@[i]).0 < n by {
                    assert(all[va.len() + i] == vb@[i]);
                }
                assert forall|i: int| 0 <= i < vo.len() implies (#[trigger] vo@[i]).0 < n by {
                    assert(all[va.len() + vb.len() + i] == vo@[i]);
                }
            }
            let t = self.memo.template(NOT, 2);
            assert(and_gates(t.nands@, t.inner(), va@.take(0), vb@.take(0), vo@.take(0), n)
                =~= Seq::<Gate>::empty());
            assert(0 * (1 + t.inner()) == 0) by (nonlinear_arith);
            assert(self.wires@ =~= old(self).wires@ + Seq::new(0, |i: int| false));
        }
        let mut i: usize = 0;
        while i < vo.len()
            invariant
                i <= vo.len(),
                va.len() == vo.len(),
                vb.len() == vo.len(),
                n == old(self).wires.len(),
                self.grown_from(old(self)),
                i > 0 ==> self.memo.has(NOT, 2),
                i == 0 || old(self).memo.has(NOT, 2) ==> self.memo == old(self).memo,
                i > 0 ==> described::<(Wire, Wire), Not>(old(self), self, &Not),
                ({
                    let t = self.memo.template(NOT, 2);
                    &&& self.nands@ == old(self).nands@ + and_gates(
                        t.nands@,
                        t.inner(),
                        va@.take(i as int),
                        vb@.take(i as int),
                        vo@.take(i as int),
                        n,
                    )
                    &&& self.wires@ == old(self).wires@ + Seq::new(
                        (i * (1 + t.inner())) as nat,
                        |i: int| false,
                    )
                }),
                sure ==> self.closed() && wires_in_range(va@, n) && wires_in_range(vb@, n)
                    && wires_in_range(vo@, n),
            decreases vo.len() - i,
        {
            let ghost before = *self;
            let x = self.allocate();
            self.gate(va[i], vb[i], x);
            let ghost mid = *self;
            proof {
                if sure {
                    lemma_pair_in_range(x, vo@[i as int], self.wires.len() as nat);
                }
            }
            self.not(x, vo[i]);
            proof {
                let t = self.memo.template(NOT, 2);
                let s = before.memo.template(NOT, 2);
                let inner = t.inner();
                assert(x.leaves() + vo@[i as int].leaves() =~= seq![x, vo@[i as int]]);
                assert(placed(&mid, self, NOT, seq![x, vo@[i as int]]));
                assert(mid.memo == before.memo);
                if i > 0 {
                    assert(self.memo == before.memo);
                    assert(s == t);
                }
                assert((i + 1) * (1 + inner) == i * (1 + inner) + 1 + inner) by (nonlinear_arith);
                assert(i * (1 + inner) >= 0) by (nonlinear_arith)
                    requires
                        i >= 0,
                        inner >= 0,
                ;
                if i == 0 {
                    assert(0 * (1 + s.inner()) == 0) by (nonlinear_arith);
                    assert(0 * (1 + inner) == 0) by (nonlinear_arith);
                }
                assert(x.0 == n + i * (1 + inner));
                assert(va@.take(i + 1).drop_last() =~= va@.take(i as int));
                assert(vb@.take(i + 1).drop_last() =~= vb@.take(i as int));
                assert(vo@.take(i + 1).drop_last() =~= vo@.take(i as int));
                let done = and_gates(
                    t.nands@,
                    inner,
                    va@.take(i as int),
                    vb@.take(i as int),
                    vo@.take(i as int),
                    n,
                );
                if i == 0 {
                    assert(done =~= Seq::<Gate>::empty());
                    assert(before.nands@ =~= old(self).nands@ + done);
                }
                assert(before.nands@ == old(self).nands@ + done);
                assert(self.nands@ =~= old(self).nands@ + and_gates(
                    t.nands@,
                    inner,
                    va@.take(i + 1),
                    vb@.take(i + 1),
                    vo@.take(i + 1),
                    n,
                ));
                assert(self.wires@ =~= old(self).wires@ + Seq::new(
                    ((i + 1) * (1 + inner)) as nat,
                    |i: int| false,
                ));
            }
            i += 1;
        }
        proof {
            assert(va@.take(i as int) =~= va@);
            assert(vb@.take(i as int) =~= vb@);
            assert(vo@.take(i as int) =~= vo@);
        }
    }
}

} // verus!
