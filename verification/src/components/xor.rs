//! Exclusive or.

use vstd::prelude::*;
use crate::bundle::{leaves_of, Bundle, Wiring};
use crate::circuit::{
    fire,
    gate_in_range,
    gates_in_range,
    lemma_front_in_range,
    run,
    wires_in_range,
    Circuit,
    Gate,
};
use crate::combinational::{lemma_run_keeps, written};
use crate::wire::Wire;

verus! {

/// The gates of the exclusive or, place by place. Each place has three
/// fresh wires, the first at `start` and three times the place: the NAND of
/// the two inputs and the NAND of that with each input; the fourth gate
/// writes the NAND of the last two to the output, unless that is the void
/// wire.
pub open spec fn xor_gates(a: Seq<Wire>, b: Seq<Wire>, o: Seq<Wire>, start: nat) -> Seq<Gate>
    decreases o.len(),
{
    if o.len() == 0 {
        Seq::empty()
    } else {
        let k = (o.len() - 1) as nat;
        let x = Wire((start + 3 * k) as usize);
        let ax = Wire((start + 3 * k + 1) as usize);
        let bx = Wire((start + 3 * k + 2) as usize);
        let rest = xor_gates(a.drop_last(), b.drop_last(), o.drop_last(), start);
        let three = rest.push((a.last(), b.last(), x)).push((a.last(), x, ax)).push(
            (b.last(), x, bx),
        );
        if o.last() == Wire::spec_void() {
            three
        } else {
            three.push((ax, bx, o.last()))
        }
    }
}

/// The gates of the exclusive or are in range of a store that has the
/// fresh wires, and each writes a fresh wire or one of the outputs.
pub proof fn lemma_xor_writes(a: Seq<Wire>, b: Seq<Wire>, o: Seq<Wire>, start: nat, n: nat)
    requires
        a.len() == o.len(),
        b.len() == o.len(),
        wires_in_range(a, start),
        wires_in_range(b, start),
        wires_in_range(o, start),
        start + 3 * o.len() <= n <= usize::MAX,
    ensures
        gates_in_range(xor_gates(a, b, o, start), n),
        forall|i: int|
            0 <= i < xor_gates(a, b, o, start).len() ==> {
                let w = (#[trigger] xor_gates(a, b, o, start)[i]).2;
                start <= w.0 < start + 3 * o.len() || exists|j: int| 0 <= j < o.len() && o[j] == w
            },
    decreases o.len(),
{
    if o.len() > 0 {
        let (sa, sb, so) = (a.drop_last(), b.drop_last(), o.drop_last());
        lemma_front_in_range(a, start);
        lemma_front_in_range(b, start);
        lemma_front_in_range(o, start);
        lemma_xor_writes(sa, sb, so, start, n);
        let rest = xor_gates(sa, sb, so, start);
        let all = xor_gates(a, b, o, start);
        let last = o.len() - 1;
        assert(a.last() == a[last] && b.last() == b[last] && o.last() == o[last]);
        assert forall|i: int| 0 <= i < all.len() implies gate_in_range(#[trigger] all[i], n) && ({
            let w = all[i].2;
            start <= w.0 < start + 3 * o.len() || exists|j: int| 0 <= j < o.len() && o[j] == w
        }) by {
            if i < rest.len() {
                assert(all[i] == rest[i]);
                assert(gate_in_range(rest[i], n));
                let w = rest[i].2;
                if !(start <= w.0 < start + 3 * so.len()) {
                    let j = choose|j: int| 0 <= j < so.len() && so[j] == w;
                    assert(o[j] == so[j]);
                }
            } else if i == rest.len() + 3 {
                assert(o[last] == all[i].2);
            }
        }
    }
}

/// One tick of the gates of the exclusive or leaves on each output the
/// exclusive or of the two inputs of its place, as they were before, where
/// no earlier place writes one of those inputs and no later place writes
/// that output; and it leaves every wire that is neither fresh nor an
/// output as it was.
pub proof fn lemma_xor_computes(
    s: Seq<bool>,
    a: Seq<Wire>,
    b: Seq<Wire>,
    o: Seq<Wire>,
    start: nat,
    k: int,
)
    requires
        a.len() == o.len(),
        b.len() == o.len(),
        wires_in_range(a, start),
        wires_in_range(b, start),
        wires_in_range(o, start),
        start + 3 * o.len() <= s.len() <= usize::MAX,
        0 <= k < o.len(),
        forall|j: int| 0 <= j < k ==> (#[trigger] o[j]) != a[k] && o[j] != b[k],
        forall|j: int| k < j < o.len() ==> (#[trigger] o[j]) != o[k],
    ensures
        run(s, xor_gates(a, b, o, start))[o[k].0 as int] == (s[a[k].0 as int] != s[b[k].0 as int]),
        forall|w: int|
            0 <= w < start && (forall|j: int| 0 <= j < o.len() ==> (#[trigger] o[j]).0 != w)
                ==> run(s, xor_gates(a, b, o, start))[w] == s[w],
    decreases o.len(),
{
    let n = s.len();
    let (sa, sb, so) = (a.drop_last(), b.drop_last(), o.drop_last());
    let last = o.len() - 1;
    lemma_front_in_range(a, start);
    lemma_front_in_range(b, start);
    lemma_front_in_range(o, start);
    lemma_xor_writes(sa, sb, so, start, n);
    lemma_xor_writes(a, b, o, start, n);
    let rest = xor_gates(sa, sb, so, start);
    let all = xor_gates(a, b, o, start);
    lemma_run_keeps(s, rest);
    lemma_run_keeps(s, all);
    // what the earlier places leave alone
    assert forall|w: int|
        0 <= w < n && !(start <= w < start + 3 * so.len()) && (forall|j: int|
            0 <= j < so.len() ==> (#[trigger] so[j]).0 != w) implies run(s, rest)[w] == s[w] by {
        if written(rest, w) {
            let i = choose|i: int| 0 <= i < rest.len() && (#[trigger] rest[i]).2.0 == w;
            let j = choose|j: int| 0 <= j < so.len() && so[j] == rest[i].2;
            assert(so[j].0 != w);
        }
    }
    assert forall|w: int|
        0 <= w < start && (forall|j: int| 0 <= j < o.len() ==> (#[trigger] o[j]).0
            != w) implies run(s, all)[w] == s[w] by {
        if written(all, w) {
            let i = choose|i: int| 0 <= i < all.len() && (#[trigger] all[i]).2.0 == w;
            let j = choose|j: int| 0 <= j < o.len() && o[j] == all[i].2;
            assert(o[j].0 != w);
        }
    }
    assert(a.last() == a[last] && b.last() == b[last] && o.last() == o[last]);
    let x = Wire((start + 3 * last) as usize);
    let ax = Wire((start + 3 * last + 1) as usize);
    let bx = Wire((start + 3 * last + 2) as usize);
    let g0 = (a[last], b[last], x);
    let g1 = (a[last], x, ax);
    let g2 = (b[last], x, bx);
    let g3 = (ax, bx, o[last]);
    let three = rest.push(g0).push(g1).push(g2);
    let r0 = run(s, rest);
    assert(three.drop_last() =~= rest.push(g0).push(g1));
    assert(rest.push(g0).push(g1).drop_last() =~= rest.push(g0));
    assert(rest.push(g0).drop_last() =~= rest);
    let r1 = fire(r0, g0);
    let r2 = fire(r1, g1);
    let r3 = fire(r2, g2);
    assert(run(s, rest.push(g0)) == r1);
    assert(run(s, rest.push(g0).push(g1)) == r2);
    assert(run(s, three) == r3);
    if k == last {
        assert forall|j: int| 0 <= j < so.len() implies (#[trigger] so[j]).0 != a[k].0 by {
            assert(so[j] == o[j]);
        }
        assert forall|j: int| 0 <= j < so.len() implies (#[trigger] so[j]).0 != b[k].0 by {
            assert(so[j] == o[j]);
        }
        assert(r0[a[k].0 as int] == s[a[k].0 as int]);
        assert(r0[b[k].0 as int] == s[b[k].0 as int]);
        assert(o[k] != Wire::spec_void());
        assert(all == three.push(g3));
        assert(all.drop_last() =~= three);
        assert(all.last() == g3);
        assert(run(s, all) == fire(r3, g3));
    } else {
        assert forall|j: int| 0 <= j < k implies (#[trigger] so[j]) != sa[k] && so[j] != sb[k] by {
            assert(so[j] == o[j]);
        }
        assert forall|j: int| k < j < so.len() implies (#[trigger] so[j]) != so[k] by {
            assert(so[j] == o[j]);
        }
        lemma_xor_computes(s, sa, sb, so, start, k);
        assert(sa[k] == a[k] && sb[k] == b[k] && so[k] == o[k]);
        assert(r3[o[k].0 as int] == r0[o[k].0 as int]);
        if o[last] == Wire::spec_void() {
            assert(all == three);
        } else {
            assert(all == three.push(g3));
            assert(all.drop_last() =~= three);
            assert(all.last() == g3);
            assert(o[last] != o[k]);
        }
    }
}

/// Whether `after` is `before` with the wires and gates of the exclusive or
/// of the leaves `a` and `b` into the leaves `o`.
pub open spec fn xor_built(
    before: &Circuit,
    after: &Circuit,
    a: Seq<Wire>,
    b: Seq<Wire>,
    o: Seq<Wire>,
) -> bool {
    &&& after.nands@ == before.nands@ + xor_gates(a, b, o, before.wires.len() as nat)
    &&& after.wires@ == before.wires@ + Seq::new(3 * o.len(), |i: int| false)
    &&& after.inputs == before.inputs
    &&& after.memo == before.memo
}

impl Circuit {
    /// Appends, for each place of the three bundles, three fresh wires and
    /// the gates that make the leaf of `o` the exclusive or of the leaves
    /// of `a` and `b`.
    pub fn xor<T: Wiring>(&mut self, a: T, b: T, o: T)
        requires
            old(self).wf(),
        ensures
            xor_built(old(self), final(self), a.leaves(), b.leaves(), o.leaves()),
            final(self).grown_from(old(self)),
            old(self).closed() && wires_in_range(
                a.leaves() + b.leaves() + o.leaves(),
                old(self).wires.len() as nat,
            ) ==> final(self).closed(),
    {
        proof {
            a.lemma_leaves_len();
            b.lemma_leaves_len();
            o.lemma_leaves_len();
        }
        let ghost n = self.wires.len() as nat;
        let ghost all = a.leaves() + b.leaves() + o.leaves();
        let va = leaves_of(a);
        let vb = leaves_of(b);
        let vo = leaves_of(o);
        let ghost sure = self.closed() && wires_in_range(all, n);
        proof {
            if sure {
                assert forall|i: int| 0 <= i < va.len() implies (#[trigger] va@[i]).0 < n by {
                    assert(all[i] == va@[i]);
                }
                assert forall|i: int| 0 <= i < vb.len() implies (#[trigger] vb@[i]).0 < n by {
                    assert(all[va.len() + i] == vb@[i]);
                }
                assert forall|i: int| 0 <= i < vo.len() implies (#[trigger] vo@[i]).0 < n by {
                    assert(all[va.len() + vb.len() + i] == vo@[i]);
                }
            }
            assert(xor_gates(va@.take(0), vb@.take(0), vo@.take(0), n) =~= Seq::<Gate>::empty());
        }
        let mut i: usize = 0;
        while i < vo.len()
            invariant
                i <= vo.len(),
                va.len() == vo.len(),
                vb.len() == vo.len(),
                n == old(self).wires.len(),
                self.grown_from(old(self)),
                self.inputs == old(self).inputs,
                self.memo == old(self).memo,
                self.wires@ == old(self).wires@ + Seq::new((3 * i) as nat, |i: int| false),
                self.nands@ == old(self).nands@ + xor_gates(
                    va@.take(i as int),
                    vb@.take(i as int),
                    vo@.take(i as int),
                    n,
                ),
                sure ==> self.closed() && wires_in_range(va@, n) && wires_in_range(vb@, n)
                    && wires_in_range(vo@, n),
            decreases vo.len() - i,
        {
            let ghost gates = self.nands@;
            let ghost store = self.wires@;
            let x = self.allocate();
            let ax = self.allocate();
            let bx = self.allocate();
            self.gate(va[i], vb[i], x);
            self.gate(va[i], x, ax);
            self.gate(vb[i], x, bx);
            if !vo[i].is_void() {
                self.gate(ax, bx, vo[i]);
            }
            proof {
                assert(va@.take(i + 1).drop_last() =~= va@.take(i as int));
                assert(vb@.take(i + 1).drop_last() =~= vb@.take(i as int));
                assert(vo@.take(i + 1).drop_last() =~= vo@.take(i as int));
                assert(self.nands@ =~= old(self).nands@ + xor_gates(
                    va@.take(i + 1),
                    vb@.take(i + 1),
                    vo@.take(i + 1),
                    n,
                ));
                assert(self.wires@ =~= old(self).wires@ + Seq::new(
                    (3 * (i + 1)) as nat,
                    |i: int| false,
                ));
            }
            i += 1;
        }
        proof {
            assert(va@.take(i as int) =~= va@);
            assert(vb@.take(i as int) =~= vb@);
            assert(vo@.take(i as int) =~= vo@);
        }
    }
}

} // verus!
