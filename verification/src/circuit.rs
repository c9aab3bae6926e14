//! The netlist: a store of wire values, an ordered list of NAND gates, and
//! the single pass that evaluates them.

use vstd::prelude::*;
use vstd::arithmetic::div_mod::{lemma_div_denominator, lemma_mod_breakdown, lemma_small_mod};
use vstd::arithmetic::power2::{lemma2_to64, lemma_pow2_pos, lemma_pow2_unfold, pow2};
use vstd::bits::{lemma_u64_pow2_no_overflow, lemma_u64_shl_is_mul};
use crate::bundle::{bundle_of, leaves_of, Bundle, Wiring};
use crate::memo::Memo;
use crate::wire::Wire;

verus! {

/// A NAND gate: its two inputs and its output.
pub type Gate = (Wire, Wire, Wire);

/// Whether the three wires of a gate index a store of `n` values.
pub open spec fn gate_in_range(g: Gate, n: nat) -> bool {
    g.0.0 < n && g.1.0 < n && g.2.0 < n
}

/// Whether every gate of a list indexes a store of `n` values.
pub open spec fn gates_in_range(gates: Seq<Gate>, n: nat) -> bool {
    forall|k: int| 0 <= k < gates.len() ==> gate_in_range(#[trigger] gates[k], n)
}

/// The store after one gate has read its inputs and written its output.
pub open spec fn fire(s: Seq<bool>, g: Gate) -> Seq<bool> {
    s.update(g.2.0 as int, !(s[g.0.0 as int] && s[g.1.0 as int]))
}

/// The store after the gates have fired one after the other, first to last.
pub open spec fn run(s: Seq<bool>, gates: Seq<Gate>) -> Seq<bool>
    decreases gates.len(),
{
    if gates.len() == 0 {
        s
    } else {
        fire(run(s, gates.drop_last()), gates.last())
    }
}

/// The gates that a NAND lifted over three bundles appends: one for each
/// place, in order, but none where the output is the void wire.
pub open spec fn lifted(a: Seq<Wire>, b: Seq<Wire>, o: Seq<Wire>) -> Seq<Gate>
    decreases o.len(),
{
    if o.len() == 0 {
        Seq::empty()
    } else {
        let rest = lifted(a.drop_last(), b.drop_last(), o.drop_last());
        if o.last() == Wire::spec_void() {
            rest
        } else {
            rest.push((a.last(), b.last(), o.last()))
        }
    }
}

/// Wires but the last are wires of the store where all are.
pub proof fn lemma_front_in_range(a: Seq<Wire>, n: nat)
    requires
        wires_in_range(a, n),
        a.len() > 0,
    ensures
        wires_in_range(a.drop_last(), n),
{
    assert forall|i: int| 0 <= i < a.drop_last().len() implies (#[trigger] a.drop_last()[i]).0
        < n by {
        assert(a.drop_last()[i] == a[i]);
    }
}

/// Lifted gates read and write wires of the store where the leaves do.
pub proof fn lemma_lifted_in_range(a: Seq<Wire>, b: Seq<Wire>, o: Seq<Wire>, n: nat)
    requires
        a.len() == o.len(),
        b.len() == o.len(),
        wires_in_range(a, n),
        wires_in_range(b, n),
        wires_in_range(o, n),
    ensures
        gates_in_range(lifted(a, b, o), n),
    decreases o.len(),
{
    if o.len() > 0 {
        lemma_front_in_range(a, n);
        lemma_front_in_range(b, n);
        lemma_front_in_range(o, n);
        lemma_lifted_in_range(a.drop_last(), b.drop_last(), o.drop_last(), n);
        let rest = lifted(a.drop_last(), b.drop_last(), o.drop_last());
        let all = lifted(a, b, o);
        assert(a.last() == a[a.len() - 1]);
        assert(b.last() == b[b.len() - 1]);
        assert(o.last() == o[o.len() - 1]);
        assert forall|k: int| 0 <= k < all.len() implies gate_in_range(#[trigger] all[k], n) by {
            if k < rest.len() {
                assert(all[k] == rest[k]);
            }
        }
    }
}

/// The wires of two sequences side by side are wires of a store exactly
/// when those of each are.
pub proof fn lemma_in_range_concat(s: Seq<Wire>, t: Seq<Wire>, n: nat)
    ensures
        wires_in_range(s + t, n) <==> wires_in_range(s, n) && wires_in_range(t, n),
{
    let all = s + t;
    if wires_in_range(all, n) {
        assert forall|i: int| 0 <= i < s.len() implies (#[trigger] s[i]).0 < n by {
            assert(all[i] == s[i]);
        }
        assert forall|i: int| 0 <= i < t.len() implies (#[trigger] t[i]).0 < n by {
            assert(all[s.len() + i] == t[i]);
        }
    }
}

/// Two wires of a store, as the leaves of two scalars side by side.
pub proof fn lemma_pair_in_range(a: Wire, b: Wire, n: nat)
    requires
        a.0 < n,
        b.0 < n,
    ensures
        wires_in_range(a.leaves() + b.leaves(), n),
{
    let all = a.leaves() + b.leaves();
    assert forall|i: int| 0 <= i < all.len() implies (#[trigger] all[i]).0 < n by {
        if i == 0 {
            assert(all[i] == a);
        } else {
            assert(all[i] == b);
        }
    }
}

/// Three wires of a store, as the leaves of three scalars side by side.
pub proof fn lemma_triple_in_range(a: Wire, b: Wire, c: Wire, n: nat)
    requires
        a.0 < n,
        b.0 < n,
        c.0 < n,
    ensures
        wires_in_range(a.leaves() + b.leaves() + c.leaves(), n),
{
    let all = a.leaves() + b.leaves() + c.leaves();
    assert forall|i: int| 0 <= i < all.len() implies (#[trigger] all[i]).0 < n by {
        if i == 0 {
            assert(all[i] == a);
        } else if i == 1 {
            assert(all[i] == b);
        } else {
            assert(all[i] == c);
        }
    }
}

/// `width` copies of one wire.
pub open spec fn repeated(w: Wire, width: nat) -> Seq<Wire> {
    Seq::new(width, |i: int| w)
}

/// `width` wires with consecutive indices from `start` on.
pub open spec fn consecutive(start: nat, width: nat) -> Seq<Wire> {
    Seq::new(width, |i: int| Wire((start + i) as usize))
}

/// Bit `i` of `n`, counted from the least significant.
pub open spec fn bit(n: u64, i: nat) -> nat {
    (n as nat / pow2(i)) % 2
}

/// The constant wires that spell `n`, least significant bit first.
pub open spec fn bits(n: u64, width: nat) -> Seq<Wire> {
    Seq::new(width, |i: int| Wire(bit(n, i as nat) as usize))
}

/// The number that the values of the wires `ws` spell in the store `s`,
/// least significant bit first.
pub open spec fn value(s: Seq<bool>, ws: Seq<Wire>) -> nat
    decreases ws.len(),
{
    if ws.len() == 0 {
        0
    } else {
        value(s, ws.drop_last()) + if s[ws.last().0 as int] {
            pow2((ws.len() - 1) as nat)
        } else {
            0
        }
    }
}

/// Every wire of `ws` indexes a store of `n` values.
pub open spec fn wires_in_range(ws: Seq<Wire>, n: nat) -> bool {
    forall|i: int| 0 <= i < ws.len() ==> (#[trigger] ws[i]).0 < n
}

/// A bundle whose every leaf is the constant FALSE.
pub fn zero<T: Wiring>() -> (t: T)
    requires
        T::width() <= usize::MAX,
    ensures
        t.leaves() == repeated(Wire::spec_zero(), T::width()),
{
    fill(Wire(0))
}

/// A bundle whose every leaf is the constant TRUE.
pub fn one<T: Wiring>() -> (t: T)
    requires
        T::width() <= usize::MAX,
    ensures
        t.leaves() == repeated(Wire::spec_one(), T::width()),
{
    fill(Wire(1))
}

/// A bundle whose every leaf is the void wire.
pub fn void<T: Wiring>() -> (t: T)
    requires
        T::width() <= usize::MAX,
    ensures
        t.leaves() == repeated(Wire::spec_void(), T::width()),
{
    fill(Wire(usize::MAX))
}

/// A bundle whose every leaf is `w`.
pub fn fill<T: Wiring>(w: Wire) -> (t: T)
    requires
        T::width() <= usize::MAX,
    ensures
        t.leaves() == repeated(w, T::width()),
{
    let n = T::size();
    let mut v: Vec<Wire> = Vec::new();
    while v.len() < n
        invariant
            v.len() <= n,
            forall|i: int| 0 <= i < v.len() ==> v[i] == w,
        decreases n - v.len(),
    {
        v.push(w);
    }
    assert(v@ =~= repeated(w, T::width()));
    bundle_of(v)
}

/// A store of wire values and the gates that compute them.
#[derive(Debug, Clone)]
pub struct Circuit {
    /// How many wires after the two constants are external inputs.
    pub inputs: usize,
    /// The current value of every wire.
    pub wires: Vec<bool>,
    /// The gates, in the order in which they fire.
    pub nands: Vec<Gate>,
    /// The components synthesized while this circuit was built.
    pub memo: Memo,
}

impl Circuit {
    /// The store holds the two constants and the external inputs.
    pub open spec fn wf(&self) -> bool {
        &&& self.inputs + 2 <= self.wires.len()
        &&& self.memo.wf()
    }

    /// Every gate reads and writes wires of the store.
    pub open spec fn closed(&self) -> bool {
        gates_in_range(self.nands@, self.wires.len() as nat)
    }

    /// Whether `self` is `before` with wires, which read FALSE, gates and
    /// components added at the end.
    pub open spec fn grown_from(&self, before: &Circuit) -> bool {
        &&& self.wf()
        &&& self.inputs == before.inputs
        &&& self.memo.extends(&before.memo)
        &&& before.wires.len() <= self.wires.len()
        &&& forall|i: int|
            0 <= i < self.wires.len() ==> (#[trigger] self.wires[i]) == (if i
                < before.wires.len() {
                before.wires[i]
            } else {
                false
            })
        &&& before.nands.len() <= self.nands.len()
        &&& forall|k: int|
            0 <= k < before.nands.len() ==> (#[trigger] self.nands[k]) == before.nands[k]
    }

    /// A circuit without gates: the two constants and `inputs` external
    /// inputs, which read FALSE.
    pub fn new(inputs: usize) -> (c: Circuit)
        requires
            inputs + 2 <= usize::MAX,
        ensures
            c.inputs == inputs,
            c.wires@ == Seq::new((inputs + 2) as nat, |i: int| i == 1),
            c.nands@ == Seq::<Gate>::empty(),
            c.memo.templates@ == Seq::<crate::memo::Template>::empty(),
            c.wf(),
            c.closed(),
    {
        let mut state: Vec<bool> = Vec::new();
        state.push(false);
        state.push(true);
        while state.len() < inputs + 2
            invariant
                2 <= state.len() <= inputs + 2,
                inputs + 2 <= usize::MAX,
                forall|i: int| 0 <= i < state.len() ==> state[i] == (i == 1),
            decreases inputs + 2 - state.len(),
        {
            state.push(false);
        }
        assert(state@ =~= Seq::new((inputs + 2) as nat, |i: int| i == 1));
        Circuit { inputs, wires: state, nands: Vec::new(), memo: Memo::new() }
    }

    /// Whether every gate reads and writes wires of the store.
    pub fn is_closed(&self) -> (b: bool)
        ensures
            b == self.closed(),
    {
        let n = self.wires.len();
        let mut k: usize = 0;
        while k < self.nands.len()
            invariant
                k <= self.nands.len(),
                n == self.wires.len(),
                forall|i: int| 0 <= i < k ==> gate_in_range(#[trigger] self.nands@[i], n as nat),
            decreases self.nands.len() - k,
        {
            let g = self.nands[k];
            if g.0.0 >= n || g.1.0 >= n || g.2.0 >= n {
                assert(!gate_in_range(self.nands@[k as int], n as nat));
                return false;
            }
            k += 1;
        }
        true
    }

    /// The current value of a wire.
    pub fn read(&self, w: Wire) -> (v: bool)
        requires
            w.0 < self.wires.len(),
        ensures
            v == self.wires@[w.0 as int],
    {
        self.wires[w.0]
    }

    /// One tick: every gate, in order, reads the current values of its
    /// inputs and overwrites its output.
    pub fn update(&mut self)
        requires
            old(self).closed(),
        ensures
            final(self).wires@ == run(old(self).wires@, old(self).nands@),
            final(self).wires.len() == old(self).wires.len(),
            final(self).nands == old(self).nands,
            final(self).inputs == old(self).inputs,
            final(self).memo == old(self).memo,
    {
        let mut k: usize = 0;
        while k < self.nands.len()
            invariant
                k <= self.nands.len(),
                self.nands == old(self).nands,
                self.inputs == old(self).inputs,
                self.memo == old(self).memo,
                self.wires.len() == old(self).wires.len(),
                gates_in_range(self.nands@, self.wires.len() as nat),
                self.wires@ == run(old(self).wires@, self.nands@.take(k as int)),
            decreases self.nands.len() - k,
        {
            let n = self.nands[k];
            assert(gate_in_range(self.nands@[k as int], self.wires.len() as nat));
            let v = !(self.wires[n.0.0] && self.wires[n.1.0]);
            self.wires[n.2.0] = v;
            proof {
                assert(self.nands@.take(k + 1).drop_last() =~= self.nands@.take(k as int));
            }
            k += 1;
        }
        assert(self.nands@.take(k as int) =~= self.nands@);
    }

    /// Appends one fresh wire, which reads FALSE, and returns it.
    pub fn allocate(&mut self) -> (w: Wire)
        ensures
            w.0 == old(self).wires.len(),
            final(self).wires@ == old(self).wires@.push(false),
            final(self).nands == old(self).nands,
            final(self).inputs == old(self).inputs,
            final(self).memo == old(self).memo,
            old(self).closed() ==> final(self).closed(),
            old(self).wf() ==> final(self).grown_from(old(self)),
    {
        let i = self.wires.len();
        self.wires.push(false);
        proof {
            if old(self).closed() {
                assert forall|k: int| 0 <= k < self.nands.len() implies gate_in_range(
                    #[trigger] self.nands@[k],
                    self.wires.len() as nat,
                ) by {
                    assert(gate_in_range(old(self).nands@[k], old(self).wires.len() as nat));
                }
            }
        }
        Wire(i)
    }

    /// Appends a gate that writes the NAND of the wires `a` and `b` to
    /// the wire `o`.
    pub fn gate(&mut self, a: Wire, b: Wire, o: Wire)
        ensures
            final(self).nands@ == old(self).nands@.push((a, b, o)),
            final(self).wires == old(self).wires,
            final(self).inputs == old(self).inputs,
            final(self).memo == old(self).memo,
            old(self).closed() && gate_in_range((a, b, o), old(self).wires.len() as nat)
                ==> final(self).closed(),
            old(self).wf() ==> final(self).grown_from(old(self)),
    {
        self.nands.push((a, b, o));
        proof {
            assert forall|k: int| 0 <= k < old(self).nands.len() implies (
            #[trigger] self.nands[k]) == old(self).nands[k] by {
                assert(self.nands@[k] == old(self).nands@.push((a, b, o))[k]);
            }
            if old(self).closed() && gate_in_range((a, b, o), old(self).wires.len() as nat) {
                assert forall|k: int| 0 <= k < self.nands.len() implies gate_in_range(
                    #[trigger] self.nands@[k],
                    self.wires.len() as nat,
                ) by {
                    if k < old(self).nands.len() {
                        assert(self.nands@[k] == old(self).nands@[k]);
                    }
                }
            }
        }
    }

    /// Appends one fresh wire, which reads FALSE, for every leaf of `T`.
    pub fn wiring<T: Wiring>(&mut self) -> (t: T)
        requires
            T::width() <= usize::MAX,
        ensures
            t.leaves() == consecutive(old(self).wires.len() as nat, T::width()),
            final(self).wires@ == old(self).wires@ + Seq::new(T::width(), |i: int| false),
            final(self).nands == old(self).nands,
            final(self).inputs == old(self).inputs,
            final(self).memo == old(self).memo,
            wires_in_range(t.leaves(), final(self).wires.len() as nat),
            old(self).closed() ==> final(self).closed(),
            old(self).wf() ==> final(self).grown_from(old(self)),
    {
        let n = T::size();
        let ghost start = self.wires.len() as nat;
        let mut v: Vec<Wire> = Vec::new();
        while v.len() < n
            invariant
                v.len() <= n,
                self.nands == old(self).nands,
                self.inputs == old(self).inputs,
                self.memo == old(self).memo,
                start == old(self).wires.len(),
                self.wires.len() == start + v.len(),
                forall|i: int| 0 <= i < start ==> self.wires[i] == old(self).wires[i],
                forall|i: int| start <= i < self.wires.len() ==> self.wires[i] == false,
                forall|i: int| 0 <= i < v.len() ==> v[i] == Wire((start + i) as usize),
            decreases n - v.len(),
        {
            let i = self.wires.len();
            self.wires.push(false);
            v.push(Wire(i));
        }
        assert(v@ =~= consecutive(start, T::width()));
        assert(self.wires@ =~= old(self).wires@ + Seq::new(T::width(), |i: int| false));
        proof {
            if old(self).closed() {
                assert forall|k: int| 0 <= k < self.nands.len() implies gate_in_range(
                    #[trigger] self.nands@[k],
                    self.wires.len() as nat,
                ) by {
                    assert(gate_in_range(old(self).nands@[k], old(self).wires.len() as nat));
                }
            }
        }
        bundle_of(v)
    }

    /// Appends, for every place of the three bundles, a gate that writes
    /// the NAND of the leaves of `a` and `b` to the leaf of `o`; a place
    /// whose output is the void wire gets no gate.
    pub fn nand<T: Wiring>(&mut self, a: T, b: T, o: T)
        ensures
            final(self).nands@ == old(self).nands@ + lifted(a.leaves(), b.leaves(), o.leaves()),
            final(self).wires == old(self).wires,
            final(self).inputs == old(self).inputs,
            final(self).memo == old(self).memo,
            old(self).closed() && wires_in_range(a.leaves(), old(self).wires.len() as nat)
                && wires_in_range(b.leaves(), old(self).wires.len() as nat) && wires_in_range(
                o.leaves(),
                old(self).wires.len() as nat,
            ) ==> final(self).closed(),
            old(self).wf() ==> final(self).grown_from(old(self)),
    {
        proof {
            a.lemma_leaves_len();
            b.lemma_leaves_len();
            o.lemma_leaves_len();
        }
        let va = leaves_of(a);
        let vb = leaves_of(b);
        let vo = leaves_of(o);
        let mut i: usize = 0;
        assert(lifted(va@.take(0), vb@.take(0), vo@.take(0)) =~= Seq::<Gate>::empty());
        while i < vo.len()
            invariant
                i <= vo.len(),
                va.len() == vo.len(),
                vb.len() == vo.len(),
                self.wires == old(self).wires,
                self.inputs == old(self).inputs,
                self.memo == old(self).memo,
                self.nands@ == old(self).nands@ + lifted(
                    va@.take(i as int),
                    vb@.take(i as int),
                    vo@.take(i as int),
                ),
            decreases vo.len() - i,
        {
            proof {
                assert(va@.take(i + 1).drop_last() =~= va@.take(i as int));
                assert(vb@.take(i + 1).drop_last() =~= vb@.take(i as int));
                assert(vo@.take(i + 1).drop_last() =~= vo@.take(i as int));
            }
            if !vo[i].is_void() {
                self.nands.push((va[i], vb[i], vo[i]));
            }
            i += 1;
        }
        assert(va@.take(i as int) =~= va@);
        assert(vb@.take(i as int) =~= vb@);
        assert(vo@.take(i as int) =~= vo@);
        proof {
            assert forall|k: int| 0 <= k < old(self).nands.len() implies (
            #[trigger] self.nands[k]) == old(self).nands[k] by {
                assert(self.nands@[k] == (old(self).nands@ + lifted(va@, vb@, vo@))[k]);
            }
            let n = self.wires.len() as nat;
            if old(self).closed() && wires_in_range(va@, n) && wires_in_range(vb@, n)
                && wires_in_range(vo@, n) {
                lemma_lifted_in_range(va@, vb@, vo@, n);
                let added = lifted(va@, vb@, vo@);
                assert forall|k: int| 0 <= k < self.nands.len() implies gate_in_range(
                    #[trigger] self.nands@[k],
                    n,
                ) by {
                    if k < old(self).nands.len() {
                        assert(self.nands@[k] == old(self).nands@[k]);
                    } else {
                        assert(self.nands@[k] == added[k - old(self).nands.len()]);
                    }
                }
            }
        }
    }

    /// The bundle of constant wires that spells `n`, least significant bit
    /// first; leaves past the 64th are the constant FALSE.
    pub fn num<T: Wiring>(&self, n: u64) -> (t: T)
        requires
            T::width() <= usize::MAX,
        ensures
            t.leaves() == bits(n, T::width()),
    {
        let width = T::size();
        let mut v: Vec<Wire> = Vec::new();
        let mut rest: u64 = n;
        proof {
            lemma2_to64();
        }
        while v.len() < width
            invariant
                v.len() <= width,
                rest as nat == n as nat / pow2(v.len() as nat),
                forall|i: int| 0 <= i < v.len() ==> (#[trigger] v[i]).0 == bit(n, i as nat),
            decreases width - v.len(),
        {
            let ghost i = v.len() as nat;
            let low: u64 = rest & 1;
            proof {
                assert(rest & 1 == rest % 2) by (bit_vector);
                assert(rest >> 1 == rest / 2) by (bit_vector);
                lemma_pow2_pos(i);
                lemma_pow2_unfold(i + 1);
                lemma_div_denominator(n as int, pow2(i) as int, 2);
                assert(pow2(i) * 2 == pow2(i + 1));
            }
            v.push(Wire(low as usize));
            rest = rest >> 1;
        }
        assert(v@ =~= bits(n, T::width()));
        bundle_of(v)
    }

    /// The number that the current values of the leaves of `t` spell, least
    /// significant bit first.
    pub fn read_num<T: Wiring>(&self, t: T) -> (n: u64)
        requires
            T::width() <= 64,
            wires_in_range(t.leaves(), self.wires.len() as nat),
        ensures
            n == value(self.wires@, t.leaves()),
    {
        proof {
            t.lemma_leaves_len();
        }
        let ws = leaves_of(t);
        let mut n: u64 = 0;
        let mut i: usize = 0;
        proof {
            lemma2_to64();
            assert(ws@.take(0) =~= Seq::<Wire>::empty());
        }
        while i < ws.len()
            invariant
                i <= ws.len() <= 64,
                wires_in_range(ws@, self.wires.len() as nat),
                n == value(self.wires@, ws@.take(i as int)),
                n < pow2(i as nat),
            decreases ws.len() - i,
        {
            let w = ws[i];
            proof {
                assert(ws@.take(i + 1).drop_last() =~= ws@.take(i as int));
                assert(ws@.take(i + 1).last() == w);
                lemma_u64_pow2_no_overflow(i as nat);
                lemma_u64_shl_is_mul(1, i as u64);
                lemma_pow2_unfold((i + 1) as nat);
            }
            if self.read(w) {
                let high: u64 = 1u64 << i;
                assert(n | high == n + high) by (bit_vector)
                    requires
                        i < 64,
                        high == 1u64 << i,
                        n < high,
                ;
                n = n | high;
            }
            i += 1;
        }
        assert(ws@.take(i as int) =~= ws@);
        n
    }
}

/// A NAND lifted over three scalars is one gate.
pub proof fn lemma_lifted_one(a: Wire, b: Wire, o: Wire)
    requires
        o != Wire::spec_void(),
    ensures
        lifted(a.leaves(), b.leaves(), o.leaves()) == seq![(a, b, o)],
{
    let (la, lb, lo) = (a.leaves(), b.leaves(), o.leaves());
    assert(la.drop_last() =~= Seq::<Wire>::empty());
    assert(lb.drop_last() =~= Seq::<Wire>::empty());
    assert(lo.drop_last() =~= Seq::<Wire>::empty());
    assert(lifted(la.drop_last(), lb.drop_last(), lo.drop_last()) =~= Seq::<Gate>::empty());
    assert(la.last() == a && lb.last() == b && lo.last() == o);
    assert(lifted(la, lb, lo) =~= seq![(a, b, o)]);
}

/// One tick of the single gate that `nand` appends for three wires leaves
/// the NAND of the two input values, as they were before, on the output.
pub proof fn lemma_single_nand(s: Seq<bool>, a: Wire, b: Wire, o: Wire)
    requires
        s.len() <= usize::MAX,
        gate_in_range((a, b, o), s.len()),
    ensures
        run(s, lifted(a.leaves(), b.leaves(), o.leaves()))[o.0 as int] == !(s[a.0 as int]
            && s[b.0 as int]),
{
    lemma_lifted_one(a, b, o);
    let gates = seq![(a, b, o)];
    assert(gates.drop_last() =~= Seq::<Gate>::empty());
    assert(run(s, gates.drop_last()) == s);
    assert(gates.last() == (a, b, o));
}

/// The gates of a lifted NAND are in range, and each writes one of the
/// outputs.
pub proof fn lemma_lifted_writes(a: Seq<Wire>, b: Seq<Wire>, o: Seq<Wire>, n: nat)
    requires
        a.len() == o.len(),
        b.len() == o.len(),
        wires_in_range(a, n),
        wires_in_range(b, n),
        wires_in_range(o, n),
    ensures
        gates_in_range(lifted(a, b, o), n),
        forall|k: int|
            0 <= k < lifted(a, b, o).len() ==> exists|j: int|
                0 <= j < o.len() && o[j] == (#[trigger] lifted(a, b, o)[k]).2,
    decreases o.len(),
{
    lemma_lifted_in_range(a, b, o, n);
    if o.len() > 0 {
        let (sa, sb, so) = (a.drop_last(), b.drop_last(), o.drop_last());
        lemma_front_in_range(a, n);
        lemma_front_in_range(b, n);
        lemma_front_in_range(o, n);
        lemma_lifted_writes(sa, sb, so, n);
        let rest = lifted(sa, sb, so);
        let all = lifted(a, b, o);
        assert forall|k: int| 0 <= k < all.len() implies exists|j: int|
            0 <= j < o.len() && o[j] == (#[trigger] all[k]).2 by {
            if k < rest.len() {
                assert(all[k] == rest[k]);
                let j = choose|j: int| 0 <= j < so.len() && so[j] == rest[k].2;
                assert(o[j] == so[j]);
            } else {
                assert(o[o.len() - 1] == all[k].2);
            }
        }
    }
}

/// A lifted NAND without a void output has one gate for each place.
pub proof fn lemma_lifted_all(a: Seq<Wire>, b: Seq<Wire>, o: Seq<Wire>)
    requires
        a.len() == o.len(),
        b.len() == o.len(),
        forall|j: int| 0 <= j < o.len() ==> (#[trigger] o[j]) != Wire::spec_void(),
    ensures
        lifted(a, b, o).len() == o.len(),
        forall|k: int| 0 <= k < o.len() ==> (#[trigger] lifted(a, b, o)[k]) == (a[k], b[k], o[k]),
    decreases o.len(),
{
    if o.len() > 0 {
        let (sa, sb, so) = (a.drop_last(), b.drop_last(), o.drop_last());
        assert forall|j: int| 0 <= j < so.len() implies (#[trigger] so[j]) != Wire::spec_void() by {
            assert(so[j] == o[j]);
        }
        lemma_lifted_all(sa, sb, so);
        let last = o.len() - 1;
        assert(a.last() == a[last] && b.last() == b[last] && o.last() == o[last]);
        let rest = lifted(sa, sb, so);
        let all = lifted(a, b, o);
        assert forall|k: int| 0 <= k < o.len() implies (#[trigger] all[k]) == (a[k], b[k], o[k]) by {
            if k < last {
                assert(all[k] == rest[k]);
                assert(sa[k] == a[k] && sb[k] == b[k] && so[k] == o[k]);
            }
        }
    }
}

/// A lifted NAND whose outputs are no constants, no inputs and all
/// different is a combinational netlist.
pub proof fn lemma_lifted_combinational(a: Seq<Wire>, b: Seq<Wire>, o: Seq<Wire>, n: nat)
    requires
        n <= usize::MAX,
        a.len() == o.len(),
        b.len() == o.len(),
        wires_in_range(a, n),
        wires_in_range(b, n),
        wires_in_range(o, n),
        forall|j: int| 0 <= j < o.len() ==> (#[trigger] o[j]).0 >= 2,
        forall|i: int, j: int| 0 <= i < j < o.len() ==> (#[trigger] o[i]) != (#[trigger] o[j]),
        forall|i: int, j: int|
            0 <= i < o.len() && 0 <= j < o.len() ==> (#[trigger] o[j]) != (#[trigger] a[i])
                && o[j] != b[i],
    ensures
        crate::combinational::combinational(lifted(a, b, o), n),
{
    lemma_lifted_all(a, b, o);
    lemma_lifted_in_range(a, b, o, n);
    let gates = lifted(a, b, o);
    assert forall|i: int, j: int| 0 <= i < j < gates.len() implies (#[trigger] gates[i]).2 != (
    #[trigger] gates[j]).2 by {
        assert(o[i] != o[j]);
    }
    assert forall|i: int, j: int| 0 <= i <= j < gates.len() implies (#[trigger] gates[j]).2 != (
    #[trigger] gates[i]).0 && gates[j].2 != gates[i].1 by {
        assert(o[j] != a[i] && o[j] != b[i]);
    }
    assert forall|k: int| 0 <= k < gates.len() implies (#[trigger] gates[k]).2.0 >= 2 by {
        assert(o[k].0 >= 2);
    }
}

/// One tick of the gates of a lifted NAND leaves on each output the NAND
/// of the two inputs of its place, as they were before, where no earlier
/// place writes one of those inputs and no later place writes that output;
/// and it leaves every wire that is no output as it was.
pub proof fn lemma_lifted_computes(
    s: Seq<bool>,
    a: Seq<Wire>,
    b: Seq<Wire>,
    o: Seq<Wire>,
    k: int,
)
    requires
        s.len() <= usize::MAX,
        a.len() == o.len(),
        b.len() == o.len(),
        wires_in_range(a, s.len()),
        wires_in_range(b, s.len()),
        wires_in_range(o, s.len()),
        0 <= k < o.len(),
        forall|j: int| 0 <= j < k ==> (#[trigger] o[j]) != a[k] && o[j] != b[k],
        forall|j: int| k < j < o.len() ==> (#[trigger] o[j]) != o[k],
    ensures
        run(s, lifted(a, b, o))[o[k].0 as int] == !(s[a[k].0 as int] && s[b[k].0 as int]),
        forall|w: int|
            0 <= w < s.len() && (forall|j: int| 0 <= j < o.len() ==> (#[trigger] o[j]).0 != w)
                ==> run(s, lifted(a, b, o))[w] == s[w],
    decreases o.len(),
{
    let n = s.len();
    let (sa, sb, so) = (a.drop_last(), b.drop_last(), o.drop_last());
    let last = o.len() - 1;
    lemma_front_in_range(a, n);
    lemma_front_in_range(b, n);
    lemma_front_in_range(o, n);
    lemma_lifted_writes(sa, sb, so, n);
    lemma_lifted_writes(a, b, o, n);
    let rest = lifted(sa, sb, so);
    let all = lifted(a, b, o);
    crate::combinational::lemma_run_keeps(s, rest);
    crate::combinational::lemma_run_keeps(s, all);
    assert forall|w: int|
        0 <= w < s.len() && (forall|j: int| 0 <= j < so.len() ==> (#[trigger] so[j]).0
            != w) implies run(s, rest)[w] == s[w] by {
        if crate::combinational::written(rest, w) {
            let i = choose|i: int| 0 <= i < rest.len() && (#[trigger] rest[i]).2.0 == w;
            let j = choose|j: int| 0 <= j < so.len() && so[j] == rest[i].2;
            assert(so[j].0 != w);
        }
    }
    assert forall|w: int|
        0 <= w < s.len() && (forall|j: int| 0 <= j < o.len() ==> (#[trigger] o[j]).0
            != w) implies run(s, all)[w] == s[w] by {
        if crate::combinational::written(all, w) {
            let i = choose|i: int| 0 <= i < all.len() && (#[trigger] all[i]).2.0 == w;
            let j = choose|j: int| 0 <= j < o.len() && o[j] == all[i].2;
            assert(o[j].0 != w);
        }
    }
    assert(a.last() == a[last] && b.last() == b[last] && o.last() == o[last]);
    if k == last {
        assert forall|j: int| 0 <= j < so.len() implies (#[trigger] so[j]).0 != a[k].0 by {
            assert(so[j] == o[j]);
        }
        assert forall|j: int| 0 <= j < so.len() implies (#[trigger] so[j]).0 != b[k].0 by {
            assert(so[j] == o[j]);
        }
        assert(run(s, rest)[a[k].0 as int] == s[a[k].0 as int]);
        assert(run(s, rest)[b[k].0 as int] == s[b[k].0 as int]);
        assert(o[k].0 < s.len());
        assert(o[k] != Wire::spec_void());
        assert(all == rest.push((a[k], b[k], o[k])));
        assert(all.drop_last() =~= rest);
        assert(all.last() == (a[k], b[k], o[k]));
    } else {
        assert forall|j: int| 0 <= j < k implies (#[trigger] so[j]) != sa[k] && so[j] != sb[k] by {
            assert(so[j] == o[j]);
        }
        assert forall|j: int| k < j < so.len() implies (#[trigger] so[j]) != so[k] by {
            assert(so[j] == o[j]);
        }
        lemma_lifted_computes(s, sa, sb, so, k);
        assert(sa[k] == a[k] && sb[k] == b[k] && so[k] == o[k]);
        if o[last] == Wire::spec_void() {
            assert(all == rest);
        } else {
            assert(all == rest.push((a[last], b[last], o[last])));
            assert(all.drop_last() =~= rest);
            assert(all.last() == (a[last], b[last], o[last]));
            assert(o[last] != o[k]);
        }
    }
}

/// The wires that spell `n` read back as `n` modulo two to the width.
pub proof fn lemma_value_of_bits(s: Seq<bool>, n: u64, width: nat)
    requires
        s.len() >= 2,
        !s[0],
        s[1],
    ensures
        value(s, bits(n, width)) == n as nat % pow2(width),
    decreases width,
{
    if width == 0 {
        lemma2_to64();
    } else {
        let w = (width - 1) as nat;
        lemma_value_of_bits(s, n, w);
        assert(bits(n, width).drop_last() =~= bits(n, w));
        assert(bits(n, width).last() == Wire(bit(n, w) as usize));
        lemma_pow2_pos(w);
        lemma_pow2_unfold(width);
        lemma_mod_breakdown(n as int, pow2(w) as int, 2);
        assert(pow2(w) * 2 == pow2(width));
        if bit(n, w) == 1 {
            assert(pow2(w) * 1 == pow2(w));
        } else {
            assert(pow2(w) * 0 == 0);
        }
    }
}

/// A number that fits the width is read back unchanged from the wires that
/// spell it, in any store whose two constants hold.
pub proof fn lemma_num_round_trip(s: Seq<bool>, n: u64, width: nat)
    requires
        s.len() >= 2,
        !s[0],
        s[1],
        n < pow2(width),
    ensures
        value(s, bits(n, width)) == n,
{
    lemma_value_of_bits(s, n, width);
    lemma_small_mod(n as nat, pow2(width));
}

} // verus!
