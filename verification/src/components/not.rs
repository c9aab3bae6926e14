//! Negation.

use vstd::prelude::*;
use crate::bundle::{Bundle, Wiring};
use crate::circuit::{
    consecutive, gate_in_range, lemma_in_range_concat, lemma_lifted_all,
    lemma_lifted_combinational, lemma_lifted_computes, lifted, run, wires_in_range, Circuit, Gate,
};
use crate::combinational::{combinational, fresh, lemma_run_keeps, written};
use crate::memo::{spliced, translate, Memo, Template};
use crate::optimize::{carried, pulled};
use crate::trace::kept_from;
use crate::wire::Wire;
use crate::component::{
    described, entered, lemma_copy_again, lemma_placed_grown, lemma_spliced_all,
    lemma_spliced_combinational, lively, placed, synthesized, Description,
};

verus! {

/// The key of the negation.
pub const NOT: u64 = 1;

/// Negation, leaf by leaf: `o` is NOT `i`.
pub struct Not;

impl<T: Wiring + Copy> Description<(T, T)> for Not {
    open spec fn key(&self) -> u64 {
        NOT
    }

    open spec fn ready(&self) -> bool {
        true
    }

    open spec fn built(&self, before: &Circuit, after: &Circuit, wiring: (T, T)) -> bool {
        &&& after.nands@ == before.nands@ + lifted(
            wiring.0.leaves(),
            wiring.0.leaves(),
            wiring.1.leaves(),
        )
        &&& after.wires == before.wires
        &&& after.inputs == before.inputs
        &&& after.memo == before.memo
    }

    fn id(&self) -> (k: u64) {
        NOT
    }

    fn build(&self, circuit: &mut Circuit, wiring: (T, T)) {
        let (i, o) = wiring;
        proof {
            lemma_in_range_concat(i.leaves(), o.leaves(), circuit.wires.len() as nat);
        }
        circuit.nand(i, i, o);
    }
}

/// The gates of a copy of the negation negate. Where `t` was made from this
/// description, the arguments are wires that the circuit had, each output
/// no constant and the argument of no other port, and the fresh wires of
/// the copy that none of its gates writes read FALSE, as they do at every
/// tick, one tick of the gates of the copy leaves on each output the
/// negation of what the input of its place had, and leaves every other wire
/// that the circuit had as it was.
pub proof fn lemma_not_copy<T: Wiring + Copy>(
    t: &Template,
    earlier: &Memo,
    c0: &Circuit,
    c1: &Circuit,
    c2: &Circuit,
    ports: (T, T),
    args: Seq<Wire>,
    start: nat,
    s: Seq<bool>,
)
    requires
        synthesized::<(T, T), Not>(&Not, earlier, c0, c1, c2, ports, t),
        args.len() == 2 * T::width(),
        2 <= start,
        forall|p: int| 0 <= p < args.len() ==> (#[trigger] args[p]).0 < start,
        forall|p: int| T::width() <= p < args.len() ==> (#[trigger] args[p]).0 >= 2,
        forall|p: int, q: int|
            T::width() <= p < args.len() && 0 <= q < args.len() && p != q ==> (
            #[trigger] args[p]) != (#[trigger] args[q]),
        start + t.inner() <= s.len() <= usize::MAX,
        !s[0],
        s[1],
        forall|w: int|
            start <= w < start + t.inner() && !written(spliced(t.nands@, args, start), w) ==> !(
            #[trigger] s[w]),
    ensures
        run(s, spliced(t.nands@, args, start)).len() == s.len(),
        forall|k: int|
            0 <= k < T::width() ==> run(s, spliced(t.nands@, args, start))[(
            #[trigger] args[T::width() + k]).0 as int] == !s[args[k].0 as int],
        forall|c: int|
            0 <= c < start && (forall|k: int|
                0 <= k < T::width() ==> (#[trigger] args[T::width() + k]).0 != c) ==> run(
                s,
                spliced(t.nands@, args, start),
            )[c] == s[c],
{
    let w = T::width() as int;
    lemma_not_built::<T>(t, earlier, c0, c1, c2, ports);
    ports.0.lemma_leaves_len();
    ports.1.lemma_leaves_len();
    let pi = ports.0.leaves();
    let po = ports.1.leaves();
    let n1 = c1.wires.len() as nat;
    let built = c1.nands@;
    assert(ports.leaves() == pi + po);
    assert forall|j: int| 0 <= j < w implies (#[trigger] pi[j]).0 == 2 + j by {
        assert(ports.leaves()[j] == pi[j]);
    }
    assert forall|j: int| 0 <= j < w implies (#[trigger] po[j]).0 == 2 + w + j by {
        assert(ports.leaves()[w + j] == po[j]);
    }
    assert(wires_in_range(pi, n1));
    assert(wires_in_range(po, n1));
    assert(built =~= lifted(pi, pi, po));
    // every output can become TRUE: it does from the store in which all
    // but the constant TRUE reads FALSE
    let e0 = Seq::new(n1, |x: int| x == 1);
    assert(fresh(e0, built, (2 + args.len()) as nat));
    assert forall|q: int|
        2 <= q < 2 + args.len() && #[trigger] written(built, q) implies lively(
        built,
        n1,
        (2 + args.len()) as nat,
        q,
    ) by {
        let j = q - 2 - w;
        assert(po[j].0 == q && pi[j].0 == 2 + j);
        lemma_lifted_computes(e0, pi, pi, po, j);
    }
    assert(t.nands == c2.nands && t.size == c2.wires.len());
    lemma_copy_again(c1, c2, args, start, s);
    let e = entered(s, built, n1, args);
    assert forall|k: int| 0 <= k < w implies run(s, spliced(t.nands@, args, start))[(
    #[trigger] args[w + k]).0 as int] == !s[args[k].0 as int] by {
        assert(po[k].0 == 2 + w + k && pi[k].0 == 2 + k);
        lemma_lifted_computes(e, pi, pi, po, k);
        assert(e[2 + k] == s[args[k].0 as int]);
    }
    assert forall|c: int|
        0 <= c < start && (forall|k: int| 0 <= k < w ==> (#[trigger] args[w + k]).0
            != c) implies run(s, spliced(t.nands@, args, start))[c] == s[c] by {
        assert forall|p: int| 0 <= p < args.len() && written(built, 2 + p) implies (
        #[trigger] args[p]).0 != c by {
            assert(args[w + (p - w)].0 != c);
        }
    }
}

/// What the description of the negation builds: a combinational netlist
/// over its ports that writes its outputs and nothing else.
pub proof fn lemma_not_built<T: Wiring + Copy>(
    t: &Template,
    earlier: &Memo,
    c0: &Circuit,
    c1: &Circuit,
    c2: &Circuit,
    ports: (T, T),
)
    requires
        synthesized::<(T, T), Not>(&Not, earlier, c0, c1, c2, ports, t),
    ensures
        c1.inputs == 2 * T::width(),
        c1.wires.len() == 2 * T::width() + 2,
        t.size == c1.wires.len(),
        combinational(c1.nands@, c1.wires.len() as nat),
        combinational(t.nands@, t.size as nat),
        forall|q: int| 0 <= q < c1.wires.len() ==> (written(c1.nands@, q) <==> 2 + T::width() <= q),
        forall|q: int| 0 <= q < 2 + T::width() ==> !written(t.nands@, q),
{
    let w = T::width() as int;
    ports.0.lemma_leaves_len();
    ports.1.lemma_leaves_len();
    let pi = ports.0.leaves();
    let po = ports.1.leaves();
    let n1 = (2 * w + 2) as nat;
    assert(ports.leaves() == pi + po);
    assert(c1.wires.len() == n1);
    assert forall|j: int| 0 <= j < w implies (#[trigger] pi[j]).0 == 2 + j by {
        assert(ports.leaves()[j] == pi[j]);
    }
    assert forall|j: int| 0 <= j < w implies (#[trigger] po[j]).0 == 2 + w + j by {
        assert(ports.leaves()[w + j] == po[j]);
    }
    assert(wires_in_range(pi, n1));
    assert(wires_in_range(po, n1));
    assert forall|j: int| 0 <= j < po.len() implies (#[trigger] po[j]) != Wire::spec_void() by {
        assert(po[j].0 == 2 + w + j);
    }
    assert forall|a: int, b: int| 0 <= a < b < po.len() implies (#[trigger] po[a]) != (
    #[trigger] po[b]) by {
        assert(po[a].0 == 2 + w + a && po[b].0 == 2 + w + b);
    }
    assert forall|a: int, b: int| 0 <= a < po.len() && 0 <= b < po.len() implies (
    #[trigger] po[b]) != (#[trigger] pi[a]) && po[b] != pi[a] by {
        assert(pi[a].0 == 2 + a && po[b].0 == 2 + w + b);
    }
    let built = lifted(pi, pi, po);
    assert(c1.nands@ =~= built);
    lemma_lifted_combinational(pi, pi, po, n1);
    lemma_lifted_all(pi, pi, po);
    assert forall|q: int| 0 <= q < n1 implies (written(built, q) <==> 2 + w <= q) by {
        if written(built, q) {
            let g = choose|g: int| 0 <= g < built.len() && (#[trigger] built[g]).2.0 == q;
            assert(built[g] == (pi[g], pi[g], po[g]));
            assert(po[g].0 == 2 + w + g);
        }
        if 2 + w <= q {
            let j = q - 2 - w;
            assert(built[j] == (pi[j], pi[j], po[j]));
            assert(po[j].0 == 2 + w + j);
        }
    }
    assert forall|q: int| 0 <= q < 2 + w implies !written(t.nands@, q) by {
        if written(t.nands@, q) {
            assert(written(c1.nands@, q));
        }
    }
}

/// The gates of a copy of the negation make a combinational netlist, and
/// each of them writes an output or a fresh wire of the copy.
pub proof fn lemma_not_copy_shape<T: Wiring + Copy>(
    t: &Template,
    earlier: &Memo,
    c0: &Circuit,
    c1: &Circuit,
    c2: &Circuit,
    ports: (T, T),
    args: Seq<Wire>,
    start: nat,
    n: nat,
)
    requires
        synthesized::<(T, T), Not>(&Not, earlier, c0, c1, c2, ports, t),
        args.len() == 2 * T::width(),
        2 <= start,
        forall|p: int| 0 <= p < args.len() ==> 2 <= (#[trigger] args[p]).0 < start,
        forall|p: int, q: int|
            0 <= p < q < args.len() ==> (#[trigger] args[p]) != (#[trigger] args[q]),
        start + t.inner() <= n <= usize::MAX,
    ensures
        combinational(spliced(t.nands@, args, start), n),
        forall|j: int|
            0 <= j < spliced(t.nands@, args, start).len() ==> (#[trigger] spliced(
                t.nands@,
                args,
                start,
            )[j]).2.0 >= start || exists|p: int|
                T::width() <= p < args.len() && spliced(t.nands@, args, start)[j].2
                    == #[trigger] args[p],
{
    lemma_not_built::<T>(t, earlier, c0, c1, c2, ports);
    let w = T::width() as int;
    let gates = t.nands@;
    let size = t.size as nat;
    lemma_spliced_combinational(gates, size, args, start, n);
    assert(wires_in_range(args, n));
    lemma_spliced_all(gates, args.len(), size, args, start, n);
    let copy = spliced(gates, args, start);
    assert forall|j: int| 0 <= j < copy.len() implies (#[trigger] copy[j]).2.0 >= start || exists|
        p: int,
    |
        w <= p < args.len() && copy[j].2 == #[trigger] args[p] by {
        let q = gates[j].2.0 as int;
        assert(written(gates, q));
        assert(q >= 2 + w);
        assert(gate_in_range(gates[j], size));
        if q - 2 < args.len() {
            assert(copy[j].2 == args[q - 2]);
        }
    }
}

/// Whether `j` is among the places `picks`.
pub open spec fn reached(picks: Seq<int>, j: int) -> bool {
    exists|a: int| 0 <= a < picks.len() && #[trigger] picks[a] == j
}

/// Places that rise strictly and reach every place below `w` are all the
/// places below `w`, in order.
pub proof fn lemma_rising_onto(picks: Seq<int>, w: int, i: int)
    requires
        forall|a: int| 0 <= a < picks.len() ==> 0 <= (#[trigger] picks[a]) < w,
        forall|a: int, b: int|
            0 <= a < b < picks.len() ==> (#[trigger] picks[a]) < (#[trigger] picks[b]),
        forall|j: int| 0 <= j < w ==> #[trigger] reached(picks, j),
        0 <= i < w,
    ensures
        i < picks.len(),
        picks[i] == i,
    decreases i,
{
    if i > 0 {
        lemma_rising_onto(picks, w, i - 1);
    }
    assert(reached(picks, i));
    let a = choose|a: int| 0 <= a < picks.len() && #[trigger] picks[a] == i;
    if a < i {
        lemma_rising_onto(picks, w, a);
    } else if a > i {
        if i > 0 {
            assert(picks[i - 1] < picks[i]);
        }
        assert(picks[i] < picks[a]);
    }
}

/// The negation as it stands in the memo: the optimizer finds nothing to
/// drop, so the component has the wires and the gates that the description
/// builds, one gate for each leaf, from the input of its place to the
/// output of its place.
pub proof fn lemma_not_template<T: Wiring + Copy>(
    t: &Template,
    earlier: &Memo,
    c0: &Circuit,
    c1: &Circuit,
    c2: &Circuit,
    ports: (T, T),
)
    requires
        synthesized::<(T, T), Not>(&Not, earlier, c0, c1, c2, ports, t),
    ensures
        t.size == 2 * T::width() + 2,
        t.nands@ == lifted(
            consecutive(2, T::width()),
            consecutive(2, T::width()),
            consecutive(2 + T::width(), T::width()),
        ),
{
    let w = T::width() as int;
    lemma_not_built::<T>(t, earlier, c0, c1, c2, ports);
    ports.0.lemma_leaves_len();
    ports.1.lemma_leaves_len();
    let pi = ports.0.leaves();
    let po = ports.1.leaves();
    let n = c1.wires.len() as nat;
    let built = c1.nands@;
    let gates = c2.nands@;
    assert(ports.leaves() == pi + po);
    assert forall|j: int| 0 <= j < w implies (#[trigger] pi[j]).0 == 2 + j by {
        assert(ports.leaves()[j] == pi[j]);
    }
    assert forall|j: int| 0 <= j < w implies (#[trigger] po[j]).0 == 2 + w + j by {
        assert(ports.leaves()[w + j] == po[j]);
    }
    assert(pi =~= consecutive(2, T::width()));
    assert(po =~= consecutive(2 + T::width(), T::width()));
    assert(wires_in_range(pi, n));
    assert(wires_in_range(po, n));
    assert forall|j: int| 0 <= j < po.len() implies (#[trigger] po[j]) != Wire::spec_void() by {
        assert(po[j].0 == 2 + w + j);
    }
    assert(built =~= lifted(pi, pi, po));
    lemma_lifted_all(pi, pi, po);
    let (back, picks, rep) = choose|back: Seq<usize>, picks: Seq<int>, rep: Seq<nat>|
        back.len() == c2.wires.len() && #[trigger] carried(built, n, gates, n, back, picks, rep);
    reveal(kept_from);
    assert(c2.wires.len() == n);
    // every gate that is left is the one that it was kept from
    assert forall|i: int| 0 <= i < gates.len() implies #[trigger] gates[i] == built[picks[i]] by {
        let h = gates[i];
        let p = picks[i];
        assert(gate_in_range(h, n));
        assert(built[p] == (pi[p], pi[p], po[p]));
        assert(back[h.0.0 as int] == h.0.0 && back[h.1.0 as int] == h.1.0 && back[h.2.0 as int]
            == h.2.0);
        assert(rep[pi[p].0 as int] == pi[p].0 && rep[po[p].0 as int] == po[p].0);
    }
    // every output keeps its gate: from the store in which all but the
    // constant TRUE reads FALSE it becomes TRUE
    let e0 = Seq::new(n, |x: int| x == 1);
    assert(fresh(e0, built, n));
    assert(run(e0.take(n as int), gates) == pulled(run(e0, built), back));
    lemma_run_keeps(e0.take(n as int), gates);
    assert forall|j: int| 0 <= j < w implies #[trigger] reached(picks, j) by {
        let q = 2 + w + j;
        assert(po[j].0 == q && pi[j].0 == 2 + j);
        lemma_lifted_computes(e0, pi, pi, po, j);
        assert(back[q] == q);
        assert(pulled(run(e0, built), back)[q] == run(e0, built)[q]);
        assert(written(gates, q));
        let a = choose|a: int| 0 <= a < gates.len() && (#[trigger] gates[a]).2.0 == q;
        assert(gates[a] == built[picks[a]]);
        assert(built[picks[a]] == (pi[picks[a]], pi[picks[a]], po[picks[a]]));
        assert(po[picks[a]].0 == 2 + w + picks[a]);
        assert(picks[a] == j);
    }
    assert forall|i: int| 0 <= i < w implies i < picks.len() && #[trigger] picks[i] == i by {
        lemma_rising_onto(picks, w, i);
    }
    if picks.len() > w {
        if w > 0 {
            assert(picks[w - 1] == w - 1);
            assert(picks[w - 1] < picks[w]);
        }
        assert(0 <= picks[w] < w);
    }
    if picks.len() < w {
        assert(picks[w - 1] == w - 1);
    }
    assert(picks.len() == w);
    assert(gates.len() == w);
    assert(built.len() == w);
    assert forall|i: int| 0 <= i < w implies gates[i] == built[i] by {
        assert(picks[i] == i);
        assert(gates[i] == built[picks[i]]);
    }
    assert(gates =~= built);
}

/// A copy of the negation of one wire is one gate, from the input to the
/// output, and has no wire of its own.
pub proof fn lemma_not_one(
    before: &Circuit,
    after: &Circuit,
    i: Wire,
    o: Wire,
    earlier: &Memo,
    c0: &Circuit,
    c1: &Circuit,
    c2: &Circuit,
    ports: (Wire, Wire),
)
    requires
        placed(before, after, NOT, seq![i, o]),
        synthesized::<(Wire, Wire), Not>(
            &Not,
            earlier,
            c0,
            c1,
            c2,
            ports,
            &after.memo.template(NOT, 2),
        ),
        o != Wire::spec_void(),
    ensures
        after.nands@ == before.nands@ + seq![(i, i, o)],
        after.wires@ == before.wires@,
{
    let args = seq![i, o];
    let tn = after.memo.template(NOT, 2);
    let start = before.wires.len() as nat;
    lemma_not_template::<Wire>(&tn, earlier, c0, c1, c2, ports);
    let pa = consecutive(2, 1);
    let pb = consecutive(3, 1);
    assert(pb[0] != Wire::spec_void());
    lemma_lifted_all(pa, pa, pb);
    let only = (Wire(2), Wire(2), Wire(3));
    assert(tn.nands@ =~= seq![only]);
    assert(tn.nands@.drop_last() =~= Seq::<Gate>::empty());
    assert(tn.nands@.last() == only);
    assert(translate(Wire(2), args, start) == i);
    assert(translate(Wire(3), args, start) == o);
    reveal_with_fuel(spliced, 2);
    assert(spliced(tn.nands@.drop_last(), args, start) =~= Seq::<Gate>::empty());
    assert(spliced(tn.nands@, args, start) =~= seq![(i, i, o)]);
    assert(tn.inner() == 0);
    assert(after.wires@ =~= before.wires@);
}

/// A copy of the negation negates, whatever the shape of its ports. Where
/// the component in the memo was made from this description for ports of
/// the shape `T`, a use between bundles of a shape `U` with as many leaves
/// takes the same component; the arguments are wires that the circuit had,
/// each leaf of `o` no constant and no other leaf of `i` or `o`, and the
/// fresh wires of the copy that none of its gates writes read FALSE, as
/// they do at every tick: then one tick of the gates of the copy leaves on
/// each leaf of `o` the negation of what the leaf of `i` of its place had.
/// The leaves of `i` may be constants, or the same.
pub proof fn lemma_not_computes<T: Wiring + Copy, U: Wiring>(
    before: &Circuit,
    after: &Circuit,
    i: U,
    o: U,
    earlier: &Memo,
    c0: &Circuit,
    c1: &Circuit,
    c2: &Circuit,
    ports: (T, T),
    s: Seq<bool>,
    k: int,
)
    requires
        U::width() == T::width(),
        placed(before, after, NOT, i.leaves() + o.leaves()),
        synthesized::<(T, T), Not>(
            &Not,
            earlier,
            c0,
            c1,
            c2,
            ports,
            &after.memo.template(NOT, 2 * T::width()),
        ),
        2 <= before.wires.len(),
        forall|p: int|
            0 <= p < 2 * T::width() ==> (#[trigger] (i.leaves() + o.leaves())[p]).0
                < before.wires.len(),
        forall|p: int|
            T::width() <= p < 2 * T::width() ==> (#[trigger] (i.leaves() + o.leaves())[p]).0 >= 2,
        forall|p: int, q: int|
            T::width() <= p < 2 * T::width() && 0 <= q < 2 * T::width() && p != q ==> (
            #[trigger] (i.leaves() + o.leaves())[p]) != (#[trigger] (i.leaves() + o.leaves())[q]),
        s.len() == after.wires.len(),
        !s[0],
        s[1],
        forall|w: int|
            before.wires.len() <= w < s.len() && !written(
                spliced(
                    after.memo.template(NOT, 2 * T::width()).nands@,
                    i.leaves() + o.leaves(),
                    before.wires.len() as nat,
                ),
                w,
            ) ==> !(#[trigger] s[w]),
        0 <= k < T::width(),
    ensures
        run(
            s,
            spliced(
                after.memo.template(NOT, 2 * T::width()).nands@,
                i.leaves() + o.leaves(),
                before.wires.len() as nat,
            ),
        )[o.leaves()[k].0 as int] == !s[i.leaves()[k].0 as int],
{
    let args = i.leaves() + o.leaves();
    let t = after.memo.template(NOT, 2 * T::width());
    i.lemma_leaves_len();
    o.lemma_leaves_len();
    lemma_not_copy::<T>(&t, earlier, c0, c1, c2, ports, args, before.wires.len() as nat, s);
    assert(args[k] == i.leaves()[k]);
    assert(args[T::width() + k] == o.leaves()[k]);
}

impl Circuit {
    /// Appends a copy of the negation between `i` and `o`.
    pub fn not<T: Wiring + Copy>(&mut self, i: T, o: T)
        requires
            old(self).wf(),
            T::width() + T::width() + 2 <= usize::MAX,
        ensures
            placed(old(self), final(self), NOT, i.leaves() + o.leaves()),
            described::<(T, T), Not>(old(self), final(self), &Not),
            final(self).grown_from(old(self)),
            old(self).closed() && wires_in_range(i.leaves() + o.leaves(), old(self).wires.len() as nat)
                ==> final(self).closed(),
    {
        self.component((i, o), Not);
        proof {
            lemma_placed_grown(old(self), self, NOT, i.leaves() + o.leaves());
        }
    }
}

} // verus!
