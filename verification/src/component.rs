//! Memoized components: a description is synthesized into a netlist of its
//! own the first time it is used, and that netlist is spliced into the
//! circuit at every use.

use vstd::prelude::*;
use crate::bundle::{bundle_of, leaves_of, Wiring};
use crate::circuit::{
    consecutive, gate_in_range, gates_in_range, run, wires_in_range, Circuit, Gate,
};
use crate::memo::{
    keyed, lemma_place, lemma_place_first, spliced, translate, Memo, Template,
};
use crate::combinational::{combinational, fresh, lemma_run_determined, written};
use crate::optimize::{carried, optimized, pulled};
use crate::wire::Wire;

verus! {

/// The generating logic of a component whose ports form a bundle `T`.
pub trait Description<T: Wiring> {
    /// The key that tells this logic from every other. Together with the
    /// number of ports it names the component in the memo: logic that is
    /// the same for every shape with as many leaves, as all of this crate
    /// is, has one component for them.
    spec fn key(&self) -> u64;

    /// What the logic needs of the machine, such as room for its widest
    /// bundle.
    spec fn ready(&self) -> bool;

    /// What `build` does: how the circuit `after` it differs from the
    /// circuit `before` it, for the ports `wiring`.
    spec fn built(&self, before: &Circuit, after: &Circuit, wiring: T) -> bool;

    /// The key.
    fn id(&self) -> (k: u64)
        ensures
            k == self.key(),
    ;

    /// Appends the wires and gates of the component to `circuit`, between
    /// the ports `wiring`.
    fn build(&self, circuit: &mut Circuit, wiring: T)
        requires
            self.ready(),
            T::width() + 2 <= usize::MAX,
            old(circuit).wf(),
            old(circuit).closed(),
            wires_in_range(wiring.leaves(), old(circuit).wires.len() as nat),
        ensures
            final(circuit).grown_from(old(circuit)),
            final(circuit).closed(),
            self.built(old(circuit), final(circuit), wiring),
    ;
}

/// The ports of a component as its description sees them: the wires after
/// the two constants, in order.
pub fn ports<T: Wiring>() -> (t: T)
    requires
        T::width() + 2 <= usize::MAX,
    ensures
        t.leaves() == consecutive(2, T::width()),
{
    let n = T::size();
    let mut v: Vec<Wire> = Vec::new();
    while v.len() < n
        invariant
            v.len() <= n,
            n + 2 <= usize::MAX,
            forall|i: int| 0 <= i < v.len() ==> v[i] == Wire((2 + i) as usize),
        decreases n - v.len(),
    {
        let i = v.len();
        v.push(Wire(i + 2));
    }
    assert(v@ =~= consecutive(2, T::width()));
    bundle_of(v)
}

/// Translated gates read and write wires of the circuit where the
/// arguments are wires of the circuit and the copies fit in it.
pub proof fn lemma_spliced_in_range(
    gates: Seq<Gate>,
    inputs: nat,
    size: nat,
    args: Seq<Wire>,
    start: nat,
    n: nat,
)
    requires
        gates_in_range(gates, size),
        inputs + 2 <= size,
        args.len() == inputs,
        wires_in_range(args, n),
        2 <= n,
        start + size - 2 - inputs <= n,
        n <= usize::MAX,
    ensures
        gates_in_range(spliced(gates, args, start), n),
    decreases gates.len(),
{
    if gates.len() > 0 {
        let shorter = gates.drop_last();
        assert(gates_in_range(shorter, size)) by {
            assert forall|k: int| 0 <= k < shorter.len() implies gate_in_range(
                #[trigger] shorter[k],
                size,
            ) by {
                assert(shorter[k] == gates[k]);
            }
        }
        lemma_spliced_in_range(shorter, inputs, size, args, start, n);
        let g = gates.last();
        assert(gate_in_range(g, size));
        let rest = spliced(shorter, args, start);
        let all = spliced(gates, args, start);
        assert forall|k: int| 0 <= k < all.len() implies gate_in_range(#[trigger] all[k], n) by {
            if k < rest.len() {
                assert(all[k] == rest[k]);
            }
        }
    }
}

/// Whether the translation keeps the wires that the gates write apart:
/// the wire of the circuit that stands for such a wire stands for no other
/// wire of the component.
pub open spec fn apart(gates: Seq<Gate>, size: nat, args: Seq<Wire>, start: nat) -> bool {
    forall|k: int, w: int|
        0 <= k < gates.len() && 0 <= w < size && w != (#[trigger] gates[k]).2.0 ==> (
        #[trigger] translate(Wire(w as usize), args, start)) != translate(gates[k].2, args, start)
}

/// The store of a component that corresponds to the store `s` of the
/// circuit: each wire has the value of the wire that stands for it.
pub open spec fn seen(s: Seq<bool>, size: nat, args: Seq<Wire>, start: nat) -> Seq<bool> {
    Seq::new(size, |w: int| s[translate(Wire(w as usize), args, start).0 as int])
}

/// Gates translated without a void output are the gates, one for one.
pub proof fn lemma_spliced_all(
    gates: Seq<Gate>,
    inputs: nat,
    size: nat,
    args: Seq<Wire>,
    start: nat,
    n: nat,
)
    requires
        gates_in_range(gates, size),
        inputs + 2 <= size,
        args.len() == inputs,
        wires_in_range(args, n),
        2 <= n,
        start + size - 2 - inputs <= n,
        n <= usize::MAX,
    ensures
        spliced(gates, args, start).len() == gates.len(),
        forall|k: int|
            0 <= k < gates.len() ==> (#[trigger] spliced(gates, args, start)[k]) == (
                translate(gates[k].0, args, start),
                translate(gates[k].1, args, start),
                translate(gates[k].2, args, start),
            ),
    decreases gates.len(),
{
    if gates.len() > 0 {
        let shorter = gates.drop_last();
        assert(gates_in_range(shorter, size)) by {
            assert forall|k: int| 0 <= k < shorter.len() implies gate_in_range(
                #[trigger] shorter[k],
                size,
            ) by {
                assert(shorter[k] == gates[k]);
            }
        }
        lemma_spliced_all(shorter, inputs, size, args, start, n);
        let g = gates.last();
        assert(gates[gates.len() - 1] == g);
        assert(gate_in_range(g, size));
        let rest = spliced(shorter, args, start);
        let all = spliced(gates, args, start);
        assert(translate(g.2, args, start).0 < n);
        assert forall|k: int| 0 <= k < gates.len() implies (#[trigger] all[k]) == (
            translate(gates[k].0, args, start),
            translate(gates[k].1, args, start),
            translate(gates[k].2, args, start),
        ) by {
            if k < rest.len() {
                assert(all[k] == rest[k]);
                assert(shorter[k] == gates[k]);
            }
        }
    }
}

/// One tick of a copy of a component does to the wires of the circuit that
/// stand for wires of the component what one tick of the component does to
/// those, and leaves every other wire of the circuit as it was, where no
/// argument is the void wire and the translation keeps the wires that the
/// gates write apart.
pub proof fn lemma_spliced_run(
    gates: Seq<Gate>,
    inputs: nat,
    size: nat,
    args: Seq<Wire>,
    start: nat,
    s: Seq<bool>,
)
    requires
        gates_in_range(gates, size),
        inputs + 2 <= size,
        args.len() == inputs,
        wires_in_range(args, s.len()),
        2 <= s.len() <= usize::MAX,
        start + size - 2 - inputs <= s.len(),
        apart(gates, size, args, start),
    ensures
        run(s, spliced(gates, args, start)).len() == s.len(),
        run(seen(s, size, args, start), gates) == seen(
            run(s, spliced(gates, args, start)),
            size,
            args,
            start,
        ),
        forall|c: int|
            0 <= c < s.len() && (forall|w: int|
                0 <= w < size ==> (#[trigger] translate(Wire(w as usize), args, start)).0 != c)
                ==> run(s, spliced(gates, args, start))[c] == s[c],
    decreases gates.len(),
{
    let u = seen(s, size, args, start);
    let copy = spliced(gates, args, start);
    lemma_spliced_in_range(gates, inputs, size, args, start, s.len());
    lemma_spliced_all(gates, inputs, size, args, start, s.len());
    crate::combinational::lemma_run_keeps(s, copy);
    crate::combinational::lemma_run_keeps(u, gates);
    if gates.len() == 0 {
        assert(run(u, gates) =~= seen(run(s, copy), size, args, start));
    } else {
        let shorter = gates.drop_last();
        let g = gates.last();
        assert(gates[gates.len() - 1] == g);
        assert(gate_in_range(g, size));
        assert(gates_in_range(shorter, size)) by {
            assert forall|k: int| 0 <= k < shorter.len() implies gate_in_range(
                #[trigger] shorter[k],
                size,
            ) by {
                assert(shorter[k] == gates[k]);
            }
        }
        assert(apart(shorter, size, args, start)) by {
            assert forall|k: int, w: int|
                0 <= k < shorter.len() && 0 <= w < size && w != (
                #[trigger] shorter[k]).2.0 implies (#[trigger] translate(
                Wire(w as usize),
                args,
                start,
            )) != translate(shorter[k].2, args, start) by {
                assert(shorter[k] == gates[k]);
            }
        }
        lemma_spliced_run(shorter, inputs, size, args, start, s);
        lemma_spliced_all(shorter, inputs, size, args, start, s.len());
        lemma_spliced_in_range(shorter, inputs, size, args, start, s.len());
        let part = spliced(shorter, args, start);
        let h = (translate(g.0, args, start), translate(g.1, args, start), translate(g.2, args, start));
        assert(copy =~= part.push(h)) by {
            assert(copy.len() == part.len() + 1);
            assert forall|k: int| 0 <= k < copy.len() implies copy[k] == part.push(h)[k] by {
                if k < part.len() {
                    assert(shorter[k] == gates[k]);
                }
            }
        }
        assert(copy.drop_last() =~= part);
        assert(copy.last() == h);
        let r = run(s, part);
        let ru = run(u, shorter);
        crate::combinational::lemma_run_keeps(s, part);
        crate::combinational::lemma_run_keeps(u, shorter);
        assert(ru == seen(r, size, args, start));
        assert(run(s, copy) == crate::circuit::fire(r, h));
        assert(run(u, gates) == crate::circuit::fire(ru, g));
        assert(g.0 == Wire(g.0.0) && g.1 == Wire(g.1.0) && g.2 == Wire(g.2.0));
        assert(ru[g.0.0 as int] == r[h.0.0 as int]);
        assert(ru[g.1.0 as int] == r[h.1.0 as int]);
        assert forall|w: int| 0 <= w < size implies run(u, gates)[w] == seen(
            run(s, copy),
            size,
            args,
            start,
        )[w] by {
            if w != g.2.0 {
                assert(translate(Wire(w as usize), args, start) != translate(
                    gates[gates.len() - 1].2,
                    args,
                    start,
                ));
                assert(ru[w] == r[translate(Wire(w as usize), args, start).0 as int]);
            }
        }
        assert(run(u, gates) =~= seen(run(s, copy), size, args, start));
        assert forall|c: int|
            0 <= c < s.len() && (forall|w: int|
                0 <= w < size ==> (#[trigger] translate(Wire(w as usize), args, start)).0
                    != c) implies run(s, copy)[c] == s[c] by {
            let w0 = g.2.0 as int;
            assert(translate(Wire(w0 as usize), args, start).0 != c);
            assert(Wire(w0 as usize) == g.2);
            assert(r[c] == s[c]);
        }
    }
}

/// Arguments that are wires of the circuit as it was, none a constant and
/// no two the same, keep the wires that the gates write apart.
pub proof fn lemma_distinct_apart(gates: Seq<Gate>, size: nat, args: Seq<Wire>, start: nat)
    requires
        gates_in_range(gates, size),
        args.len() + 2 <= size <= usize::MAX,
        2 <= start,
        start + size - 2 - args.len() <= usize::MAX,
        forall|p: int| 0 <= p < args.len() ==> 2 <= (#[trigger] args[p]).0 < start,
        forall|p: int, q: int| 0 <= p < q < args.len() ==> (#[trigger] args[p]) != (#[trigger] args[q]),
    ensures
        apart(gates, size, args, start),
{
    assert forall|k: int, w: int|
        0 <= k < gates.len() && 0 <= w < size && w != (#[trigger] gates[k]).2.0 implies (
    #[trigger] translate(Wire(w as usize), args, start)) != translate(gates[k].2, args, start) by {
        let o = gates[k].2.0 as int;
        assert(gate_in_range(gates[k], size));
        assert(gates[k].2 == Wire(o as usize));
        let tw = translate(Wire(w as usize), args, start);
        let to = translate(Wire(o as usize), args, start);
        let n = args.len() as int;
        assert(Wire(w as usize).0 == w);
        assert(Wire(o as usize).0 == o);
        if w < 2 {
            assert(tw.0 == w);
        } else if w - 2 < n {
            assert(tw == args[w - 2]);
            assert(2 <= tw.0 < start);
        } else {
            assert(tw.0 == start + w - 2 - n);
        }
        if o < 2 {
            assert(to.0 == o);
        } else if o - 2 < n {
            assert(to == args[o - 2]);
            assert(2 <= to.0 < start);
        } else {
            assert(to.0 == start + o - 2 - n);
        }
        if w >= 2 && w - 2 < n && o >= 2 && o - 2 < n {
            if w < o {
                assert(args[w - 2] != args[o - 2]);
            } else {
                assert(args[o - 2] != args[w - 2]);
            }
        }
        assert(tw != to);
    }
}

/// A copy of a combinational component between arguments that are wires
/// of the circuit as it was is a combinational netlist, where the
/// translation keeps the wires that the gates write apart and the argument
/// for a port that a gate writes is no constant.
pub proof fn lemma_spliced_stateless(
    gates: Seq<Gate>,
    size: nat,
    args: Seq<Wire>,
    start: nat,
    n: nat,
)
    requires
        combinational(gates, size),
        args.len() + 2 <= size <= usize::MAX,
        2 <= start,
        start + size - 2 - args.len() <= n <= usize::MAX,
        forall|p: int| 0 <= p < args.len() ==> (#[trigger] args[p]).0 < start,
        forall|p: int| 0 <= p < args.len() && written(gates, 2 + p) ==> (#[trigger] args[p]).0 >= 2,
        apart(gates, size, args, start),
    ensures
        combinational(spliced(gates, args, start), n),
{
    let copy = spliced(gates, args, start);
    assert(wires_in_range(args, n));
    lemma_spliced_in_range(gates, args.len(), size, args, start, n);
    lemma_spliced_all(gates, args.len(), size, args, start, n);
    assert forall|k: int| 0 <= k < copy.len() implies (#[trigger] copy[k]).2.0 >= 2 by {
        let o = gates[k].2;
        assert(gate_in_range(gates[k], size));
        assert(o.0 >= 2);
        if o.0 - 2 < args.len() {
            assert(copy[k].2 == args[o.0 - 2]);
            assert(written(gates, 2 + (o.0 - 2)));
        }
    }
    assert forall|i: int, j: int| 0 <= i < j < copy.len() implies (#[trigger] copy[i]).2 != (
    #[trigger] copy[j]).2 by {
        assert(gates[i].2 != gates[j].2);
        assert(gate_in_range(gates[i], size));
        let w = gates[i].2.0 as int;
        assert(Wire(w as usize) == gates[i].2);
        assert(translate(Wire(w as usize), args, start) != translate(gates[j].2, args, start));
    }
    assert forall|i: int, j: int| 0 <= i <= j < copy.len() implies (#[trigger] copy[j]).2 != (
    #[trigger] copy[i]).0 && copy[j].2 != copy[i].1 by {
        assert(gates[j].2 != gates[i].0 && gates[j].2 != gates[i].1);
        assert(gate_in_range(gates[i], size));
        let a = gates[i].0.0 as int;
        let b = gates[i].1.0 as int;
        assert(Wire(a as usize) == gates[i].0);
        assert(Wire(b as usize) == gates[i].1);
        assert(translate(Wire(a as usize), args, start) != translate(gates[j].2, args, start));
        assert(translate(Wire(b as usize), args, start) != translate(gates[j].2, args, start));
    }
}

/// A copy of a combinational component between arguments that are wires
/// of the circuit as it was, none a constant and no two the same, is a
/// combinational netlist.
pub proof fn lemma_spliced_combinational(
    gates: Seq<Gate>,
    size: nat,
    args: Seq<Wire>,
    start: nat,
    n: nat,
)
    requires
        combinational(gates, size),
        args.len() + 2 <= size <= usize::MAX,
        2 <= start,
        start + size - 2 - args.len() <= n <= usize::MAX,
        forall|p: int| 0 <= p < args.len() ==> 2 <= (#[trigger] args[p]).0 < start,
        forall|p: int, q: int| 0 <= p < q < args.len() ==> (#[trigger] args[p]) != (#[trigger] args[q]),
    ensures
        combinational(spliced(gates, args, start), n),
{
    lemma_distinct_apart(gates, size, args, start);
    lemma_spliced_stateless(gates, size, args, start, n);
}

/// The store that a description starts from when the circuit has the
/// store `s`: the constants hold, a port that no gate of `built` writes has
/// the value of its argument, and every other wire reads FALSE.
pub open spec fn entered(s: Seq<bool>, built: Seq<Gate>, size: nat, args: Seq<Wire>) -> Seq<bool> {
    Seq::new(
        size,
        |w: int|
            if w == 1 {
                true
            } else if 2 <= w < 2 + args.len() && !written(built, w) {
                s[args[w - 2].0 as int]
            } else {
                false
            },
    )
}

/// Whether the store `s` of a circuit lets a copy of the component `c2`,
/// made from the netlist of `c1`, start as the component does: the
/// constants hold; a wire of the copy that is no argument and that no gate
/// writes reads FALSE; and so does an argument for a port that `c1` writes
/// and `c2` does not.
pub open spec fn settled_for(
    s: Seq<bool>,
    c1: &Circuit,
    c2: &Circuit,
    args: Seq<Wire>,
    start: nat,
) -> bool {
    &&& s.len() >= 2 && !s[0] && s[1]
    &&& forall|w: int|
        2 + args.len() <= w < c2.wires.len() && !written(c2.nands@, w) ==> !s[(
        #[trigger] translate(Wire(w as usize), args, start)).0 as int]
    &&& forall|p: int|
        0 <= p < args.len() && written(c1.nands@, 2 + p) && !written(c2.nands@, 2 + p) ==> !s[(
        #[trigger] args[p]).0 as int]
}

/// A copy of a component computes what its description states. Where `c1`
/// is a combinational netlist and `c2` is `c1` optimized, one tick of a copy
/// of `c2` leaves on each argument what one tick of `c1` leaves on the port
/// that the argument is given for, `c1` started with the values of the
/// arguments on the ports that it does not write.
pub proof fn lemma_copy_computes(
    c1: &Circuit,
    c2: &Circuit,
    args: Seq<Wire>,
    start: nat,
    s: Seq<bool>,
    p: int,
)
    requires
        c1.inputs + 2 <= c1.wires.len(),
        c1.inputs == args.len(),
        combinational(c1.nands@, c1.wires.len() as nat),
        optimized(c1, c2),
        wires_in_range(args, s.len()),
        s.len() <= usize::MAX,
        start + c2.wires.len() - 2 - args.len() <= s.len(),
        apart(c2.nands@, c2.wires.len() as nat, args, start),
        settled_for(s, c1, c2, args, start),
        0 <= p < args.len(),
    ensures
        run(s, spliced(c2.nands@, args, start))[args[p].0 as int] == run(
            entered(s, c1.nands@, c1.wires.len() as nat, args),
            c1.nands@,
        )[2 + p],
{
    let n1 = c1.wires.len() as nat;
    let n2 = c2.wires.len() as nat;
    let fixed = (c1.inputs + 2) as nat;
    let built = c1.nands@;
    let gates = c2.nands@;
    let (back, picks, rep) = choose|back: Seq<usize>, picks: Seq<int>, rep: Seq<nat>|
        back.len() == c2.wires.len() && #[trigger] carried(
            built,
            n1,
            gates,
            fixed,
            back,
            picks,
            rep,
        );
    let e = entered(s, built, n1, args);
    assert(fresh(e, built, fixed));
    assert(run(e.take(n2 as int), gates) == pulled(run(e, built), back));
    let u = seen(s, n2, args, start);
    lemma_spliced_run(gates, args.len(), n2, args, start, s);
    let copy = spliced(gates, args, start);
    assert(run(u, gates) == seen(run(s, copy), n2, args, start));
    let v = run(e.take(n2 as int), gates);
    crate::combinational::lemma_run_models(e.take(n2 as int), gates);
    crate::combinational::lemma_run_keeps(e.take(n2 as int), gates);
    assert forall|w: int| 0 <= w < n2 && !written(gates, w) implies u[w] == v[w] by {
        assert(v[w] == e[w]);
        if w < 2 {
        } else if w < fixed {
            assert(translate(Wire(w as usize), args, start) == args[w - 2]);
            if written(built, w) {
                assert(!s[args[w - 2].0 as int]);
            }
        } else {
            assert(!s[translate(Wire(w as usize), args, start).0 as int]);
        }
    }
    lemma_run_determined(u, gates, v);
    let q = 2 + p;
    assert(back[q] == q);
    assert(translate(Wire(q as usize), args, start) == args[p]);
    assert(run(u, gates)[q] == run(s, copy)[args[p].0 as int]);
    assert(pulled(run(e, built), back)[q] == run(e, built)[q]);
}

/// Arguments that are wires of the circuit as it was keep the wires that
/// the gates write apart, where the argument for a port that a gate writes
/// is no constant and is the argument for no other port.
pub proof fn lemma_outputs_apart(gates: Seq<Gate>, size: nat, args: Seq<Wire>, start: nat)
    requires
        gates_in_range(gates, size),
        forall|k: int| 0 <= k < gates.len() ==> (#[trigger] gates[k]).2.0 >= 2,
        args.len() + 2 <= size <= usize::MAX,
        2 <= start,
        start + size - 2 - args.len() <= usize::MAX,
        forall|p: int| 0 <= p < args.len() ==> (#[trigger] args[p]).0 < start,
        forall|p: int| 0 <= p < args.len() && written(gates, 2 + p) ==> (#[trigger] args[p]).0 >= 2,
        forall|p: int, q: int|
            0 <= p < args.len() && 0 <= q < args.len() && p != q && written(gates, 2 + p) ==> (
            #[trigger] args[p]) != (#[trigger] args[q]),
    ensures
        apart(gates, size, args, start),
{
    assert forall|k: int, w: int|
        0 <= k < gates.len() && 0 <= w < size && w != (#[trigger] gates[k]).2.0 implies (
    #[trigger] translate(Wire(w as usize), args, start)) != translate(gates[k].2, args, start) by {
        let o = gates[k].2.0 as int;
        assert(gate_in_range(gates[k], size));
        assert(gates[k].2 == Wire(o as usize));
        assert(written(gates, o));
        let tw = translate(Wire(w as usize), args, start);
        let to = translate(Wire(o as usize), args, start);
        let n = args.len() as int;
        assert(Wire(w as usize).0 == w);
        assert(Wire(o as usize).0 == o);
        if w < 2 {
            assert(tw.0 == w);
        } else if w - 2 < n {
            assert(tw == args[w - 2]);
            assert(tw.0 < start);
        } else {
            assert(tw.0 == start + w - 2 - n);
        }
        if o - 2 < n {
            assert(to == args[o - 2]);
            assert(2 <= to.0 < start);
            if w >= 2 && w - 2 < n {
                assert(args[o - 2] != args[w - 2]);
            }
        } else {
            assert(to.0 == start + o - 2 - n);
        }
        assert(tw != to);
    }
}

/// Whether one tick from some fresh store leaves the wire `q` TRUE.
pub open spec fn lively(built: Seq<Gate>, size: nat, fixed: nat, q: int) -> bool {
    exists|e: Seq<bool>| e.len() == size && #[trigger] fresh(e, built, fixed) && run(e, built)[q]
}

/// What a copy of a component means. Where `c1` is a combinational netlist
/// in which every port that a gate writes can become TRUE, `c2` is `c1`
/// optimized, the arguments are wires that the circuit had, the argument
/// for a port that a gate writes no constant and the argument for no other
/// port, and the fresh wires of the copy read FALSE, one
/// tick of the gates of a copy of `c2` leaves on each argument what one tick
/// of `c1` leaves on its port, and leaves every other wire that the circuit
/// had as it was, as it does the arguments for ports that `c1` does not
/// write.
pub proof fn lemma_copy_meaning(
    c1: &Circuit,
    c2: &Circuit,
    args: Seq<Wire>,
    start: nat,
    s: Seq<bool>,
)
    requires
        c1.inputs == args.len(),
        c1.inputs + 2 <= c1.wires.len(),
        combinational(c1.nands@, c1.wires.len() as nat),
        optimized(c1, c2),
        2 <= start,
        forall|p: int| 0 <= p < args.len() ==> (#[trigger] args[p]).0 < start,
        forall|p: int|
            0 <= p < args.len() && written(c1.nands@, 2 + p) ==> (#[trigger] args[p]).0 >= 2,
        forall|p: int, q: int|
            0 <= p < args.len() && 0 <= q < args.len() && p != q && written(c1.nands@, 2 + p)
                ==> (#[trigger] args[p]) != (#[trigger] args[q]),
        start + c2.wires.len() - 2 - args.len() <= s.len() <= usize::MAX,
        !s[0],
        s[1],
        forall|w: int|
            start <= w < start + c2.wires.len() - 2 - args.len() ==> !(#[trigger] s[w]),
        forall|q: int|
            2 <= q < 2 + args.len() && #[trigger] written(c1.nands@, q) ==> lively(
                c1.nands@,
                c1.wires.len() as nat,
                (2 + args.len()) as nat,
                q,
            ),
    ensures
        run(s, spliced(c2.nands@, args, start)).len() == s.len(),
        forall|p: int|
            0 <= p < args.len() ==> run(s, spliced(c2.nands@, args, start))[(
            #[trigger] args[p]).0 as int] == run(
                entered(s, c1.nands@, c1.wires.len() as nat, args),
                c1.nands@,
            )[2 + p],
        forall|c: int|
            0 <= c < start && (forall|p: int|
                0 <= p < args.len() && written(c1.nands@, 2 + p) ==> (#[trigger] args[p]).0 != c)
                ==> run(s, spliced(c2.nands@, args, start))[c] == s[c],
{
    let n1 = c1.wires.len() as nat;
    let n2 = c2.wires.len() as nat;
    let fixed = (2 + args.len()) as nat;
    let built = c1.nands@;
    let gates = c2.nands@;
    let copy = spliced(gates, args, start);
    let (back, picks, rep) = choose|back: Seq<usize>, picks: Seq<int>, rep: Seq<nat>|
        back.len() == c2.wires.len() && #[trigger] carried(
            built,
            n1,
            gates,
            fixed,
            back,
            picks,
            rep,
        );
    // a port with a gate keeps a gate: it can become TRUE, which a wire
    // without a gate, which starts as FALSE, cannot
    assert forall|q: int| 2 <= q < fixed && written(built, q) implies written(gates, q) by {
        assert(lively(built, n1, fixed, q));
        let e = choose|e: Seq<bool>| e.len() == n1 && #[trigger] fresh(e, built, fixed) && run(
            e,
            built,
        )[q];
        assert(run(e.take(n2 as int), gates) == pulled(run(e, built), back));
        crate::combinational::lemma_run_keeps(e.take(n2 as int), gates);
        assert(back[q] == q);
        assert(pulled(run(e, built), back)[q] == run(e, built)[q]);
        assert(!e[q]);
    }
    lemma_outputs_apart(gates, n2, args, start);
    assert(settled_for(s, c1, c2, args, start)) by {
        assert forall|x: int|
            2 + args.len() <= x < c2.wires.len() && !written(gates, x) implies !s[(
        #[trigger] translate(Wire(x as usize), args, start)).0 as int] by {}
    }
    assert forall|p: int| 0 <= p < args.len() implies run(s, copy)[(#[trigger] args[p]).0 as int]
        == run(entered(s, built, n1, args), built)[2 + p] by {
        lemma_copy_computes(c1, c2, args, start, s, p);
    }
    lemma_spliced_run(gates, args.len(), n2, args, start, s);
    let u = seen(s, n2, args, start);
    crate::combinational::lemma_run_keeps(u, gates);
    assert forall|c: int|
        0 <= c < start && (forall|p: int|
            0 <= p < args.len() && written(built, 2 + p) ==> (#[trigger] args[p]).0
                != c) implies run(s, copy)[c] == s[c] by {
        if c < 2 {
            assert(translate(Wire(c as usize), args, start).0 == c);
            assert(!written(gates, c));
            assert(seen(run(s, copy), n2, args, start)[c] == run(u, gates)[c]);
        } else if exists|p: int| 0 <= p < args.len() && args[p].0 == c {
            let p = choose|p: int| 0 <= p < args.len() && args[p].0 == c;
            let q = 2 + p;
            assert(translate(Wire(q as usize), args, start) == args[p]);
            assert(!written(built, q));
            assert(!written(gates, q));
            assert(seen(run(s, copy), n2, args, start)[q] == run(u, gates)[q]);
        } else {
            assert forall|x: int| 0 <= x < n2 implies (#[trigger] translate(
                Wire(x as usize),
                args,
                start,
            )).0 != c by {
                if x >= 2 && x - 2 < args.len() {
                    assert(args[x - 2].0 != c);
                }
            }
        }
    }
}

/// What a copy of a component means at every tick. As the law before
/// this one, but of the fresh wires of the copy only those need to read
/// FALSE that no gate of the copy writes, as they do at every tick: one
/// tick of a combinational netlist does not depend on what the wires that
/// it writes had.
pub proof fn lemma_copy_again(
    c1: &Circuit,
    c2: &Circuit,
    args: Seq<Wire>,
    start: nat,
    s: Seq<bool>,
)
    requires
        c1.inputs == args.len(),
        c1.inputs + 2 <= c1.wires.len(),
        combinational(c1.nands@, c1.wires.len() as nat),
        optimized(c1, c2),
        2 <= start,
        forall|p: int| 0 <= p < args.len() ==> (#[trigger] args[p]).0 < start,
        forall|p: int|
            0 <= p < args.len() && written(c1.nands@, 2 + p) ==> (#[trigger] args[p]).0 >= 2,
        forall|p: int, q: int|
            0 <= p < args.len() && 0 <= q < args.len() && p != q && written(c1.nands@, 2 + p)
                ==> (#[trigger] args[p]) != (#[trigger] args[q]),
        start + c2.wires.len() - 2 - args.len() <= s.len() <= usize::MAX,
        !s[0],
        s[1],
        forall|w: int|
            start <= w < start + c2.wires.len() - 2 - args.len() && !written(
                spliced(c2.nands@, args, start),
                w,
            ) ==> !(#[trigger] s[w]),
        forall|q: int|
            2 <= q < 2 + args.len() && #[trigger] written(c1.nands@, q) ==> lively(
                c1.nands@,
                c1.wires.len() as nat,
                (2 + args.len()) as nat,
                q,
            ),
    ensures
        run(s, spliced(c2.nands@, args, start)).len() == s.len(),
        forall|p: int|
            0 <= p < args.len() ==> run(s, spliced(c2.nands@, args, start))[(
            #[trigger] args[p]).0 as int] == run(
                entered(s, c1.nands@, c1.wires.len() as nat, args),
                c1.nands@,
            )[2 + p],
        forall|c: int|
            0 <= c < start && (forall|p: int|
                0 <= p < args.len() && written(c1.nands@, 2 + p) ==> (#[trigger] args[p]).0 != c)
                ==> run(s, spliced(c2.nands@, args, start))[c] == s[c],
{
    let n1 = c1.wires.len() as nat;
    let n2 = c2.wires.len() as nat;
    let built = c1.nands@;
    let gates = c2.nands@;
    let copy = spliced(gates, args, start);
    let n = s.len();
    lemma_outputs_apart(gates, n2, args, start);
    lemma_spliced_stateless(gates, n2, args, start, n);
    lemma_spliced_all(gates, args.len(), n2, args, start, n);
    // the store with FALSE on the wires that the copy writes
    let s0 = Seq::new(n, |w: int| if written(copy, w) { false } else { s[w] });
    assert(!written(copy, 0) && !written(copy, 1));
    lemma_copy_meaning(c1, c2, args, start, s0);
    let v = run(s0, copy);
    crate::combinational::lemma_run_models(s0, copy);
    crate::combinational::lemma_run_keeps(s0, copy);
    lemma_run_determined(s, copy, v);
    // no gate of the copy writes an argument for a port that has no gate
    assert forall|p: int| 0 <= p < args.len() && !written(built, 2 + p) implies !written(
        copy,
        (#[trigger] args[p]).0 as int,
    ) by {
        if written(copy, args[p].0 as int) {
            let k = choose|k: int| 0 <= k < copy.len() && (#[trigger] copy[k]).2.0 == args[p].0;
            assert(copy[k].2 == translate(gates[k].2, args, start));
            assert(gate_in_range(gates[k], n2));
            let o = gates[k].2.0 as int;
            assert(written(gates, o));
            if o < 2 + args.len() {
                assert(copy[k].2 == args[o - 2]);
                assert(written(built, 2 + (o - 2)));
                assert(args[o - 2] != args[p]);
            }
        }
    }
    assert(entered(s0, built, n1, args) =~= entered(s, built, n1, args));
    assert forall|c: int|
        0 <= c < start && (forall|p: int|
            0 <= p < args.len() && written(built, 2 + p) ==> (#[trigger] args[p]).0
                != c) implies run(s, copy)[c] == s[c] by {
        assert(v[c] == s0[c]);
        if written(copy, c) {
            let k = choose|k: int| 0 <= k < copy.len() && (#[trigger] copy[k]).2.0 == c;
            assert(copy[k].2 == translate(gates[k].2, args, start));
            assert(gate_in_range(gates[k], n2));
            let o = gates[k].2.0 as int;
            assert(written(gates, o));
            if o < 2 + args.len() {
                assert(copy[k].2 == args[o - 2]);
                assert(written(built, 2 + (o - 2)));
            }
        }
    }
}

/// Whether `after` is `before` with one more copy of the component with the
/// key `id` between the wires `args`: the memo is the same if it had the
/// component, and has it now; the store has a fresh wire, which reads
/// FALSE, for each wire of the component that is neither a constant nor a
/// port; and the gates of the component follow the gates that were there,
/// translated.
pub open spec fn placed(before: &Circuit, after: &Circuit, id: u64, args: Seq<Wire>) -> bool {
    let t = after.memo.template(id, args.len());
    &&& after.wf()
    &&& after.inputs == before.inputs
    &&& after.memo.extends(&before.memo)
    &&& after.memo.has(id, args.len())
    &&& before.memo.has(id, args.len()) ==> after.memo == before.memo
    &&& after.wires@ == before.wires@ + Seq::new(t.inner(), |i: int| false)
    &&& after.nands@ == before.nands@ + spliced(t.nands@, args, before.wires.len() as nat)
    &&& before.closed() && wires_in_range(args, before.wires.len() as nat) ==> after.closed()
}

/// Whether each circuit of `steps` but the first is the one before it with
/// one more copy of the component with the key `id`, between the wires that
/// `args` gives for that use.
pub open spec fn placed_in_turn(steps: Seq<Circuit>, id: u64, args: Seq<Seq<Wire>>, ports: nat) -> bool {
    &&& steps.len() == args.len() + 1
    &&& forall|k: int| 0 <= k < args.len() ==> (#[trigger] args[k]).len() == ports
    &&& forall|k: int|
        0 <= k < args.len() ==> placed(&steps[k], &steps[k + 1], id, #[trigger] args[k])
}

/// However often a component is used in a row, it is synthesized at most
/// once, at the first use: after that the memo stays as it is. Every use
/// appends the gates of that one component, translated to the arguments of
/// the use and to fresh wires of its own, which follow those of the use
/// before.
pub proof fn lemma_component_shared(
    steps: Seq<Circuit>,
    id: u64,
    args: Seq<Seq<Wire>>,
    ports: nat,
    k: int,
)
    requires
        placed_in_turn(steps, id, args, ports),
        1 <= k < args.len(),
    ensures
        steps[k + 1].memo == steps[1].memo,
        steps[0].memo.has(id, ports) ==> steps[k + 1].memo == steps[0].memo,
        ({
            let t = steps[1].memo.template(id, ports);
            &&& steps[k + 1].wires.len() == steps[1].wires.len() + k * t.inner()
            &&& steps[k + 1].nands@ == steps[k].nands@ + spliced(
                t.nands@,
                args[k],
                (steps[1].wires.len() + (k - 1) * t.inner()) as nat,
            )
        }),
    decreases k,
{
    let t = steps[1].memo.template(id, ports);
    assert(placed(&steps[0], &steps[1], id, args[0]));
    assert(placed(&steps[k], &steps[k + 1], id, args[k]));
    if k > 1 {
        lemma_component_shared(steps, id, args, ports, k - 1);
    }
    assert(steps[k].memo == steps[1].memo);
    assert(steps[k].memo.has(id, ports));
    assert(steps[k].wires.len() == steps[1].wires.len() + (k - 1) * t.inner()) by {
        if k > 1 {
            assert((k - 1) * t.inner() == (k - 2) * t.inner() + t.inner()) by (nonlinear_arith);
            assert(placed(&steps[k - 1], &steps[k], id, args[k - 1]));
        } else {
            assert(0 * t.inner() == 0) by (nonlinear_arith);
        }
    }
    assert(k * t.inner() == (k - 1) * t.inner() + t.inner()) by (nonlinear_arith);
}

/// Whether `w` is a wire that a copy between the arguments `args`, with
/// `inner` fresh wires from `start` on, may read or write: a constant, an
/// argument, or one of its fresh wires.
pub open spec fn of_copy(w: Wire, args: Seq<Wire>, start: nat, inner: nat) -> bool {
    w.0 < 2 || start <= w.0 < start + inner || exists|p: int|
        0 <= p < args.len() && #[trigger] args[p] == w
}

/// The gates of a copy read and write constants, arguments and fresh
/// wires of the copy, and nothing else; none writes a constant where none
/// of the component does.
pub proof fn lemma_spliced_touches(
    gates: Seq<Gate>,
    inputs: nat,
    size: nat,
    args: Seq<Wire>,
    start: nat,
    n: nat,
    k: int,
)
    requires
        gates_in_range(gates, size),
        inputs + 2 <= size,
        args.len() == inputs,
        wires_in_range(args, n),
        2 <= n,
        start + size - 2 - inputs <= n,
        n <= usize::MAX,
        0 <= k < gates.len(),
    ensures
        spliced(gates, args, start).len() == gates.len(),
        of_copy(spliced(gates, args, start)[k].0, args, start, (size - 2 - inputs) as nat),
        of_copy(spliced(gates, args, start)[k].1, args, start, (size - 2 - inputs) as nat),
        of_copy(spliced(gates, args, start)[k].2, args, start, (size - 2 - inputs) as nat),
        gates[k].2.0 >= 2 ==> spliced(gates, args, start)[k].2.0 >= start || exists|p: int|
            0 <= p < args.len() && #[trigger] args[p] == spliced(gates, args, start)[k].2
                && written(gates, 2 + p),
{
    lemma_spliced_all(gates, inputs, size, args, start, n);
    let g = gates[k];
    assert(gate_in_range(g, size));
    let inner = (size - 2 - inputs) as nat;
    if g.2.0 >= 2 && g.2.0 - 2 < args.len() {
        let p = g.2.0 - 2;
        assert(args[p] == translate(g.2, args, start));
        assert(written(gates, 2 + p));
    }
    assert forall|w: Wire| w.0 < size implies of_copy(
        #[trigger] translate(w, args, start),
        args,
        start,
        inner,
    ) && (w.0 >= 2 ==> translate(w, args, start).0 >= start || exists|p: int|
        0 <= p < args.len() && #[trigger] args[p] == translate(w, args, start)) by {
        if w.0 >= 2 && w.0 - 2 < args.len() {
            assert(args[w.0 - 2] == translate(w, args, start));
        }
    }
}

/// One tick of the gates of a copy leaves the wires after the fresh wires
/// of the copy as they were.
pub proof fn lemma_copy_beyond(
    gates: Seq<Gate>,
    inputs: nat,
    size: nat,
    args: Seq<Wire>,
    start: nat,
    s: Seq<bool>,
    c: int,
)
    requires
        gates_in_range(gates, size),
        inputs + 2 <= size,
        args.len() == inputs,
        wires_in_range(args, start),
        2 <= start,
        start + size - 2 - inputs <= s.len() <= usize::MAX,
        start + size - 2 - inputs <= c < s.len(),
    ensures
        run(s, spliced(gates, args, start)).len() == s.len(),
        run(s, spliced(gates, args, start))[c] == s[c],
{
    let copy = spliced(gates, args, start);
    let n = s.len();
    assert(wires_in_range(args, n));
    lemma_spliced_in_range(gates, inputs, size, args, start, n);
    lemma_spliced_all(gates, inputs, size, args, start, n);
    crate::combinational::lemma_run_keeps(s, copy);
    if written(copy, c) {
        let k = choose|k: int| 0 <= k < copy.len() && (#[trigger] copy[k]).2.0 == c;
        lemma_spliced_touches(gates, inputs, size, args, start, n, k);
        let w = copy[k].2;
        assert(of_copy(w, args, start, (size - 2 - inputs) as nat));
        if exists|p: int| 0 <= p < args.len() && #[trigger] args[p] == w {
            let p = choose|p: int| 0 <= p < args.len() && #[trigger] args[p] == w;
            assert(args[p].0 < start);
        }
    }
}

/// Whether each circuit of `steps` but the first is the one before it
/// after one more use of the component that `d` describes, between the
/// wires that `args` gives for that use.
pub open spec fn used_in_turn<T: Wiring, D: Description<T>>(
    steps: Seq<Circuit>,
    d: &D,
    args: Seq<Seq<Wire>>,
) -> bool {
    &&& steps.len() == args.len() + 1
    &&& forall|k: int| 0 <= k < args.len() ==> (#[trigger] args[k]).len() == T::width()
    &&& forall|k: int|
        0 <= k < args.len() ==> used::<T, D>(&steps[k], &steps[k + 1], d, #[trigger] args[k])
}

/// However often a component is used in a row, its description is run
/// once at most: where the memo lacked the component, the first use has
/// synthesized it from `d`, on a circuit without gates with one port for
/// each leaf, and every later use leaves the memo as the first use left it
/// and takes the component from there; where the memo had it, every use
/// leaves the memo as it was.
pub proof fn lemma_component_once<T: Wiring, D: Description<T>>(
    steps: Seq<Circuit>,
    d: &D,
    args: Seq<Seq<Wire>>,
    k: int,
)
    requires
        used_in_turn::<T, D>(steps, d, args),
        0 <= k < args.len(),
    ensures
        steps[k + 1].memo == steps[1].memo,
        steps[k + 1].memo.templates.len() == steps[1].memo.templates.len(),
        steps[0].memo.has(d.key(), T::width()) ==> steps[k + 1].memo == steps[0].memo,
        described::<T, D>(&steps[0], &steps[1], d),
        placed(&steps[k], &steps[k + 1], d.key(), args[k]),
        steps[k + 1].memo.template(d.key(), T::width()) == steps[1].memo.template(
            d.key(),
            T::width(),
        ),
{
    assert forall|i: int| 0 <= i < args.len() implies placed(
        &steps[i],
        &steps[i + 1],
        d.key(),
        #[trigger] args[i],
    ) by {
        assert(used::<T, D>(&steps[i], &steps[i + 1], d, args[i]));
    }
    assert(placed_in_turn(steps, d.key(), args, T::width()));
    assert(used::<T, D>(&steps[0], &steps[1], d, args[0]));
    if k >= 1 {
        lemma_component_shared(steps, d.key(), args, T::width(), k);
    }
}

/// The copies of a component that is used in a row are apart: each has as
/// many gates as the component, which read and write constants, the
/// arguments of its use and fresh wires of its own, and those fresh wires
/// come after all the wires that the circuit had and after the fresh wires
/// of every use before.
pub proof fn lemma_component_apart(
    steps: Seq<Circuit>,
    id: u64,
    args: Seq<Seq<Wire>>,
    ports: nat,
    i: int,
    g: int,
)
    requires
        placed_in_turn(steps, id, args, ports),
        0 <= i < args.len(),
        wires_in_range(args[i], steps[i].wires.len() as nat),
        0 <= g < steps[1].memo.template(id, ports).nands.len(),
    ensures
        ({
            let t = steps[1].memo.template(id, ports);
            let start = (steps[1].wires.len() + (i - 1) * t.inner()) as nat;
            let copy = spliced(t.nands@, args[i], start);
            &&& steps[i].wires.len() == start
            &&& steps[0].wires.len() <= start
            &&& steps[i + 1].wires.len() == start + t.inner()
            &&& steps[i + 1].nands@ == steps[i].nands@ + copy
            &&& copy.len() == t.nands.len()
            &&& of_copy(copy[g].0, args[i], start, t.inner())
            &&& of_copy(copy[g].1, args[i], start, t.inner())
            &&& of_copy(copy[g].2, args[i], start, t.inner())
        }),
{
    let t = steps[1].memo.template(id, ports);
    assert(placed(&steps[0], &steps[1], id, args[0]));
    assert(placed(&steps[i], &steps[i + 1], id, args[i]));
    if i >= 1 {
        lemma_component_shared(steps, id, args, ports, i);
        if i > 1 {
            lemma_component_shared(steps, id, args, ports, i - 1);
        }
        assert((i - 1) * t.inner() >= 0) by (nonlinear_arith)
            requires
                i >= 1,
                t.inner() >= 0,
        ;
        assert(i * t.inner() == (i - 1) * t.inner() + t.inner()) by (nonlinear_arith);
    } else {
        assert((0 - 1) * t.inner() == -t.inner()) by (nonlinear_arith);
    }
    let start = (steps[1].wires.len() + (i - 1) * t.inner()) as nat;
    assert(steps[i].wires.len() == start);
    lemma_place_first(steps[1].memo.templates@, id, ports);
    assert(t.wf());
    assert(steps[i + 1].memo.template(id, ports) == t);
    lemma_spliced_touches(
        t.nands@,
        ports,
        t.size as nat,
        args[i],
        start,
        steps[i + 1].wires.len() as nat,
        g,
    );
}

/// Whether `after` is `before` with `k` more wires, which read FALSE.
pub open spec fn allocated(before: &Circuit, after: &Circuit, k: nat) -> bool {
    &&& after.wires@ == before.wires@ + Seq::new(k, |i: int| false)
    &&& after.nands@ == before.nands@
    &&& after.inputs == before.inputs
    &&& after.memo == before.memo
}

/// Whether `after` is `before` with the gates `gates` appended.
pub open spec fn gated(before: &Circuit, after: &Circuit, gates: Seq<Gate>) -> bool {
    &&& after.wires@ == before.wires@
    &&& after.nands@ == before.nands@ + gates
    &&& after.inputs == before.inputs
    &&& after.memo == before.memo
}

/// Whether each circuit of `trail` but the last is taken to the next as
/// `step` says of its place.
pub open spec fn chained(trail: Seq<Circuit>, step: spec_fn(Circuit, Circuit, int) -> bool) -> bool {
    forall|k: int| 0 <= k < trail.len() - 1 ==> step(#[trigger] trail[k], trail[k + 1], k)
}

/// Whether `after` comes from `before` by `n` steps in a row, step `k`
/// taking the circuit before it to the circuit after it as `step` says.
pub open spec fn each(
    before: Circuit,
    after: Circuit,
    n: nat,
    step: spec_fn(Circuit, Circuit, int) -> bool,
) -> bool {
    exists|trail: Seq<Circuit>|
        #![trigger chained(trail, step)]
        trail.len() == n + 1 && trail[0] == before && trail[n as int] == after && chained(
            trail,
            step,
        )
}

/// One more step makes a trail one longer.
pub proof fn lemma_chained_more(
    trail: Seq<Circuit>,
    after: Circuit,
    step: spec_fn(Circuit, Circuit, int) -> bool,
)
    requires
        trail.len() > 0,
        chained(trail, step),
        step(trail.last(), after, trail.len() - 1),
    ensures
        chained(trail.push(after), step),
{
    let more = trail.push(after);
    assert forall|k: int| 0 <= k < more.len() - 1 implies step(
        #[trigger] more[k],
        more[k + 1],
        k,
    ) by {
        if k < trail.len() - 1 {
            assert(more[k] == trail[k]);
            assert(more[k + 1] == trail[k + 1]);
        }
    }
}

/// A circuit with one more copy of a component has grown.
pub proof fn lemma_placed_grown(before: &Circuit, after: &Circuit, id: u64, args: Seq<Wire>)
    requires
        placed(before, after, id, args),
    ensures
        after.grown_from(before),
{
    let t = after.memo.template(id, args.len());
    let added = spliced(t.nands@, args, before.wires.len() as nat);
    assert forall|k: int| 0 <= k < before.nands.len() implies (#[trigger] after.nands[k])
        == before.nands[k] by {
        assert(after.nands@[k] == (before.nands@ + added)[k]);
    }
    assert forall|i: int| 0 <= i < after.wires.len() implies (#[trigger] after.wires[i]) == (if i
        < before.wires.len() {
        before.wires[i]
    } else {
        false
    }) by {
        assert(after.wires@[i] == (before.wires@ + Seq::new(t.inner(), |i: int| false))[i]);
    }
}

/// Whether the template `t` is the component that `d` describes, made
/// while the memo was `memo`: `c0` is a circuit without gates, with that
/// memo and a port for each leaf of `T`; `c1` is what `d` builds on it
/// between those ports; `c2` is `c1` optimized; and `t` has the key of `d`
/// and the size and the gates of `c2`.
pub open spec fn synthesized<T: Wiring, D: Description<T>>(
    d: &D,
    memo: &Memo,
    c0: &Circuit,
    c1: &Circuit,
    c2: &Circuit,
    ports: T,
    t: &Template,
) -> bool {
    &&& c0.inputs == T::width()
    &&& c0.wires@ == Seq::new((T::width() + 2) as nat, |i: int| i == 1)
    &&& c0.nands@ == Seq::<Gate>::empty()
    &&& c0.memo == *memo
    &&& ports.leaves() == consecutive(2, T::width())
    &&& d.built(c0, c1, ports)
    &&& optimized(c1, c2)
    &&& t.id == d.key()
    &&& t.inputs == T::width()
    &&& t.size == c2.wires.len()
    &&& t.nands == c2.nands
}

/// Whether, where the memo of `before` lacks the component that `d`
/// describes, the memo of `after` is the memo that the synthesis from `d`
/// left, with the component that was synthesized put after the components
/// that were synthesized on the way, unless one of those has its key
/// already: no key is ever in the memo twice.
pub open spec fn described<T: Wiring, D: Description<T>>(
    before: &Circuit,
    after: &Circuit,
    d: &D,
) -> bool {
    !before.memo.has(d.key(), T::width()) ==> exists|
        c0: Circuit,
        c1: Circuit,
        c2: Circuit,
        ports: T,
        t: Template,
    |
        #[trigger] synthesized(d, &before.memo, &c0, &c1, &c2, ports, &t)
            && after.memo.templates@ == (if c1.memo.has(d.key(), T::width()) {
            c1.memo.templates@
        } else {
            c1.memo.templates@.push(t)
        })
}

/// Whether `after` is `before` after one use of the component that `d`
/// describes, between the wires `args`.
pub open spec fn used<T: Wiring, D: Description<T>>(
    before: &Circuit,
    after: &Circuit,
    d: &D,
    args: Seq<Wire>,
) -> bool {
    placed(before, after, d.key(), args) && described::<T, D>(before, after, d)
}

impl Circuit {
    /// Uses the component that `d` describes between the wires `wiring`.
    /// The first use of a key synthesizes the component: the description is
    /// run on an empty circuit with one port for each leaf, and the result
    /// is optimized and put in the memo. Every use appends a copy of the
    /// component: fresh wires for those that are neither constants nor
    /// ports, and the gates with their wires translated.
    #[verifier::rlimit(100)]
    pub fn component<T: Wiring, D: Description<T>>(&mut self, wiring: T, d: D)
        requires
            old(self).wf(),
            T::width() + 2 <= usize::MAX,
            d.ready(),
        ensures
            placed(old(self), final(self), d.key(), wiring.leaves()),
            described::<T, D>(old(self), final(self), &d),
    {
        let n = T::size();
        let key = d.id();
        let at: usize = match self.memo.find(key, n) {
            Some(i) => i,
            None => {
                let mut sub = Circuit::new(n);
                core::mem::swap(&mut self.memo, &mut sub.memo);
                let input: T = ports();
                let ghost c0 = sub;
                d.build(&mut sub, input);
                let ghost c1 = sub;
                sub.optimize();
                let ghost c2 = sub;
                core::mem::swap(&mut self.memo, &mut sub.memo);
                let ghost grown = self.memo;
                match self.memo.find(key, n) {
                    Some(i) => {
                        proof {
                            let t = Template {
                                id: key,
                                inputs: n,
                                size: sub.wires.len(),
                                nands: sub.nands,
                            };
                            assert(synthesized(&d, &old(self).memo, &c0, &c1, &c2, input, &t));
                        }
                        i
                    },
                    None => {
                        let t = Template {
                            id: key,
                            inputs: n,
                            size: sub.wires.len(),
                            nands: sub.nands,
                        };
                        let ghost made = t;
                        proof {
                            assert(synthesized(&d, &old(self).memo, &c0, &c1, &c2, input, &t));
                        }
                        self.memo.put(t);
                        proof {
                            assert(self.memo.templates@ == c1.memo.templates@.push(made));
                            let i = grown.templates.len() as int;
                            assert(self.memo.templates@[i] == made);
                            assert(keyed(self.memo.templates@, i, key, n as nat));
                            assert forall|j: int| 0 <= j < i implies !keyed(
                                self.memo.templates@,
                                j,
                                key,
                                n as nat,
                            ) by {
                                assert(self.memo.templates[j] == grown.templates[j]);
                                assert(!keyed(grown.templates@, j, key, n as nat));
                            }
                            lemma_place(self.memo.templates@, key, n as nat, i);
                        }
                        self.memo.templates.len() - 1
                    },
                }
            },
        };
        let ghost t = self.memo.template(key, n as nat);
        proof {
            assert(self.memo.has(key, n as nat));
            lemma_place_first(self.memo.templates@, key, n as nat);
            assert(at < self.memo.templates.len());
            assert(t == self.memo.templates[at as int]);
            assert(t.wf());
            assert(t.inputs == n);
        }
        let args = leaves_of(wiring);
        proof {
            wiring.lemma_leaves_len();
        }
        let start = self.wires.len();
        let inner = self.memo.templates[at].size - 2 - n;
        let mut i: usize = 0;
        while i < inner
            invariant
                i <= inner,
                self.inputs == old(self).inputs,
                self.nands == old(self).nands,
                described::<T, D>(old(self), self, &d),
                at < self.memo.templates.len(),
                inner == t.inner(),
                self.memo.templates[at as int] == t,
                self.memo.wf(),
                self.memo.extends(&old(self).memo),
                self.memo.has(key, n as nat),
                t == self.memo.template(key, n as nat),
                old(self).memo.has(key, n as nat) ==> self.memo == old(self).memo,
                start == old(self).wires.len(),
                self.wires.len() == start + i,
                forall|x: int| 0 <= x < start ==> self.wires[x] == old(self).wires[x],
                forall|x: int| start <= x < self.wires.len() ==> self.wires[x] == false,
            decreases inner - i,
        {
            self.wires.push(false);
            i += 1;
        }
        assert(self.wires@ =~= old(self).wires@ + Seq::new(t.inner(), |i: int| false));
        let count = self.memo.templates[at].nands.len();
        let mut k: usize = 0;
        assert(spliced(t.nands@.take(0), args@, start as nat) =~= Seq::<Gate>::empty());
        while k < count
            invariant
                k <= count,
                count == t.nands.len(),
                described::<T, D>(old(self), self, &d),
                at < self.memo.templates.len(),
                self.memo.templates[at as int] == t,
                t.wf(),
                t.inputs == n,
                args.len() == n,
                self.inputs == old(self).inputs,
                self.memo.wf(),
                self.memo.extends(&old(self).memo),
                self.memo.has(key, n as nat),
                t == self.memo.template(key, n as nat),
                old(self).memo.has(key, n as nat) ==> self.memo == old(self).memo,
                self.wires@ == old(self).wires@ + Seq::new(t.inner(), |i: int| false),
                self.wires.len() == start + t.inner(),
                start == old(self).wires.len(),
                self.nands@ == old(self).nands@ + spliced(
                    t.nands@.take(k as int),
                    args@,
                    start as nat,
                ),
            decreases count - k,
        {
            let g = self.memo.templates[at].nands[k];
            proof {
                assert(gate_in_range(t.nands@[k as int], t.size as nat));
                assert(t.nands@.take(k + 1).drop_last() =~= t.nands@.take(k as int));
                assert(t.nands@.take(k + 1).last() == g);
            }
            let a = pick(g.0, &args, start);
            let b = pick(g.1, &args, start);
            let o = pick(g.2, &args, start);
            if !o.is_void() {
                self.nands.push((a, b, o));
            }
            k += 1;
        }
        proof {
            assert(t.nands@.take(k as int) =~= t.nands@);
            if old(self).closed() && wires_in_range(wiring.leaves(), old(self).wires.len() as nat) {
                lemma_spliced_in_range(
                    t.nands@,
                    t.inputs as nat,
                    t.size as nat,
                    args@,
                    start as nat,
                    self.wires.len() as nat,
                );
                let added = spliced(t.nands@, args@, start as nat);
                assert forall|j: int| 0 <= j < self.nands.len() implies gate_in_range(
                    #[trigger] self.nands@[j],
                    self.wires.len() as nat,
                ) by {
                    if j < old(self).nands.len() {
                        assert(self.nands@[j] == old(self).nands@[j]);
                        assert(gate_in_range(old(self).nands@[j], old(self).wires.len() as nat));
                    } else {
                        assert(self.nands@[j] == added[j - old(self).nands.len()]);
                    }
                }
            }
        }
    }
}

/// The wire of the circuit that stands for the wire `w` of a component.
fn pick(w: Wire, args: &Vec<Wire>, start: usize) -> (r: Wire)
    requires
        w.0 < 2 || w.0 - 2 < args.len() || start + w.0 - 2 - args.len() <= usize::MAX,
    ensures
        r == translate(w, args@, start as nat),
{
    if w.0 < 2 {
        w
    } else if w.0 - 2 < args.len() {
        args[w.0 - 2]
    } else {
        Wire(start + (w.0 - 2 - args.len()))
    }
}

} // verus!
