//! The multiplexer.

use vstd::prelude::*;
use crate::bundle::{leaves_of, Bundle, Wiring};
use crate::circuit::{
    consecutive, fire, gate_in_range, lemma_pair_in_range, run, wires_in_range, Circuit, Gate,
};
use crate::memo::{spliced, Memo, Template};
use crate::combinational::{
    combinational, fresh, lemma_concat_combinational, lemma_run_concat, written,
};
use crate::component::{
    allocated, chained, described, each, entered, lemma_chained_more, lemma_copy_again,
    lemma_placed_grown, lively, placed, synthesized, used, Description,
};
use crate::components::not::{lemma_not_one, Not, NOT};
use crate::wire::Wire;

verus! {

/// The key of the multiplexer.
pub const SELECT: u64 = 3;

/// The multiplexer: `o` is `d0` where `s` is FALSE and `d1` where it is
/// TRUE.
pub struct Select;

/// The multiplexer of one place: two fresh wires and three gates, which
/// pass `d0` where the negated selector `ns` is TRUE and `d1` where the
/// selector `s` is.
pub open spec fn select_leaf(
    before: &Circuit,
    after: &Circuit,
    ns: Wire,
    s: Wire,
    d0: Wire,
    d1: Wire,
    o: Wire,
) -> bool {
    let x0 = Wire(before.wires.len());
    let x1 = Wire((before.wires.len() + 1) as usize);
    &&& after.wires@ == before.wires@ + seq![false, false]
    &&& after.nands@ == before.nands@ + seq![(ns, d0, x0), (s, d1, x1), (x0, x1, o)]
    &&& after.inputs == before.inputs
    &&& after.memo == before.memo
}

/// The multiplexer of each place of three bundles.
pub open spec fn select_leaves(
    ns: Wire,
    s: Wire,
    d0: Seq<Wire>,
    d1: Seq<Wire>,
    o: Seq<Wire>,
) -> spec_fn(Circuit, Circuit, int) -> bool {
    |before: Circuit, after: Circuit, k: int|
        select_leaf(&before, &after, ns, s, d0[k], d1[k], o[k])
}

/// Whether `after` is `before` with a multiplexer built between the wires
/// `wiring`, by way of `m1` and `m2`: a fresh wire, a copy of the negation
/// from the selector to it, and the places one after the other.
pub open spec fn selected<T: Wiring>(
    before: &Circuit,
    m1: &Circuit,
    m2: &Circuit,
    after: &Circuit,
    wiring: (Wire, T, T, T),
) -> bool {
    let s = wiring.0;
    let ns = Wire(before.wires.len());
    allocated(before, m1, 1) && used::<(Wire, Wire), Not>(m1, m2, &Not, seq![s, ns]) && each(
        *m2,
        *after,
        T::width(),
        select_leaves(ns, s, wiring.1.leaves(), wiring.2.leaves(), wiring.3.leaves()),
    )
}

impl<T: Wiring> Description<(Wire, T, T, T)> for Select {
    open spec fn key(&self) -> u64 {
        SELECT
    }

    open spec fn ready(&self) -> bool {
        true
    }

    open spec fn built(&self, before: &Circuit, after: &Circuit, wiring: (Wire, T, T, T)) -> bool {
        exists|m1: Circuit, m2: Circuit| #[trigger] selected(before, &m1, &m2, after, wiring)
    }

    fn id(&self) -> (k: u64) {
        SELECT
    }

    fn build(&self, circuit: &mut Circuit, wiring: (Wire, T, T, T)) {
        let (s, d0, d1, o) = wiring;
        proof {
            d0.lemma_leaves_len();
            d1.lemma_leaves_len();
            o.lemma_leaves_len();
        }
        let ghost n = circuit.wires.len() as nat;
        let ghost all = s.leaves() + d0.leaves() + d1.leaves() + o.leaves();
        let v0 = leaves_of(d0);
        let v1 = leaves_of(d1);
        let vo = leaves_of(o);
        proof {
            assert(all[0] == s);
            assert forall|i: int| 0 <= i < v0.len() implies (#[trigger] v0@[i]).0 < n by {
                assert(all[1 + i] == v0@[i]);
            }
            assert forall|i: int| 0 <= i < v1.len() implies (#[trigger] v1@[i]).0 < n by {
                assert(all[1 + v0.len() + i] == v1@[i]);
            }
            assert forall|i: int| 0 <= i < vo.len() implies (#[trigger] vo@[i]).0 < n by {
                assert(all[1 + v0.len() + v1.len() + i] == vo@[i]);
            }
        }
        let ns = circuit.allocate();
        let ghost m1 = *circuit;
        proof {
            lemma_pair_in_range(s, ns, circuit.wires.len() as nat);
        }
        circuit.not(s, ns);
        let ghost m2 = *circuit;
        let ghost steps = select_leaves(ns, s, v0@, v1@, vo@);
        let ghost mut trail = seq![*circuit];
        let mut i: usize = 0;
        while i < vo.len()
            invariant
                steps == select_leaves(ns, s, v0@, v1@, vo@),
                trail.len() == i + 1,
                trail[0] == m2,
                trail[i as int] == *circuit,
                chained(trail, steps),
                i <= vo.len(),
                v0.len() == vo.len(),
                v1.len() == vo.len(),
                n == old(circuit).wires.len(),
                circuit.grown_from(old(circuit)),
                circuit.closed(),
                s.0 < n,
                ns.0 < circuit.wires.len(),
                wires_in_range(v0@, n),
                wires_in_range(v1@, n),
                wires_in_range(vo@, n),
            decreases vo.len() - i,
        {
            let ghost m0 = *circuit;
            let x0 = circuit.allocate();
            let x1 = circuit.allocate();
            circuit.gate(ns, v0[i], x0);
            circuit.gate(s, v1[i], x1);
            circuit.gate(x0, x1, vo[i]);
            proof {
                assert(circuit.wires@ =~= m0.wires@ + seq![false, false]);
                assert(circuit.nands@ =~= m0.nands@ + seq![
                    (ns, v0@[i as int], x0),
                    (s, v1@[i as int], x1),
                    (x0, x1, vo@[i as int]),
                ]);
                assert(steps(m0, *circuit, i as int));
                lemma_chained_more(trail, *circuit, steps);
                trail = trail.push(*circuit);
            }
            i += 1;
        }
        proof {
            assert(m1.wires@ =~= old(circuit).wires@ + Seq::new(1, |i: int| false));
            assert(s.leaves() + ns.leaves() =~= seq![s, ns]);
            assert(each(m2, *circuit, T::width(), steps));
            assert(selected::<T>(old(circuit), &m1, &m2, circuit, wiring));
        }
    }
}

impl Circuit {
    /// Appends a copy of the multiplexer between `s`, `d0`, `d1` and `o`.
    pub fn select<T: Wiring>(&mut self, s: Wire, d0: T, d1: T, o: T)
        requires
            old(self).wf(),
            1 + T::width() + T::width() + T::width() + 2 <= usize::MAX,
        ensures
            placed(
                old(self),
                final(self),
                SELECT,
                s.leaves() + d0.leaves() + d1.leaves() + o.leaves(),
            ),
            described::<(Wire, T, T, T), Select>(old(self), final(self), &Select),
            final(self).grown_from(old(self)),
            old(self).closed() && wires_in_range(
                s.leaves() + d0.leaves() + d1.leaves() + o.leaves(),
                old(self).wires.len() as nat,
            ) ==> final(self).closed(),
    {
        self.component((s, d0, d1, o), Select);
        proof {
            lemma_placed_grown(
                old(self),
                self,
                SELECT,
                s.leaves() + d0.leaves() + d1.leaves() + o.leaves(),
            );
        }
    }
}

/// The three gates of place `k` of a multiplexer over bundles of `w`
/// leaves, as its description builds them on a circuit without gates: the
/// selector is the first port, the two data bundles and the output follow,
/// then the negated selector and two wires for each place.
pub open spec fn select_part(w: nat, k: nat) -> Seq<Gate> {
    let ns = Wire((3 * w + 3) as usize);
    let x0 = Wire((3 * w + 4 + 2 * k) as usize);
    let x1 = Wire((3 * w + 5 + 2 * k) as usize);
    seq![
        (ns, Wire((3 + k) as usize), x0),
        (Wire(2), Wire((3 + w + k) as usize), x1),
        (x0, x1, Wire((3 + 2 * w + k) as usize)),
    ]
}

/// The gates of a multiplexer up to place `j`: the negation of the
/// selector, and three gates for each place before `j`.
pub open spec fn select_gates(w: nat, j: nat) -> Seq<Gate>
    decreases j,
{
    if j == 0 {
        seq![(Wire(2), Wire(2), Wire((3 * w + 3) as usize))]
    } else {
        select_gates(w, (j - 1) as nat) + select_part(w, (j - 1) as nat)
    }
}

/// One tick of three gates fires them one after the other.
pub proof fn lemma_run_three(s: Seq<bool>, gates: Seq<Gate>)
    requires
        gates.len() == 3,
    ensures
        run(s, gates) == fire(fire(fire(s, gates[0]), gates[1]), gates[2]),
{
    let two = gates.drop_last();
    let one = two.drop_last();
    assert(one.drop_last() =~= Seq::<Gate>::empty());
    assert(gates.last() == gates[2] && two.last() == gates[1] && one.last() == gates[0]);
    assert(run(s, one) == fire(run(s, one.drop_last()), one.last()));
    assert(run(s, two) == fire(run(s, one), two.last()));
}

/// The gates of a multiplexer up to place `j` are one and three for each
/// place, read and write wires of its store, write neither a constant nor
/// an input port, and make a combinational netlist; the output of a place
/// has a gate once the place is done.
pub proof fn lemma_select_gates(w: nat, j: nat)
    requires
        j <= w,
        5 * w + 4 <= usize::MAX,
    ensures
        select_gates(w, j).len() == 1 + 3 * j,
        combinational(select_gates(w, j), 5 * w + 4),
        forall|i: int|
            0 <= i < select_gates(w, j).len() ==> {
                let g = #[trigger] select_gates(w, j)[i];
                &&& g.2.0 >= 3 + 2 * w
                &&& g.2.0 < 3 * w + 4 + 2 * j
                &&& 3 * w + 3 > g.2.0 ==> g.2.0 < 3 + 2 * w + j
                &&& g.0.0 < 3 * w + 4 + 2 * j
                &&& g.1.0 < 3 * w + 4 + 2 * j
                &&& 3 * w + 3 > g.0.0 ==> g.0.0 < 3 + 2 * w
                &&& 3 * w + 3 > g.1.0 ==> g.1.0 < 3 + 2 * w
            },
        forall|k: int| 0 <= k < j ==> #[trigger] written(select_gates(w, j), 3 + 2 * w + k),
    decreases j,
{
    let size = 5 * w + 4;
    if j == 0 {
        let g = (Wire(2), Wire(2), Wire((3 * w + 3) as usize));
        let base = select_gates(w, 0);
        assert(base =~= seq![g]);
        assert(base[0] == g);
        assert(gate_in_range(g, size));
    } else {
        let k = (j - 1) as nat;
        lemma_select_gates(w, k);
        let first = select_gates(w, k);
        let second = select_part(w, k);
        let all = select_gates(w, j);
        assert(all == first + second);
        let ns = Wire((3 * w + 3) as usize);
        let x0 = Wire((3 * w + 4 + 2 * k) as usize);
        let x1 = Wire((3 * w + 5 + 2 * k) as usize);
        let o = Wire((3 + 2 * w + k) as usize);
        assert(second[0] == (ns, Wire((3 + k) as usize), x0));
        assert(second[1] == (Wire(2), Wire((3 + w + k) as usize), x1));
        assert(second[2] == (x0, x1, o));
        assert(combinational(second, size)) by {
            assert forall|i: int| 0 <= i < second.len() implies gate_in_range(
                #[trigger] second[i],
                size,
            ) && second[i].2.0 >= 2 by {
                if i == 0 {
                } else if i == 1 {
                } else {
                    assert(i == 2);
                }
            }
        }
        lemma_concat_combinational(first, second, size);
        assert forall|i: int| 0 <= i < all.len() implies {
            let g = #[trigger] all[i];
            &&& g.2.0 >= 3 + 2 * w
            &&& g.2.0 < 3 * w + 4 + 2 * j
            &&& 3 * w + 3 > g.2.0 ==> g.2.0 < 3 + 2 * w + j
            &&& g.0.0 < 3 * w + 4 + 2 * j
            &&& g.1.0 < 3 * w + 4 + 2 * j
            &&& 3 * w + 3 > g.0.0 ==> g.0.0 < 3 + 2 * w
            &&& 3 * w + 3 > g.1.0 ==> g.1.0 < 3 + 2 * w
        } by {
            if i < first.len() {
                assert(all[i] == first[i]);
            } else {
                assert(all[i] == second[i - first.len()]);
            }
        }
        assert forall|q: int| 0 <= q < j implies #[trigger] written(all, 3 + 2 * w + q) by {
            if q < k {
                assert(written(first, 3 + 2 * w + q));
                let i = choose|i: int|
                    0 <= i < first.len() && (#[trigger] first[i]).2.0 == 3 + 2 * w + q;
                assert(all[i] == first[i]);
            } else {
                assert(all[first.len() as int + 2] == second[2]);
            }
        }
    }
}

/// What a multiplexer over bundles of `w` leaves passes at place `k` from
/// the store `e` of its ports: the second data input of the place where
/// the selector is TRUE and the first where it is FALSE.
pub open spec fn chosen(e: Seq<bool>, w: nat, k: int) -> bool {
    if e[2] {
        e[3 + w + k]
    } else {
        e[3 + k]
    }
}

/// One tick of the gates of a multiplexer up to place `j` leaves the
/// input ports as they were and, on the output of each place before `j`,
/// the second data input of the place where the selector is TRUE and the
/// first where it is FALSE.
pub proof fn lemma_select_runs(w: nat, j: nat, e: Seq<bool>)
    requires
        j <= w,
        5 * w + 4 <= usize::MAX,
        e.len() == 5 * w + 4,
    ensures
        run(e, select_gates(w, j)).len() == e.len(),
        run(e, select_gates(w, j))[3 * w as int + 3] == !e[2],
        forall|q: int| 0 <= q < 3 + 2 * w ==> run(e, select_gates(w, j))[q] == e[q],
        forall|k: int|
            0 <= k < j ==> run(e, select_gates(w, j))[3 + 2 * w + k] == #[trigger] chosen(e, w, k),
    decreases j,
{
    if j == 0 {
        let g = (Wire(2), Wire(2), Wire((3 * w + 3) as usize));
        let base = select_gates(w, 0);
        assert(base =~= seq![g]);
        assert(base.drop_last() =~= Seq::<Gate>::empty());
        assert(base.last() == g);
        assert(run(e, base) == fire(run(e, base.drop_last()), g));
    } else {
        let k = (j - 1) as nat;
        lemma_select_runs(w, k, e);
        let first = select_gates(w, k);
        let second = select_part(w, k);
        lemma_run_concat(e, first, second);
        let v = run(e, first);
        lemma_run_three(v, second);
    }
}

/// One place more of a multiplexer: the circuit after it has the gates of
/// the multiplexer up to the next place, and two wires more.
pub proof fn lemma_select_place(
    before: &Circuit,
    after: &Circuit,
    ns: Wire,
    s: Wire,
    d0: Wire,
    d1: Wire,
    o: Wire,
    w: nat,
    k: nat,
)
    requires
        select_leaf(before, after, ns, s, d0, d1, o),
        before.nands@ == select_gates(w, k),
        before.wires.len() == 3 * w + 4 + 2 * k,
        ns == Wire((3 * w + 3) as usize),
        s == Wire(2),
        d0 == Wire((3 + k) as usize),
        d1 == Wire((3 + w + k) as usize),
        o == Wire((3 + 2 * w + k) as usize),
    ensures
        after.nands@ == select_gates(w, k + 1),
        after.wires.len() == 3 * w + 4 + 2 * (k + 1),
{
    assert(after.wires@.len() == before.wires@.len() + 2);
    let x0 = Wire(before.wires.len());
    let x1 = Wire((before.wires.len() + 1) as usize);
    let three = seq![(ns, d0, x0), (s, d1, x1), (x0, x1, o)];
    let part = select_part(w, k);
    assert(x0 == Wire((3 * w + 4 + 2 * k) as usize));
    assert(x1 == Wire((3 * w + 5 + 2 * k) as usize));
    assert(three =~= part);
    assert(select_gates(w, k + 1) == select_gates(w, k) + part);
}

/// The circuits on the way through the places of a multiplexer have the
/// gates of the multiplexer up to their place, two wires more for each
/// place, and the memo and the inputs that the first had.
pub proof fn lemma_select_trail(
    trail: Seq<Circuit>,
    ns: Wire,
    s: Wire,
    d0: Seq<Wire>,
    d1: Seq<Wire>,
    o: Seq<Wire>,
    w: nat,
    j: int,
)
    requires
        chained(trail, select_leaves(ns, s, d0, d1, o)),
        0 <= j < trail.len(),
        j <= w,
        trail[0].nands@ == select_gates(w, 0),
        trail[0].wires.len() == 3 * w + 4,
        ns == Wire((3 * w + 3) as usize),
        s == Wire(2),
        forall|k: int| 0 <= k < w ==> (#[trigger] d0[k]) == Wire((3 + k) as usize),
        forall|k: int| 0 <= k < w ==> (#[trigger] d1[k]) == Wire((3 + w + k) as usize),
        forall|k: int| 0 <= k < w ==> (#[trigger] o[k]) == Wire((3 + 2 * w + k) as usize),
    ensures
        trail[j].nands@ == select_gates(w, j as nat),
        trail[j].wires.len() == 3 * w + 4 + 2 * j,
        trail[j].inputs == trail[0].inputs,
    decreases j,
{
    if j > 0 {
        lemma_select_trail(trail, ns, s, d0, d1, o, w, j - 1);
        let k = j - 1;
        let before = trail[k];
        let after = trail[k + 1];
        assert(select_leaves(ns, s, d0, d1, o)(before, after, k));
        lemma_select_place(&before, &after, ns, s, d0[k], d1[k], o[k], w, k as nat);
    }
}

/// The ports of a multiplexer that is built on a circuit without gates:
/// the selector, then the leaves of the two data bundles and of the
/// output.
pub proof fn lemma_select_ports<T: Wiring>(ports: (Wire, T, T, T))
    requires
        ports.leaves() == consecutive(2, 1 + 3 * T::width()),
    ensures
        ports.0 == Wire(2),
        ports.1.leaves().len() == T::width(),
        ports.2.leaves().len() == T::width(),
        ports.3.leaves().len() == T::width(),
        forall|k: int|
            0 <= k < T::width() ==> (#[trigger] ports.1.leaves()[k]) == Wire((3 + k) as usize),
        forall|k: int|
            0 <= k < T::width() ==> (#[trigger] ports.2.leaves()[k]) == Wire(
                (3 + T::width() + k) as usize,
            ),
        forall|k: int|
            0 <= k < T::width() ==> (#[trigger] ports.3.leaves()[k]) == Wire(
                (3 + 2 * T::width() + k) as usize,
            ),
{
    let w = T::width();
    let (s, a, b, o) = ports;
    a.lemma_leaves_len();
    b.lemma_leaves_len();
    o.lemma_leaves_len();
    let d0 = a.leaves();
    let d1 = b.leaves();
    let out = o.leaves();
    let all = ports.leaves();
    assert(all == s.leaves() + d0 + d1 + out);
    assert(all[0] == s);
    assert forall|k: int| 0 <= k < w implies (#[trigger] d0[k]) == Wire((3 + k) as usize) by {
        assert(all[1 + k] == d0[k]);
    }
    assert forall|k: int| 0 <= k < w implies (#[trigger] d1[k]) == Wire((3 + w + k) as usize) by {
        assert(all[1 + w + k] == d1[k]);
    }
    assert forall|k: int| 0 <= k < w implies (#[trigger] out[k]) == Wire(
        (3 + 2 * w + k) as usize,
    ) by {
        assert(all[1 + 2 * w + k] == out[k]);
    }
}

/// The multiplexer from its parts: a wire more, a copy of the negation
/// of the selector, and the places one after the other make the gates of
/// the multiplexer.
pub proof fn lemma_select_parts(
    c0: &Circuit,
    m1: &Circuit,
    m2: &Circuit,
    c1: &Circuit,
    trail: Seq<Circuit>,
    d0: Seq<Wire>,
    d1: Seq<Wire>,
    o: Seq<Wire>,
    w: nat,
    ne: &Memo,
    n0: &Circuit,
    n1: &Circuit,
    n2: &Circuit,
    nports: (Wire, Wire),
)
    requires
        c0.wires.len() == 3 * w + 3,
        c0.nands@ == Seq::<Gate>::empty(),
        allocated(c0, m1, 1),
        placed(m1, m2, NOT, seq![Wire(2), Wire(c0.wires.len())]),
        synthesized::<(Wire, Wire), Not>(&Not, ne, n0, n1, n2, nports, &c1.memo.template(NOT, 2)),
        trail.len() == w + 1,
        trail[0] == *m2,
        trail[w as int] == *c1,
        chained(trail, select_leaves(Wire(c0.wires.len()), Wire(2), d0, d1, o)),
        forall|k: int| 0 <= k < w ==> (#[trigger] d0[k]) == Wire((3 + k) as usize),
        forall|k: int| 0 <= k < w ==> (#[trigger] d1[k]) == Wire((3 + w + k) as usize),
        forall|k: int| 0 <= k < w ==> (#[trigger] o[k]) == Wire((3 + 2 * w + k) as usize),
    ensures
        5 * w + 4 <= usize::MAX,
        c1.inputs == c0.inputs,
        c1.wires.len() == 5 * w + 4,
        c1.nands@ == select_gates(w, w),
{
    let s = Wire(2);
    let ns = Wire(c0.wires.len());
    let steps = select_leaves(ns, s, d0, d1, o);
    assert(m1.wires@.len() == 3 * w + 4);
    assert(m1.nands@ =~= Seq::<Gate>::empty());
    lemma_select_memo(trail, steps, ns, s, d0, d1, o, w as int);
    lemma_not_one(m1, m2, s, ns, ne, n0, n1, n2, nports);
    assert(m2.wires@.len() == 3 * w + 4);
    assert(m2.nands@ =~= select_gates(w, 0));
    lemma_select_trail(trail, ns, s, d0, d1, o, w, w as int);
}

/// What the description of the multiplexer builds on a circuit without
/// gates. Where the negation in the memo of `c1` was made from its
/// description, `c1` has the wires and the gates of the multiplexer.
pub proof fn lemma_select_building<T: Wiring>(
    c0: &Circuit,
    c1: &Circuit,
    ports: (Wire, T, T, T),
    ne: &Memo,
    n0: &Circuit,
    n1: &Circuit,
    n2: &Circuit,
    nports: (Wire, Wire),
)
    requires
        c0.inputs == 3 * T::width() + 1,
        c0.wires.len() == 3 * T::width() + 3,
        c0.nands@ == Seq::<Gate>::empty(),
        ports.leaves() == consecutive(2, 1 + 3 * T::width()),
        Select.built(c0, c1, ports),
        synthesized::<(Wire, Wire), Not>(&Not, ne, n0, n1, n2, nports, &c1.memo.template(NOT, 2)),
    ensures
        5 * T::width() + 4 <= usize::MAX,
        c1.inputs == 3 * T::width() + 1,
        c1.wires.len() == 5 * T::width() + 4,
        c1.nands@ == select_gates(T::width(), T::width()),
{
    let w = T::width();
    lemma_select_ports::<T>(ports);
    let d0 = ports.1.leaves();
    let d1 = ports.2.leaves();
    let out = ports.3.leaves();
    let s = ports.0;
    let ns = Wire(c0.wires.len());
    let (m1, m2) = choose|m1: Circuit, m2: Circuit| #[trigger]
        selected::<T>(c0, &m1, &m2, c1, ports);
    let steps = select_leaves(ns, s, d0, d1, out);
    let trail = choose|trail: Seq<Circuit>|
        #![trigger chained(trail, steps)]
        trail.len() == w + 1 && trail[0] == m2 && trail[w as int] == *c1 && chained(trail, steps);
    lemma_select_parts(c0, &m1, &m2, c1, trail, d0, d1, out, w, ne, n0, n1, n2, nports);
}

/// What the description of the multiplexer builds. Where the negation in
/// the memo of `c1` was made from its description, `c1` has one port for
/// the selector and one for each leaf of the two data bundles and of the
/// output, one wire for the negated selector and two for each place, and
/// the gates of the multiplexer.
pub proof fn lemma_select_shape<T: Wiring>(
    t: &Template,
    earlier: &Memo,
    c0: &Circuit,
    c1: &Circuit,
    c2: &Circuit,
    ports: (Wire, T, T, T),
    ne: &Memo,
    n0: &Circuit,
    n1: &Circuit,
    n2: &Circuit,
    nports: (Wire, Wire),
)
    requires
        synthesized::<(Wire, T, T, T), Select>(&Select, earlier, c0, c1, c2, ports, t),
        synthesized::<(Wire, Wire), Not>(&Not, ne, n0, n1, n2, nports, &c1.memo.template(NOT, 2)),
    ensures
        5 * T::width() + 4 <= usize::MAX,
        c1.inputs == 3 * T::width() + 1,
        c1.wires.len() == 5 * T::width() + 4,
        c1.nands@ == select_gates(T::width(), T::width()),
{
    assert(c0.wires@.len() == 3 * T::width() + 3);
    lemma_select_building::<T>(c0, c1, ports, ne, n0, n1, n2, nports);
}

/// The memo stays as it is through the places of a multiplexer.
pub proof fn lemma_select_memo(
    trail: Seq<Circuit>,
    steps: spec_fn(Circuit, Circuit, int) -> bool,
    ns: Wire,
    s: Wire,
    d0: Seq<Wire>,
    d1: Seq<Wire>,
    o: Seq<Wire>,
    j: int,
)
    requires
        steps == select_leaves(ns, s, d0, d1, o),
        chained(trail, steps),
        0 <= j < trail.len(),
    ensures
        trail[j].memo == trail[0].memo,
    decreases j,
{
    if j > 0 {
        lemma_select_memo(trail, steps, ns, s, d0, d1, o, j - 1);
        assert(steps(trail[j - 1], trail[j], j - 1));
    }
}

/// The gates of a copy of the multiplexer choose. Where the multiplexer `t`
/// and the negation that it uses were made from their descriptions, the
/// arguments are wires that the circuit had, each output no constant and
/// the argument of no other port, and the fresh wires of the copy that none
/// of its gates writes read FALSE, as they do at every tick, one tick of
/// the gates of the copy leaves on the output of each place the second data
/// input of the place where the selector is TRUE and the first where it is
/// FALSE, and leaves every other wire that the circuit had as it was. The
/// selector and the data may be constants, or the same wires.
pub proof fn lemma_select_copy<T: Wiring>(
    t: &Template,
    earlier: &Memo,
    c0: &Circuit,
    c1: &Circuit,
    c2: &Circuit,
    ports: (Wire, T, T, T),
    ne: &Memo,
    n0: &Circuit,
    n1: &Circuit,
    n2: &Circuit,
    nports: (Wire, Wire),
    args: Seq<Wire>,
    start: nat,
    s: Seq<bool>,
)
    requires
        synthesized::<(Wire, T, T, T), Select>(&Select, earlier, c0, c1, c2, ports, t),
        synthesized::<(Wire, Wire), Not>(&Not, ne, n0, n1, n2, nports, &c1.memo.template(NOT, 2)),
        args.len() == 3 * T::width() + 1,
        2 <= start,
        forall|p: int| 0 <= p < args.len() ==> (#[trigger] args[p]).0 < start,
        forall|p: int| 1 + 2 * T::width() <= p < args.len() ==> (#[trigger] args[p]).0 >= 2,
        forall|p: int, q: int|
            1 + 2 * T::width() <= p < args.len() && 0 <= q < args.len() && p != q ==> (
            #[trigger] args[p]) != (#[trigger] args[q]),
        start + t.inner() <= s.len() <= usize::MAX,
        !s[0],
        s[1],
        forall|w: int|
            start <= w < start + t.inner() && !written(spliced(t.nands@, args, start), w) ==> !(
            #[trigger] s[w]),
    ensures
        run(s, spliced(t.nands@, args, start)).len() == s.len(),
        forall|k: int|
            0 <= k < T::width() ==> run(s, spliced(t.nands@, args, start))[(
            #[trigger] args[1 + 2 * T::width() + k]).0 as int] == (if s[args[0].0 as int] {
                s[args[1 + T::width() + k].0 as int]
            } else {
                s[args[1 + k].0 as int]
            }),
        forall|c: int|
            0 <= c < start && (forall|p: int|
                1 + 2 * T::width() <= p < args.len() ==> (#[trigger] args[p]).0 != c) ==> run(
                s,
                spliced(t.nands@, args, start),
            )[c] == s[c],
{
    let w = T::width();
    lemma_select_shape::<T>(t, earlier, c0, c1, c2, ports, ne, n0, n1, n2, nports);
    lemma_select_gates(w, w);
    let built = c1.nands@;
    let size = (5 * w + 4) as nat;
    let fixed = (3 * w + 3) as nat;
    assert forall|q: int| 2 <= q < fixed && written(built, q) implies q >= 3 + 2 * w by {
        let i = choose|i: int| 0 <= i < built.len() && (#[trigger] built[i]).2.0 == q;
        assert(built[i].2.0 >= 3 + 2 * w);
    }
    // every output can become TRUE: it does where the selector is FALSE and
    // the first data input of its place is TRUE
    assert forall|q: int| 2 <= q < 2 + args.len() && #[trigger] written(built, q) implies lively(
        built,
        size,
        (2 + args.len()) as nat,
        q,
    ) by {
        let k = q - 3 - 2 * w;
        let e = Seq::new(size, |x: int| x == 1 || x == 3 + k);
        assert(!written(built, 3 + k));
        assert(fresh(e, built, fixed));
        lemma_select_runs(w, w, e);
        assert(chosen(e, w, k));
    }
    assert(t.nands == c2.nands && t.size == c2.wires.len());
    lemma_copy_again(c1, c2, args, start, s);
    let e = entered(s, built, size, args);
    lemma_select_runs(w, w, e);
    assert(!written(built, 2));
    assert(e[2] == s[args[0].0 as int]);
    assert forall|k: int| 0 <= k < w implies run(s, spliced(t.nands@, args, start))[(
    #[trigger] args[1 + 2 * w + k]).0 as int] == (if s[args[0].0 as int] {
        s[args[1 + w + k].0 as int]
    } else {
        s[args[1 + k].0 as int]
    }) by {
        assert(run(e, built)[3 + 2 * w + k] == chosen(e, w, k));
        assert(!written(built, 3 + k));
        assert(!written(built, 3 + w + k));
        assert(e[3 + k] == s[args[1 + k].0 as int]);
        assert(e[3 + w + k] == s[args[1 + w + k].0 as int]);
    }
}

} // verus!
