//! The sorting network.

use vstd::prelude::*;
use crate::bundle::{Bundle, Wiring};
use crate::circuit::{consecutive, lemma_in_range_concat, wires_in_range, Circuit};
use crate::component::{
    allocated, described, lemma_placed_grown, placed, used, Description,
};
use crate::components::lt::Lt;
use crate::components::swap::swapped;
use crate::wire::Wire;

verus! {

/// The key of the comparator.
pub const SORT_2: u64 = 10;

/// The comparator of the network: `x` is the smaller and `y` the larger of
/// the numbers `a` and `b`.
pub struct Sort2;

impl<T: Wiring + Copy> Description<(T, T, T, T)> for Sort2 {
    open spec fn key(&self) -> u64 {
        SORT_2
    }

    open spec fn ready(&self) -> bool {
        3 * (T::width() + 1) + 2 <= usize::MAX
    }

    open spec fn built(&self, before: &Circuit, after: &Circuit, wiring: (T, T, T, T)) -> bool {
        let (a, b, x, y) = wiring;
        let s = Wire(before.wires.len());
        exists|m1: Circuit, m2: Circuit|
            #![trigger m1.wf(), m2.wf()]
            allocated(before, &m1, 1) && used::<(T, T, Wire), Lt>(
                &m1,
                &m2,
                &Lt,
                b.leaves() + a.leaves() + seq![s],
            ) && swapped(&m2, after, s, a, b, x, y)
    }

    fn id(&self) -> (k: u64) {
        SORT_2
    }

    fn build(&self, circuit: &mut Circuit, wiring: (T, T, T, T)) {
        let (a, b, x, y) = wiring;
        let ghost n = circuit.wires.len() as nat;
        proof {
            lemma_in_range_concat(a.leaves() + b.leaves() + x.leaves(), y.leaves(), n);
            lemma_in_range_concat(a.leaves() + b.leaves(), x.leaves(), n);
            lemma_in_range_concat(a.leaves(), b.leaves(), n);
        }
        let s = circuit.allocate();
        let ghost m1 = *circuit;
        proof {
            let m = circuit.wires.len() as nat;
            assert(wires_in_range(s.leaves(), m));
            lemma_in_range_concat(b.leaves(), a.leaves(), m);
            lemma_in_range_concat(b.leaves() + a.leaves(), s.leaves(), m);
        }
        circuit.lt(b, a, s);
        let ghost m2 = *circuit;
        proof {
            let m = circuit.wires.len() as nat;
            assert(wires_in_range(s.leaves(), m));
            lemma_in_range_concat(s.leaves(), a.leaves(), m);
            lemma_in_range_concat(s.leaves() + a.leaves(), b.leaves(), m);
            lemma_in_range_concat(s.leaves() + a.leaves() + b.leaves(), x.leaves(), m);
            lemma_in_range_concat(
                s.leaves() + a.leaves() + b.leaves() + x.leaves(),
                y.leaves(),
                m,
            );
        }
        circuit.swap(s, a, b, x, y);
        proof {
            assert(m1.wires@ =~= old(circuit).wires@ + Seq::new(1, |i: int| false));
            assert(s.leaves() =~= seq![s]);
            assert(m1.wf() && m2.wf());
        }
    }
}

/// The comparators of one block of a merge step, from the place `from` of
/// the block on: the place `i` of the block that starts at `j` is compared
/// with the place at the distance `k`, where both lie in the same run of
/// twice `p` places.
pub open spec fn block(p: nat, k: nat, j: nat, from: nat, lim: nat) -> Seq<(nat, nat)>
    decreases lim - from,
{
    if from >= lim {
        Seq::empty()
    } else {
        let a = from + j;
        let b = a + k;
        let rest = block(p, k, j, from + 1, lim);
        if a / p / 2 == b / p / 2 {
            seq![(a, b)] + rest
        } else {
            rest
        }
    }
}

/// The comparators of one merge step of the distance `k`, from the block
/// that starts at `j` on: the blocks have at most `k` places and start
/// every second `k` places.
pub open spec fn row(n: nat, p: nat, k: nat, j: nat) -> Seq<(nat, nat)>
    decreases n - j,
{
    if k == 0 || j + k >= n {
        Seq::empty()
    } else {
        let room = (n - j - k) as nat;
        let lim = if k < room { k } else { room };
        let here = block(p, k, j, 0, lim);
        if room <= k {
            here + Seq::<(nat, nat)>::empty()
        } else {
            here + row(n, p, k, j + 2 * k)
        }
    }
}

/// The comparators that merge sorted runs of `p` numbers into sorted runs
/// of twice `p`, from the distance `k` on: the distances are halved down
/// to one.
pub open spec fn phase(n: nat, p: nat, k: nat) -> Seq<(nat, nat)>
    decreases k,
{
    if k == 0 || p == 0 {
        Seq::empty()
    } else {
        row(n, p, k, k % p) + phase(n, p, k / 2)
    }
}

/// The comparators of the odd-even merge sort of `n` numbers, from runs of
/// `p` numbers on: the runs are doubled until one run holds all.
pub open spec fn network(n: nat, p: nat) -> Seq<(nat, nat)>
    decreases n - p,
{
    if p == 0 || p >= n {
        Seq::empty()
    } else if p >= n - p {
        phase(n, p, p) + Seq::<(nat, nat)>::empty()
    } else {
        phase(n, p, p) + network(n, 2 * p)
    }
}

/// One comparator, between the numbers at `pair`: two fresh bundles, a copy
/// of the comparator of two numbers from the two numbers to them, and the
/// fresh bundles in the places of the numbers.
pub open spec fn compared<T: Wiring + Copy>(
    s0: (Circuit, Seq<T>),
    s1: (Circuit, Seq<T>),
    pair: (nat, nat),
) -> bool {
    let (a, b) = pair;
    let n = s0.0.wires.len() as nat;
    &&& a < b < s0.1.len()
    &&& exists|mid: Circuit, x: T, y: T|
        #![trigger mid.wf(), x.leaves(), y.leaves()]
        x.leaves() == consecutive(n, T::width()) && y.leaves() == consecutive(
            n + T::width(),
            T::width(),
        ) && allocated(&s0.0, &mid, 2 * T::width()) && used::<(T, T, T, T), Sort2>(
            &mid,
            &s1.0,
            &Sort2,
            s0.1[a as int].leaves() + s0.1[b as int].leaves() + x.leaves() + y.leaves(),
        ) && s1.1 == s0.1.update(a as int, x).update(b as int, y)
}

/// Whether each state of `trail` but the last is taken to the next by the
/// comparator of `net` of its place.
pub open spec fn wiring<T: Wiring + Copy>(trail: Seq<(Circuit, Seq<T>)>, net: Seq<(nat, nat)>) -> bool {
    &&& trail.len() == net.len() + 1
    &&& forall|k: int|
        0 <= k < net.len() ==> compared(#[trigger] trail[k], trail[k + 1], net[k])
}

/// One more comparator makes a network one longer.
pub proof fn lemma_wiring_more<T: Wiring + Copy>(
    trail: Seq<(Circuit, Seq<T>)>,
    net: Seq<(nat, nat)>,
    next: (Circuit, Seq<T>),
    pair: (nat, nat),
)
    requires
        wiring(trail, net),
        compared(trail.last(), next, pair),
    ensures
        wiring(trail.push(next), net.push(pair)),
{
    let more = trail.push(next);
    let longer = net.push(pair);
    assert forall|k: int| 0 <= k < longer.len() implies compared(
        #[trigger] more[k],
        more[k + 1],
        longer[k],
    ) by {
        if k < net.len() {
            assert(more[k] == trail[k]);
            assert(more[k + 1] == trail[k + 1]);
            assert(longer[k] == net[k]);
        }
    }
}

/// Whether `after` is `before` with the comparators of the odd-even merge
/// sort wired between the numbers `arr`, and `out` the bundles that carry
/// the numbers after the last of them.
pub open spec fn wired<T: Wiring + Copy>(
    before: &Circuit,
    after: &Circuit,
    arr: Seq<T>,
    out: Seq<T>,
) -> bool {
    exists|trail: Seq<(Circuit, Seq<T>)>|
        #![trigger wiring(trail, network(arr.len(), 1))]
        wiring(trail, network(arr.len(), 1)) && trail[0] == (*before, arr) && trail.last() == (
            *after,
            out,
        )
}

impl Circuit {
    /// Appends a copy of the comparator between `a`, `b`, `x` and `y`.
    pub fn _sort_2<T: Wiring + Copy>(&mut self, a: T, b: T, x: T, y: T)
        requires
            old(self).wf(),
            T::width() + T::width() + T::width() + T::width() + 2 <= usize::MAX,
            3 * (T::width() + 1) + 2 <= usize::MAX,
        ensures
            placed(
                old(self),
                final(self),
                SORT_2,
                a.leaves() + b.leaves() + x.leaves() + y.leaves(),
            ),
            described::<(T, T, T, T), Sort2>(old(self), final(self), &Sort2),
            final(self).grown_from(old(self)),
            old(self).closed() && wires_in_range(
                a.leaves() + b.leaves() + x.leaves() + y.leaves(),
                old(self).wires.len() as nat,
            ) ==> final(self).closed(),
    {
        self.component((a, b, x, y), Sort2);
        proof {
            lemma_placed_grown(
                old(self),
                self,
                SORT_2,
                a.leaves() + b.leaves() + x.leaves() + y.leaves(),
            );
        }
    }

    /// Appends a network of comparators that sorts `N` numbers, and returns
    /// the wires that carry them in ascending order. The network is the
    /// odd-even merge sort: blocks of 1, 2, 4, ... numbers are merged, each
    /// merge in steps of decreasing distance.
    #[verifier::rlimit(100)]
    pub fn sort<T: Wiring + Copy, const N: usize>(&mut self, arr: [T; N]) -> (out: [T; N])
        requires
            old(self).wf(),
            T::width() + T::width() + T::width() + T::width() + 2 <= usize::MAX,
            3 * (T::width() + 1) + 2 <= usize::MAX,
        ensures
            wired(old(self), final(self), arr@, out@),
            final(self).grown_from(old(self)),
            old(self).closed() && (forall|e: int|
                0 <= e < N ==> wires_in_range(
                    (#[trigger] arr[e]).leaves(),
                    old(self).wires.len() as nat,
                )) ==> final(self).closed() && forall|e: int|
                0 <= e < N ==> wires_in_range(
                    (#[trigger] out[e]).leaves(),
                    final(self).wires.len() as nat,
                ),
    {
        let ghost first = arr@;
        let mut arr = arr;
        let ghost sure = old(self).closed() && (forall|e: int|
            0 <= e < N ==> wires_in_range(
                (#[trigger] arr[e]).leaves(),
                old(self).wires.len() as nat,
            ));
        let ghost total = network(N as nat, 1);
        let ghost mut done: Seq<(nat, nat)> = Seq::empty();
        let ghost mut trail: Seq<(Circuit, Seq<T>)> = seq![(*self, arr@)];
        let mut p: usize = 1;
        proof {
            assert(done + network(N as nat, 1) =~= total);
        }
        while p < N
            invariant
                p >= 1,
                T::width() + T::width() + T::width() + T::width() + 2 <= usize::MAX,
                3 * (T::width() + 1) + 2 <= usize::MAX,
                self.grown_from(old(self)),
                sure ==> self.closed() && forall|e: int|
                    0 <= e < N ==> wires_in_range(
                        (#[trigger] arr[e]).leaves(),
                        self.wires.len() as nat,
                    ),
                wiring(trail, done),
                trail[0] == (*old(self), first),
                trail.last() == (*self, arr@),
                done + network(N as nat, p as nat) == total,
            decreases N - p,
        {
            let ghost after_p = if p >= N - p {
                Seq::<(nat, nat)>::empty()
            } else {
                network(N as nat, (2 * p) as nat)
            };
            let mut k: usize = p;
            proof {
                assert(done + (phase(N as nat, p as nat, k as nat) + after_p) =~= (done + phase(
                    N as nat,
                    p as nat,
                    k as nat,
                )) + after_p);
            }
            while k >= 1
                invariant
                    1 <= p < N,
                    k <= p,
                    T::width() + T::width() + T::width() + T::width() + 2 <= usize::MAX,
                    3 * (T::width() + 1) + 2 <= usize::MAX,
                    self.grown_from(old(self)),
                    sure ==> self.closed() && forall|e: int|
                        0 <= e < N ==> wires_in_range(
                            (#[trigger] arr[e]).leaves(),
                            self.wires.len() as nat,
                        ),
                    wiring(trail, done),
                    trail[0] == (*old(self), first),
                    trail.last() == (*self, arr@),
                    (done + phase(N as nat, p as nat, k as nat)) + after_p == total,
                decreases k,
            {
                let ghost after_k = phase(N as nat, p as nat, (k / 2) as nat) + after_p;
                let mut j: usize = k % p;
                proof {
                    assert((done + (row(N as nat, p as nat, k as nat, j as nat) + phase(
                        N as nat,
                        p as nat,
                        (k / 2) as nat,
                    ))) + after_p =~= (done + row(N as nat, p as nat, k as nat, j as nat))
                        + after_k);
                }
                while j < N - k
                    invariant
                        1 <= k <= p,
                        p < N,
                        j <= N,
                        T::width() + T::width() + T::width() + T::width() + 2 <= usize::MAX,
                        3 * (T::width() + 1) + 2 <= usize::MAX,
                        self.grown_from(old(self)),
                        sure ==> self.closed() && forall|e: int|
                            0 <= e < N ==> wires_in_range(
                                (#[trigger] arr[e]).leaves(),
                                self.wires.len() as nat,
                            ),
                        wiring(trail, done),
                        trail[0] == (*old(self), first),
                        trail.last() == (*self, arr@),
                        (done + row(N as nat, p as nat, k as nat, j as nat)) + after_k == total,
                    decreases N - j,
                {
                    let room = N - j - k;
                    let lim = if k < room { k } else { room };
                    let ghost after_j = (if room <= k {
                        Seq::<(nat, nat)>::empty()
                    } else {
                        row(N as nat, p as nat, k as nat, (j + 2 * k) as nat)
                    }) + after_k;
                    let mut i: usize = 0;
                    proof {
                        let here = block(p as nat, k as nat, j as nat, 0, lim as nat);
                        let next = if room <= k {
                            Seq::<(nat, nat)>::empty()
                        } else {
                            row(N as nat, p as nat, k as nat, (j + 2 * k) as nat)
                        };
                        assert(row(N as nat, p as nat, k as nat, j as nat) == here + next);
                        assert((done + (here + next)) + after_k =~= (done + here) + after_j);
                    }
                    while i < lim
                        invariant
                            i <= lim,
                            lim <= N - j - k,
                            1 <= k <= p,
                            p < N,
                            j < N - k,
                            T::width() + T::width() + T::width() + T::width() + 2
                                <= usize::MAX,
                            3 * (T::width() + 1) + 2 <= usize::MAX,
                            self.grown_from(old(self)),
                            sure ==> self.closed() && forall|e: int|
                                0 <= e < N ==> wires_in_range(
                                    (#[trigger] arr[e]).leaves(),
                                    self.wires.len() as nat,
                                ),
                            wiring(trail, done),
                            trail[0] == (*old(self), first),
                            trail.last() == (*self, arr@),
                            (done + block(p as nat, k as nat, j as nat, i as nat, lim as nat))
                                + after_j == total,
                        decreases lim - i,
                    {
                        let a = i + j;
                        let b = a + k;
                        let ghost rest = block(
                            p as nat,
                            k as nat,
                            j as nat,
                            (i + 1) as nat,
                            lim as nat,
                        );
                        if a / p / 2 == b / p / 2 {
                            let ghost m0 = *self;
                            let ghost items = arr@;
                            let x: T = self.wiring();
                            let y: T = self.wiring();
                            let ghost mid = *self;
                            let first_item = arr[a];
                            let second_item = arr[b];
                            proof {
                                if sure {
                                    let m = self.wires.len() as nat;
                                    assert(wires_in_range(first_item.leaves(), m));
                                    assert(wires_in_range(second_item.leaves(), m));
                                    lemma_in_range_concat(
                                        first_item.leaves(),
                                        second_item.leaves(),
                                        m,
                                    );
                                    lemma_in_range_concat(
                                        first_item.leaves() + second_item.leaves(),
                                        x.leaves(),
                                        m,
                                    );
                                    lemma_in_range_concat(
                                        first_item.leaves() + second_item.leaves() + x.leaves(),
                                        y.leaves(),
                                        m,
                                    );
                                }
                            }
                            self._sort_2(first_item, second_item, x, y);
                            arr[a] = x;
                            arr[b] = y;
                            proof {
                                x.lemma_leaves_len();
                                y.lemma_leaves_len();
                                assert(mid.wires@ =~= m0.wires@ + Seq::new(
                                    2 * T::width(),
                                    |i: int| false,
                                ));
                                assert(mid.wf());
                                assert(arr@ =~= items.update(a as int, x).update(b as int, y));
                                let next = (*self, arr@);
                                assert(compared(trail.last(), next, (a as nat, b as nat)));
                                lemma_wiring_more(trail, done, next, (a as nat, b as nat));
                                trail = trail.push(next);
                                assert((done + (seq![(a as nat, b as nat)] + rest)) + after_j =~= (
                                done.push((a as nat, b as nat)) + rest) + after_j);
                                done = done.push((a as nat, b as nat));
                            }
                        }
                        i += 1;
                    }
                    proof {
                        assert(done + block(p as nat, k as nat, j as nat, lim as nat, lim as nat)
                            =~= done);
                    }
                    if room <= k {
                        j = N;
                        proof {
                            assert(done + row(N as nat, p as nat, k as nat, N as nat) =~= done);
                            assert(done + Seq::<(nat, nat)>::empty() =~= done);
                        }
                    } else {
                        j = j + k + k;
                        proof {
                            assert(done + (row(N as nat, p as nat, k as nat, j as nat) + after_k)
                                =~= (done + row(N as nat, p as nat, k as nat, j as nat))
                                + after_k);
                        }
                    }
                }
                proof {
                    assert(done + row(N as nat, p as nat, k as nat, j as nat) =~= done);
                    assert(done + (phase(N as nat, p as nat, (k / 2) as nat) + after_p) =~= (done
                        + phase(N as nat, p as nat, (k / 2) as nat)) + after_p);
                }
                k = k / 2;
            }
            proof {
                assert(done + phase(N as nat, p as nat, 0) =~= done);
            }
            if p >= N - p {
                p = N;
                proof {
                    assert(done + Seq::<(nat, nat)>::empty() =~= done);
                    assert(done + network(N as nat, N as nat) =~= done);
                }
            } else {
                p = p + p;
            }
        }
        proof {
            assert(done + network(N as nat, p as nat) =~= done);
        }
        arr
    }
}

} // verus!
