//! Classes of wires: each wire that is not fixed may be redirected to a
//! wire with a smaller index, and the wire where the redirects from a wire
//! end is the representative of its class.

use vstd::prelude::*;
use crate::circuit::Gate;
use crate::wire::Wire;

verus! {

/// Whether every redirect points to a wire with a smaller index.
pub open spec fn descending(redirects: Seq<Option<Wire>>, fixed: nat) -> bool {
    forall|i: int|
        0 <= i < redirects.len() ==> ((#[trigger] redirects[i]) matches Some(p) ==> p.0 < fixed
            + i)
}

/// The representative of a wire: where the chain of redirects from it ends.
pub open spec fn root(redirects: Seq<Option<Wire>>, fixed: nat, w: nat) -> nat
    decreases w,
{
    if w < fixed || w >= fixed + redirects.len() {
        w
    } else {
        match redirects[w - fixed] {
            Some(p) => if p.0 < w {
                root(redirects, fixed, p.0 as nat)
            } else {
                w
            },
            None => w,
        }
    }
}

/// The redirects after the chain from `w` has been shortened: each wire on
/// the way to the representative of `w`, the representative left out,
/// points straight at it, and every other redirect is as it was.
pub open spec fn compressed(redirects: Seq<Option<Wire>>, fixed: nat, w: nat) -> Seq<
    Option<Wire>,
>
    decreases w,
{
    if w < fixed || w >= fixed + redirects.len() {
        redirects
    } else {
        match redirects[w - fixed] {
            Some(p) => if p.0 < w {
                compressed(redirects, fixed, p.0 as nat).update(
                    w - fixed,
                    Some(Wire(root(redirects, fixed, w) as usize)),
                )
            } else {
                redirects
            },
            None => redirects,
        }
    }
}

/// Whether `w` is its own representative.
pub open spec fn is_root(redirects: Seq<Option<Wire>>, fixed: nat, w: nat) -> bool {
    w < fixed || w >= fixed + redirects.len() || redirects[w - fixed] is None
}

/// Whether each redirected wire has the value of the wire it points to.
pub open spec fn agrees(v: Seq<bool>, redirects: Seq<Option<Wire>>, fixed: nat) -> bool {
    forall|i: int|
        0 <= i < redirects.len() ==> ((#[trigger] redirects[i]) matches Some(p) ==> v[fixed + i]
            == v[p.0 as int])
}

/// The representative is a wire of the store and its own representative.
pub proof fn lemma_root_is_root(redirects: Seq<Option<Wire>>, fixed: nat, w: nat)
    requires
        descending(redirects, fixed),
    ensures
        root(redirects, fixed, w) <= w,
        is_root(redirects, fixed, root(redirects, fixed, w)),
        is_root(redirects, fixed, w) ==> root(redirects, fixed, w) == w,
        w < fixed ==> root(redirects, fixed, w) == w,
    decreases w,
{
    if w < fixed || w >= fixed + redirects.len() {
    } else {
        match redirects[w - fixed] {
            Some(p) => {
                lemma_root_is_root(redirects, fixed, p.0 as nat);
            },
            None => {},
        }
    }
}

/// A wire has the value of its representative.
pub proof fn lemma_root_value(v: Seq<bool>, redirects: Seq<Option<Wire>>, fixed: nat, w: nat)
    requires
        descending(redirects, fixed),
        agrees(v, redirects, fixed),
    ensures
        v[w as int] == v[root(redirects, fixed, w) as int],
    decreases w,
{
    if w < fixed || w >= fixed + redirects.len() {
    } else {
        match redirects[w - fixed] {
            Some(p) => {
                lemma_root_value(v, redirects, fixed, p.0 as nat);
            },
            None => {},
        }
    }
}

/// Pointing a wire straight at its representative changes no representative.
pub proof fn lemma_compress(redirects: Seq<Option<Wire>>, fixed: nat, i: int, t: Wire, w: nat)
    requires
        descending(redirects, fixed),
        0 <= i < redirects.len(),
        redirects[i] is Some,
        t.0 == root(redirects, fixed, (fixed + i) as nat),
    ensures
        root(redirects.update(i, Some(t)), fixed, w) == root(redirects, fixed, w),
    decreases w,
{
    let after = redirects.update(i, Some(t));
    lemma_root_is_root(redirects, fixed, (fixed + i) as nat);
    if w < fixed || w >= fixed + redirects.len() {
    } else if w == fixed + i {
        lemma_compress(redirects, fixed, i, t, t.0 as nat);
        lemma_root_is_root(redirects, fixed, t.0 as nat);
        assert(after[w - fixed] == Some(t));
        assert(t.0 < w);
    } else {
        assert(after[w - fixed] == redirects[w - fixed]);
        match redirects[w - fixed] {
            Some(p) => {
                lemma_compress(redirects, fixed, i, t, p.0 as nat);
            },
            None => {},
        }
    }
}

/// Pointing a representative at a smaller one moves its class there and
/// leaves every other class alone.
pub proof fn lemma_link(redirects: Seq<Option<Wire>>, fixed: nat, hi: nat, lo: Wire, w: nat)
    requires
        descending(redirects, fixed),
        fixed <= hi < fixed + redirects.len(),
        lo.0 < hi,
        is_root(redirects, fixed, hi),
        is_root(redirects, fixed, lo.0 as nat),
    ensures
        root(redirects.update(hi - fixed, Some(lo)), fixed, w) == if root(redirects, fixed, w)
            == hi {
            lo.0 as nat
        } else {
            root(redirects, fixed, w)
        },
    decreases w,
{
    let after = redirects.update(hi - fixed, Some(lo));
    if w < fixed || w >= fixed + redirects.len() {
    } else if w == hi {
        lemma_link(redirects, fixed, hi, lo, lo.0 as nat);
        lemma_root_is_root(redirects, fixed, lo.0 as nat);
        assert(after[w - fixed] == Some(lo));
    } else {
        assert(after[w - fixed] == redirects[w - fixed]);
        match redirects[w - fixed] {
            Some(p) => {
                lemma_link(redirects, fixed, hi, lo, p.0 as nat);
            },
            None => {},
        }
    }
}

/// How many inputs of the gates are of the class of the wire `w`.
pub open spec fn reads_of(
    gates: Seq<Gate>,
    redirects: Seq<Option<Wire>>,
    fixed: nat,
    w: nat,
) -> nat
    decreases gates.len(),
{
    if gates.len() == 0 {
        0
    } else {
        let g = gates.last();
        reads_of(gates.drop_last(), redirects, fixed, w) + (if root(redirects, fixed, g.0.0 as nat)
            == w {
            1nat
        } else {
            0nat
        }) + (if root(redirects, fixed, g.1.0 as nat) == w {
            1nat
        } else {
            0nat
        })
    }
}

/// A count as it is kept: numbers that do not fit are kept as the largest
/// that does.
pub open spec fn capped(c: nat) -> usize {
    if c > usize::MAX {
        usize::MAX
    } else {
        c as usize
    }
}

/// Redirects that keep every representative keep the number of reads.
pub proof fn lemma_reads_same(
    gates: Seq<Gate>,
    first: Seq<Option<Wire>>,
    second: Seq<Option<Wire>>,
    fixed: nat,
    w: nat,
)
    requires
        forall|x: nat| #[trigger] root(first, fixed, x) == root(second, fixed, x),
    ensures
        reads_of(gates, first, fixed, w) == reads_of(gates, second, fixed, w),
    decreases gates.len(),
{
    if gates.len() > 0 {
        lemma_reads_same(gates.drop_last(), first, second, fixed, w);
        let g = gates.last();
        assert(root(first, fixed, g.0.0 as nat) == root(second, fixed, g.0.0 as nat));
        assert(root(first, fixed, g.1.0 as nat) == root(second, fixed, g.1.0 as nat));
    }
}

/// A class has reads exactly where some gate reads it.
pub proof fn lemma_reads_positive(
    gates: Seq<Gate>,
    redirects: Seq<Option<Wire>>,
    fixed: nat,
    w: nat,
)
    ensures
        reads_of(gates, redirects, fixed, w) > 0 <==> read_by(gates, redirects, fixed, w),
    decreases gates.len(),
{
    if gates.len() > 0 {
        let shorter = gates.drop_last();
        let g = gates.last();
        lemma_reads_positive(shorter, redirects, fixed, w);
        if read_by(shorter, redirects, fixed, w) {
            let k = choose|k: int|
                0 <= k < shorter.len() && (root(redirects, fixed, (#[trigger] shorter[k]).0.0 as nat)
                    == w || root(redirects, fixed, shorter[k].1.0 as nat) == w);
            assert(gates[k] == shorter[k]);
        }
        if root(redirects, fixed, g.0.0 as nat) == w || root(redirects, fixed, g.1.0 as nat) == w {
            assert(gates[gates.len() - 1] == g);
        }
        if read_by(gates, redirects, fixed, w) {
            let k = choose|k: int|
                0 <= k < gates.len() && (root(redirects, fixed, (#[trigger] gates[k]).0.0 as nat)
                    == w || root(redirects, fixed, gates[k].1.0 as nat) == w);
            if k < shorter.len() {
                assert(shorter[k] == gates[k]);
                assert(read_by(shorter, redirects, fixed, w));
            }
        }
    }
}

/// Whether some gate reads the class of the wire `w`.
pub open spec fn read_by(gates: Seq<Gate>, redirects: Seq<Option<Wire>>, fixed: nat, w: nat) -> bool {
    exists|k: int|
        0 <= k < gates.len() && (root(redirects, fixed, (#[trigger] gates[k]).0.0 as nat) == w
            || root(redirects, fixed, gates[k].1.0 as nat) == w)
}

} // verus!
