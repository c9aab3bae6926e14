//! Fixed-size arrays of bundles as bundles.

use vstd::prelude::*;
use crate::bundle::{reversed, Bundle};

verus! {

/// The leaves of the items of `s`, one item after the other.
pub open spec fn flat<X: Bundle>(s: Seq<X>) -> Seq<X::Leaf>
    decreases s.len(),
{
    if s.len() == 0 {
        Seq::empty()
    } else {
        flat(s.drop_last()) + s.last().leaves()
    }
}

/// `flat` distributes over concatenation.
pub proof fn lemma_flat_concat<X: Bundle>(a: Seq<X>, b: Seq<X>)
    ensures
        flat(a + b) == flat(a) + flat(b),
    decreases b.len(),
{
    if b.len() == 0 {
        assert(a + b =~= a);
        assert(flat(a) + flat(b) =~= flat(a));
    } else {
        lemma_flat_concat(a, b.drop_last());
        assert((a + b).drop_last() =~= a + b.drop_last());
        assert((a + b).last() == b.last());
        assert(flat(a + b) =~= flat(a) + flat(b));
    }
}

/// `flat` of `n` items has `n` times the width of one.
pub proof fn lemma_flat_len<X: Bundle>(s: Seq<X>)
    ensures
        flat(s).len() == s.len() * X::width(),
    decreases s.len(),
{
    if s.len() > 0 {
        lemma_flat_len(s.drop_last());
        s.last().lemma_leaves_len();
        assert((s.len() - 1) * X::width() + X::width() == s.len() * X::width())
            by (nonlinear_arith);
    } else {
        assert(0 * X::width() == 0) by (nonlinear_arith);
    }
}

/// Leaf `k` of item `j` stands at place `j * width + k` of `flat`.
pub proof fn lemma_flat_index<X: Bundle>(s: Seq<X>, j: int, k: int)
    requires
        0 <= j < s.len(),
        0 <= k < X::width(),
    ensures
        0 <= j * X::width() + k < flat(s).len(),
        flat(s)[j * X::width() + k] == s[j].leaves()[k],
    decreases s.len(),
{
    lemma_flat_len(s);
    lemma_flat_len(s.drop_last());
    s.last().lemma_leaves_len();
    let w = X::width() as int;
    assert(0 <= j * w + k < s.len() * w) by (nonlinear_arith)
        requires
            0 <= j < s.len(),
            0 <= k < w,
    ;
    if j == s.len() - 1 {
        assert((s.len() - 1) * w == s.drop_last().len() * w);
    } else {
        lemma_flat_index(s.drop_last(), j, k);
    }
}

/// Two sequences of items with the same leaves are the same.
pub proof fn lemma_flat_unique<X: Bundle>(a: Seq<X>, b: Seq<X>)
    requires
        a.len() == b.len(),
        flat(a) == flat(b),
    ensures
        a == b,
    decreases a.len(),
{
    if a.len() > 0 {
        lemma_flat_len(a.drop_last());
        lemma_flat_len(b.drop_last());
        a.last().lemma_leaves_len();
        b.last().lemma_leaves_len();
        let n = flat(a.drop_last()).len() as int;
        let m = flat(a).len() as int;
        assert(flat(a.drop_last()) =~= flat(a).subrange(0, n));
        assert(flat(b.drop_last()) =~= flat(b).subrange(0, n));
        assert(a.last().leaves() =~= flat(a).subrange(n, m));
        assert(b.last().leaves() =~= flat(b).subrange(n, m));
        a.last().lemma_leaves_unique(b.last());
        lemma_flat_unique(a.drop_last(), b.drop_last());
        assert(a =~= a.drop_last().push(a.last()));
        assert(b =~= b.drop_last().push(b.last()));
    } else {
        assert(a =~= b);
    }
}

/// Replacing leaf `k` of item `j` replaces place `j * width + k` of `flat`.
pub proof fn lemma_flat_update<X: Bundle>(s: Seq<X>, j: int, k: int, x: X, l: X::Leaf)
    requires
        0 <= j < s.len(),
        0 <= k < X::width(),
        x.leaves() == s[j].leaves().update(k, l),
    ensures
        flat(s.update(j, x)) == flat(s).update(j * X::width() + k, l),
    decreases s.len(),
{
    lemma_flat_len(s);
    lemma_flat_len(s.drop_last());
    s.last().lemma_leaves_len();
    let w = X::width() as int;
    let t = s.update(j, x);
    assert(0 <= j * w + k < s.len() * w) by (nonlinear_arith)
        requires
            0 <= j < s.len(),
            0 <= k < w,
    ;
    if j == s.len() - 1 {
        assert(t.drop_last() =~= s.drop_last());
        assert((s.len() - 1) * w == s.drop_last().len() * w);
        assert(flat(t) =~= flat(s).update(j * w + k, l));
    } else {
        lemma_flat_update(s.drop_last(), j, k, x, l);
        assert(t.drop_last() =~= s.drop_last().update(j, x));
        assert(t.last() == s.last());
        assert(j * w + k < (s.len() - 1) * w) by (nonlinear_arith)
            requires
                0 <= j < s.len() - 1,
                0 <= k < w,
        ;
        assert(flat(t) =~= flat(s).update(j * w + k, l));
    }
}

/// An item put in front contributes its leaves in front.
pub proof fn lemma_flat_front<X: Bundle>(x: X, s: Seq<X>)
    ensures
        flat(seq![x] + s) == x.leaves() + flat(s),
{
    lemma_flat_concat(seq![x], s);
    let one = seq![x];
    assert(one.len() == 1);
    assert(one.last() == x);
    assert(one.drop_last() =~= Seq::<X>::empty());
    assert(flat(one.drop_last()) =~= Seq::<X::Leaf>::empty());
    assert(flat(one) =~= x.leaves());
}

/// One item more takes one width more.
proof fn lemma_one_more(n: int, w: int)
    by (nonlinear_arith)
    requires
        n >= 1,
        w >= 0,
    ensures
        n * w == (n - 1) * w + w,
        (n - 1) * w >= 0,
{
}

/// Moves the items of a vector of length `N` into an array, through
/// `TryFrom<Vec<T>>` for `[T; N]`, which keeps the items and their order.
#[verifier::external_body]
fn array_from_vec<X, const N: usize>(v: Vec<X>) -> (r: [X; N])
    requires
        v.len() == N,
    ensures
        r@ == v@,
{
    <[X; N]>::try_from(v).ok().unwrap()
}

/// Moves the items of an array into a vector, through `From<[T; N]>` for
/// `Vec<T>`, which keeps the items and their order.
#[verifier::external_body]
fn vec_from_array<X, const N: usize>(a: [X; N]) -> (v: Vec<X>)
    ensures
        v@ == a@,
{
    Vec::from(a)
}

impl<X: Bundle, const N: usize> Bundle for [X; N] {
    type Leaf = X::Leaf;

    open spec fn width() -> nat {
        N as nat * X::width()
    }

    open spec fn leaves(self) -> Seq<X::Leaf> {
        flat(self@)
    }

    proof fn lemma_leaves_len(self) {
        lemma_flat_len(self@);
    }

    proof fn lemma_leaves_unique(self, other: Self) {
        lemma_flat_unique(self@, other@);
        assert(self =~= other);
    }

    fn size() -> (n: usize) {
        if N == 0 {
            assert(0 * X::width() == 0) by (nonlinear_arith);
            0
        } else {
            assert(X::width() <= N * X::width()) by (nonlinear_arith)
                requires
                    N >= 1,
            ;
            N * X::size()
        }
    }

    fn as_mut(&mut self, i: usize) -> (leaf: Option<&mut X::Leaf>) {
        let ghost w = X::width() as int;
        assert((N == 0 || w == 0 ==> N * w == 0) && (N >= 1 ==> w <= N * w)) by (nonlinear_arith)
            requires
                w >= 0,
        ;
        if N == 0 {
            return None;
        }
        let n = X::size();
        if n == 0 {
            return None;
        }
        let j = i / n;
        let k = i % n;
        assert(j * w + k == i && (j < N <==> i < N * w)) by (nonlinear_arith)
            requires
                w > 0,
                0 <= k < w,
                j == (i as int) / w,
                k == (i as int) % w,
        ;
        if j >= N {
            return None;
        }
        proof {
            lemma_flat_index(self@, j as int, k as int);
        }
        let ghost before = self@;
        proof {
            assert forall|x: X, l: X::Leaf|
                #![trigger before.update(j as int, x), before[j as int].leaves().update(k as int, l)]
                x.leaves() == before[j as int].leaves().update(k as int, l) implies flat(
                before.update(j as int, x),
            ) == flat(before).update(i as int, l) by {
                lemma_flat_update(before, j as int, k as int, x, l);
            }
        }
        self[j].as_mut(k)
    }

    fn into_leaves(self, out: &mut Vec<X::Leaf>) {
        let ghost s = self@;
        let mut w = reversed(vec_from_array(self));
        let ghost start = out@;
        while w.len() > 0
            invariant
                w.len() <= s.len(),
                forall|i: int| 0 <= i < w.len() ==> w[i] == s[s.len() - 1 - i],
                out@ == start + flat(s.subrange(0, s.len() - w.len())),
            decreases w.len(),
        {
            let ghost k = s.len() - w.len();
            let x = w.pop().unwrap();
            x.into_leaves(out);
            proof {
                assert(s.subrange(0, k + 1).drop_last() =~= s.subrange(0, k));
                assert(out@ =~= start + flat(s.subrange(0, k + 1)));
            }
        }
        assert(s.subrange(0, s.len() as int) =~= s);
    }

    fn from_leaves(src: &mut Vec<X::Leaf>) -> (r: Self) {
        let ghost start = src@;
        let ghost w = X::width() as int;
        let mut rev: Vec<X> = Vec::new();
        let mut k: usize = 0;
        assert(flat(rev@.reverse()) =~= Seq::<X::Leaf>::empty());
        while k < N
            invariant
                k <= N,
                rev.len() == k,
                w == X::width(),
                src.len() >= (N - k) * w,
                src@ + flat(rev@.reverse()) == start,
            decreases N - k,
        {
            proof {
                lemma_one_more(N - k, w);
            }
            let ghost before = src@;
            let ghost items = rev@;
            let x = X::from_leaves(src);
            proof {
                x.lemma_leaves_len();
                lemma_flat_front(x, items.reverse());
                assert(items.push(x).reverse() =~= seq![x] + items.reverse());
                assert(src@ + flat(items.push(x).reverse()) =~= before + flat(items.reverse()));
            }
            rev.push(x);
            k += 1;
        }
        let v = reversed(rev);
        array_from_vec(v)
    }
}

} // verus!
