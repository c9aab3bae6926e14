//! Shape-polymorphic containers of leaves.
//!
//! A bundle is a composite value (a scalar, a tuple, a fixed-size array, a
//! named record) whose leaves all have one type. Its mathematical model is
//! the sequence of its leaves in order; the shape fixes how many there are.

use vstd::prelude::*;
use crate::wire::Wire;

verus! {

/// A container with a fixed number of leaves of one type.
pub trait Bundle: Sized {
    /// The type of the leaves.
    type Leaf;

    /// The number of leaves of every value of this shape.
    spec fn width() -> nat;

    /// The leaves of a value, in order.
    spec fn leaves(self) -> Seq<Self::Leaf>;

    /// Every value has exactly `width()` leaves.
    proof fn lemma_leaves_len(self)
        ensures
            self.leaves().len() == Self::width(),
    ;

    /// A value is determined by its leaves.
    proof fn lemma_leaves_unique(self, other: Self)
        requires
            self.leaves() == other.leaves(),
        ensures
            self == other,
    ;

    /// The number of leaves.
    fn size() -> (n: usize)
        requires
            Self::width() <= usize::MAX,
        ensures
            n == Self::width(),
    ;

    /// Mutable access to leaf `i`, where there is one, leaving every other
    /// leaf in place.
    fn as_mut(&mut self, i: usize) -> (leaf: Option<&mut Self::Leaf>)
        requires
            Self::width() <= usize::MAX,
        ensures
            i < Self::width() ==> leaf.is_some() && *leaf.unwrap() == old(self).leaves()[i as int]
                && final(self).leaves() == old(self).leaves().update(
                i as int,
                *final(leaf.unwrap()),
            ),
            i >= Self::width() ==> leaf.is_none() && final(self).leaves() == old(self).leaves(),
    ;

    /// Appends the leaves, in order, to `out`.
    fn into_leaves(self, out: &mut Vec<Self::Leaf>)
        ensures
            final(out)@ == old(out)@ + self.leaves(),
    ;

    /// Takes the last `width()` items of `src` as the leaves of a new value.
    fn from_leaves(src: &mut Vec<Self::Leaf>) -> (r: Self)
        requires
            old(src).len() >= Self::width(),
        ensures
            final(src)@ + r.leaves() == old(src)@,
    ;
}

/// A bundle of wires.
pub trait Wiring: Bundle<Leaf = Wire> {
}

impl<T: Bundle<Leaf = Wire>> Wiring for T {
}

impl Bundle for Wire {
    type Leaf = Wire;

    open spec fn width() -> nat {
        1
    }

    open spec fn leaves(self) -> Seq<Wire> {
        seq![self]
    }

    proof fn lemma_leaves_len(self) {
    }

    proof fn lemma_leaves_unique(self, other: Self) {
        assert(self.leaves()[0] == self);
        assert(other.leaves()[0] == other);
    }

    fn size() -> (n: usize) {
        1
    }

    fn as_mut(&mut self, i: usize) -> (leaf: Option<&mut Wire>) {
        if i == 0 {
            Some(self)
        } else {
            None
        }
    }

    fn into_leaves(self, out: &mut Vec<Wire>) {
        out.push(self);
    }

    fn from_leaves(src: &mut Vec<Wire>) -> (r: Self) {
        let r = src.pop().unwrap();
        r
    }
}

/// The scalar shape for a payload of any type: one leaf, the payload itself.
pub struct Scalar<T>(pub T);

impl<T> Bundle for Scalar<T> {
    type Leaf = T;

    open spec fn width() -> nat {
        1
    }

    open spec fn leaves(self) -> Seq<T> {
        seq![self.0]
    }

    proof fn lemma_leaves_len(self) {
    }

    proof fn lemma_leaves_unique(self, other: Self) {
        assert(self.leaves()[0] == self.0);
        assert(other.leaves()[0] == other.0);
    }

    fn size() -> (n: usize) {
        1
    }

    fn as_mut(&mut self, i: usize) -> (leaf: Option<&mut T>) {
        if i == 0 {
            Some(&mut self.0)
        } else {
            None
        }
    }

    fn into_leaves(self, out: &mut Vec<T>) {
        out.push(self.0);
    }

    fn from_leaves(src: &mut Vec<T>) -> (r: Self) {
        let r = Scalar(src.pop().unwrap());
        r
    }
}

/// The items of `v` in the opposite order.
pub fn reversed<X>(v: Vec<X>) -> (r: Vec<X>)
    ensures
        r@ == v@.reverse(),
{
    let mut v = v;
    let ghost s = v@;
    let mut r: Vec<X> = Vec::new();
    while v.len() > 0
        invariant
            v.len() + r.len() == s.len(),
            v@ == s.subrange(0, v.len() as int),
            forall|i: int| 0 <= i < r.len() ==> r[i] == s[s.len() - 1 - i],
        decreases v.len(),
    {
        let x = v.pop().unwrap();
        r.push(x);
    }
    assert(r@ =~= s.reverse());
    r
}

/// The leaves of a bundle as a vector, in order.
pub fn leaves_of<S: Bundle>(t: S) -> (v: Vec<S::Leaf>)
    ensures
        v@ == t.leaves(),
{
    let mut v: Vec<S::Leaf> = Vec::new();
    t.into_leaves(&mut v);
    assert(v@ =~= t.leaves());
    v
}

/// The bundle whose leaves are the items of a vector, in order.
pub fn bundle_of<S: Bundle>(v: Vec<S::Leaf>) -> (t: S)
    requires
        v.len() == S::width(),
    ensures
        t.leaves() == v@,
{
    let mut v = v;
    let ghost s = v@;
    let t = S::from_leaves(&mut v);
    proof {
        t.lemma_leaves_len();
        assert(v@.len() == 0);
        assert(t.leaves() =~= v@ + t.leaves());
    }
    t
}

/// Applies `f` to every leaf of `t` and packs the results, in the same
/// order, into a bundle of the same width.
pub fn map<S: Bundle, R: Bundle, F: Fn(S::Leaf) -> R::Leaf>(t: S, f: F) -> (r: R)
    requires
        S::width() == R::width(),
        forall|i: int| 0 <= i < S::width() ==> call_requires(f, (#[trigger] t.leaves()[i],)),
    ensures
        forall|i: int|
            0 <= i < S::width() ==> call_ensures(f, (t.leaves()[i],), #[trigger] r.leaves()[i]),
{
    proof {
        t.lemma_leaves_len();
    }
    let ghost s = t.leaves();
    let mut rest = reversed(leaves_of(t));
    let mut done: Vec<R::Leaf> = Vec::new();
    while rest.len() > 0
        invariant
            rest.len() + done.len() == s.len(),
            forall|i: int| 0 <= i < rest.len() ==> rest[i] == s[s.len() - 1 - i],
            forall|i: int| 0 <= i < s.len() ==> call_requires(f, (#[trigger] s[i],)),
            forall|i: int| 0 <= i < done.len() ==> call_ensures(f, (s[i],), #[trigger] done[i]),
        decreases rest.len(),
    {
        let x = rest.pop().unwrap();
        assert(x == s[done.len() as int]);
        let y = f(x);
        done.push(y);
    }
    bundle_of(done)
}

/// Whether `r` holds the leaves of `x` with the two levels of nesting
/// exchanged: leaf `j` of leaf `i` of `r` is leaf `i` of leaf `j` of `x`.
pub open spec fn transposed<O, I, RO, RI>(x: O, r: RO) -> bool where
    O: Bundle<Leaf = I>,
    I: Bundle,
    RO: Bundle<Leaf = RI>,
    RI: Bundle<Leaf = I::Leaf>,
 {
    &&& RO::width() == I::width()
    &&& RI::width() == O::width()
    &&& forall|i: int, j: int|
        0 <= i < I::width() && 0 <= j < O::width() ==> #[trigger] r.leaves()[i].leaves()[j]
            == x.leaves()[j].leaves()[i]
}

/// Exchanges the two levels of a bundle of bundles: from `x`, whose leaves
/// are bundles of one shape, makes a bundle of that shape whose leaves are
/// bundles of the shape of `x`.
pub fn transpose<O, I, RO, RI>(x: O) -> (r: RO) where
    O: Bundle<Leaf = I>,
    I: Bundle,
    RO: Bundle<Leaf = RI>,
    RI: Bundle<Leaf = I::Leaf>,

    requires
        RO::width() == I::width(),
        RI::width() == O::width(),
        I::width() <= usize::MAX,
    ensures
        transposed::<O, I, RO, RI>(x, r),
{
    let ghost xs = x.leaves();
    proof {
        x.lemma_leaves_len();
    }
    let n = I::size();
    let mut rows = reversed(leaves_of(x));
    let mut m: Vec<Vec<I::Leaf>> = Vec::new();
    while rows.len() > 0
        invariant
            rows.len() + m.len() == xs.len(),
            forall|k: int| 0 <= k < rows.len() ==> rows[k] == xs[xs.len() - 1 - k],
            forall|j: int| 0 <= j < m.len() ==> (#[trigger] m[j])@ == xs[j].leaves().reverse(),
        decreases rows.len(),
    {
        let row = rows.pop().unwrap();
        let line = reversed(leaves_of(row));
        m.push(line);
    }
    proof {
        assert forall|j: int| 0 <= j < m.len() implies (#[trigger] m[j]).len() == n by {
            xs[j].lemma_leaves_len();
        }
    }
    let mut out: Vec<RI> = Vec::new();
    let mut i: usize = 0;
    while i < n
        invariant
            i <= n,
            n == I::width(),
            m.len() == xs.len(),
            xs.len() == RI::width(),
            out.len() == i,
            forall|j: int| 0 <= j < m.len() ==> (#[trigger] m[j]).len() == n - i,
            forall|j: int, p: int|
                0 <= j < m.len() && 0 <= p < n - i ==> (#[trigger] m[j][p]) == xs[j].leaves()[n
                    - 1 - p],
            forall|a: int, j: int|
                0 <= a < i && 0 <= j < xs.len() ==> (#[trigger] out[a].leaves()[j])
                    == xs[j].leaves()[a],
        decreases n - i,
    {
        let mut col: Vec<I::Leaf> = Vec::new();
        let mut j: usize = 0;
        while j < m.len()
            invariant
                j <= m.len(),
                i < n,
                m.len() == xs.len(),
                col.len() == j,
                forall|b: int| 0 <= b < j ==> (#[trigger] m[b]).len() == n - i - 1,
                forall|b: int| j <= b < m.len() ==> (#[trigger] m[b]).len() == n - i,
                forall|b: int, p: int|
                    0 <= b < m.len() && 0 <= p < m[b].len() ==> (#[trigger] m[b][p])
                        == xs[b].leaves()[n - 1 - p],
                forall|b: int| 0 <= b < j ==> (#[trigger] col[b]) == xs[b].leaves()[i as int],
            decreases m.len() - j,
        {
            let leaf = m[j].pop().unwrap();
            col.push(leaf);
            j += 1;
        }
        let ri: RI = bundle_of(col);
        out.push(ri);
        i += 1;
    }
    bundle_of(out)
}

/// Exchanging the two levels twice gives the value back.
pub proof fn lemma_transpose_round_trip<O, I, RO, RI>(x: O, y: RO, z: O) where
    O: Bundle<Leaf = I>,
    I: Bundle,
    RO: Bundle<Leaf = RI>,
    RI: Bundle<Leaf = I::Leaf>,

    requires
        transposed::<O, I, RO, RI>(x, y),
        transposed::<RO, RI, O, I>(y, z),
    ensures
        z == x,
{
    x.lemma_leaves_len();
    z.lemma_leaves_len();
    assert forall|j: int| 0 <= j < O::width() implies z.leaves()[j] == x.leaves()[j] by {
        let a = z.leaves()[j];
        let b = x.leaves()[j];
        a.lemma_leaves_len();
        b.lemma_leaves_len();
        assert forall|i: int| 0 <= i < I::width() implies a.leaves()[i] == b.leaves()[i] by {
            assert(z.leaves()[j].leaves()[i] == y.leaves()[i].leaves()[j]);
            assert(y.leaves()[i].leaves()[j] == x.leaves()[j].leaves()[i]);
        }
        assert(a.leaves() =~= b.leaves());
        a.lemma_leaves_unique(b);
    }
    assert(z.leaves() =~= x.leaves());
    z.lemma_leaves_unique(x);
}

/// Mutable access to the last leaf of a bundle of wires.
pub fn last<T: Wiring>(t: &mut T) -> (w: &mut Wire)
    requires
        0 < T::width() <= usize::MAX,
    ensures
        *w == old(t).leaves().last(),
        final(t).leaves() == old(t).leaves().update(T::width() - 1, *final(w)),
{
    proof {
        t.lemma_leaves_len();
    }
    let n = T::size();
    t.as_mut(n - 1).unwrap()
}

} // verus!
