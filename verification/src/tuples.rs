//! Tuples of bundles as bundles: the leaves of the fields, field after field.

use vstd::prelude::*;
use crate::bundle::Bundle;
use crate::wire::Wire;

verus! {

impl Bundle for () {
    type Leaf = Wire;

    open spec fn width() -> nat {
        0
    }

    open spec fn leaves(self) -> Seq<Wire> {
        Seq::empty()
    }

    proof fn lemma_leaves_len(self) {
    }

    proof fn lemma_leaves_unique(self, other: Self) {
    }

    fn size() -> (n: usize) {
        0
    }

    fn as_mut(&mut self, i: usize) -> (leaf: Option<&mut Wire>) {
        None
    }

    fn into_leaves(self, out: &mut Vec<Wire>) {
        assert(out@ + self.leaves() =~= out@);
    }

    fn from_leaves(src: &mut Vec<Wire>) -> (r: Self) {
        assert(src@ + ().leaves() =~= src@);
        ()
    }
}

impl<A: Bundle> Bundle for (A,) {
    type Leaf = A::Leaf;

    open spec fn width() -> nat {
        A::width()
    }

    open spec fn leaves(self) -> Seq<A::Leaf> {
        self.0.leaves()
    }

    proof fn lemma_leaves_len(self) {
        self.0.lemma_leaves_len();
    }

    proof fn lemma_leaves_unique(self, other: Self) {
        self.0.lemma_leaves_len();
        other.0.lemma_leaves_len();
        let n0 = 0int;
        let n1 = n0 + A::width();
        assert(self.0.leaves() =~= self.leaves().subrange(n0, n1));
        assert(other.0.leaves() =~= other.leaves().subrange(n0, n1));
        self.0.lemma_leaves_unique(other.0);
        assert(self =~= other);
    }

    fn size() -> (n: usize) {
        A::size()
    }

    fn as_mut(&mut self, i: usize) -> (leaf: Option<&mut A::Leaf>) {
        proof {
            self.0.lemma_leaves_len();
        }
        self.0.as_mut(i)
    }

    fn into_leaves(self, out: &mut Vec<A::Leaf>) {
        let ghost start = out@;
        self.0.into_leaves(out);
        assert(out@ =~= start + self.leaves());
    }

    fn from_leaves(src: &mut Vec<A::Leaf>) -> (r: Self) {
        let ghost start = src@;
        let x0 = A::from_leaves(src);
        let r = (x0,);
        assert(src@ + r.leaves() =~= start);
        r
    }
}

impl<A: Bundle, B: Bundle<Leaf = A::Leaf>> Bundle for (A, B) {
    type Leaf = A::Leaf;

    open spec fn width() -> nat {
        A::width() + B::width()
    }

    open spec fn leaves(self) -> Seq<A::Leaf> {
        self.0.leaves() + self.1.leaves()
    }

    proof fn lemma_leaves_len(self) {
        self.0.lemma_leaves_len();
        self.1.lemma_leaves_len();
    }

    proof fn lemma_leaves_unique(self, other: Self) {
        self.0.lemma_leaves_len();
        other.0.lemma_leaves_len();
        self.1.lemma_leaves_len();
        other.1.lemma_leaves_len();
        let n0 = 0int;
        let n1 = n0 + A::width();
        let n2 = n1 + B::width();
        assert(self.0.leaves() =~= self.leaves().subrange(n0, n1));
        assert(other.0.leaves() =~= other.leaves().subrange(n0, n1));
        self.0.lemma_leaves_unique(other.0);
        assert(self.1.leaves() =~= self.leaves().subrange(n1, n2));
        assert(other.1.leaves() =~= other.leaves().subrange(n1, n2));
        self.1.lemma_leaves_unique(other.1);
        assert(self =~= other);
    }

    fn size() -> (n: usize) {
        A::size() + B::size()
    }

    fn as_mut(&mut self, i: usize) -> (leaf: Option<&mut A::Leaf>) {
        proof {
            self.0.lemma_leaves_len();
            self.1.lemma_leaves_len();
        }
        let n0 = A::size();
        if i < n0 {
            return self.0.as_mut(i);
        }
        self.1.as_mut(i - n0)
    }

    fn into_leaves(self, out: &mut Vec<A::Leaf>) {
        let ghost start = out@;
        self.0.into_leaves(out);
        self.1.into_leaves(out);
        assert(out@ =~= start + self.leaves());
    }

    fn from_leaves(src: &mut Vec<A::Leaf>) -> (r: Self) {
        let ghost start = src@;
        let x1 = B::from_leaves(src);
        proof {
            x1.lemma_leaves_len();
        }
        let x0 = A::from_leaves(src);
        let r = (x0, x1);
        assert(src@ + r.leaves() =~= start);
        r
    }
}

impl<A: Bundle, B: Bundle<Leaf = A::Leaf>, C: Bundle<Leaf = A::Leaf>> Bundle for (A, B, C) {
    type Leaf = A::Leaf;

    open spec fn width() -> nat {
        A::width() + B::width() + C::width()
    }

    open spec fn leaves(self) -> Seq<A::Leaf> {
        self.0.leaves() + self.1.leaves() + self.2.leaves()
    }

    proof fn lemma_leaves_len(self) {
        self.0.lemma_leaves_len();
        self.1.lemma_leaves_len();
        self.2.lemma_leaves_len();
    }

    proof fn lemma_leaves_unique(self, other: Self) {
        self.0.lemma_leaves_len();
        other.0.lemma_leaves_len();
        self.1.lemma_leaves_len();
        other.1.lemma_leaves_len();
        self.2.lemma_leaves_len();
        other.2.lemma_leaves_len();
        let n0 = 0int;
        let n1 = n0 + A::width();
        let n2 = n1 + B::width();
        let n3 = n2 + C::width();
        assert(self.0.leaves() =~= self.leaves().subrange(n0, n1));
        assert(other.0.leaves() =~= other.leaves().subrange(n0, n1));
        self.0.lemma_leaves_unique(other.0);
        assert(self.1.leaves() =~= self.leaves().subrange(n1, n2));
        assert(other.1.leaves() =~= other.leaves().subrange(n1, n2));
        self.1.lemma_leaves_unique(other.1);
        assert(self.2.leaves() =~= self.leaves().subrange(n2, n3));
        assert(other.2.leaves() =~= other.leaves().subrange(n2, n3));
        self.2.lemma_leaves_unique(other.2);
        assert(self =~= other);
    }

    fn size() -> (n: usize) {
        A::size() + B::size() + C::size()
    }

    fn as_mut(&mut self, i: usize) -> (leaf: Option<&mut A::Leaf>) {
        proof {
            self.0.lemma_leaves_len();
            self.1.lemma_leaves_len();
            self.2.lemma_leaves_len();
        }
        let n0 = A::size();
        if i < n0 {
            return self.0.as_mut(i);
        }
        let n1 = n0 + B::size();
        if i < n1 {
            return self.1.as_mut(i - n0);
        }
        self.2.as_mut(i - n1)
    }

    fn into_leaves(self, out: &mut Vec<A::Leaf>) {
        let ghost start = out@;
        self.0.into_leaves(out);
        self.1.into_leaves(out);
        self.2.into_leaves(out);
        assert(out@ =~= start + self.leaves());
    }

    fn from_leaves(src: &mut Vec<A::Leaf>) -> (r: Self) {
        let ghost start = src@;
        let x2 = C::from_leaves(src);
        proof {
            x2.lemma_leaves_len();
        }
        let x1 = B::from_leaves(src);
        proof {
            x1.lemma_leaves_len();
        }
        let x0 = A::from_leaves(src);
        let r = (x0, x1, x2);
        assert(src@ + r.leaves() =~= start);
        r
    }
}

impl<A: Bundle, B: Bundle<Leaf = A::Leaf>, C: Bundle<Leaf = A::Leaf>, D: Bundle<Leaf = A::Leaf>> Bundle for (A, B, C, D) {
    type Leaf = A::Leaf;

    open spec fn width() -> nat {
        A::width() + B::width() + C::width() + D::width()
    }

    open spec fn leaves(self) -> Seq<A::Leaf> {
        self.0.leaves() + self.1.leaves() + self.2.leaves() + self.3.leaves()
    }

    proof fn lemma_leaves_len(self) {
        self.0.lemma_leaves_len();
        self.1.lemma_leaves_len();
        self.2.lemma_leaves_len();
        self.3.lemma_leaves_len();
    }

    proof fn lemma_leaves_unique(self, other: Self) {
        self.0.lemma_leaves_len();
        other.0.lemma_leaves_len();
        self.1.lemma_leaves_len();
        other.1.lemma_leaves_len();
        self.2.lemma_leaves_len();
        other.2.lemma_leaves_len();
        self.3.lemma_leaves_len();
        other.3.lemma_leaves_len();
        let n0 = 0int;
        let n1 = n0 + A::width();
        let n2 = n1 + B::width();
        let n3 = n2 + C::width();
        let n4 = n3 + D::width();
        assert(self.0.leaves() =~= self.leaves().subrange(n0, n1));
        assert(other.0.leaves() =~= other.leaves().subrange(n0, n1));
        self.0.lemma_leaves_unique(other.0);
        assert(self.1.leaves() =~= self.leaves().subrange(n1, n2));
        assert(other.1.leaves() =~= other.leaves().subrange(n1, n2));
        self.1.lemma_leaves_unique(other.1);
        assert(self.2.leaves() =~= self.leaves().subrange(n2, n3));
        assert(other.2.leaves() =~= other.leaves().subrange(n2, n3));
        self.2.lemma_leaves_unique(other.2);
        assert(self.3.leaves() =~= self.leaves().subrange(n3, n4));
        assert(other.3.leaves() =~= other.leaves().subrange(n3, n4));
        self.3.lemma_leaves_unique(other.3);
        assert(self =~= other);
    }

    fn size() -> (n: usize) {
        A::size() + B::size() + C::size() + D::size()
    }

    fn as_mut(&mut self, i: usize) -> (leaf: Option<&mut A::Leaf>) {
        proof {
            self.0.lemma_leaves_len();
            self.1.lemma_leaves_len();
            self.2.lemma_leaves_len();
            self.3.lemma_leaves_len();
        }
        let n0 = A::size();
        if i < n0 {
            return self.0.as_mut(i);
        }
        let n1 = n0 + B::size();
        if i < n1 {
            return self.1.as_mut(i - n0);
        }
        let n2 = n1 + C::size();
        if i < n2 {
            return self.2.as_mut(i - n1);
        }
        self.3.as_mut(i - n2)
    }

    fn into_leaves(self, out: &mut Vec<A::Leaf>) {
        let ghost start = out@;
        self.0.into_leaves(out);
        self.1.into_leaves(out);
        self.2.into_leaves(out);
        self.3.into_leaves(out);
        assert(out@ =~= start + self.leaves());
    }

    fn from_leaves(src: &mut Vec<A::Leaf>) -> (r: Self) {
        let ghost start = src@;
        let x3 = D::from_leaves(src);
        proof {
            x3.lemma_leaves_len();
        }
        let x2 = C::from_leaves(src);
        proof {
            x2.lemma_leaves_len();
        }
        let x1 = B::from_leaves(src);
        proof {
            x1.lemma_leaves_len();
        }
        let x0 = A::from_leaves(src);
        let r = (x0, x1, x2, x3);
        assert(src@ + r.leaves() =~= start);
        r
    }
}

impl<A: Bundle, B: Bundle<Leaf = A::Leaf>, C: Bundle<Leaf = A::Leaf>, D: Bundle<Leaf = A::Leaf>, E: Bundle<Leaf = A::Leaf>> Bundle for (A, B, C, D, E) {
    type Leaf = A::Leaf;

    open spec fn width() -> nat {
        A::width() + B::width() + C::width() + D::width() + E::width()
    }

    open spec fn leaves(self) -> Seq<A::Leaf> {
        self.0.leaves() + self.1.leaves() + self.2.leaves() + self.3.leaves() + self.4.leaves()
    }

    proof fn lemma_leaves_len(self) {
        self.0.lemma_leaves_len();
        self.1.lemma_leaves_len();
        self.2.lemma_leaves_len();
        self.3.lemma_leaves_len();
        self.4.lemma_leaves_len();
    }

    proof fn lemma_leaves_unique(self, other: Self) {
        self.0.lemma_leaves_len();
        other.0.lemma_leaves_len();
        self.1.lemma_leaves_len();
        other.1.lemma_leaves_len();
        self.2.lemma_leaves_len();
        other.2.lemma_leaves_len();
        self.3.lemma_leaves_len();
        other.3.lemma_leaves_len();
        self.4.lemma_leaves_len();
        other.4.lemma_leaves_len();
        let n0 = 0int;
        let n1 = n0 + A::width();
        let n2 = n1 + B::width();
        let n3 = n2 + C::width();
        let n4 = n3 + D::width();
        let n5 = n4 + E::width();
        assert(self.0.leaves() =~= self.leaves().subrange(n0, n1));
        assert(other.0.leaves() =~= other.leaves().subrange(n0, n1));
        self.0.lemma_leaves_unique(other.0);
        assert(self.1.leaves() =~= self.leaves().subrange(n1, n2));
        assert(other.1.leaves() =~= other.leaves().subrange(n1, n2));
        self.1.lemma_leaves_unique(other.1);
        assert(self.2.leaves() =~= self.leaves().subrange(n2, n3));
        assert(other.2.leaves() =~= other.leaves().subrange(n2, n3));
        self.2.lemma_leaves_unique(other.2);
        assert(self.3.leaves() =~= self.leaves().subrange(n3, n4));
        assert(other.3.leaves() =~= other.leaves().subrange(n3, n4));
        self.3.lemma_leaves_unique(other.3);
        assert(self.4.leaves() =~= self.leaves().subrange(n4, n5));
        assert(other.4.leaves() =~= other.leaves().subrange(n4, n5));
        self.4.lemma_leaves_unique(other.4);
        assert(self =~= other);
    }

    fn size() -> (n: usize) {
        A::size() + B::size() + C::size() + D::size() + E::size()
    }

    fn as_mut(&mut self, i: usize) -> (leaf: Option<&mut A::Leaf>) {
        proof {
            self.0.lemma_leaves_len();
            self.1.lemma_leaves_len();
            self.2.lemma_leaves_len();
            self.3.lemma_leaves_len();
            self.4.lemma_leaves_len();
        }
        let n0 = A::size();
        if i < n0 {
            return self.0.as_mut(i);
        }
        let n1 = n0 + B::size();
        if i < n1 {
            return self.1.as_mut(i - n0);
        }
        let n2 = n1 + C::size();
        if i < n2 {
            return self.2.as_mut(i - n1);
        }
        let n3 = n2 + D::size();
        if i < n3 {
            return self.3.as_mut(i - n2);
        }
        self.4.as_mut(i - n3)
    }

    fn into_leaves(self, out: &mut Vec<A::Leaf>) {
        let ghost start = out@;
        self.0.into_leaves(out);
        self.1.into_leaves(out);
        self.2.into_leaves(out);
        self.3.into_leaves(out);
        self.4.into_leaves(out);
        assert(out@ =~= start + self.leaves());
    }

    fn from_leaves(src: &mut Vec<A::Leaf>) -> (r: Self) {
        let ghost start = src@;
        let x4 = E::from_leaves(src);
        proof {
            x4.lemma_leaves_len();
        }
        let x3 = D::from_leaves(src);
        proof {
            x3.lemma_leaves_len();
        }
        let x2 = C::from_leaves(src);
        proof {
            x2.lemma_leaves_len();
        }
        let x1 = B::from_leaves(src);
        proof {
            x1.lemma_leaves_len();
        }
        let x0 = A::from_leaves(src);
        let r = (x0, x1, x2, x3, x4);
        assert(src@ + r.leaves() =~= start);
        r
    }
}

impl<A: Bundle, B: Bundle<Leaf = A::Leaf>, C: Bundle<Leaf = A::Leaf>, D: Bundle<Leaf = A::Leaf>, E: Bundle<Leaf = A::Leaf>, F: Bundle<Leaf = A::Leaf>> Bundle for (A, B, C, D, E, F) {
    type Leaf = A::Leaf;

    open spec fn width() -> nat {
        A::width() + B::width() + C::width() + D::width() + E::width() + F::width()
    }

    open spec fn leaves(self) -> Seq<A::Leaf> {
        self.0.leaves() + self.1.leaves() + self.2.leaves() + self.3.leaves() + self.4.leaves() + self.5.leaves()
    }

    proof fn lemma_leaves_len(self) {
        self.0.lemma_leaves_len();
        self.1.lemma_leaves_len();
        self.2.lemma_leaves_len();
        self.3.lemma_leaves_len();
        self.4.lemma_leaves_len();
        self.5.lemma_leaves_len();
    }

    proof fn lemma_leaves_unique(self, other: Self) {
        self.0.lemma_leaves_len();
        other.0.lemma_leaves_len();
        self.1.lemma_leaves_len();
        other.1.lemma_leaves_len();
        self.2.lemma_leaves_len();
        other.2.lemma_leaves_len();
        self.3.lemma_leaves_len();
        other.3.lemma_leaves_len();
        self.4.lemma_leaves_len();
        other.4.lemma_leaves_len();
        self.5.lemma_leaves_len();
        other.5.lemma_leaves_len();
        let n0 = 0int;
        let n1 = n0 + A::width();
        let n2 = n1 + B::width();
        let n3 = n2 + C::width();
        let n4 = n3 + D::width();
        let n5 = n4 + E::width();
        let n6 = n5 + F::width();
        assert(self.0.leaves() =~= self.leaves().subrange(n0, n1));
        assert(other.0.leaves() =~= other.leaves().subrange(n0, n1));
        self.0.lemma_leaves_unique(other.0);
        assert(self.1.leaves() =~= self.leaves().subrange(n1, n2));
        assert(other.1.leaves() =~= other.leaves().subrange(n1, n2));
        self.1.lemma_leaves_unique(other.1);
        assert(self.2.leaves() =~= self.leaves().subrange(n2, n3));
        assert(other.2.leaves() =~= other.leaves().subrange(n2, n3));
        self.2.lemma_leaves_unique(other.2);
        assert(self.3.leaves() =~= self.leaves().subrange(n3, n4));
        assert(other.3.leaves() =~= other.leaves().subrange(n3, n4));
        self.3.lemma_leaves_unique(other.3);
        assert(self.4.leaves() =~= self.leaves().subrange(n4, n5));
        assert(other.4.leaves() =~= other.leaves().subrange(n4, n5));
        self.4.lemma_leaves_unique(other.4);
        assert(self.5.leaves() =~= self.leaves().subrange(n5, n6));
        assert(other.5.leaves() =~= other.leaves().subrange(n5, n6));
        self.5.lemma_leaves_unique(other.5);
        assert(self =~= other);
    }

    fn size() -> (n: usize) {
        A::size() + B::size() + C::size() + D::size() + E::size() + F::size()
    }

    fn as_mut(&mut self, i: usize) -> (leaf: Option<&mut A::Leaf>) {
        proof {
            self.0.lemma_leaves_len();
            self.1.lemma_leaves_len();
            self.2.lemma_leaves_len();
            self.3.lemma_leaves_len();
            self.4.lemma_leaves_len();
            self.5.lemma_leaves_len();
        }
        let n0 = A::size();
        if i < n0 {
            return self.0.as_mut(i);
        }
        let n1 = n0 + B::size();
        if i < n1 {
            return self.1.as_mut(i - n0);
        }
        let n2 = n1 + C::size();
        if i < n2 {
            return self.2.as_mut(i - n1);
        }
        let n3 = n2 + D::size();
        if i < n3 {
            return self.3.as_mut(i - n2);
        }
        let n4 = n3 + E::size();
        if i < n4 {
            return self.4.as_mut(i - n3);
        }
        self.5.as_mut(i - n4)
    }

    fn into_leaves(self, out: &mut Vec<A::Leaf>) {
        let ghost start = out@;
        self.0.into_leaves(out);
        self.1.into_leaves(out);
        self.2.into_leaves(out);
        self.3.into_leaves(out);
        self.4.into_leaves(out);
        self.5.into_leaves(out);
        assert(out@ =~= start + self.leaves());
    }

    fn from_leaves(src: &mut Vec<A::Leaf>) -> (r: Self) {
        let ghost start = src@;
        let x5 = F::from_leaves(src);
        proof {
            x5.lemma_leaves_len();
        }
        let x4 = E::from_leaves(src);
        proof {
            x4.lemma_leaves_len();
        }
        let x3 = D::from_leaves(src);
        proof {
            x3.lemma_leaves_len();
        }
        let x2 = C::from_leaves(src);
        proof {
            x2.lemma_leaves_len();
        }
        let x1 = B::from_leaves(src);
        proof {
            x1.lemma_leaves_len();
        }
        let x0 = A::from_leaves(src);
        let r = (x0, x1, x2, x3, x4, x5);
        assert(src@ + r.leaves() =~= start);
        r
    }
}

} // verus!
