//! The register.

use vstd::prelude::*;
use crate::bundle::{Bundle, Wiring};
use crate::circuit::{
    consecutive, lemma_in_range_concat, lemma_pair_in_range, wires_in_range, Circuit,
};
use crate::component::{
    allocated, described, gated, lemma_placed_grown, placed, used, Description,
};
use crate::components::not::Not;
use crate::components::select::Select;
use crate::wire::Wire;

verus! {

/// The wires of a register: `val` takes the value of `new` while `set` is
/// TRUE and keeps it while `set` is FALSE.
#[derive(Debug, Clone, Copy)]
pub struct Register<T> {
    /// Whether the register takes a new value.
    pub set: Wire,
    /// The value that it takes.
    pub new: T,
    /// The value that it holds.
    pub val: T,
}

impl<T: Bundle<Leaf = Wire>> Bundle for Register<T> {
    type Leaf = Wire;

    open spec fn width() -> nat {
        1 + T::width() + T::width()
    }

    open spec fn leaves(self) -> Seq<Wire> {
        seq![self.set] + self.new.leaves() + self.val.leaves()
    }

    proof fn lemma_leaves_len(self) {
        self.new.lemma_leaves_len();
        self.val.lemma_leaves_len();
    }

    proof fn lemma_leaves_unique(self, other: Self) {
        self.new.lemma_leaves_len();
        self.val.lemma_leaves_len();
        other.new.lemma_leaves_len();
        other.val.lemma_leaves_len();
        let n1 = 1 + T::width();
        let n2 = n1 + T::width();
        assert(self.leaves()[0] == self.set);
        assert(other.leaves()[0] == other.set);
        assert(self.new.leaves() =~= self.leaves().subrange(1, n1 as int));
        assert(other.new.leaves() =~= other.leaves().subrange(1, n1 as int));
        assert(self.val.leaves() =~= self.leaves().subrange(n1 as int, n2 as int));
        assert(other.val.leaves() =~= other.leaves().subrange(n1 as int, n2 as int));
        self.new.lemma_leaves_unique(other.new);
        self.val.lemma_leaves_unique(other.val);
    }

    fn size() -> (n: usize) {
        1 + T::size() + T::size()
    }

    fn as_mut(&mut self, i: usize) -> (leaf: Option<&mut Wire>) {
        proof {
            self.new.lemma_leaves_len();
            self.val.lemma_leaves_len();
        }
        if i == 0 {
            return Some(&mut self.set);
        }
        let n = T::size();
        if i - 1 < n {
            return self.new.as_mut(i - 1);
        }
        self.val.as_mut(i - 1 - n)
    }

    fn into_leaves(self, out: &mut Vec<Wire>) {
        let ghost start = out@;
        out.push(self.set);
        self.new.into_leaves(out);
        self.val.into_leaves(out);
        assert(out@ =~= start + self.leaves());
    }

    fn from_leaves(src: &mut Vec<Wire>) -> (r: Self) {
        let ghost start = src@;
        let val = T::from_leaves(src);
        proof {
            val.lemma_leaves_len();
        }
        let new = T::from_leaves(src);
        proof {
            new.lemma_leaves_len();
        }
        let set = src.pop().unwrap();
        let r = Register { set, new, val };
        assert(src@ + r.leaves() =~= start);
        r
    }
}

/// The key of the register.
pub const REGISTER: u64 = 9;

/// The logic of the register between a clock and the wires of a register.
pub struct RegisterLogic;

impl<T: Wiring + Copy> Description<(Wire, Register<T>)> for RegisterLogic {
    open spec fn key(&self) -> u64 {
        REGISTER
    }

    open spec fn ready(&self) -> bool {
        1 + T::width() + T::width() + T::width() + 2 <= usize::MAX
    }

    open spec fn built(&self, before: &Circuit, after: &Circuit, wiring: (Wire, Register<T>)) -> bool {
        let (cl, reg) = wiring;
        let n = before.wires.len() as nat;
        let ncl = Wire(n as usize);
        let x = Wire((n + 1) as usize);
        let y = Wire((n + 2) as usize);
        let v = consecutive(n + 3, T::width());
        exists|m1: Circuit, m2: Circuit, m3: Circuit, m4: Circuit|
            #![trigger m1.wf(), m2.wf(), m3.wf(), m4.wf()]
            allocated(before, &m1, 3 + T::width()) && used::<(Wire, Wire), Not>(
                &m1,
                &m2,
                &Not,
                seq![cl, ncl],
            ) && gated(&m2, &m3, seq![(reg.set, ncl, x), (reg.set, cl, y)]) && used::<
                (Wire, T, T, T),
                Select,
            >(&m3, &m4, &Select, seq![x] + reg.new.leaves() + v + v) && used::<
                (Wire, T, T, T),
                Select,
            >(&m4, after, &Select, seq![y] + reg.val.leaves() + v + reg.val.leaves())
    }

    fn id(&self) -> (k: u64) {
        REGISTER
    }

    fn build(&self, circuit: &mut Circuit, wiring: (Wire, Register<T>)) {
        let (cl, reg) = wiring;
        let ghost n = circuit.wires.len() as nat;
        proof {
            lemma_in_range_concat(cl.leaves(), reg.leaves(), n);
            lemma_in_range_concat(seq![reg.set] + reg.new.leaves(), reg.val.leaves(), n);
            lemma_in_range_concat(seq![reg.set], reg.new.leaves(), n);
            assert(cl.leaves()[0] == cl);
            assert(seq![reg.set][0] == reg.set);
        }
        let ncl = circuit.allocate();
        let x = circuit.allocate();
        let y = circuit.allocate();
        let v: T = circuit.wiring();
        let ghost m1 = *circuit;
        proof {
            lemma_pair_in_range(cl, ncl, circuit.wires.len() as nat);
        }
        circuit.not(cl, ncl);
        let ghost m2 = *circuit;
        circuit.gate(reg.set, ncl, x);
        circuit.gate(reg.set, cl, y);
        let ghost m3 = *circuit;
        proof {
            let m = circuit.wires.len() as nat;
            assert(wires_in_range(x.leaves(), m));
            lemma_in_range_concat(x.leaves(), reg.new.leaves(), m);
            lemma_in_range_concat(x.leaves() + reg.new.leaves(), v.leaves(), m);
            lemma_in_range_concat(x.leaves() + reg.new.leaves() + v.leaves(), v.leaves(), m);
        }
        circuit.select(x, reg.new, v, v);
        let ghost m4 = *circuit;
        proof {
            let m = circuit.wires.len() as nat;
            assert(wires_in_range(y.leaves(), m));
            lemma_in_range_concat(y.leaves(), reg.val.leaves(), m);
            lemma_in_range_concat(y.leaves() + reg.val.leaves(), v.leaves(), m);
            lemma_in_range_concat(y.leaves() + reg.val.leaves() + v.leaves(), reg.val.leaves(), m);
        }
        circuit.select(y, reg.val, v, reg.val);
        proof {
            v.lemma_leaves_len();
            assert(m1.wires@ =~= old(circuit).wires@ + Seq::new(
                (3 + T::width()) as nat,
                |i: int| false,
            ));
            assert(cl.leaves() + ncl.leaves() =~= seq![cl, ncl]);
            assert(m3.nands@ =~= m2.nands@ + seq![(reg.set, ncl, x), (reg.set, cl, y)]);
            assert(x.leaves() =~= seq![x]);
            assert(y.leaves() =~= seq![y]);
            assert(m1.wf() && m2.wf() && m3.wf() && m4.wf());
        }
    }
}

impl Circuit {
    /// Appends a copy of the register between the clock `cl` and the wires
    /// `reg`.
    pub fn register<T: Wiring + Copy>(&mut self, cl: Wire, reg: Register<T>)
        requires
            old(self).wf(),
            1 + T::width() + T::width() + T::width() + 2 <= usize::MAX,
        ensures
            placed(old(self), final(self), REGISTER, cl.leaves() + reg.leaves()),
            described::<(Wire, Register<T>), RegisterLogic>(old(self), final(self), &RegisterLogic),
            final(self).grown_from(old(self)),
            old(self).closed() && wires_in_range(
                cl.leaves() + reg.leaves(),
                old(self).wires.len() as nat,
            ) ==> final(self).closed(),
    {
        self.component((cl, reg), RegisterLogic);
        proof {
            lemma_placed_grown(old(self), self, REGISTER, cl.leaves() + reg.leaves());
        }
    }
}

} // verus!
