//! The cache of synthesized components and the splicing of a cached
//! component into a circuit.

use vstd::prelude::*;
use crate::table::Places;
use crate::circuit::{gates_in_range, Gate};
use crate::wire::Wire;

verus! {

/// A component that was synthesized once: a netlist whose first wires after
/// the constants are its ports.
#[derive(Debug, Clone)]
pub struct Template {
    /// The key of the description that the component was made from.
    pub id: u64,
    /// The number of ports.
    pub inputs: usize,
    /// The number of wires, the constants and the ports included.
    pub size: usize,
    /// The gates.
    pub nands: Vec<Gate>,
}

impl Template {
    /// The ports and the constants are wires of the component, and every
    /// gate reads and writes wires of the component.
    pub open spec fn wf(&self) -> bool {
        &&& self.inputs + 2 <= self.size
        &&& gates_in_range(self.nands@, self.size as nat)
    }

    /// The number of wires that are neither constants nor ports.
    pub open spec fn inner(&self) -> nat {
        (self.size - 2 - self.inputs) as nat
    }
}

/// The components synthesized so far, in the order of their synthesis,
/// and where each is found under its key. Nothing is ever removed or
/// replaced.
#[derive(Debug, Clone)]
pub struct Memo {
    /// The components.
    pub templates: Vec<Template>,
    /// For each key, the place of the component that has it.
    pub index: Places,
}

/// Whether the template at `i` has the key `(id, inputs)`.
pub open spec fn keyed(templates: Seq<Template>, i: int, id: u64, inputs: nat) -> bool {
    0 <= i < templates.len() && templates[i].id == id && templates[i].inputs == inputs
}

/// Whether no two templates have the same key.
#[verifier::opaque]
pub open spec fn distinct(templates: Seq<Template>) -> bool {
    forall|i: int, j: int|
        0 <= i < j < templates.len() ==> (#[trigger] templates[i]).id != (
        #[trigger] templates[j]).id || templates[i].inputs != templates[j].inputs
}

/// Whether `index` has, for each key that a template has, and for no
/// other, the place of the first template with it.
#[verifier::opaque]
pub open spec fn indexed(templates: Seq<Template>, index: Map<(u64, usize), usize>) -> bool {
    forall|key: (u64, usize)|
        (#[trigger] index.contains_key(key) <==> has_key(templates, key.0, key.1 as nat)) && (
        index.contains_key(key) ==> index[key] == place(templates, key.0, key.1 as nat))
}

/// Whether some template has the key `(id, inputs)`.
pub open spec fn has_key(templates: Seq<Template>, id: u64, inputs: nat) -> bool {
    exists|i: int| keyed(templates, i, id, inputs)
}

/// The place of the first template with the key `(id, inputs)`.
pub open spec fn place(templates: Seq<Template>, id: u64, inputs: nat) -> int
    decreases templates.len(),
{
    if templates.len() == 0 {
        0
    } else if has_key(templates.drop_last(), id, inputs) {
        place(templates.drop_last(), id, inputs)
    } else {
        templates.len() - 1
    }
}

/// Where some template has a key, the one at its place has it and none
/// before that has it.
pub proof fn lemma_place_first(templates: Seq<Template>, id: u64, inputs: nat)
    requires
        has_key(templates, id, inputs),
    ensures
        keyed(templates, place(templates, id, inputs), id, inputs),
        forall|j: int|
            0 <= j < place(templates, id, inputs) ==> !keyed(templates, j, id, inputs),
    decreases templates.len(),
{
    let i = choose|i: int| keyed(templates, i, id, inputs);
    let shorter = templates.drop_last();
    if has_key(shorter, id, inputs) {
        lemma_place_first(shorter, id, inputs);
        let p = place(shorter, id, inputs);
        assert(templates[p] == shorter[p]);
        assert forall|j: int| 0 <= j < p implies !keyed(templates, j, id, inputs) by {
            assert(templates[j] == shorter[j]);
            assert(!keyed(shorter, j, id, inputs));
        }
    } else {
        assert forall|j: int| 0 <= j < templates.len() - 1 implies !keyed(
            templates,
            j,
            id,
            inputs,
        ) by {
            if keyed(templates, j, id, inputs) {
                assert(templates[j] == shorter[j]);
                assert(keyed(shorter, j, id, inputs));
            }
        }
        assert(i == templates.len() - 1);
    }
}

/// A template with a key that no earlier one has is the first with it.
pub proof fn lemma_place(templates: Seq<Template>, id: u64, inputs: nat, i: int)
    requires
        keyed(templates, i, id, inputs),
        forall|j: int| 0 <= j < i ==> !keyed(templates, j, id, inputs),
    ensures
        place(templates, id, inputs) == i,
{
    lemma_place_first(templates, id, inputs);
    let p = place(templates, id, inputs);
    if p < i {
        assert(!keyed(templates, p, id, inputs));
    }
    if i < p {
        assert(!keyed(templates, i, id, inputs));
    }
}

impl Memo {
    /// Every component is well formed, no two have the same key, and each
    /// is found under its key.
    pub open spec fn wf(&self) -> bool {
        &&& forall|i: int| 0 <= i < self.templates.len() ==> (#[trigger] self.templates[i]).wf()
        &&& distinct(self.templates@)
        &&& indexed(self.templates@, self.index@)
    }

    /// Whether a component with the key `(id, inputs)` has been synthesized.
    pub open spec fn has(&self, id: u64, inputs: nat) -> bool {
        has_key(self.templates@, id, inputs)
    }

    /// The component with the key `(id, inputs)`.
    pub open spec fn template(&self, id: u64, inputs: nat) -> Template {
        self.templates[place(self.templates@, id, inputs)]
    }

    /// Whether `self` holds the components of `earlier`, in the same
    /// places, and maybe more after them.
    pub open spec fn extends(&self, earlier: &Memo) -> bool {
        &&& earlier.templates.len() <= self.templates.len()
        &&& forall|i: int|
            0 <= i < earlier.templates.len() ==> (#[trigger] self.templates[i])
                == earlier.templates[i]
    }

    /// A memo without components.
    pub fn new() -> (m: Memo)
        ensures
            m.templates@ == Seq::<Template>::empty(),
            m.wf(),
    {
        let m = Memo { templates: Vec::new(), index: Places::new() };
        proof {
            reveal(distinct);
            reveal(indexed);
            assert forall|key: (u64, usize)| !has_key(m.templates@, key.0, key.1 as nat) by {
                if has_key(m.templates@, key.0, key.1 as nat) {
                    let i = choose|i: int| keyed(m.templates@, i, key.0, key.1 as nat);
                }
            }
        }
        m
    }

    /// How many components have been synthesized.
    pub fn syntheses(&self) -> (n: usize)
        ensures
            n == self.templates.len(),
    {
        self.templates.len()
    }

    /// The place of the component with the key `(id, inputs)`, if it has
    /// been synthesized.
    pub fn find(&self, id: u64, inputs: usize) -> (r: Option<usize>)
        requires
            self.wf(),
        ensures
            match r {
                Some(i) => self.has(id, inputs as nat) && i == place(
                    self.templates@,
                    id,
                    inputs as nat,
                ) && i < self.templates.len(),
                None => !self.has(id, inputs as nat),
            },
    {
        let ghost key = (id, inputs);
        proof {
            reveal(indexed);
            assert(self.index@.contains_key(key) <==> has_key(self.templates@, id, inputs as nat));
            if self.has(id, inputs as nat) {
                lemma_place_first(self.templates@, id, inputs as nat);
            }
        }
        self.index.get(id, inputs)
    }

    /// Puts a component with a key that no component has behind the
    /// others.
    pub fn put(&mut self, t: Template)
        requires
            old(self).wf(),
            t.wf(),
            !old(self).has(t.id, t.inputs as nat),
        ensures
            final(self).wf(),
            final(self).templates@ == old(self).templates@.push(t),
    {
        let ghost key = (t.id, t.inputs);
        let id = t.id;
        let inputs = t.inputs;
        let at = self.templates.len();
        let ghost before = self.templates@;
        let ghost was = self.index@;
        self.templates.push(t);
        self.index.insert(id, inputs, at);
        proof {
            let after = self.templates@;
            assert(after.drop_last() =~= before);
            assert(after[at as int] == t);
            assert(keyed(after, at as int, key.0, key.1 as nat));
            assert forall|i: int| 0 <= i < after.len() implies (#[trigger] after[i]).wf() by {
                if i < at {
                    assert(after[i] == before[i]);
                }
            }
            assert(distinct(after)) by {
                reveal(distinct);
                assert forall|a: int, b: int| 0 <= a < b < after.len() implies (
                #[trigger] after[a]).id != (#[trigger] after[b]).id || after[a].inputs
                    != after[b].inputs by {
                    assert(after[a] == before[a]);
                    if b < at {
                        assert(after[b] == before[b]);
                    } else {
                        assert(!keyed(before, a, key.0, key.1 as nat));
                    }
                }
            }
            assert(indexed(after, self.index@)) by {
                reveal(indexed);
                assert forall|k: (u64, usize)|
                    (#[trigger] self.index@.contains_key(k) <==> has_key(after, k.0, k.1 as nat))
                        && (self.index@.contains_key(k) ==> self.index@[k] == place(
                        after,
                        k.0,
                        k.1 as nat,
                    )) by {
                    assert(was.contains_key(k) <==> has_key(before, k.0, k.1 as nat));
                    if has_key(before, k.0, k.1 as nat) {
                        let i = choose|i: int| keyed(before, i, k.0, k.1 as nat);
                        assert(after[i] == before[i]);
                        assert(keyed(after, i, k.0, k.1 as nat));
                        assert(k != key);
                    }
                    if has_key(after, k.0, k.1 as nat) && !has_key(before, k.0, k.1 as nat) {
                        let i = choose|i: int| keyed(after, i, k.0, k.1 as nat);
                        if i < at {
                            assert(after[i] == before[i]);
                            assert(keyed(before, i, k.0, k.1 as nat));
                        }
                        assert(k == key);
                    }
                }
            }
        }
    }
}

/// A component stays where it is, and is the one found under its key, in
/// every memo that extends the one it is in.
pub proof fn lemma_extends_keeps(later: &Memo, earlier: &Memo, id: u64, inputs: nat)
    requires
        later.extends(earlier),
        earlier.has(id, inputs),
    ensures
        later.has(id, inputs),
        later.template(id, inputs) == earlier.template(id, inputs),
{
    lemma_place_first(earlier.templates@, id, inputs);
    let p = place(earlier.templates@, id, inputs);
    assert(later.templates[p] == earlier.templates[p]);
    assert(keyed(later.templates@, p, id, inputs));
    assert forall|j: int| 0 <= j < p implies !keyed(later.templates@, j, id, inputs) by {
        assert(later.templates[j] == earlier.templates[j]);
        assert(!keyed(earlier.templates@, j, id, inputs));
    }
    lemma_place(later.templates@, id, inputs, p);
}

/// The wire of the circuit that stands for the wire `w` of a component: a
/// constant for itself, a port for the argument given for it, any other
/// wire for its fresh copy, the copies starting at `start`.
pub open spec fn translate(w: Wire, args: Seq<Wire>, start: nat) -> Wire {
    if w.0 < 2 {
        w
    } else if w.0 - 2 < args.len() {
        args[w.0 - 2]
    } else {
        Wire((start + w.0 - 2 - args.len()) as usize)
    }
}

/// The gates of a component as they are appended to a circuit: each with
/// its wires translated, in order, but none whose output is the void wire.
pub open spec fn spliced(gates: Seq<Gate>, args: Seq<Wire>, start: nat) -> Seq<Gate>
    decreases gates.len(),
{
    if gates.len() == 0 {
        Seq::empty()
    } else {
        let rest = spliced(gates.drop_last(), args, start);
        let g = gates.last();
        let o = translate(g.2, args, start);
        if o == Wire::spec_void() {
            rest
        } else {
            rest.push((translate(g.0, args, start), translate(g.1, args, start), o))
        }
    }
}

} // verus!
