use nand_circuit::{Circuit, Gate, Optimizer, Wire};

fn circuit(inputs: usize, extra: usize, gates: &[(usize, usize, usize)]) -> Circuit {
    let mut c = Circuit::new(inputs);
    for _ in 0..extra {
        c.allocate();
    }
    for g in gates {
        c.gate(Wire(g.0), Wire(g.1), Wire(g.2));
    }
    assert!(c.is_closed());
    c
}

fn gates(c: &Circuit) -> Vec<(usize, usize, usize)> {
    c.nands.iter().map(|g: &Gate| (g.0 .0, g.1 .0, g.2 .0)).collect()
}

fn outputs(c: &Circuit, values: &[bool], ports: &[usize]) -> Vec<bool> {
    let mut c = c.clone();
    for (i, v) in values.iter().enumerate() {
        c.wires[2 + i] = *v;
    }
    c.update();
    ports.iter().map(|p| c.read(Wire(*p))).collect()
}

#[test]
fn gates_with_the_same_inputs_are_shared() {
    // wires 2, 3 are inputs, 4 an output; 5, 6 compute the same NAND
    let mut c = circuit(3, 2, &[(2, 3, 5), (2, 3, 6), (5, 6, 4)]);
    c.optimize();
    assert_eq!(gates(&c), vec![(3, 2, 5), (5, 5, 4)]);
    assert_eq!(c.wires.len(), 6);
}

#[test]
fn inputs_in_either_order_are_the_same_key() {
    let mut c = circuit(3, 2, &[(2, 3, 5), (3, 2, 6), (5, 6, 4)]);
    c.optimize();
    assert_eq!(gates(&c), vec![(3, 2, 5), (5, 5, 4)]);
}

#[test]
fn a_false_input_makes_the_output_true() {
    // 5 = NAND(0, in) is TRUE; 4 = NAND(5, in) is NOT in
    let mut c = circuit(2, 1, &[(0, 2, 4), (4, 2, 3)]);
    c.optimize();
    assert_eq!(gates(&c), vec![(2, 2, 3)]);
    assert_eq!(c.wires.len(), 4);
}

#[test]
fn two_true_inputs_make_the_output_false() {
    // 4 = NAND(1, 1) is FALSE; out = NAND(4, in) is TRUE, but out is
    // fixed and stays a gate of its own
    let mut c = circuit(2, 1, &[(1, 1, 4), (4, 2, 3)]);
    c.optimize();
    assert_eq!(gates(&c), vec![(2, 0, 3)]);
    assert_eq!(c.wires.len(), 4);
}

#[test]
fn a_true_input_makes_a_negation() {
    // 4 = NAND(1, in) and 5 = NAND(in, in) are both NOT in
    let mut c = circuit(3, 2, &[(1, 2, 5), (2, 2, 6), (5, 6, 4), (5, 5, 3)]);
    c.optimize();
    assert_eq!(gates(&c), vec![(2, 2, 5), (5, 5, 4), (5, 5, 3)]);
}

#[test]
fn a_double_negation_is_the_wire_itself() {
    // 4 = NOT in, 5 = NOT 4 = in, out = NAND(5, other)
    let mut c = circuit(3, 2, &[(2, 2, 5), (5, 5, 6), (6, 3, 4)]);
    c.optimize();
    assert_eq!(gates(&c), vec![(3, 2, 4)]);
    assert_eq!(c.wires.len(), 5);
}

#[test]
fn gates_that_nothing_reads_are_dropped() {
    let mut c = circuit(2, 3, &[(2, 2, 4), (4, 4, 5), (5, 5, 6), (2, 2, 3)]);
    c.optimize();
    assert_eq!(gates(&c), vec![(2, 2, 3)]);
    assert_eq!(c.wires.len(), 4);
}

#[test]
fn a_circuit_without_fixed_outputs_loses_every_gate() {
    let mut c = circuit(1, 2, &[(2, 2, 3), (3, 3, 4)]);
    c.optimize();
    assert!(c.nands.is_empty());
    assert_eq!(c.wires.len(), 3);
}

#[test]
fn fixed_wires_are_never_joined() {
    // both outputs are NOT in: neither gate can go
    let mut c = circuit(3, 0, &[(2, 2, 3), (2, 2, 4)]);
    c.optimize();
    assert_eq!(gates(&c), vec![(2, 2, 3), (2, 2, 4)]);
    assert_eq!(outputs(&c, &[false], &[3, 4]), vec![true, true]);
    assert_eq!(outputs(&c, &[true], &[3, 4]), vec![false, false]);
}

#[test]
fn a_constant_output_that_is_fixed_keeps_its_gate() {
    let mut c = circuit(2, 0, &[(0, 2, 3)]);
    c.optimize();
    assert_eq!(gates(&c), vec![(2, 0, 3)]);
    assert_eq!(outputs(&c, &[true], &[3]), vec![true]);
}

#[test]
fn wires_are_renumbered_without_gaps() {
    // 4 is dead, 5 and 6 live on as 4 and 5
    let mut c = circuit(2, 3, &[(2, 2, 4), (2, 2, 5), (5, 2, 6), (6, 5, 3)]);
    c.optimize();
    assert_eq!(gates(&c), vec![(2, 2, 4), (4, 2, 5), (5, 4, 3)]);
    assert_eq!(c.wires.len(), 6);
    assert_eq!(c.inputs, 2);
}

#[test]
fn the_store_is_cut_to_the_new_size() {
    let mut c = circuit(2, 3, &[(2, 2, 4), (2, 2, 3)]);
    c.wires[2] = true;
    c.optimize();
    assert_eq!(c.wires, vec![false, true, true, false]);
}

#[test]
fn an_empty_circuit_stays_empty() {
    let mut c = Circuit::new(0);
    c.optimize();
    assert_eq!(c.wires, vec![false, true]);
    assert!(c.nands.is_empty());
}

#[test]
fn optimized_circuit_computes_the_same() {
    // outputs: 4 = a XOR b, 5 = a AND b, 6 = TRUE, with doubled and dead gates
    let list = [
        (2, 3, 7),
        (2, 7, 8),
        (3, 7, 9),
        (8, 9, 4),
        (3, 2, 10),
        (10, 10, 5),
        (10, 1, 11),
        (11, 11, 12),
        (0, 12, 13),
        (13, 13, 14),
        (14, 2, 6),
        (12, 12, 15),
    ];
    let before = circuit(5, 9, &list);
    let mut after = before.clone();
    after.optimize();
    assert!(after.is_closed());
    assert!(after.nands.len() < before.nands.len());
    for a in [false, true] {
        for b in [false, true] {
            let want = vec![a ^ b, a && b, true];
            assert_eq!(outputs(&before, &[a, b], &[4, 5, 6]), want);
            assert_eq!(outputs(&after, &[a, b], &[4, 5, 6]), want);
        }
    }
}

#[test]
fn optimized_circuit_is_lean() {
    let list = [
        (2, 3, 7),
        (2, 7, 8),
        (3, 7, 9),
        (8, 9, 4),
        (3, 2, 10),
        (10, 10, 5),
        (10, 1, 11),
        (11, 11, 12),
        (0, 12, 13),
        (13, 13, 14),
        (14, 2, 6),
        (12, 12, 15),
    ];
    let mut c = circuit(5, 9, &list);
    c.optimize();
    let fixed = c.inputs + 2;
    let g = gates(&c);
    for (i, a) in g.iter().enumerate() {
        assert!(a.0 >= a.1);
        if a.0 == 0 || a.1 == 0 {
            assert!(a.2 < fixed);
        }
        for b in &g[i + 1..] {
            if (a.0, a.1) == (b.0, b.1) {
                assert!(b.2 < fixed);
            }
        }
    }
    for w in fixed..c.wires.len() {
        assert!(g.iter().any(|a| a.0 == w || a.1 == w));
    }
}

#[test]
fn optimizing_twice_changes_nothing_more() {
    let mut c = circuit(3, 4, &[(2, 3, 5), (3, 2, 6), (5, 6, 7), (7, 1, 8), (8, 8, 4)]);
    c.optimize();
    let once = c.clone();
    c.optimize();
    assert_eq!(gates(&c), gates(&once));
    assert_eq!(c.wires, once.wires);
}

#[test]
fn a_netlist_with_state_may_change_its_behaviour() {
    // 3 reads 4 before 4 is made TRUE: the tick before shows
    let before = circuit(2, 1, &[(4, 4, 3), (0, 2, 4)]);
    let mut after = before.clone();
    after.optimize();
    assert_eq!(outputs(&before, &[false], &[3]), vec![true]);
    assert_eq!(outputs(&after, &[false], &[3]), vec![false]);
}

fn is_minimal(c: &Circuit) {
    let fixed = 2 + c.inputs;
    for (i, g) in c.nands.iter().enumerate() {
        assert!(g.0 .0 >= g.1 .0);
        assert!(g.1 != Wire(1) || g.0 == Wire(1));
        if g.1 == Wire(0) || g.0 == Wire(1) {
            assert!(g.2 .0 < fixed);
        }
        for h in &c.nands[..i] {
            assert!((h.0, h.1) != (g.0, g.1) || g.2 .0 < fixed);
        }
    }
    for w in fixed..c.wires.len() {
        assert!(c.nands.iter().any(|g| g.0 == Wire(w) || g.1 == Wire(w)));
    }
}

#[test]
fn netlists_with_state_are_made_minimal_too() {
    // two negations of wire 3 feed a gate that writes wire 3 back
    let mut c = circuit(1, 3, &[(3, 3, 4), (3, 3, 5), (4, 5, 3)]);
    c.optimize();
    is_minimal(&c);
    assert_eq!(gates(&c), vec![]);
    assert_eq!(c.wires.len(), 3);
    // a gate reads the constant FALSE and a wire that a later gate writes
    let mut c = circuit(1, 2, &[(3, 0, 4), (2, 2, 3)]);
    c.optimize();
    is_minimal(&c);
    assert_eq!(gates(&c), vec![]);
    assert_eq!(c.wires.len(), 3);
    // nothing reads wire 4
    let mut c = circuit(1, 2, &[(3, 3, 4), (2, 2, 3)]);
    c.optimize();
    is_minimal(&c);
    assert_eq!(gates(&c), vec![]);
    assert_eq!(c.wires.len(), 3);
}

#[test]
fn resolve_follows_and_shortens_the_redirects() {
    let c = circuit(1, 3, &[]);
    let mut o = Optimizer::new(3, c.wires, c.nands);
    assert_eq!(o.resolve(Wire(5)), Wire(5));
    assert_eq!(o.merge(Wire(5), Wire(4)), Wire(4));
    assert_eq!(o.merge(Wire(3), Wire(4)), Wire(3));
    assert_eq!(o.redirects, vec![None, Some(Wire(3)), Some(Wire(4))]);
    assert_eq!(o.resolve(Wire(5)), Wire(3));
    assert_eq!(o.redirects, vec![None, Some(Wire(3)), Some(Wire(3))]);
    assert_eq!(o.resolve(Wire(2)), Wire(2));
    assert_eq!(o.resolve(Wire(0)), Wire(0));
}

#[test]
fn merge_keeps_the_smaller_wire_and_moves_the_readers() {
    let c = circuit(1, 2, &[]);
    let mut o = Optimizer::new(3, c.wires, c.nands);
    o.references = vec![1, 1, 1, 2, 3];
    assert_eq!(o.merge(Wire(4), Wire(3)), Wire(3));
    assert_eq!(o.references, vec![1, 1, 1, 5, 0]);
    assert_eq!(o.merge(Wire(3), Wire(3)), Wire(3));
    assert_eq!(o.references, vec![1, 1, 1, 5, 0]);
    assert_eq!(o.merge(Wire(1), Wire(3)), Wire(1));
    assert_eq!(o.references, vec![1, 6, 1, 0, 0]);
    assert_eq!(o.redirects, vec![Some(Wire(1)), Some(Wire(3))]);
}

#[test]
fn counts_saturate() {
    let c = circuit(1, 2, &[]);
    let mut o = Optimizer::new(3, c.wires, c.nands);
    o.references = vec![1, 1, 1, usize::MAX, 3];
    assert_eq!(o.merge(Wire(4), Wire(3)), Wire(3));
    assert_eq!(o.references[3], usize::MAX);
}

#[test]
fn references_are_counted_per_class() {
    let c = circuit(1, 2, &[(2, 3, 4), (3, 3, 2)]);
    let mut o = Optimizer::new(3, c.wires, c.nands);
    o.count_references();
    assert_eq!(o.references, vec![1, 1, 2, 3, 0]);
}

#[test]
fn a_pass_says_whether_it_dropped_a_gate() {
    let c = circuit(2, 2, &[(2, 2, 4), (2, 2, 5), (4, 5, 3)]);
    let mut o = Optimizer::new(4, c.wires, c.nands);
    assert!(o.deduplicate_nands());
    assert_eq!(o.nands.len(), 2);
    assert!(!o.deduplicate_nands());
    assert_eq!(o.nands, vec![(Wire(2), Wire(2), Wire(4)), (Wire(4), Wire(4), Wire(3))]);
    o.thin_state();
    assert_eq!(o.nands, vec![(Wire(2), Wire(2), Wire(4)), (Wire(4), Wire(4), Wire(3))]);
    assert_eq!(o.wires.len(), 5);
    assert_eq!(o.references, vec![0]);
}

#[test]
fn canonical_form_of_a_gate() {
    let c = circuit(2, 2, &[]);
    let mut o = Optimizer::new(4, c.wires, c.nands);
    assert_eq!(o.canonical((Wire(2), Wire(5), Wire(4))), (Wire(5), Wire(2), Wire(4)));
    assert_eq!(o.canonical((Wire(1), Wire(5), Wire(4))), (Wire(5), Wire(5), Wire(4)));
    assert_eq!(o.canonical((Wire(1), Wire(1), Wire(4))), (Wire(1), Wire(1), Wire(4)));
    assert_eq!(o.canonical((Wire(0), Wire(1), Wire(4))), (Wire(1), Wire(0), Wire(4)));
    o.merge(Wire(5), Wire(4));
    assert_eq!(o.canonical((Wire(5), Wire(3), Wire(5))), (Wire(4), Wire(3), Wire(4)));
}

#[test]
fn a_commuted_duplicate_joins_the_first_seen_output() {
    let mut c = Circuit::new(3);
    let (p, q): (Wire, Wire) = c.wiring();
    c.nand(Wire(2), Wire(3), p);
    c.nand(Wire(3), Wire(2), q);
    c.nand(p, q, Wire(4));
    c.optimize();
    assert_eq!(c.nands.len(), 2);
    assert_eq!(c.wires.len(), 6);
    assert_eq!(c.nands[0], (Wire(3), Wire(2), Wire(5)));
    assert_eq!(c.nands[1], (Wire(5), Wire(5), Wire(4)));
}

#[test]
fn a_gate_with_a_false_input_leaves_a_negation_behind() {
    let mut c = Circuit::new(2);
    let t: Wire = c.wiring();
    c.nand(Wire(0), Wire(2), t);
    c.nand(Wire(2), t, Wire(3));
    c.optimize();
    assert_eq!(c.nands, vec![(Wire(2), Wire(2), Wire(3))]);
    assert_eq!(c.wires.len(), 4);
}

#[test]
fn one_pass_drops_folds_and_rewrites() {
    let c = circuit(2, 1, &[(2, 0, 4), (4, 2, 3)]);
    let mut o = Optimizer::new(4, c.wires, c.nands);
    assert!(o.deduplicate_nands());
    assert_eq!(o.nands, vec![(Wire(2), Wire(2), Wire(3))]);
    assert_eq!(o.resolve(Wire(4)), Wire(1));
    assert_eq!(o.resolve(Wire(2)), Wire(2));
    // a second pass finds nothing to do
    assert!(!o.deduplicate_nands());
    assert_eq!(o.nands, vec![(Wire(2), Wire(2), Wire(3))]);
    assert_eq!(o.resolve(Wire(4)), Wire(1));
    assert!(!o.deduplicate_nands());
}

#[test]
fn optimizing_built_circuits_twice_changes_nothing_more() {
    let mut c = circuit(3, 4, &[(2, 3, 5), (3, 2, 6), (5, 6, 7), (7, 7, 8), (8, 8, 4)]);
    c.optimize();
    let once = c.clone();
    c.optimize();
    assert_eq!(c.nands, once.nands);
    assert_eq!(c.wires, once.wires);
    let mut s = Circuit::new(2);
    let outs: [Wire; 2] = s.wiring();
    s.and(Wire(2), Wire(3), outs[0]);
    s.xor(Wire(2), Wire(3), outs[1]);
    s.optimize();
    let once = s.clone();
    s.optimize();
    assert_eq!(s.nands, once.nands);
    assert_eq!(s.wires, once.wires);
}

#[test]
fn an_optimized_netlist_follows_the_netlist_tick_after_tick() {
    // wires 2, 3 are inputs, 4 is an output
    let before = circuit(3, 4, &[(2, 3, 5), (3, 2, 6), (5, 6, 7), (7, 1, 8), (8, 8, 4)]);
    let mut after = before.clone();
    after.optimize();
    let mut b = before.clone();
    let mut a = after.clone();
    for values in [[true, true], [false, true], [true, false], [true, true], [false, false]] {
        for (i, v) in values.iter().enumerate() {
            b.wires[2 + i] = *v;
            a.wires[2 + i] = *v;
        }
        b.update();
        a.update();
        assert_eq!(a.read(Wire(4)), b.read(Wire(4)));
        assert_eq!(a.read(Wire(4)), values[0] && values[1]);
    }
}
