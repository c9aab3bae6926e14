use nand_circuit::{void, Circuit, Wire};

#[test]
fn new_circuit_has_the_constants_and_the_inputs() {
    let c = Circuit::new(3);
    assert_eq!(c.inputs, 3);
    assert_eq!(c.wires, vec![false, true, false, false, false]);
    assert!(c.nands.is_empty());
    assert_eq!(c.memo.syntheses(), 0);
    assert!(!c.read(Wire(0)));
    assert!(c.read(Wire(1)));
}

#[test]
fn new_circuit_without_inputs() {
    let c = Circuit::new(0);
    assert_eq!(c.wires, vec![false, true]);
}

#[test]
fn nand_of_two_values() {
    for (a, b) in [(false, false), (false, true), (true, false), (true, true)] {
        let mut c = Circuit::new(2);
        let o = c.allocate();
        c.nand(Wire(2), Wire(3), o);
        c.wires[2] = a;
        c.wires[3] = b;
        c.update();
        assert_eq!(c.read(o), !(a && b));
    }
}

#[test]
fn nand_is_lifted_over_bundles() {
    let mut c = Circuit::new(4);
    let o: [Wire; 2] = c.wiring();
    c.nand([Wire(2), Wire(3)], [Wire(4), Wire(5)], o);
    assert_eq!(c.nands, vec![(Wire(2), Wire(4), Wire(6)), (Wire(3), Wire(5), Wire(7))]);
    c.wires[2] = true;
    c.wires[4] = true;
    c.wires[3] = true;
    c.update();
    assert!(!c.read(o[0]));
    assert!(c.read(o[1]));
}

#[test]
fn nand_skips_void_outputs() {
    let mut c = Circuit::new(2);
    let o = c.allocate();
    let mut outs: [Wire; 3] = void();
    outs[1] = o;
    c.nand([Wire(2); 3], [Wire(3); 3], outs);
    assert_eq!(c.nands, vec![(Wire(2), Wire(3), o)]);
}

#[test]
fn allocate_appends_one_false_wire() {
    let mut c = Circuit::new(1);
    let w = c.allocate();
    assert_eq!(w, Wire(3));
    assert_eq!(c.wires, vec![false, true, false, false]);
}

#[test]
fn wiring_appends_one_wire_for_each_leaf() {
    let mut c = Circuit::new(1);
    let t: (Wire, [Wire; 2]) = c.wiring();
    assert_eq!(t, (Wire(3), [Wire(4), Wire(5)]));
    assert_eq!(c.wires.len(), 6);
    assert!(c.wires[3..].iter().all(|v| !v));
    let u: () = c.wiring();
    assert_eq!(u, ());
    assert_eq!(c.wires.len(), 6);
}

#[test]
fn update_fires_the_gates_in_order() {
    let mut c = Circuit::new(1);
    let x = c.allocate();
    let y = c.allocate();
    c.gate(Wire(2), Wire(2), x);
    c.gate(x, x, y);
    c.wires[2] = true;
    c.update();
    assert!(!c.read(x));
    assert!(c.read(y));
}

#[test]
fn a_wire_read_before_it_is_written_shows_the_tick_before() {
    let mut c = Circuit::new(1);
    let x = c.allocate();
    let y = c.allocate();
    c.gate(x, x, y);
    c.gate(Wire(2), Wire(2), x);
    c.wires[2] = false;
    c.update();
    assert!(c.read(x));
    assert!(c.read(y));
    c.update();
    assert!(c.read(x));
    assert!(!c.read(y));
}

#[test]
fn update_without_gates_changes_nothing() {
    let mut c = Circuit::new(2);
    c.wires[3] = true;
    c.update();
    assert_eq!(c.wires, vec![false, true, false, true]);
}

#[test]
fn num_spells_the_bits_least_significant_first() {
    let c = Circuit::new(0);
    let n: [Wire; 4] = c.num(0b0110);
    assert_eq!(n, [Wire(0), Wire(1), Wire(1), Wire(0)]);
    let cut: [Wire; 2] = c.num(0b111);
    assert_eq!(cut, [Wire(1), Wire(1)]);
    let none: () = c.num(5);
    assert_eq!(none, ());
}

#[test]
fn num_is_false_beyond_the_sixty_fourth_bit() {
    let c = Circuit::new(0);
    let n: [Wire; 66] = c.num(u64::MAX);
    assert!(n[..64].iter().all(|w| *w == Wire(1)));
    assert_eq!(n[64], Wire(0));
    assert_eq!(n[65], Wire(0));
}

#[test]
fn read_num_reads_the_bits_least_significant_first() {
    let mut c = Circuit::new(3);
    c.wires[2] = true;
    c.wires[4] = true;
    assert_eq!(c.read_num([Wire(2), Wire(3), Wire(4)]), 0b101);
    assert_eq!(c.read_num((Wire(3), Wire(2))), 0b10);
    assert_eq!(c.read_num(()), 0);
}

#[test]
fn numbers_are_read_back() {
    let c = Circuit::new(0);
    for n in 0..32u64 {
        let w: [Wire; 5] = c.num(n);
        assert_eq!(c.read_num(w), n);
    }
    for n in [0u64, 1, u64::MAX, 1 << 63, 0x1234_5678_9abc_def0] {
        let w: [Wire; 64] = c.num(n);
        assert_eq!(c.read_num(w), n);
    }
}

#[test]
fn a_number_too_large_is_read_back_cut() {
    let c = Circuit::new(0);
    let w: [Wire; 3] = c.num(0b1101);
    assert_eq!(c.read_num(w), 0b101);
}

#[test]
fn closed_circuits_are_told_apart() {
    let mut c = Circuit::new(1);
    assert!(c.is_closed());
    c.gate(Wire(2), Wire(2), Wire(3));
    assert!(!c.is_closed());
    let _ = c.allocate();
    assert!(c.is_closed());
    c.nand(Wire(2), void(), Wire(3));
    assert!(!c.is_closed());
}
