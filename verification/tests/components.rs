use nand_circuit::components::not::NOT;
use nand_circuit::components::select::SELECT;
use nand_circuit::{Circuit, Memo, Wire};

fn with_inputs(values: &[bool]) -> Circuit {
    let mut c = Circuit::new(values.len());
    for (i, v) in values.iter().enumerate() {
        c.wires[2 + i] = *v;
    }
    c
}

#[test]
fn a_component_is_synthesized_once() {
    let mut c = Circuit::new(4);
    let outs: [Wire; 4] = c.wiring();
    assert_eq!(c.memo.syntheses(), 0);
    c.not(Wire(2), outs[0]);
    assert_eq!(c.memo.syntheses(), 1);
    c.not(Wire(3), outs[1]);
    c.not(Wire(4), outs[2]);
    c.not(Wire(5), outs[3]);
    assert_eq!(c.memo.syntheses(), 1);
    assert_eq!(c.memo.find(NOT, 2), Some(0));
    assert_eq!(c.memo.find(NOT, 4), None);
}

#[test]
fn every_use_gets_a_copy_of_its_own() {
    let mut c = with_inputs(&[true, false, true]);
    let outs: [Wire; 3] = c.wiring();
    for i in 0..3 {
        c.not(Wire(2 + i), outs[i]);
    }
    assert_eq!(
        c.nands,
        vec![
            (Wire(2), Wire(2), outs[0]),
            (Wire(3), Wire(3), outs[1]),
            (Wire(4), Wire(4), outs[2]),
        ]
    );
    c.update();
    assert_eq!(c.read_num(outs), 0b010);
}

#[test]
fn copies_have_fresh_wires_of_their_own() {
    let mut c = with_inputs(&[false, true, false, true]);
    let outs: [Wire; 2] = c.wiring();
    let before = c.wires.len();
    c.xor(Wire(2), Wire(3), outs[0]);
    let middle = c.wires.len();
    c.xor(Wire(4), Wire(5), outs[1]);
    let after = c.wires.len();
    assert_eq!(middle - before, 3);
    assert_eq!(after - middle, 3);
    c.update();
    assert!(c.read(outs[0]));
    assert!(c.read(outs[1]));
}

#[test]
fn a_component_of_another_width_is_another_component() {
    let mut c = Circuit::new(0);
    let a: Wire = c.wiring();
    let b: [Wire; 2] = c.wiring();
    c.not(Wire(0), a);
    c.not([Wire(0), Wire(1)], b);
    assert_eq!(c.memo.syntheses(), 2);
    assert_eq!(c.memo.find(NOT, 2), Some(0));
    assert_eq!(c.memo.find(NOT, 4), Some(1));
    c.update();
    assert!(c.read(a));
    assert_eq!(c.read_num(b), 0b01);
}

#[test]
fn components_inside_a_component_are_synthesized_too() {
    let mut c = Circuit::new(3);
    let o = c.allocate();
    c.select(Wire(2), Wire(3), Wire(4), o);
    assert_eq!(c.memo.syntheses(), 2);
    assert_eq!(c.memo.find(NOT, 2), Some(0));
    assert_eq!(c.memo.find(SELECT, 4), Some(1));
    let t = &c.memo.templates[1];
    assert_eq!(t.inputs, 4);
    assert_eq!(t.nands.len(), 4);
    assert_eq!(t.size, 2 + 4 + 3);
}

#[test]
fn a_component_is_spliced_between_its_arguments() {
    let mut c = Circuit::new(3);
    let o = c.allocate();
    c.select(Wire(2), Wire(3), Wire(4), o);
    // fresh copies of the three wires of the multiplexer follow the output
    assert_eq!(c.wires.len(), 9);
    assert_eq!(
        c.nands,
        vec![
            (Wire(2), Wire(2), Wire(6)),
            (Wire(6), Wire(3), Wire(7)),
            (Wire(4), Wire(2), Wire(8)),
            (Wire(8), Wire(7), o),
        ]
    );
}

#[test]
fn a_void_argument_gets_no_gate() {
    let mut c = Circuit::new(1);
    c.not(Wire(2), Wire(usize::MAX));
    assert!(c.nands.is_empty());
    assert_eq!(c.memo.syntheses(), 1);
}

#[test]
fn an_empty_memo() {
    let m = Memo::new();
    assert_eq!(m.syntheses(), 0);
    assert_eq!(m.find(NOT, 2), None);
}

#[test]
fn negation() {
    for a in [false, true] {
        let mut c = with_inputs(&[a]);
        let o = c.allocate();
        c.not(Wire(2), o);
        c.update();
        assert_eq!(c.read(o), !a);
    }
}

#[test]
fn conjunction_disjunction_and_exclusive_or() {
    for a in [false, true] {
        for b in [false, true] {
            let mut c = with_inputs(&[a, b]);
            let (and, or, xor): (Wire, Wire, Wire) = c.wiring();
            c.and(Wire(2), Wire(3), and);
            c.or(Wire(2), Wire(3), or);
            c.xor(Wire(2), Wire(3), xor);
            assert!(c.is_closed());
            c.update();
            assert_eq!(c.read(and), a && b);
            assert_eq!(c.read(or), a || b);
            assert_eq!(c.read(xor), a ^ b);
        }
    }
}

#[test]
fn gates_over_bundles_work_leaf_by_leaf() {
    let mut c = Circuit::new(0);
    let a: [Wire; 4] = c.num(0b1100);
    let b: [Wire; 4] = c.num(0b1010);
    let (and, or, xor, not): ([Wire; 4], [Wire; 4], [Wire; 4], [Wire; 4]) = c.wiring();
    c.and(a, b, and);
    c.or(a, b, or);
    c.xor(a, b, xor);
    c.not(a, not);
    c.update();
    assert_eq!(c.read_num(and), 0b1000);
    assert_eq!(c.read_num(or), 0b1110);
    assert_eq!(c.read_num(xor), 0b0110);
    assert_eq!(c.read_num(not), 0b0011);
}

#[test]
fn multiplexer() {
    for s in [false, true] {
        let mut c = with_inputs(&[s]);
        let d0: [Wire; 3] = c.num(0b011);
        let d1: [Wire; 3] = c.num(0b110);
        let o: [Wire; 3] = c.wiring();
        c.select(Wire(2), d0, d1, o);
        c.update();
        assert_eq!(c.read_num(o), if s { 0b110 } else { 0b011 });
    }
}

#[test]
fn conditional_exchange() {
    for s in [false, true] {
        let mut c = with_inputs(&[s]);
        let a: [Wire; 3] = c.num(2);
        let b: [Wire; 3] = c.num(5);
        let (x, y): ([Wire; 3], [Wire; 3]) = c.wiring();
        c.swap(Wire(2), a, b, x, y);
        c.update();
        assert_eq!((c.read_num(x), c.read_num(y)), if s { (5, 2) } else { (2, 5) });
    }
}

#[test]
fn half_adder() {
    for a in 0..2u64 {
        for b in 0..2u64 {
            let mut c = with_inputs(&[a == 1, b == 1]);
            let (o, co): (Wire, Wire) = c.wiring();
            c._half_add(Wire(2), Wire(3), o, co);
            c.update();
            assert_eq!(c.read_num((o, co)), a + b);
        }
    }
}

#[test]
fn adder() {
    for a in 0..16u64 {
        for b in 0..16u64 {
            let mut c = Circuit::new(0);
            let wa: [Wire; 4] = c.num(a);
            let wb: [Wire; 4] = c.num(b);
            let o: [Wire; 4] = c.wiring();
            c.add(wa, wb, o);
            c.update();
            assert_eq!(c.read_num(o), (a + b) % 16);
        }
    }
}

#[test]
fn conjunction_of_all_leaves() {
    for n in 0..32u64 {
        let mut c = Circuit::new(0);
        let x: [Wire; 5] = c.num(n);
        let o = c.allocate();
        c.all(x, o);
        c.update();
        assert_eq!(c.read(o), n == 31);
    }
    let mut c = Circuit::new(1);
    let o = c.allocate();
    c.all(Wire(2), o);
    c.wires[2] = true;
    c.update();
    assert!(c.read(o));
}

#[test]
fn equality() {
    for a in 0..8u64 {
        for b in 0..8u64 {
            let mut c = Circuit::new(0);
            let wa: [Wire; 3] = c.num(a);
            let wb: [Wire; 3] = c.num(b);
            let o = c.allocate();
            c.eq(wa, wb, o);
            c.update();
            assert_eq!(c.read(o), a == b);
        }
    }
}

#[test]
fn comparison() {
    for a in 0..8u64 {
        for b in 0..8u64 {
            let mut c = Circuit::new(0);
            let wa: [Wire; 3] = c.num(a);
            let wb: [Wire; 3] = c.num(b);
            let o = c.allocate();
            c.lt(wa, wb, o);
            assert!(c.is_closed());
            c.update();
            assert_eq!(c.read(o), a < b);
        }
    }
}

#[test]
fn comparator_of_the_sorting_network() {
    for a in 0..4u64 {
        for b in 0..4u64 {
            let mut c = Circuit::new(0);
            let wa: [Wire; 2] = c.num(a);
            let wb: [Wire; 2] = c.num(b);
            let (x, y): ([Wire; 2], [Wire; 2]) = c.wiring();
            c._sort_2(wa, wb, x, y);
            c.update();
            assert_eq!((c.read_num(x), c.read_num(y)), (a.min(b), a.max(b)));
        }
    }
}

#[test]
fn sorting_networks_of_small_sizes() {
    let mut c = Circuit::new(0);
    let none: [[Wire; 2]; 0] = c.sort([]);
    assert_eq!(none.len(), 0);
    let one = c.sort([c.num::<[Wire; 2]>(3)]);
    assert!(c.nands.is_empty());
    assert_eq!(c.read_num(one[0]), 3);
    let three = c.sort([c.num::<[Wire; 2]>(3), c.num(1), c.num(2)]);
    c.update();
    assert_eq!(three.map(|x| c.read_num(x)), [1, 2, 3]);
}

#[test]
fn sorting_network_of_a_size_that_is_no_power_of_two() {
    let input: [u64; 6] = [13, 2, 9, 15, 0, 9];
    let mut c = Circuit::new(0);
    let out = c.sort(input.map(|x| c.num::<[Wire; 4]>(x)));
    c.update();
    assert_eq!(out.map(|x| c.read_num(x)), [0, 2, 9, 9, 13, 15]);
}

#[test]
fn shapes_with_as_many_leaves_share_a_component() {
    let mut c = with_inputs(&[true, false, false, true]);
    let pair: (Wire, Wire) = c.wiring();
    let array: [Wire; 2] = c.wiring();
    c.not((Wire(2), Wire(3)), pair);
    assert_eq!(c.memo.syntheses(), 1);
    c.not([Wire(4), Wire(5)], array);
    assert_eq!(c.memo.syntheses(), 1);
    assert_eq!(c.memo.find(NOT, 4), Some(0));
    c.update();
    assert_eq!((c.read(pair.0), c.read(pair.1)), (false, true));
    assert_eq!([c.read(array[0]), c.read(array[1])], [true, false]);
}

#[test]
fn no_key_is_in_the_memo_twice() {
    let mut c = Circuit::new(6);
    let a: [Wire; 2] = c.wiring();
    let b: [Wire; 2] = c.wiring();
    let o: [Wire; 2] = c.wiring();
    c.or([Wire(2), Wire(3)], [Wire(4), Wire(5)], a);
    c.not([Wire(6), Wire(7)], b);
    c.or(a, b, o);
    c.not(Wire(2), o[0]);
    let t = &c.memo.templates;
    for i in 0..t.len() {
        for j in 0..i {
            assert!(t[i].id != t[j].id || t[i].inputs != t[j].inputs);
        }
    }
}

#[test]
fn a_register_holds_its_value_between_ticks() {
    let mut c = with_inputs(&[true, true]);
    let val: Wire = c.wiring();
    c.register(
        Wire(0),
        nand_circuit::Register { set: Wire(2), new: Wire(3), val },
    );
    c.update();
    assert!(c.read(val));
    c.wires[2] = false;
    c.wires[3] = false;
    c.update();
    assert!(c.read(val));
    c.wires[2] = true;
    c.update();
    assert!(!c.read(val));
}
