use nand_circuit::{Circuit, Register, Wire};

#[test]
fn one_bit_adder_from_two_half_adders() {
    for a in 0..2u64 {
        for b in 0..2u64 {
            let mut c = Circuit::new(2);
            let (wa, wb) = (Wire(2), Wire(3));
            let o0 = c.allocate();
            let c0 = c.allocate();
            let c1 = c.allocate();
            let o = c.allocate();
            let co = c.allocate();
            c._half_add(wa, wb, o0, c0);
            c._half_add(o0, Wire(0), o, c1);
            c.or(c0, c1, co);
            assert!(c.is_closed());
            c.wires[2] = a == 1;
            c.wires[3] = b == 1;
            c.update();
            let sum = a + b;
            assert_eq!(c.read(o), sum & 1 == 1);
            assert_eq!(c.read(co), sum >> 1 == 1);
        }
    }
}

#[test]
fn equality_of_eight_wires() {
    let mut c = Circuit::new(0);
    let five: [Wire; 8] = c.num(5);
    let six: [Wire; 8] = c.num(6);
    let same = c.allocate();
    let other = c.allocate();
    c.eq(five, five, same);
    c.eq(five, six, other);
    assert!(c.is_closed());
    c.update();
    assert!(c.read(same));
    assert!(!c.read(other));
}

#[test]
fn sorting_network_of_eight_three_bit_numbers() {
    let input: [u64; 8] = [5, 1, 7, 0, 3, 6, 2, 4];
    let mut c = Circuit::new(0);
    let nums: [[Wire; 3]; 8] = input.map(|x| c.num(x));
    let out = c.sort(nums);
    assert!(c.is_closed());
    c.update();
    let got = out.map(|x| c.read_num(x));
    assert_eq!(got, [0, 1, 2, 3, 4, 5, 6, 7]);
}

#[test]
fn sorting_network_with_repeated_numbers() {
    let input: [u64; 8] = [7, 0, 7, 0, 3, 3, 1, 6];
    let mut c = Circuit::new(0);
    let nums: [[Wire; 3]; 8] = input.map(|x| c.num(x));
    let out = c.sort(nums);
    c.update();
    let got = out.map(|x| c.read_num(x));
    assert_eq!(got, [0, 0, 1, 3, 3, 6, 7, 7]);
}

#[test]
fn sorting_network_of_ten_numbers() {
    let input: [u64; 10] = [1, 5, 3, 2, 0, 9, 8, 4, 7, 6];
    let mut c = Circuit::new(0);
    let nums: [[Wire; 5]; 10] = input.map(|x| c.num(x));
    let out = c.sort(nums);
    c.update();
    let got = out.map(|x| c.read_num(x));
    assert_eq!(got, [0, 1, 2, 3, 4, 5, 6, 7, 8, 9]);
}

#[test]
fn register_holds_the_value_that_was_set() {
    let mut c = Circuit::new(3);
    let (cl, set, new) = (Wire(2), Wire(3), Wire(4));
    let val = c.allocate();
    c.register(cl, Register { set, new, val });
    assert!(c.is_closed());
    c.wires[cl.0] = false;
    c.wires[set.0] = true;
    c.wires[new.0] = true;
    c.update();
    assert!(c.read(val));
    c.wires[set.0] = false;
    c.wires[new.0] = false;
    c.update();
    assert!(c.read(val));
}

#[test]
fn register_takes_false_as_well() {
    let mut c = Circuit::new(3);
    let (cl, set, new) = (Wire(2), Wire(3), Wire(4));
    let val = c.allocate();
    c.register(cl, Register { set, new, val });
    c.wires[set.0] = true;
    c.wires[new.0] = true;
    c.update();
    assert!(c.read(val));
    c.wires[new.0] = false;
    c.update();
    assert!(!c.read(val));
    c.wires[set.0] = false;
    c.wires[new.0] = true;
    c.update();
    assert!(!c.read(val));
}

#[test]
fn the_adder_adds_numbers_of_two_bits() {
    for x in 0..4u64 {
        for y in 0..4u64 {
            let mut c = Circuit::new(0);
            let a: [Wire; 2] = c.num(x);
            let b: [Wire; 2] = c.num(y);
            let o: [Wire; 2] = c.wiring();
            c.add(a, b, o);
            assert!(c.is_closed());
            c.update();
            assert_eq!(c.read(o[0]), (x ^ y) & 1 == 1);
            assert_eq!(c.read_num(o), (x + y) % 4);
            // a second tick leaves the same
            c.update();
            assert_eq!(c.read_num(o), (x + y) % 4);
        }
    }
}

#[test]
fn the_adder_follows_its_inputs_tick_after_tick() {
    let mut c = Circuit::new(6);
    let a = [Wire(2), Wire(3), Wire(4)];
    let b = [Wire(5), Wire(6), Wire(7)];
    let o: [Wire; 3] = c.wiring();
    c.add(a, b, o);
    assert!(c.is_closed());
    for (x, y) in [(5u64, 6u64), (0, 0), (7, 7), (3, 4), (1, 7)] {
        for i in 0..3 {
            c.wires[2 + i] = (x >> i) & 1 == 1;
            c.wires[5 + i] = (y >> i) & 1 == 1;
        }
        c.update();
        assert_eq!(c.read_num(o), (x + y) % 8);
    }
}
