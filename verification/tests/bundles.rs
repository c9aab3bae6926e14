use nand_circuit::bundle::{bundle_of, leaves_of, reversed};
use nand_circuit::{last, one, transpose, void, zero, Bundle, Register, Scalar, Wire};

#[test]
fn scalar_has_one_leaf() {
    assert_eq!(<Wire as Bundle>::size(), 1);
    assert_eq!(leaves_of(Wire(7)), vec![Wire(7)]);
    let w: Wire = bundle_of(vec![Wire(9)]);
    assert_eq!(w, Wire(9));
}

#[test]
fn unit_has_no_leaf() {
    assert_eq!(<() as Bundle>::size(), 0);
    assert_eq!(leaves_of(()), Vec::<Wire>::new());
    let _: () = bundle_of(Vec::<Wire>::new());
}

#[test]
fn tuple_leaves_come_field_after_field() {
    let t = (Wire(3), (Wire(4), Wire(5)), [Wire(6), Wire(7)]);
    assert_eq!(<(Wire, (Wire, Wire), [Wire; 2]) as Bundle>::size(), 5);
    assert_eq!(leaves_of(t), vec![Wire(3), Wire(4), Wire(5), Wire(6), Wire(7)]);
}

#[test]
fn tuples_of_every_arity_keep_their_leaves() {
    let one: (Wire,) = bundle_of(vec![Wire(1)]);
    assert_eq!(one, (Wire(1),));
    let four: (Wire, Wire, Wire, Wire) = bundle_of(vec![Wire(1), Wire(2), Wire(3), Wire(4)]);
    assert_eq!(four, (Wire(1), Wire(2), Wire(3), Wire(4)));
    let five: (Wire, Wire, Wire, Wire, Wire) =
        bundle_of(vec![Wire(1), Wire(2), Wire(3), Wire(4), Wire(5)]);
    assert_eq!(leaves_of(five), vec![Wire(1), Wire(2), Wire(3), Wire(4), Wire(5)]);
    let six: (Wire, Wire, Wire, Wire, Wire, Wire) =
        bundle_of(vec![Wire(1), Wire(2), Wire(3), Wire(4), Wire(5), Wire(6)]);
    assert_eq!(six.5, Wire(6));
    assert_eq!(<(Wire, Wire, Wire, Wire, Wire, Wire) as Bundle>::size(), 6);
}

#[test]
fn array_leaves_come_item_after_item() {
    let a = [(Wire(1), Wire(2)), (Wire(3), Wire(4)), (Wire(5), Wire(6))];
    assert_eq!(<[(Wire, Wire); 3] as Bundle>::size(), 6);
    assert_eq!(
        leaves_of(a),
        vec![Wire(1), Wire(2), Wire(3), Wire(4), Wire(5), Wire(6)]
    );
}

#[test]
fn array_is_built_from_its_leaves_in_order() {
    let a: [(Wire, Wire); 3] =
        bundle_of(vec![Wire(1), Wire(2), Wire(3), Wire(4), Wire(5), Wire(6)]);
    assert_eq!(a, [(Wire(1), Wire(2)), (Wire(3), Wire(4)), (Wire(5), Wire(6))]);
}

#[test]
fn empty_array_has_no_leaf() {
    assert_eq!(<[Wire; 0] as Bundle>::size(), 0);
    let a: [Wire; 0] = bundle_of(Vec::new());
    assert_eq!(leaves_of(a), Vec::<Wire>::new());
}

#[test]
fn from_leaves_takes_from_the_end() {
    let mut src = vec![Wire(1), Wire(2), Wire(3), Wire(4), Wire(5)];
    let pair = <(Wire, Wire) as Bundle>::from_leaves(&mut src);
    assert_eq!(pair, (Wire(4), Wire(5)));
    assert_eq!(src, vec![Wire(1), Wire(2), Wire(3)]);
}

#[test]
fn into_leaves_appends() {
    let mut out = vec![Wire(9)];
    [Wire(1), Wire(2)].into_leaves(&mut out);
    assert_eq!(out, vec![Wire(9), Wire(1), Wire(2)]);
}

#[test]
fn record_leaves_come_field_after_field() {
    let r = Register { set: Wire(2), new: [Wire(3), Wire(4)], val: [Wire(5), Wire(6)] };
    assert_eq!(<Register<[Wire; 2]> as Bundle>::size(), 5);
    assert_eq!(leaves_of(r), vec![Wire(2), Wire(3), Wire(4), Wire(5), Wire(6)]);
    let back: Register<[Wire; 2]> =
        bundle_of(vec![Wire(2), Wire(3), Wire(4), Wire(5), Wire(6)]);
    assert_eq!(back.set, Wire(2));
    assert_eq!(back.new, [Wire(3), Wire(4)]);
    assert_eq!(back.val, [Wire(5), Wire(6)]);
}

#[test]
fn as_mut_reaches_one_leaf_and_leaves_the_others() {
    let mut t = (Wire(3), [Wire(4), Wire(5), Wire(6)], Wire(7));
    *t.as_mut(2).unwrap() = Wire(50);
    assert_eq!(t, (Wire(3), [Wire(4), Wire(50), Wire(6)], Wire(7)));
    *t.as_mut(0).unwrap() = Wire(30);
    *t.as_mut(4).unwrap() = Wire(70);
    assert_eq!(t, (Wire(30), [Wire(4), Wire(50), Wire(6)], Wire(70)));
}

#[test]
fn as_mut_reaches_into_arrays_of_tuples_and_records() {
    let mut a = [(Wire(1), Wire(2)), (Wire(3), Wire(4))];
    *Bundle::as_mut(&mut a, 3).unwrap() = Wire(40);
    assert_eq!(a, [(Wire(1), Wire(2)), (Wire(3), Wire(40))]);
    let mut r = Register { set: Wire(2), new: Wire(3), val: Wire(4) };
    *r.as_mut(0).unwrap() = Wire(20);
    *r.as_mut(1).unwrap() = Wire(30);
    *r.as_mut(2).unwrap() = Wire(40);
    assert_eq!(leaves_of(r), vec![Wire(20), Wire(30), Wire(40)]);
}

#[test]
fn as_mut_finds_no_leaf_past_the_last() {
    let mut t = (Wire(3), [Wire(4), Wire(5), Wire(6)], Wire(7));
    assert!(t.as_mut(4).is_some());
    assert!(t.as_mut(5).is_none());
    assert!(t.as_mut(usize::MAX).is_none());
    assert_eq!(t, (Wire(3), [Wire(4), Wire(5), Wire(6)], Wire(7)));
    let mut w = Wire(9);
    assert!(Bundle::as_mut(&mut w, 1).is_none());
    let mut u = ();
    assert!(Bundle::as_mut(&mut u, 0).is_none());
    let mut none: [Wire; 0] = [];
    assert!(Bundle::as_mut(&mut none, 0).is_none());
    let mut units = [(), ()];
    assert!(Bundle::as_mut(&mut units, 0).is_none());
    let mut a = [(Wire(1), Wire(2)), (Wire(3), Wire(4))];
    assert!(Bundle::as_mut(&mut a, 4).is_none());
    let mut s = Scalar(5u8);
    assert!(s.as_mut(1).is_none());
    *s.as_mut(0).unwrap() = 6;
    assert_eq!(s.0, 6);
}

#[test]
fn last_is_the_last_leaf() {
    let mut t: [Wire; 4] = void();
    *last(&mut t) = Wire(12);
    assert_eq!(t, [Wire(usize::MAX), Wire(usize::MAX), Wire(usize::MAX), Wire(12)]);
    let mut pair = (Wire(1), (Wire(2), Wire(3)));
    *last(&mut pair) = Wire(9);
    assert_eq!(pair, (Wire(1), (Wire(2), Wire(9))));
}

#[test]
fn constant_bundles() {
    let z: (Wire, [Wire; 2]) = zero();
    assert_eq!(z, (Wire(0), [Wire(0), Wire(0)]));
    let o: [Wire; 3] = one();
    assert_eq!(o, [Wire(1), Wire(1), Wire(1)]);
    let v: (Wire, Wire) = void();
    assert_eq!(v, (Wire(usize::MAX), Wire(usize::MAX)));
    assert!(v.0.is_void());
    assert!(!Wire(0).is_void());
}

#[test]
fn reversed_turns_the_order_round() {
    assert_eq!(reversed(vec![1, 2, 3]), vec![3, 2, 1]);
    assert_eq!(reversed(Vec::<u8>::new()), Vec::<u8>::new());
}

#[test]
fn map_applies_to_every_leaf_in_order() {
    let t = (Scalar(1u32), [Scalar(2u32), Scalar(3u32)]);
    let r: [Scalar<u64>; 3] = nand_circuit::bundle::map(t, |x: u32| u64::from(x) * 10);
    assert_eq!(leaves_of(r), vec![10u64, 20, 30]);
}

#[test]
fn map_works_on_payloads_that_cannot_be_copied() {
    let t = [Scalar(String::from("a")), Scalar(String::from("bc"))];
    let r: (Scalar<usize>, Scalar<usize>) = nand_circuit::bundle::map(t, |s: String| s.len());
    assert_eq!(leaves_of(r), vec![1usize, 2]);
}

#[test]
fn transpose_exchanges_the_two_levels() {
    let a = [Wire(1), Wire(2), Wire(3)];
    let b = [Wire(4), Wire(5), Wire(6)];
    let zipped: [Scalar<(Wire, Wire)>; 3] =
        transpose::<(Scalar<[Wire; 3]>, Scalar<[Wire; 3]>), [Wire; 3], _, (Wire, Wire)>((
            Scalar(a),
            Scalar(b),
        ));
    assert_eq!(
        leaves_of(zipped),
        vec![(Wire(1), Wire(4)), (Wire(2), Wire(5)), (Wire(3), Wire(6))]
    );
}

#[test]
fn transpose_twice_is_the_identity() {
    let x = (Scalar([Wire(1), Wire(2), Wire(3)]), Scalar([Wire(4), Wire(5), Wire(6)]));
    let y: [Scalar<(Wire, Wire)>; 3] =
        transpose::<(Scalar<[Wire; 3]>, Scalar<[Wire; 3]>), [Wire; 3], _, (Wire, Wire)>(x);
    let z: (Scalar<[Wire; 3]>, Scalar<[Wire; 3]>) =
        transpose::<[Scalar<(Wire, Wire)>; 3], (Wire, Wire), _, [Wire; 3]>(y);
    assert_eq!(z.0 .0, [Wire(1), Wire(2), Wire(3)]);
    assert_eq!(z.1 .0, [Wire(4), Wire(5), Wire(6)]);
}

#[test]
fn transpose_of_an_empty_outer_level() {
    let x: [Scalar<(Wire, Wire)>; 0] = [];
    let y: (Scalar<[Wire; 0]>, Scalar<[Wire; 0]>) =
        transpose::<[Scalar<(Wire, Wire)>; 0], (Wire, Wire), _, [Wire; 0]>(x);
    assert_eq!(leaves_of(y.0 .0), Vec::<Wire>::new());
    assert_eq!(leaves_of(y.1 .0), Vec::<Wire>::new());
}
