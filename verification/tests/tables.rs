use nand_circuit::table::{Places, Table};
use nand_circuit::{Memo, Template, Wire};

#[test]
fn an_empty_table_has_no_entry() {
    let t = Table::new();
    assert_eq!(t.get(0, 0), None);
    assert_eq!(t.get(3, 2), None);
}

#[test]
fn an_entry_is_found_under_its_key_only() {
    let mut t = Table::new();
    t.insert(3, 2, 7);
    assert_eq!(t.get(3, 2), Some(7));
    assert_eq!(t.get(2, 3), None);
    assert_eq!(t.get(3, 3), None);
}

#[test]
fn a_second_entry_under_a_key_replaces_the_first() {
    let mut t = Table::new();
    t.insert(3, 2, 7);
    t.insert(5, 5, 1);
    t.insert(3, 2, 9);
    assert_eq!(t.get(3, 2), Some(9));
    assert_eq!(t.get(5, 5), Some(1));
}

#[test]
fn places_are_found_under_their_keys() {
    let mut p = Places::new();
    assert_eq!(p.get(1, 2), None);
    p.insert(1, 2, 0);
    p.insert(1, 4, 1);
    p.insert(2, 2, 2);
    assert_eq!(p.get(1, 2), Some(0));
    assert_eq!(p.get(1, 4), Some(1));
    assert_eq!(p.get(2, 2), Some(2));
    assert_eq!(p.get(2, 4), None);
    p.insert(1, 2, 7);
    assert_eq!(p.get(1, 2), Some(7));
}

#[test]
fn a_memo_finds_what_was_put() {
    let mut m = Memo::new();
    assert_eq!(m.find(3, 4), None);
    m.put(Template { id: 3, inputs: 4, size: 6, nands: vec![] });
    m.put(Template { id: 3, inputs: 5, size: 8, nands: vec![(Wire(2), Wire(2), Wire(7))] });
    m.put(Template { id: 1, inputs: 4, size: 6, nands: vec![] });
    assert_eq!(m.syntheses(), 3);
    assert_eq!(m.find(3, 4), Some(0));
    assert_eq!(m.find(3, 5), Some(1));
    assert_eq!(m.find(1, 4), Some(2));
    assert_eq!(m.find(1, 5), None);
    assert_eq!(m.templates[1].nands, vec![(Wire(2), Wire(2), Wire(7))]);
}
