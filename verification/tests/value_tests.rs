use dataflow_core::hash::hash_key;
use dataflow_core::keyed_state::KeyType;
use dataflow_core::mutator::next_local_port;
use dataflow_core::ops::{BaseOperation, Link, LocalNodeIndex};
use dataflow_core::value::{clone_row, key_of, row_eq, row_fits, DataType};

fn num(n: i64) -> DataType {
    DataType::Int(n)
}

fn text(s: &str) -> DataType {
    DataType::Text(s.to_string())
}

#[test]
fn values_are_equal_when_they_hold_the_same() {
    assert_eq!(num(1), num(1));
    assert_ne!(num(1), num(2));
    assert_eq!(text("a"), text("a"));
    assert_ne!(text("a"), text("b"));
    assert_ne!(text("1"), num(1));
    assert_eq!(DataType::Null, DataType::Null);
    assert_ne!(DataType::Null, num(0));
    assert_eq!(text("a").clone(), text("a"));
    assert_eq!(num(-3).clone(), num(-3));
}

#[test]
fn rows_compare_value_by_value() {
    assert!(row_eq(&[num(1), text("a")], &[num(1), text("a")]));
    assert!(!row_eq(&[num(1), text("a")], &[num(1), text("b")]));
    assert!(!row_eq(&[num(1)], &[num(1), num(1)]));
    assert!(row_eq(&[], &[]));
    assert_eq!(clone_row(&[num(1), text("a")]), vec![num(1), text("a")]);
}

#[test]
fn a_key_is_the_row_at_the_key_columns() {
    let row = [num(1), text("a"), num(3)];
    assert!(row_fits(&row, &[2, 0]));
    assert!(row_fits(&row, &[]));
    assert!(!row_fits(&row, &[0, 3]));
    assert_eq!(key_of(&row, &[2, 0]), vec![num(3), num(1)]);
    assert_eq!(key_of(&row, &[1, 1]), vec![text("a"), text("a")]);
    assert_eq!(key_of(&row, &[]), vec![]);
}

#[test]
fn lookup_keys_know_their_values() {
    let one = num(1);
    let single = KeyType::Single(&one);
    assert_eq!(single.len(), 1);
    assert_eq!(*single.get(0), num(1));
    assert!(single.matches(&[num(1)]));
    assert!(!single.matches(&[num(2)]));
    assert!(!single.matches(&[num(1), num(1)]));
    assert_eq!(single.hash(), hash_key(&[num(1)]));

    let six = KeyType::Sex((num(0), num(1), text("c"), num(3), DataType::Null, num(5)));
    assert_eq!(six.len(), 6);
    for (i, v) in [num(0), num(1), text("c"), num(3), DataType::Null, num(5)].iter().enumerate() {
        assert_eq!(six.get(i), v);
    }
    let stored = [num(0), num(1), text("c"), num(3), DataType::Null, num(5)];
    assert!(six.matches(&stored));
    assert_eq!(six.hash(), hash_key(&stored));

    let two = KeyType::Double((num(4), text("x")));
    assert_eq!(two.len(), 2);
    assert_eq!(two.hash(), hash_key(&[num(4), text("x")]));
    let three = KeyType::Tri((num(4), text("x"), num(6)));
    assert_eq!(*three.get(2), num(6));
    let four = KeyType::Quad((num(4), text("x"), num(6), num(7)));
    assert_eq!(*four.get(3), num(7));
    let five = KeyType::Quin((num(4), text("x"), num(6), num(7), num(8)));
    assert_eq!(*five.get(4), num(8));
    assert_eq!(five.len(), 5);
}

#[test]
fn operations_tell_their_row() {
    assert_eq!(BaseOperation::Insert(vec![num(1)]).row(), Some(&[num(1)][..]));
    assert_eq!(
        BaseOperation::InsertOrUpdate { row: vec![num(2)], update: vec![] }.row(),
        Some(&[num(2)][..])
    );
    assert_eq!(BaseOperation::Delete { key: vec![num(1)] }.row(), None);
    assert_eq!(BaseOperation::Update { key: vec![num(1)], set: vec![] }.row(), None);
    let l = Link::new(LocalNodeIndex { id: 1 }, LocalNodeIndex { id: 2 });
    assert_eq!(l.src.id, 1);
    assert_eq!(l.dst.id, 2);
}

#[test]
fn the_first_bound_port_is_kept() {
    assert_eq!(next_local_port(None, 4001), Some(4001));
    assert_eq!(next_local_port(Some(9), 4001), Some(9));
}
