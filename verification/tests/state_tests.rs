use dataflow_core::hash::{hash_key, hash_value};
use dataflow_core::keyed_state::{KeyType, KeyedState, Row};
use dataflow_core::state::{LookupResult, State, Tag};
use dataflow_core::value::DataType;
use std::rc::Rc;

fn num(n: i64) -> DataType {
    DataType::Int(n)
}

fn text(s: &str) -> DataType {
    DataType::Text(s.to_string())
}

fn found(s: &State, cols: &[usize], key: &KeyType) -> Option<Vec<Vec<DataType>>> {
    match s.lookup(cols, key) {
        LookupResult::Found(rows) => Some(rows.iter().map(|r| (**r).clone()).collect()),
        LookupResult::Missing => None,
    }
}

fn sorted(mut rows: Vec<Vec<DataType>>) -> Vec<String> {
    let mut out: Vec<String> = rows.drain(..).map(|r| format!("{:?}", r)).collect();
    out.sort();
    out
}

#[test]
fn basic_put_lookup() {
    let mut s = State::base();
    s.add_key(&[0], None);
    assert!(s.insert(vec![num(1), text("a")], None));
    assert_eq!(s.len(), 1);
    let one = num(1);
    assert_eq!(
        found(&s, &[0], &KeyType::Single(&one)),
        Some(vec![vec![num(1), text("a")]])
    );
}

#[test]
fn partial_miss() {
    let mut s = State::base();
    s.add_key(&[0], Some(vec![Tag(7)]));
    let k = num(42);
    assert_eq!(found(&s, &[0], &KeyType::Single(&k)), None);
    assert!(!s.insert(vec![num(42), text("x")], Some(Tag(7))));
    assert_eq!(found(&s, &[0], &KeyType::Single(&k)), None);
    assert_eq!(s.len(), 0);
    s.mark_filled(vec![num(42)], &Tag(7));
    assert_eq!(found(&s, &[0], &KeyType::Single(&k)), Some(vec![]));
    assert!(s.insert(vec![num(42), text("x")], None));
    assert_eq!(
        found(&s, &[0], &KeyType::Single(&k)),
        Some(vec![vec![num(42), text("x")]])
    );
    assert_eq!(s.len(), 1);
    s.mark_hole(&[num(42)], &Tag(7));
    assert_eq!(found(&s, &[0], &KeyType::Single(&k)), None);
}

#[test]
fn backfill_groups_rows_by_the_new_key() {
    let mut s = State::base();
    s.add_key(&[0], None);
    s.insert(vec![num(1), text("a")], None);
    s.insert(vec![num(2), text("a")], None);
    s.insert(vec![num(3), text("b")], None);
    s.add_key(&[1], None);
    assert_eq!(s.keys(), vec![vec![0], vec![1]]);
    let a = text("a");
    let b = text("b");
    let under_a = found(&s, &[1], &KeyType::Single(&a)).unwrap();
    assert_eq!(
        sorted(under_a),
        sorted(vec![vec![num(1), text("a")], vec![num(2), text("a")]])
    );
    assert_eq!(
        found(&s, &[1], &KeyType::Single(&b)),
        Some(vec![vec![num(3), text("b")]])
    );
    assert!(!s.is_partial());
}

#[test]
fn partial_index_is_not_backfilled_and_tags_resolve_to_it() {
    let mut s = State::base();
    s.add_key(&[0], None);
    s.insert(vec![num(1), text("a")], None);
    s.add_key(&[1], Some(vec![Tag(1), Tag(2)]));
    assert!(s.is_partial());
    let a = text("a");
    assert_eq!(found(&s, &[1], &KeyType::Single(&a)), None);
    s.mark_filled(vec![text("a")], &Tag(2));
    assert_eq!(found(&s, &[1], &KeyType::Single(&a)), Some(vec![]));
    assert!(s.insert(vec![num(5), text("a")], Some(Tag(1))));
    assert_eq!(
        found(&s, &[1], &KeyType::Single(&a)),
        Some(vec![vec![num(5), text("a")]])
    );
    // a replay payload is not counted
    assert_eq!(s.len(), 1);
}

#[test]
fn add_key_on_existing_columns_only_adds_tags() {
    let mut s = State::base();
    s.add_key(&[0], None);
    s.insert(vec![num(1), text("a")], None);
    s.add_key(&[0], Some(vec![Tag(9)]));
    assert_eq!(s.keys(), vec![vec![0]]);
    assert!(!s.is_partial());
    assert!(s.insert(vec![num(1), text("b")], Some(Tag(9))));
    let one = num(1);
    assert_eq!(
        found(&s, &[0], &KeyType::Single(&one)),
        Some(vec![vec![num(1), text("a")], vec![num(1), text("b")]])
    );
}

#[test]
fn unknown_tag_is_a_successful_no_op() {
    let mut s = State::base();
    s.add_key(&[0], None);
    assert!(s.insert(vec![num(1)], Some(Tag(3))));
    assert!(s.is_empty());
    assert_eq!(s.len(), 0);
}

#[test]
fn insert_without_any_index_hits_nothing() {
    let mut s = State::base();
    assert!(!s.is_useful());
    assert!(!s.insert(vec![num(1)], None));
    assert_eq!(s.len(), 1);
    assert_eq!(s.nkeys(), 0);
    assert!(s.is_empty());
}

#[test]
fn every_row_is_found_under_every_index() {
    let mut s = State::base();
    s.add_key(&[0], None);
    s.add_key(&[1, 0], None);
    let rows = vec![
        vec![num(1), text("a"), num(10)],
        vec![num(2), text("a"), num(20)],
        vec![num(1), text("b"), num(30)],
    ];
    for r in &rows {
        assert!(s.insert(r.clone(), None));
    }
    for r in &rows {
        let by_first = found(&s, &[0], &KeyType::Single(&r[0])).unwrap();
        assert!(by_first.contains(r));
        let by_pair = found(&s, &[1, 0], &KeyType::Double((r[1].clone(), r[0].clone()))).unwrap();
        assert_eq!(by_pair, vec![r.clone()]);
    }
    assert_eq!(s.len(), 3);
    assert_eq!(s.nkeys(), 2);
}

#[test]
fn remove_takes_the_row_out_of_every_index_and_counts_once() {
    let mut s = State::base();
    s.add_key(&[0], None);
    s.add_key(&[1], None);
    s.insert(vec![num(1), text("a")], None);
    s.insert(vec![num(1), text("b")], None);
    s.insert(vec![num(1), text("c")], None);
    assert_eq!(s.len(), 3);
    assert!(s.remove(&[num(1), text("a")]));
    assert_eq!(s.len(), 2);
    let one = num(1);
    // the last row took the place of the removed one
    assert_eq!(
        found(&s, &[0], &KeyType::Single(&one)),
        Some(vec![vec![num(1), text("c")], vec![num(1), text("b")]])
    );
    let a = text("a");
    assert_eq!(found(&s, &[1], &KeyType::Single(&a)), Some(vec![]));
    // the key is there, the row is not: a hit that removes nothing
    assert!(s.remove(&[num(1), text("zzz")]));
    assert_eq!(s.len(), 2);
    // no bucket at all
    assert!(!s.remove(&[num(7), text("q")]));
    assert_eq!(s.len(), 2);
}

#[test]
fn len_never_goes_below_zero() {
    let mut s = State::base();
    s.add_key(&[0], Some(vec![Tag(1)]));
    s.mark_filled(vec![num(1)], &Tag(1));
    assert!(s.insert(vec![num(1)], Some(Tag(1))));
    assert_eq!(s.len(), 0);
    assert!(s.remove(&[num(1)]));
    assert_eq!(s.len(), 0);
}

#[test]
fn lookup_with_wider_keys() {
    let mut s = State::base();
    s.add_key(&[0, 1, 2], None);
    s.add_key(&[0, 1, 2, 3], None);
    s.add_key(&[0, 1, 2, 3, 4], None);
    s.add_key(&[5, 4, 3, 2, 1, 0], None);
    let r = vec![num(0), num(1), num(2), num(3), num(4), num(5)];
    assert!(s.insert(r.clone(), None));
    assert_eq!(
        found(&s, &[0, 1, 2], &KeyType::Tri((num(0), num(1), num(2)))),
        Some(vec![r.clone()])
    );
    assert_eq!(
        found(&s, &[0, 1, 2, 3], &KeyType::Quad((num(0), num(1), num(2), num(3)))),
        Some(vec![r.clone()])
    );
    assert_eq!(
        found(
            &s,
            &[0, 1, 2, 3, 4],
            &KeyType::Quin((num(0), num(1), num(2), num(3), num(4)))
        ),
        Some(vec![r.clone()])
    );
    assert_eq!(
        found(
            &s,
            &[5, 4, 3, 2, 1, 0],
            &KeyType::Sex((num(5), num(4), num(3), num(2), num(1), num(0)))
        ),
        Some(vec![r.clone()])
    );
    assert_eq!(
        found(
            &s,
            &[5, 4, 3, 2, 1, 0],
            &KeyType::Sex((num(0), num(1), num(2), num(3), num(4), num(5)))
        ),
        Some(vec![])
    );
}

#[test]
fn cloned_records_is_a_snapshot_of_the_first_index() {
    let mut s = State::base();
    s.add_key(&[0], None);
    let rows = vec![
        vec![num(1), text("a")],
        vec![num(2), text("b")],
        vec![num(1), text("a")],
    ];
    for r in &rows {
        s.insert(r.clone(), None);
    }
    assert_eq!(sorted(s.cloned_records()), sorted(rows));
}

#[test]
fn clear_keeps_indices_and_tags() {
    let mut s = State::base();
    s.add_key(&[0], None);
    s.add_key(&[1], Some(vec![Tag(4)]));
    s.insert(vec![num(1), text("a")], None);
    s.clear();
    assert_eq!(s.len(), 0);
    assert!(s.is_empty());
    assert_eq!(s.keys(), vec![vec![0], vec![1]]);
    let one = num(1);
    assert_eq!(found(&s, &[0], &KeyType::Single(&one)), Some(vec![]));
    s.mark_filled(vec![text("a")], &Tag(4));
    let a = text("a");
    assert_eq!(found(&s, &[1], &KeyType::Single(&a)), Some(vec![]));
}

#[test]
fn iter_walks_the_buckets_of_the_first_single_key_index() {
    let mut s = State::base();
    s.add_key(&[0, 1], None);
    s.add_key(&[1], None);
    s.insert(vec![num(1), text("a")], None);
    s.insert(vec![num(2), text("a")], None);
    s.insert(vec![num(3), text("b")], None);
    let buckets = s.iter();
    let mut sizes: Vec<usize> = buckets.iter().map(|b| b.len()).collect();
    sizes.sort();
    assert_eq!(sizes, vec![1, 2]);
}

#[test]
fn into_iter_hands_out_the_rows_of_the_youngest_index() {
    let mut s = State::base();
    s.add_key(&[0], None);
    s.add_key(&[1], None);
    s.insert(vec![num(1), text("a")], None);
    s.insert(vec![num(2), text("a")], None);
    s.insert(vec![num(3), text("b")], None);
    let mut buckets = s.into_iter();
    buckets.sort_by_key(|b| b.len());
    assert_eq!(buckets.len(), 2);
    assert_eq!(buckets[0], vec![vec![num(3), text("b")]]);
    assert_eq!(
        buckets[1],
        vec![vec![num(1), text("a")], vec![num(2), text("a")]]
    );
}

#[test]
fn shared_rows_are_one_allocation() {
    let mut s = State::base();
    s.add_key(&[0], None);
    s.add_key(&[1], None);
    s.insert(vec![num(1), text("a")], None);
    let one = num(1);
    let a = text("a");
    let first = match s.lookup(&[0], &KeyType::Single(&one)) {
        LookupResult::Found(rows) => rows[0].clone(),
        LookupResult::Missing => panic!("hole in a complete index"),
    };
    let second = match s.lookup(&[1], &KeyType::Single(&a)) {
        LookupResult::Found(rows) => rows[0].clone(),
        LookupResult::Missing => panic!("hole in a complete index"),
    };
    assert!(Rc::ptr_eq(&first, &second));
}

#[test]
fn keyed_state_insert_replaces_and_remove_returns() {
    let mut k = KeyedState::new(1);
    assert!(k.is_empty());
    let row: Row = Rc::new(vec![num(1), text("a")]);
    assert!(k.insert(vec![num(1)], vec![row.clone()]).is_none());
    assert_eq!(k.len(), 1);
    let prior = k.insert(vec![num(1)], vec![]).unwrap();
    assert_eq!(prior.len(), 1);
    assert_eq!(k.get(&[num(1)]).unwrap().len(), 0);
    assert!(k.get(&[num(2)]).is_none());
    k.get_mut(&[num(1)]).unwrap().push(row.clone());
    assert_eq!(k.lookup(&KeyType::Single(&num(1))).unwrap().len(), 1);
    assert_eq!(k.values().len(), 1);
    assert_eq!(k.remove(&[num(1)]).unwrap().len(), 1);
    assert!(k.remove(&[num(1)]).is_none());
    assert!(k.is_empty());
    assert_eq!(k.key_len(), 1);
    k.insert(vec![num(3)], vec![row]);
    k.clear();
    assert_eq!(k.len(), 0);
    assert_eq!(k.into_values().len(), 0);
}

#[test]
fn keys_with_one_hash_stay_apart() {
    // two keys of two values whose hashes meet
    let offset: u64 = 0xcbf2_9ce4_8422_2325;
    let prime: u64 = 0x0000_0100_0000_01b3;
    let after = |a: i64| (offset ^ hash_value(&num(a))).wrapping_mul(prime);
    let b1: i64 = 5;
    let b2 = ((after(1) ^ (b1 as u64)) ^ after(2)) as i64;
    let k1 = vec![num(1), num(b1)];
    let k2 = vec![num(2), num(b2)];
    assert_ne!(k1, k2);
    assert_eq!(hash_key(&k1), hash_key(&k2));

    let r1: Row = Rc::new(vec![num(1), num(b1), text("one")]);
    let r2: Row = Rc::new(vec![num(2), num(b2), text("two")]);
    let mut k = KeyedState::new(2);
    assert!(k.insert(k1.clone(), vec![r1.clone()]).is_none());
    assert!(k.insert(vec![num(9), num(9)], vec![]).is_none());
    assert!(k.insert(k2.clone(), vec![r2.clone()]).is_none());
    assert_eq!(k.len(), 3);
    assert_eq!(k.get(&k1).unwrap()[0], r1);
    assert_eq!(k.get(&k2).unwrap()[0], r2);
    assert_eq!(
        k.lookup(&KeyType::Double((num(2), num(b2)))).unwrap()[0],
        r2
    );
    // taking the first out moves the last into its place
    assert_eq!(k.remove(&k1).unwrap()[0], r1);
    assert!(k.get(&k1).is_none());
    assert_eq!(k.get(&k2).unwrap()[0], r2);
    assert_eq!(k.get(&[num(9), num(9)]).unwrap().len(), 0);
    assert_eq!(k.len(), 2);
    assert!(k.insert(k1.clone(), vec![r1.clone(), r1.clone()]).is_none());
    assert_eq!(k.remove(&k2).unwrap()[0], r2);
    assert_eq!(k.get(&k1).unwrap().len(), 2);
    assert!(k.remove(&k2).is_none());

    let mut s = State::base();
    s.add_key(&[0, 1], None);
    assert!(s.insert((*r1).clone(), None));
    assert!(s.insert((*r2).clone(), None));
    assert_eq!(
        found(&s, &[0, 1], &KeyType::Double((num(1), num(b1)))),
        Some(vec![(*r1).clone()])
    );
    assert_eq!(
        found(&s, &[0, 1], &KeyType::Double((num(2), num(b2)))),
        Some(vec![(*r2).clone()])
    );
    assert!(s.remove(&r1));
    assert_eq!(
        found(&s, &[0, 1], &KeyType::Double((num(1), num(b1)))),
        Some(vec![])
    );
    assert_eq!(
        found(&s, &[0, 1], &KeyType::Double((num(2), num(b2)))),
        Some(vec![(*r2).clone()])
    );
}

#[test]
fn many_keys_come_and_go() {
    let mut s = State::base();
    s.add_key(&[0], Some(vec![Tag(1)]));
    for i in 0..200 {
        s.mark_filled(vec![num(i)], &Tag(1));
        assert!(s.insert(vec![num(i), num(i * 2)], None));
    }
    assert_eq!(s.nkeys(), 200);
    for i in (0..200).step_by(2) {
        s.mark_hole(&[num(i)], &Tag(1));
    }
    assert_eq!(s.nkeys(), 100);
    for i in 0..200 {
        let k = num(i);
        let got = found(&s, &[0], &KeyType::Single(&k));
        if i % 2 == 0 {
            assert_eq!(got, None);
        } else {
            assert_eq!(got, Some(vec![vec![num(i), num(i * 2)]]));
        }
    }
    assert_eq!(s.len(), 200);
}

#[test]
fn a_state_tells_which_tags_it_knows() {
    let mut s = State::base();
    assert!(!s.has_tag(&Tag(1)));
    s.add_key(&[0], Some(vec![Tag(1), Tag(2)]));
    assert!(s.has_tag(&Tag(1)));
    assert!(s.has_tag(&Tag(2)));
    assert!(!s.has_tag(&Tag(3)));
    s.add_key(&[0], Some(vec![Tag(3)]));
    assert!(s.has_tag(&Tag(3)));
    s.clear();
    assert!(s.has_tag(&Tag(1)));
}
