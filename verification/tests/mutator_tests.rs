use dataflow_core::dropped::{keys_below, widen_row};
use dataflow_core::mutator::{
    ExclusiveConnection, Mutator, MutatorBuilder, MutatorError, SharedConnection, ShardAddr,
};
use dataflow_core::ops::{BaseOperation, Link, LocalNodeIndex, Modification, Operation};
use dataflow_core::value::DataType;
use vec_map::VecMap;

fn num(n: i64) -> DataType {
    DataType::Int(n)
}

fn text(s: &str) -> DataType {
    DataType::Text(s.to_string())
}

fn builder(columns: &[&str], dropped: &[(usize, DataType)]) -> MutatorBuilder {
    let mut map = VecMap::new();
    for (k, v) in dropped {
        map.insert(*k, v.clone());
    }
    MutatorBuilder {
        txs: vec![ShardAddr { ip: [0; 16], port: 7000 }],
        addr: LocalNodeIndex { id: 2 },
        key_is_primary: true,
        key: vec![0],
        transactional: false,
        dropped: map,
        table_name: "t".to_string(),
        columns: columns.iter().map(|c| c.to_string()).collect(),
        schema: None,
        local_port: None,
    }
}

fn mutator(columns: &[&str], dropped: &[(usize, DataType)]) -> Mutator<SharedConnection> {
    let b = builder(columns, dropped);
    assert!(b.is_well_formed());
    b.build()
}

#[test]
fn dropped_columns() {
    // declared [a, b, c, d]; b and d were dropped
    let m = mutator(&["a", "c"], &[(1, DataType::Null), (3, num(0))]);
    let input = m.put(vec![num(10), num(20)]).unwrap();
    assert_eq!(
        input.data,
        vec![BaseOperation::Insert(vec![num(10), DataType::Null, num(20), num(0)])]
    );
    assert_eq!(input.link, Link::new(LocalNodeIndex { id: 2 }, LocalNodeIndex { id: 2 }));
}

#[test]
fn arity_mismatch() {
    let m = mutator(&["a", "b", "c"], &[]);
    assert_eq!(
        m.put(vec![num(1), num(2)]).unwrap_err(),
        MutatorError::WrongColumnCount(3, 2)
    );
    let ok = m.put(vec![num(1), num(2), num(3)]).unwrap();
    assert_eq!(ok.data, vec![BaseOperation::Insert(vec![num(1), num(2), num(3)])]);
}

#[test]
fn widening_puts_defaults_at_their_positions() {
    let mut dropped = VecMap::new();
    dropped.insert(0, text("x"));
    dropped.insert(2, text("y"));
    dropped.insert(3, text("z"));
    dropped.insert(6, text("w"));
    let mut row = vec![num(1), num(2), num(3)];
    widen_row(&mut row, &dropped);
    assert_eq!(
        row,
        vec![text("x"), num(1), text("y"), text("z"), num(2), num(3), text("w")]
    );

    let mut all_dropped = VecMap::new();
    all_dropped.insert(0, num(7));
    all_dropped.insert(1, num(8));
    let mut empty: Vec<DataType> = vec![];
    widen_row(&mut empty, &all_dropped);
    assert_eq!(empty, vec![num(7), num(8)]);

    let mut tail = VecMap::new();
    tail.insert(2, num(9));
    let mut row = vec![num(1), num(2)];
    widen_row(&mut row, &tail);
    assert_eq!(row, vec![num(1), num(2), num(9)]);

    let none: VecMap<DataType> = VecMap::new();
    let mut row = vec![num(1), num(2)];
    widen_row(&mut row, &none);
    assert_eq!(row, vec![num(1), num(2)]);
}

#[test]
fn dropped_positions_must_lie_inside_the_widened_row() {
    assert!(builder(&["a", "c"], &[(1, DataType::Null), (3, num(0))]).is_well_formed());
    assert!(!builder(&["a", "c"], &[(1, DataType::Null), (4, num(0))]).is_well_formed());
    assert!(builder(&[], &[(0, num(0))]).is_well_formed());
    assert!(!builder(&[], &[(1, num(0))]).is_well_formed());
    let mut m = VecMap::new();
    m.insert(2, num(1));
    m.insert(5, num(1));
    assert!(keys_below(&m, 6));
    assert!(!keys_below(&m, 5));
    assert!(!keys_below(&m, 0));
}

#[test]
fn multi_put_checks_every_row() {
    let m = mutator(&["a", "b"], &[(2, num(0))]);
    let input = m
        .multi_put(vec![vec![num(1), num(2)], vec![num(3), num(4)]])
        .unwrap();
    assert_eq!(
        input.data,
        vec![
            BaseOperation::Insert(vec![num(1), num(2), num(0)]),
            BaseOperation::Insert(vec![num(3), num(4), num(0)]),
        ]
    );
    assert_eq!(
        m.multi_put(vec![vec![num(1), num(2)], vec![num(3)], vec![]]).unwrap_err(),
        MutatorError::WrongColumnCount(2, 1)
    );
    assert_eq!(m.multi_put(vec![]).unwrap().data, vec![]);
}

#[test]
fn batch_put_hands_out_nothing_of_a_batch_with_a_bad_row() {
    let m = mutator(&["a", "b"], &[]);
    let r = m.batch_put(vec![
        BaseOperation::Insert(vec![num(1), num(2)]),
        BaseOperation::Delete { key: vec![num(1)] },
        BaseOperation::Insert(vec![num(3)]),
        BaseOperation::Insert(vec![]),
    ]);
    assert_eq!(r, Err(MutatorError::WrongColumnCount(2, 1)));
    let r = m.batch_put(vec![BaseOperation::InsertOrUpdate { row: vec![], update: vec![] }]);
    assert_eq!(r, Err(MutatorError::WrongColumnCount(2, 0)));
}

#[test]
fn batch_put_wraps_each_operation_of_a_valid_batch() {
    let m = mutator(&["a", "b"], &[(1, num(0))]);
    let batch = m
        .batch_put(vec![
            BaseOperation::Insert(vec![num(1), num(2)]),
            BaseOperation::Delete { key: vec![num(1)] },
            BaseOperation::InsertOrUpdate { row: vec![num(3), num(4)], update: vec![] },
        ])
        .unwrap();
    assert_eq!(batch.len(), 3);
    assert_eq!(batch[0].data, vec![BaseOperation::Insert(vec![num(1), num(0), num(2)])]);
    assert_eq!(batch[1].data, vec![BaseOperation::Delete { key: vec![num(1)] }]);
    assert_eq!(
        batch[2].data,
        vec![BaseOperation::InsertOrUpdate { row: vec![num(3), num(0), num(4)], update: vec![] }]
    );
    assert_eq!(m.batch_put(vec![]).unwrap().len(), 0);
    assert_eq!(
        Mutator::<SharedConnection>::batch_outcome(Ok(3)),
        Ok(())
    );
    assert_eq!(
        Mutator::<SharedConnection>::batch_outcome(Err(())),
        Err(MutatorError::TransactionFailed)
    );
}

#[test]
fn delete_wraps_the_key() {
    let m = mutator(&["a", "b"], &[]);
    let input = m.delete(vec![num(1)]).unwrap();
    assert_eq!(input.data, vec![BaseOperation::Delete { key: vec![num(1)] }]);
}

#[test]
fn operations_with_a_key_are_not_reshaped() {
    let m = mutator(&["a"], &[(1, num(0))]);
    let input = m.delete(vec![num(1)]).unwrap();
    assert_eq!(input.data, vec![BaseOperation::Delete { key: vec![num(1)] }]);
    let input = m.update(vec![num(1)], vec![(0, Modification::Assign(num(2)))]).unwrap();
    assert_eq!(
        input.data,
        vec![BaseOperation::Update {
            key: vec![num(1)],
            set: vec![Modification::Assign(num(2))]
        }]
    );
}

#[test]
fn update_places_each_modification_at_its_column() {
    let m = mutator(&["a", "b", "c"], &[]);
    let input = m
        .update(
            vec![num(1)],
            vec![
                (2, Modification::Assign(num(5))),
                (0, Modification::Apply(Operation::Add, num(1))),
                (2, Modification::Apply(Operation::Sub, num(3))),
            ],
        )
        .unwrap();
    assert_eq!(
        input.data,
        vec![BaseOperation::Update {
            key: vec![num(1)],
            set: vec![
                Modification::Apply(Operation::Add, num(1)),
                Modification::Unchanged,
                Modification::Apply(Operation::Sub, num(3)),
            ],
        }]
    );
    assert_eq!(
        m.update(vec![num(1), num(2)], vec![]).unwrap_err(),
        MutatorError::WrongKeyColumnCount(1, 2)
    );
    assert_eq!(
        m.update(
            vec![num(1)],
            vec![(1, Modification::Unchanged), (3, Modification::Unchanged), (9, Modification::Unchanged)]
        )
        .unwrap_err(),
        MutatorError::WrongColumnCount(3, 4)
    );
}

#[test]
fn insert_or_update_checks_the_row_then_the_columns() {
    let m = mutator(&["a", "b"], &[(1, text("d"))]);
    let input = m
        .insert_or_update(vec![num(1), num(2)], vec![(1, Modification::Assign(num(7)))])
        .unwrap();
    assert_eq!(
        input.data,
        vec![BaseOperation::InsertOrUpdate {
            row: vec![num(1), text("d"), num(2)],
            update: vec![Modification::Unchanged, Modification::Assign(num(7))],
        }]
    );
    assert_eq!(
        m.insert_or_update(vec![num(1)], vec![(5, Modification::Unchanged)]).unwrap_err(),
        MutatorError::WrongColumnCount(2, 1)
    );
    assert_eq!(
        m.insert_or_update(vec![num(1), num(2)], vec![(2, Modification::Unchanged)]).unwrap_err(),
        MutatorError::WrongColumnCount(2, 3)
    );
}

#[test]
fn a_writer_tells_what_it_writes_to() {
    let mut b = builder(&["a", "b"], &[(2, num(0))]);
    b.schema = Some(nom_sql::CreateTableStatement::default());
    b.txs.push(ShardAddr { ip: [1; 16], port: 7001 });
    let b = b.with_local_port(4000);
    assert_eq!(b.local_port, Some(4000));
    let m = b.build();
    assert_eq!(m.table_name(), "t");
    assert_eq!(m.columns(), &["a".to_string(), "b".to_string()][..]);
    assert_eq!(m.key(), &[0][..]);
    assert_eq!(m.shard_addrs().len(), 2);
    assert_eq!(*m.schema(), nom_sql::CreateTableStatement::default());

    let copy = m.clone();
    assert_eq!(copy.table_name(), "t");
    assert_eq!(copy.columns(), m.columns());
    assert_eq!(copy.shard_addrs(), m.shard_addrs());
    assert_eq!(*copy.schema(), nom_sql::CreateTableStatement::default());
    assert_eq!(
        copy.put(vec![num(1), num(2)]).unwrap().data,
        vec![BaseOperation::Insert(vec![num(1), num(2), num(0)])]
    );

    let own: Mutator<ExclusiveConnection> = m.into_exclusive();
    assert_eq!(own.table_name(), "t");
    assert_eq!(
        own.put(vec![num(1), num(2)]).unwrap().data,
        vec![BaseOperation::Insert(vec![num(1), num(2), num(0)])]
    );
}
