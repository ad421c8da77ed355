use dataflow_core::ops::{BaseOperation, Input, Link, LocalNodeIndex, Modification};
use dataflow_core::hash::{hash_bytes, hash_key, hash_value};
use dataflow_core::shard::{shard_by, BatchSendHandle};
use dataflow_core::value::DataType;
use dataflow_core::wire::read_ack;

fn num(n: i64) -> DataType {
    DataType::Int(n)
}

fn link() -> Link {
    Link::new(LocalNodeIndex { id: 3 }, LocalNodeIndex { id: 3 })
}

#[test]
fn integers_shard_by_their_remainder() {
    assert_eq!(shard_by(&num(1), 4), 1);
    assert_eq!(shard_by(&num(5), 4), 1);
    assert_eq!(shard_by(&num(9), 4), 1);
    assert_eq!(shard_by(&num(8), 4), 0);
    assert_eq!(shard_by(&num(7), 1), 0);
    // a negative integer counts as its two's complement
    assert_eq!(hash_value(&num(-1)), u64::MAX);
    assert_eq!(shard_by(&num(-1), 4), 3);
    assert_eq!(hash_value(&num(i64::MIN)), 1u64 << 63);
    assert_eq!(hash_value(&DataType::Null), 0);
}

#[test]
fn text_shards_by_the_hash_of_its_bytes() {
    assert_eq!(hash_bytes(b""), 0xcbf2_9ce4_8422_2325);
    assert_eq!(hash_bytes(b"a"), 0xaf63_dc4c_8601_ec8c);
    assert_eq!(hash_bytes(b"foobar"), 0x8594_4171_f739_67e8);
    let t = DataType::Text("foobar".to_string());
    assert_eq!(hash_value(&t), 0x8594_4171_f739_67e8);
    assert_eq!(shard_by(&t, 16), 0x8);
    assert_eq!(shard_by(&t, 16), shard_by(&DataType::Text("foobar".to_string()), 16));
}

#[test]
fn a_key_hashes_value_by_value() {
    let offset: u64 = 0xcbf2_9ce4_8422_2325;
    let prime: u64 = 0x0000_0100_0000_01b3;
    assert_eq!(hash_key(&[]), offset);
    assert_eq!(hash_key(&[num(7)]), (offset ^ 7).wrapping_mul(prime));
    let t = DataType::Text("a".to_string());
    assert_eq!(
        hash_key(&[num(7), t]),
        ((offset ^ 7).wrapping_mul(prime) ^ 0xaf63_dc4c_8601_ec8c).wrapping_mul(prime)
    );
}

#[test]
fn shard_fan_out() {
    let mut h = BatchSendHandle::new(4);
    let rows: Vec<BaseOperation> = [1, 5, 1, 9]
        .iter()
        .enumerate()
        .map(|(i, k)| BaseOperation::Insert(vec![num(*k), num(i as i64)]))
        .collect();
    let writes = h.enqueue(Input { link: link(), data: rows }, &[0]);
    assert_eq!(writes.len(), 1);
    assert_eq!(writes[0].0, 1);
    assert_eq!(writes[0].1.link, link());
    assert_eq!(
        writes[0].1.data,
        vec![
            BaseOperation::Insert(vec![num(1), num(0)]),
            BaseOperation::Insert(vec![num(5), num(1)]),
            BaseOperation::Insert(vec![num(1), num(2)]),
            BaseOperation::Insert(vec![num(9), num(3)]),
        ]
    );
    assert_eq!(h.sent(0), 0);
    assert_eq!(h.sent(1), 1);
    assert_eq!(h.sent(2), 0);
    assert_eq!(h.sent(3), 0);
    assert_eq!(h.shards(), 4);
}

#[test]
fn sharding_splits_in_order_and_loses_nothing() {
    let mut h = BatchSendHandle::new(3);
    let data = vec![
        BaseOperation::Insert(vec![num(10), num(4)]),
        BaseOperation::Delete { key: vec![num(5)] },
        BaseOperation::Insert(vec![num(11), num(3)]),
        BaseOperation::Update { key: vec![num(2)], set: vec![Modification::Unchanged] },
        BaseOperation::InsertOrUpdate { row: vec![num(12), num(7)], update: vec![] },
        BaseOperation::Insert(vec![num(13), num(6)]),
    ];
    // sharded by column 1: 4, 5, 3, 2, 7, 6 -> shards 1, 2, 0, 2, 1, 0
    let writes = h.enqueue(Input { link: link(), data }, &[1]);
    assert_eq!(writes.len(), 3);
    assert_eq!(writes[0].0, 0);
    assert_eq!(
        writes[0].1.data,
        vec![
            BaseOperation::Insert(vec![num(11), num(3)]),
            BaseOperation::Insert(vec![num(13), num(6)]),
        ]
    );
    assert_eq!(writes[1].0, 1);
    assert_eq!(
        writes[1].1.data,
        vec![
            BaseOperation::Insert(vec![num(10), num(4)]),
            BaseOperation::InsertOrUpdate { row: vec![num(12), num(7)], update: vec![] },
        ]
    );
    assert_eq!(writes[2].0, 2);
    assert_eq!(
        writes[2].1.data,
        vec![
            BaseOperation::Delete { key: vec![num(5)] },
            BaseOperation::Update { key: vec![num(2)], set: vec![Modification::Unchanged] },
        ]
    );
    let total: usize = writes.iter().map(|w| w.1.data.len()).sum();
    assert_eq!(total, 6);
    assert_eq!((h.sent(0), h.sent(1), h.sent(2)), (1, 1, 1));
    // a second envelope adds to the counts of the shards it reaches
    let more = h.enqueue(
        Input { link: link(), data: vec![BaseOperation::Insert(vec![num(1), num(3)])] },
        &[1],
    );
    assert_eq!(more.len(), 1);
    assert_eq!((h.sent(0), h.sent(1), h.sent(2)), (2, 1, 1));
}

#[test]
fn a_single_shard_takes_the_envelope_whole() {
    let mut h = BatchSendHandle::new(1);
    let data = vec![BaseOperation::Delete { key: vec![] }];
    let writes = h.enqueue(Input { link: link(), data }, &[]);
    assert_eq!(writes.len(), 1);
    assert_eq!(writes[0].0, 0);
    assert_eq!(writes[0].1.data, vec![BaseOperation::Delete { key: vec![] }]);
    assert_eq!(h.sent(0), 1);
    let empty = h.enqueue(Input { link: link(), data: vec![] }, &[0]);
    assert_eq!(empty.len(), 1);
    assert_eq!(h.sent(0), 2);
}

#[test]
fn an_empty_envelope_reaches_no_shard_of_many() {
    let mut h = BatchSendHandle::new(2);
    let writes = h.enqueue(Input { link: link(), data: vec![] }, &[0]);
    assert!(writes.is_empty());
    assert_eq!((h.sent(0), h.sent(1)), (0, 0));
}

#[test]
fn wait_reports_the_last_acknowledgement() {
    let mut h = BatchSendHandle::new(3);
    let data = vec![
        BaseOperation::Insert(vec![num(0)]),
        BaseOperation::Insert(vec![num(1)]),
    ];
    h.enqueue(Input { link: link(), data }, &[0]);
    h.enqueue(Input { link: link(), data: vec![BaseOperation::Insert(vec![num(3)])] }, &[0]);
    assert_eq!((h.sent(0), h.sent(1), h.sent(2)), (2, 1, 0));
    let acks = vec![vec![Ok(4), Err(())], vec![Ok(9)], vec![]];
    assert_eq!(h.wait(&acks), Ok(9));

    let mut h = BatchSendHandle::new(2);
    h.enqueue(Input { link: link(), data: vec![BaseOperation::Insert(vec![num(2)])] }, &[0]);
    assert_eq!(h.wait(&vec![vec![Err(())], vec![]]), Err(()));

    let h = BatchSendHandle::new(2);
    assert_eq!(h.wait(&vec![vec![], vec![]]), Ok(0));
}

#[test]
fn acknowledgements_decode_from_their_bytes() {
    assert_eq!(read_ack(&[0, 0, 0, 0, 5, 0, 0, 0, 0, 0, 0, 0]), Some(Ok(5)));
    assert_eq!(
        read_ack(&[0, 0, 0, 0, 0xff, 0xff, 0xff, 0xff, 0xff, 0xff, 0xff, 0xff]),
        Some(Ok(-1))
    );
    assert_eq!(
        read_ack(&[0, 0, 0, 0, 0x08, 0x07, 0x06, 0x05, 0x04, 0x03, 0x02, 0x01]),
        Some(Ok(0x0102_0304_0506_0708))
    );
    assert_eq!(
        read_ack(&[0, 0, 0, 0, 0, 0, 0, 0, 0, 0, 0, 0x80]),
        Some(Ok(i64::MIN))
    );
    assert_eq!(read_ack(&[1, 0, 0, 0]), Some(Err(())));
    // bytes after the acknowledgement are ignored
    assert_eq!(read_ack(&[1, 0, 0, 0, 7, 7]), Some(Err(())));
    assert_eq!(read_ack(&[0, 0, 0, 0, 5, 0, 0, 0, 0, 0, 0, 0, 9]), Some(Ok(5)));
    // an unknown variant, and bytes that run out
    assert_eq!(read_ack(&[2, 0, 0, 0]), None);
    assert_eq!(read_ack(&[0, 1, 0, 0, 5, 0, 0, 0, 0, 0, 0, 0]), None);
    assert_eq!(read_ack(&[1, 0, 0, 1]), None);
    assert_eq!(read_ack(&[0, 0, 0, 0, 5, 0, 0]), None);
    assert_eq!(read_ack(&[1, 0, 0]), None);
    assert_eq!(read_ack(&[]), None);
    assert_eq!(read_ack(&bincode::serialize(&Ok::<i64, ()>(77)).unwrap()), Some(Ok(77)));
    assert_eq!(read_ack(&bincode::serialize(&Err::<i64, ()>(())).unwrap()), Some(Err(())));
}

#[test]
fn a_batch_tells_what_it_can_take() {
    let ins = |row: Vec<DataType>| Input { link: link(), data: vec![BaseOperation::Insert(row)] };
    let two = BatchSendHandle::new(2);
    assert!(two.can_enqueue(&ins(vec![num(1), num(2)]), &[1]));
    // the row lacks the sharding column
    assert!(!two.can_enqueue(&ins(vec![num(1), num(2)]), &[2]));
    // no key, and a key of two columns
    assert!(!two.can_enqueue(&ins(vec![num(1), num(2)]), &[]));
    assert!(!two.can_enqueue(&ins(vec![num(1), num(2)]), &[0, 1]));
    // an operation with an empty key
    let del = Input { link: link(), data: vec![BaseOperation::Delete { key: vec![] }] };
    assert!(!two.can_enqueue(&del, &[0]));
    let upd = Input {
        link: link(),
        data: vec![
            BaseOperation::Update { key: vec![num(1)], set: vec![] },
            BaseOperation::InsertOrUpdate { row: vec![], update: vec![] },
        ],
    };
    assert!(!two.can_enqueue(&upd, &[0]));
    // a single shard takes anything
    let one = BatchSendHandle::new(1);
    assert!(one.can_enqueue(&del, &[]));
    assert!(one.can_enqueue(&ins(vec![]), &[0, 1]));
    // without a shard only an empty envelope can go
    let none = BatchSendHandle::new(0);
    assert!(!none.can_enqueue(&ins(vec![num(1)]), &[0]));
    assert!(none.can_enqueue(&Input { link: link(), data: vec![] }, &[0]));
    assert!(!none.can_enqueue(&Input { link: link(), data: vec![] }, &[]));
}
