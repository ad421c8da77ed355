//! The partition of values over the shards of a base table, and the
//! bookkeeping of one batch of writes to those shards.

use vstd::prelude::*;
use vstd::seq_lib::{lemma_multiset_commutative, to_multiset_build, to_multiset_contains, to_multiset_len};
use crate::ops::{BaseOperation, Input, InputView, Link, OpView};
use crate::hash::{hash_value, value_hash};
use crate::value::{DataType, Value};

verus! {

/// The shard, of `shards` many, that holds the rows whose sharding key is
/// `v`.
pub open spec fn shard_of(v: Value, shards: nat) -> nat
    recommends
        shards > 0,
{
    (value_hash(v) as nat) % shards
}

/// The shard, of `shards` many, that holds the rows whose sharding key is
/// `dt`.
pub fn shard_by(dt: &DataType, shards: usize) -> (shard: usize)
    requires
        shards > 0,
    ensures
        shard == shard_of(dt@, shards as nat),
        shard < shards,
{
    let h = hash_value(dt);
    (h % (shards as u64)) as usize
}

/// The value by which the operation `op` is sharded, where `col` is the
/// sharding column: for an operation that carries a row the value of that
/// column, for one that carries a key the first value of the key.
pub open spec fn shard_key(op: OpView, col: int) -> Value {
    match op {
        OpView::Insert(row) => row[col],
        OpView::Delete { key } => key[0],
        OpView::Update { key, .. } => key[0],
        OpView::InsertOrUpdate { row, .. } => row[col],
    }
}

/// Whether the operation `op` holds the value by which it is sharded.
pub open spec fn routable(op: OpView, col: int) -> bool {
    match op {
        OpView::Insert(row) => col < row.len(),
        OpView::Delete { key } => key.len() > 0,
        OpView::Update { key, .. } => key.len() > 0,
        OpView::InsertOrUpdate { row, .. } => col < row.len(),
    }
}

/// The shard that the operation `op` goes to.
pub open spec fn shard_for(op: OpView, col: int, shards: nat) -> nat {
    shard_of(shard_key(op, col), shards)
}

/// The test for the operations that go to the shard `s`.
pub open spec fn in_shard(col: int, shards: nat, s: nat) -> spec_fn(OpView) -> bool {
    |op: OpView| shard_for(op, col, shards) == s
}

/// The operations of `ops` that go to the shard `s`, in their order in
/// `ops`.
pub open spec fn shard_bucket(ops: Seq<OpView>, col: int, shards: nat, s: nat) -> Seq<OpView> {
    ops.filter(in_shard(col, shards, s))
}

/// The envelopes for the shards below `upto`, in the order of the shards:
/// one for each shard that some operation of `ops` goes to, holding those
/// operations.
pub open spec fn shard_writes(link: Link, ops: Seq<OpView>, col: int, shards: nat, upto: nat) -> Seq<
    (usize, InputView),
>
    decreases upto,
{
    if upto == 0 {
        Seq::empty()
    } else {
        let s = (upto - 1) as nat;
        let below = shard_writes(link, ops, col, shards, s);
        let bucket = shard_bucket(ops, col, shards, s);
        if bucket.len() > 0 {
            below.push((s as usize, InputView { link, data: bucket }))
        } else {
            below
        }
    }
}

/// Whether a batch with the counts `sent` can take the envelope `input` of
/// a base table sharded by `key`: no count is at its limit; and, unless
/// there is exactly one shard, the key is a single column, every operation
/// holds its sharding value, and there is a shard to send to if there is
/// anything to send.
pub open spec fn can_enqueue(sent: Seq<usize>, input: InputView, key: Seq<usize>) -> bool {
    &&& forall|s: int| 0 <= s < sent.len() ==> sent[s] < usize::MAX
    &&& sent.len() != 1 ==> {
        &&& key.len() == 1
        &&& input.data.len() > 0 ==> sent.len() > 0
        &&& forall|j: int|
            0 <= j < input.data.len() ==> routable(#[trigger] input.data[j], key[0] as int)
    }
}

/// The envelopes that go out for `input`, each with its shard: with one
/// shard the envelope itself; else one envelope for each shard that some
/// operation goes to.
pub open spec fn planned(shards: nat, input: InputView, key: Seq<usize>) -> Seq<(usize, InputView)> {
    if shards == 1 {
        seq![(0usize, input)]
    } else {
        shard_writes(input.link, input.data, key[0] as int, shards, shards)
    }
}

/// The counts after `input` was enqueued: one more for each shard that an
/// envelope goes out to.
pub open spec fn counted(sent: Seq<usize>, input: InputView, key: Seq<usize>) -> Seq<usize> {
    Seq::new(
        sent.len(),
        |s: int|
            if sent.len() == 1 || shard_bucket(
                input.data,
                key[0] as int,
                sent.len(),
                s as nat,
            ).len() > 0 {
                (sent[s] + 1) as usize
            } else {
                sent[s]
            },
    )
}

/// The acknowledgement that a batch reports: the last one read, shard by
/// shard; `Ok(0)` if none was read.
pub open spec fn last_ack(acks: Seq<Seq<Result<i64, ()>>>) -> Result<i64, ()>
    decreases acks.len(),
{
    if acks.len() == 0 {
        Ok(0)
    } else if acks.last().len() > 0 {
        acks.last().last()
    } else {
        last_ack(acks.drop_last())
    }
}

/// The acknowledgements of each shard as sequences.
pub open spec fn ack_views(acks: Seq<Vec<Result<i64, ()>>>) -> Seq<Seq<Result<i64, ()>>> {
    Seq::new(acks.len(), |s: int| acks[s]@)
}

/// One batch of writes to the shards of a base table: it splits each
/// envelope by shard and counts the envelopes that went to each shard, which
/// is the number of acknowledgements to read back from it.
pub struct BatchSendHandle {
    sent: Vec<usize>,
}

impl View for BatchSendHandle {
    type V = Seq<usize>;

    /// The number of envelopes sent to each shard.
    closed spec fn view(&self) -> Seq<usize> {
        self.sent@
    }
}

impl BatchSendHandle {
    /// A batch for `shards` shards, with nothing sent.
    pub fn new(shards: usize) -> (h: BatchSendHandle)
        ensures
            h@ == Seq::new(shards as nat, |s: int| 0usize),
    {
        let mut sent: Vec<usize> = Vec::with_capacity(shards);
        let mut s: usize = 0;
        while s < shards
            invariant
                s <= shards,
                sent@ == Seq::new(s as nat, |s: int| 0usize),
            decreases shards - s,
        {
            sent.push(0);
            assert(sent@ =~= Seq::new((s + 1) as nat, |s: int| 0usize));
            s += 1;
        }
        BatchSendHandle { sent }
    }

    /// The number of shards.
    pub fn shards(&self) -> (n: usize)
        ensures
            n == self@.len(),
    {
        self.sent.len()
    }

    /// The number of envelopes sent to `shard`, which is the number of
    /// acknowledgements to read back from it.
    pub fn sent(&self, shard: usize) -> (n: usize)
        requires
            shard < self@.len(),
        ensures
            n == self@[shard as int],
    {
        self.sent[shard]
    }

    /// Whether the operation `op` holds the value by which it is sharded.
    fn is_routable(op: &BaseOperation, key_col: usize) -> (b: bool)
        ensures
            b == routable(op.deep_view(), key_col as int),
    {
        match op {
            BaseOperation::Insert(r) => key_col < r.len(),
            BaseOperation::Delete { key } => key.len() > 0,
            BaseOperation::Update { key, .. } => key.len() > 0,
            BaseOperation::InsertOrUpdate { row, .. } => key_col < row.len(),
        }
    }

    /// Whether the batch can take the envelope `i` of a base table sharded
    /// by `key`.
    pub fn can_enqueue(&self, i: &Input, key: &[usize]) -> (b: bool)
        ensures
            b == can_enqueue(self@, i.deep_view(), key@),
    {
        let n = self.sent.len();
        let mut s: usize = 0;
        while s < n
            invariant
                s <= n,
                n == self.sent.len(),
                forall|t: int| 0 <= t < s ==> self.sent[t] < usize::MAX,
            decreases n - s,
        {
            if self.sent[s] == usize::MAX {
                return false;
            }
            s += 1;
        }
        if n == 1 {
            return true;
        }
        if key.len() != 1 {
            return false;
        }
        if i.data.len() > 0 && n == 0 {
            return false;
        }
        let ghost ops = i.deep_view().data;
        let mut j: usize = 0;
        while j < i.data.len()
            invariant
                j <= i.data.len(),
                ops == i.data.deep_view(),
                self.sent.len() != 1,
                key.len() == 1,
                forall|m: int| 0 <= m < j ==> routable(#[trigger] ops[m], key@[0] as int),
            decreases i.data.len() - j,
        {
            if !Self::is_routable(&i.data[j], key[0]) {
                assert(!routable(i.deep_view().data[j as int], key@[0] as int));
                return false;
            }
            j += 1;
        }
        true
    }

    /// The value by which `op` is sharded.
    fn key_value(op: &BaseOperation, key_col: usize) -> (v: &DataType)
        requires
            routable(op.deep_view(), key_col as int),
        ensures
            v@ == shard_key(op.deep_view(), key_col as int),
    {
        match op {
            BaseOperation::Insert(r) => &r[key_col],
            BaseOperation::Delete { key } => &key[0],
            BaseOperation::Update { key, .. } => &key[0],
            BaseOperation::InsertOrUpdate { row, .. } => &row[key_col],
        }
    }

    /// Splits the envelope `i` by shard and counts what goes out. Returns
    /// the envelopes to send, each with the shard it goes to, in the order
    /// of the shards.
    pub fn enqueue(&mut self, i: Input, key: &[usize]) -> (writes: Vec<(usize, Input)>)
        requires
            can_enqueue(old(self)@, i.deep_view(), key@),
        ensures
            writes.deep_view() == planned(old(self)@.len(), i.deep_view(), key@),
            final(self)@ == counted(old(self)@, i.deep_view(), key@),
    {
        let ghost input = i.deep_view();
        let ghost before = self@;
        let n = self.sent.len();
        let mut writes: Vec<(usize, Input)> = Vec::new();
        if n == 1 {
            writes.push((0, i));
            let count = self.sent[0];
            self.sent[0] = count + 1;
            assert(writes.deep_view() =~= seq![(0usize, input)]);
            assert(self@ =~= counted(before, input, key@));
            return writes;
        }
        let key_col = key[0];
        let ghost col = key_col as int;
        let Input { link, data } = i;
        let ghost ops = data.deep_view();
        let mut shard_writes: Vec<Vec<BaseOperation>> = Vec::with_capacity(n);
        let mut s: usize = 0;
        while s < n
            invariant
                s <= n,
                shard_writes.len() == s,
                forall|t: int| 0 <= t < s ==> (#[trigger] shard_writes[t])@.len() == 0,
            decreases n - s,
        {
            shard_writes.push(Vec::new());
            s += 1;
        }
        proof {
            assert(ops.take(0) =~= Seq::<OpView>::empty());
            assert forall|t: int| 0 <= t < n implies (#[trigger] shard_writes[t]).deep_view()
                == shard_bucket(ops.take(0), col, n as nat, t as nat) by {
                assert(shard_writes[t].deep_view() =~= Seq::<OpView>::empty());
            }
        }
        for r in it: data.into_iter()
            invariant
                it.seq() == data@,
                ops == data.deep_view(),
                n != 1,
                can_enqueue(before, input, key@),
                input.data == ops,
                col == key@[0] as int,
                col == key_col,
                before.len() == n,
                shard_writes.len() == n,
                forall|t: int|
                    0 <= t < n ==> (#[trigger] shard_writes[t]).deep_view() == shard_bucket(
                        ops.take(it.index() as int),
                        col,
                        n as nat,
                        t as nat,
                    ),
        {
            let ghost j = it.index() as int;
            let ghost op = r.deep_view();
            assert(op == ops[j]);
            assert(routable(input.data[j], col));
            let shard = shard_by(Self::key_value(&r, key_col), n);
            let ghost prior = shard_writes;
            shard_writes[shard].push(r);
            proof {
                assert(ops.take(j + 1) =~= ops.take(j).push(op));
                assert forall|t: int| 0 <= t < n implies (#[trigger] shard_writes[t]).deep_view()
                    == shard_bucket(ops.take(j + 1), col, n as nat, t as nat) by {
                    Seq::lemma_filter_push(ops.take(j), op, in_shard(col, n as nat, t as nat));
                    if t == shard {
                        assert(shard_writes[t].deep_view() =~= prior[t].deep_view().push(op));
                    } else {
                        assert(shard_writes[t] == prior[t]);
                    }
                }
            }
        }
        proof {
            assert(ops.take(data@.len() as int) =~= ops);
        }
        let mut s: usize = 0;
        for rs in it: shard_writes.into_iter()
            invariant
                it.seq() == shard_writes@,
                s == it.index(),
                shard_writes.len() == n,
                n != 1,
                before.len() == n,
                self.sent.len() == n,
                forall|t: int| 0 <= t < n ==> before[t] < usize::MAX,
                forall|t: int|
                    0 <= t < n ==> (#[trigger] shard_writes[t]).deep_view() == shard_bucket(
                        ops,
                        col,
                        n as nat,
                        t as nat,
                    ),
                writes.deep_view() == crate::shard::shard_writes(link, ops, col, n as nat, s as nat),
                forall|t: int|
                    0 <= t < s ==> self.sent[t] == if shard_bucket(ops, col, n as nat, t as nat).len()
                        > 0 {
                        (before[t] + 1) as usize
                    } else {
                        before[t]
                    },
                forall|t: int| s <= t < n ==> self.sent[t] == before[t],
        {
            assert(rs == shard_writes[s as int]);
            assert(rs.deep_view().len() == rs@.len());
            if !rs.is_empty() {
                let ghost prior = writes.deep_view();
                writes.push((s, Input { link, data: rs }));
                assert(writes.deep_view() =~= prior.push(
                    (s, InputView { link, data: rs.deep_view() }),
                ));
                let count = self.sent[s];
                assert(count == before[s as int]);
                self.sent[s] = count + 1;
            }
            s += 1;
        }
        assert(self@ =~= counted(before, input, key@));
        writes
    }

    /// Ends the batch. `acks` holds, for each shard, the acknowledgements
    /// read back from it in order. Returns the last one read, going shard
    /// by shard; `Ok(0)` if nothing was sent.
    pub fn wait(self, acks: &Vec<Vec<Result<i64, ()>>>) -> (id: Result<i64, ()>)
        requires
            acks.len() == self@.len(),
            forall|s: int| 0 <= s < acks.len() ==> (#[trigger] acks[s]).len() == self@[s],
        ensures
            id == last_ack(ack_views(acks@)),
    {
        let mut id: Result<i64, ()> = Ok(0);
        let mut shard: usize = 0;
        assert(ack_views(acks@).take(0) =~= Seq::<Seq<Result<i64, ()>>>::empty());
        while shard < self.sent.len()
            invariant
                shard <= self.sent.len(),
                acks.len() == self.sent.len(),
                forall|s: int| 0 <= s < acks.len() ==> (#[trigger] acks[s]).len() == self.sent[s],
                id == last_ack(ack_views(acks@).take(shard as int)),
            decreases self.sent.len() - shard,
        {
            let n = self.sent[shard];
            let mut k: usize = 0;
            let ghost reached = id;
            while k < n
                invariant
                    k <= n,
                    shard < acks.len(),
                    n == acks[shard as int].len(),
                    id == if k == 0 {
                        reached
                    } else {
                        acks[shard as int][k - 1]
                    },
                decreases n - k,
            {
                id = acks[shard][k];
                k += 1;
            }
            proof {
                let longer = ack_views(acks@).take(shard + 1);
                assert(longer.drop_last() =~= ack_views(acks@).take(shard as int));
                assert(longer.last() == acks[shard as int]@);
            }
            shard += 1;
        }
        assert(ack_views(acks@).take(shard as int) =~= ack_views(acks@));
        id
    }
}

/// The operations of the envelopes `writes`, one envelope after the other.
pub open spec fn gathered(writes: Seq<(usize, InputView)>) -> Seq<OpView>
    decreases writes.len(),
{
    if writes.len() == 0 {
        Seq::empty()
    } else {
        gathered(writes.drop_last()) + writes.last().1.data
    }
}

/// What passes a test occurs among the operations that pass it as often as
/// among all; what fails it does not occur among them.
pub proof fn lemma_filter_count(ops: Seq<OpView>, pred: spec_fn(OpView) -> bool, op: OpView)
    ensures
        ops.filter(pred).to_multiset().count(op) == if pred(op) {
            ops.to_multiset().count(op)
        } else {
            0
        },
    decreases ops.len(),
{
    if ops.len() == 0 {
        ops.lemma_filter_len(pred);
        to_multiset_contains(ops.filter(pred), op);
        to_multiset_contains(ops, op);
    } else {
        let rest = ops.drop_last();
        let last = ops.last();
        assert(ops =~= rest.push(last));
        lemma_filter_count(rest, pred, op);
        Seq::lemma_filter_push(rest, last, pred);
        to_multiset_build(rest, last);
        to_multiset_build(rest.filter(pred), last);
        assert(ops.to_multiset().count(op) == rest.to_multiset().count(op) + if op == last {
            1nat
        } else {
            0nat
        });
        if pred(last) {
            assert(ops.filter(pred) == rest.filter(pred).push(last));
        } else {
            assert(ops.filter(pred) == rest.filter(pred));
        }
    }
}

/// The envelopes for the shards below `upto` hold each operation that goes
/// to one of those shards as often as the input holds it, and no other.
pub proof fn lemma_shard_writes_count(
    link: Link,
    ops: Seq<OpView>,
    col: int,
    shards: nat,
    upto: nat,
    op: OpView,
)
    ensures
        gathered(shard_writes(link, ops, col, shards, upto)).to_multiset().count(op) == if shard_for(
            op,
            col,
            shards,
        ) < upto {
            ops.to_multiset().count(op)
        } else {
            0
        },
    decreases upto,
{
    let writes = shard_writes(link, ops, col, shards, upto);
    if upto == 0 {
        to_multiset_len(gathered(writes));
        to_multiset_contains(gathered(writes), op);
    } else {
        let s = (upto - 1) as nat;
        let below = shard_writes(link, ops, col, shards, s);
        let bucket = shard_bucket(ops, col, shards, s);
        lemma_shard_writes_count(link, ops, col, shards, s, op);
        lemma_filter_count(ops, in_shard(col, shards, s), op);
        if bucket.len() > 0 {
            assert(writes.drop_last() =~= below);
            lemma_multiset_commutative(gathered(below), bucket);
        } else {
            to_multiset_len(bucket);
            to_multiset_contains(bucket, op);
        }
    }
}

/// Each envelope for the shards below `upto` carries the link of the input
/// and goes to a shard below `upto`, and every operation in it goes to that
/// shard.
pub proof fn lemma_shard_writes_route(
    link: Link,
    ops: Seq<OpView>,
    col: int,
    shards: nat,
    upto: nat,
    w: int,
    j: int,
)
    requires
        upto <= usize::MAX,
        0 <= w < shard_writes(link, ops, col, shards, upto).len(),
        0 <= j < shard_writes(link, ops, col, shards, upto)[w].1.data.len(),
    ensures
        shard_writes(link, ops, col, shards, upto)[w].1.link == link,
        shard_writes(link, ops, col, shards, upto)[w].0 < upto,
        shard_for(shard_writes(link, ops, col, shards, upto)[w].1.data[j], col, shards)
            == shard_writes(link, ops, col, shards, upto)[w].0,
        ops.contains(shard_writes(link, ops, col, shards, upto)[w].1.data[j]),
    decreases upto,
{
    let writes = shard_writes(link, ops, col, shards, upto);
    let s = (upto - 1) as nat;
    let below = shard_writes(link, ops, col, shards, s);
    let bucket = shard_bucket(ops, col, shards, s);
    if bucket.len() > 0 && w == writes.len() - 1 {
        ops.lemma_filter_pred(in_shard(col, shards, s), j);
        assert(bucket.contains(bucket[j]));
        ops.lemma_filter_contains_rev(in_shard(col, shards, s), bucket[j]);
    } else {
        lemma_shard_writes_route(link, ops, col, shards, s, w, j);
    }
}

/// The envelopes that go out for an input over its shards hold, taken
/// together, exactly the operations of the input: each as often as the input
/// holds it.
pub proof fn lemma_shards_partition(link: Link, ops: Seq<OpView>, col: int, shards: nat)
    requires
        shards > 0,
    ensures
        gathered(shard_writes(link, ops, col, shards, shards)).to_multiset() == ops.to_multiset(),
{
    let all = gathered(shard_writes(link, ops, col, shards, shards));
    assert forall|op: OpView| all.to_multiset().count(op) == ops.to_multiset().count(op) by {
        lemma_shard_writes_count(link, ops, col, shards, shards, op);
    }
    assert(all.to_multiset() =~= ops.to_multiset());
}

} // verus!
