//! The writer of a base table: it checks the shape of what a client writes,
//! compensates for dropped columns, and wraps the operations in the envelope
//! that goes to the shards.

use vstd::prelude::*;
use nom_sql::CreateTableStatement;
use vec_map::VecMap;
use crate::dropped::{
    can_widen, defaults, dropped_clone, dropped_len, lemma_widened_none, widen_row, widened,
};
use crate::model::RowView;
use crate::ops::{BaseOperation, Input, InputView, Link, LocalNodeIndex, ModView, Modification, OpView};
use crate::value::{DataType, Value};

verus! {

/// The parsed `CREATE TABLE` statement of `nom_sql`; the writer carries it
/// and never looks inside.
#[verifier::external_type_specification]
#[verifier::external_body]
pub struct ExCreateTableStatement(nom_sql::CreateTableStatement);

/// `CreateTableStatement::clone`, which `nom_sql` derives: a copy that holds
/// what the given statement holds.
#[verifier::external_body]
fn schema_clone(s: &CreateTableStatement) -> (c: CreateTableStatement)
    ensures
        c == *s,
{
    s.clone()
}

/// Why a write was not made.
#[derive(Debug, PartialEq, Eq, Structural)]
pub enum MutatorError {
    /// The number of columns is wrong: (expected, got).
    WrongColumnCount(usize, usize),
    /// The number of key columns is wrong: (expected, got).
    WrongKeyColumnCount(usize, usize),
    /// The write could not complete.
    TransactionFailed,
}

/// Marks a writer that shares its connections with other writers of the
/// same execution context.
#[derive(Clone, Copy, Debug, PartialEq, Eq, Structural)]
pub struct SharedConnection;

/// Marks a writer that owns its connections and may move between threads.
#[derive(Clone, Copy, Debug, PartialEq, Eq, Structural)]
pub struct ExclusiveConnection;

/// The network address of one shard: the sixteen bytes of its IPv6 address
/// (an IPv4 address in its mapped form) and its port.
#[derive(Clone, Copy, Debug, PartialEq, Eq, Hash)]
pub struct ShardAddr {
    pub ip: [u8; 16],
    pub port: u16,
}

/// What a writer knows of its base table.
pub struct MutatorView {
    /// The addresses of the shards.
    pub txs: Seq<ShardAddr>,
    /// The address of the base table's operator.
    pub addr: LocalNodeIndex,
    /// Whether the key is the primary key.
    pub key_is_primary: bool,
    /// The key columns.
    pub key: Seq<usize>,
    /// Reserved.
    pub transactional: bool,
    /// The default value of each dropped column, by its position.
    pub dropped: Map<usize, Value>,
    /// The name of the table.
    pub table_name: Seq<char>,
    /// The names of the columns that a client writes.
    pub columns: Seq<Seq<char>>,
    /// The schema.
    pub schema: Option<CreateTableStatement>,
}

impl MutatorView {
    /// Whether rows of the client's arity can be widened by the dropped
    /// columns.
    pub open spec fn wf(self) -> bool {
        can_widen(self.columns.len(), self.dropped)
    }

    /// The envelope around the operations `ops`: its link is from the base
    /// table's operator to itself, and each operation that carries a row has
    /// had that row widened by the dropped columns.
    pub open spec fn envelope(self, ops: Seq<OpView>) -> InputView {
        InputView { link: Link { src: self.addr, dst: self.addr }, data: reshaped(ops, self.dropped) }
    }
}

/// The operation `op` with its row, if it carries one, widened by the
/// dropped columns `d`. An operation that carries a key is left as it is.
pub open spec fn reshaped_op(op: OpView, d: Map<usize, Value>) -> OpView {
    match op {
        OpView::Insert(row) => OpView::Insert(widened(row, d)),
        OpView::InsertOrUpdate { row, update } => OpView::InsertOrUpdate {
            row: widened(row, d),
            update,
        },
        _ => op,
    }
}

/// Each operation of `ops` reshaped.
pub open spec fn reshaped(ops: Seq<OpView>, d: Map<usize, Value>) -> Seq<OpView> {
    Seq::new(ops.len(), |i: int| reshaped_op(ops[i], d))
}

/// Whether the row of each operation of `ops` that carries one can be
/// widened by the dropped columns `d`.
pub open spec fn can_reshape(ops: Seq<OpView>, d: Map<usize, Value>) -> bool {
    forall|i: int|
        0 <= i < ops.len() ==> match (#[trigger] ops[i]).row() {
            Some(row) => can_widen(row.len(), d),
            None => true,
        }
}

/// The description of a base table from which a writer is made.
pub struct MutatorBuilder {
    pub txs: Vec<ShardAddr>,
    pub addr: LocalNodeIndex,
    pub key_is_primary: bool,
    pub key: Vec<usize>,
    pub transactional: bool,
    pub dropped: VecMap<DataType>,
    pub table_name: String,
    pub columns: Vec<String>,
    pub schema: Option<CreateTableStatement>,
    pub local_port: Option<u16>,
}

impl View for MutatorBuilder {
    type V = MutatorView;

    open spec fn view(&self) -> MutatorView {
        MutatorView {
            txs: self.txs@,
            addr: self.addr,
            key_is_primary: self.key_is_primary,
            key: self.key@,
            transactional: self.transactional,
            dropped: defaults(self.dropped),
            table_name: self.table_name@,
            columns: self.columns.deep_view(),
            schema: self.schema,
        }
    }
}

/// A writer of one base table.
pub struct Mutator<E = SharedConnection> {
    shard_addrs: Vec<ShardAddr>,
    addr: LocalNodeIndex,
    key_is_primary: bool,
    key: Vec<usize>,
    transactional: bool,
    dropped: VecMap<DataType>,
    table_name: String,
    columns: Vec<String>,
    schema: Option<CreateTableStatement>,
    exclusivity: E,
}

impl<E> View for Mutator<E> {
    type V = MutatorView;

    closed spec fn view(&self) -> MutatorView {
        MutatorView {
            txs: self.shard_addrs@,
            addr: self.addr,
            key_is_primary: self.key_is_primary,
            key: self.key@,
            transactional: self.transactional,
            dropped: defaults(self.dropped),
            table_name: self.table_name@,
            columns: self.columns.deep_view(),
            schema: self.schema,
        }
    }
}

/// The local port to ask for when connecting to the next shard, where
/// `requested` was asked for and the connection just made is bound to
/// `bound`: the requested port if there was one, and else the port that the
/// system chose, so that every shard sees the writer at one port.
pub fn next_local_port(requested: Option<u16>, bound: u16) -> (port: Option<u16>)
    ensures
        port == Some(
            match requested {
                Some(p) => p,
                None => bound,
            },
        ),
{
    match requested {
        Some(p) => Some(p),
        None => Some(bound),
    }
}

impl MutatorBuilder {
    /// The builder with the local port to bind to when connecting.
    pub fn with_local_port(self, port: u16) -> (b: MutatorBuilder)
        ensures
            b@ == self@,
            b.local_port == Some(port),
    {
        let mut b = self;
        b.local_port = Some(port);
        b
    }

    /// Whether rows of the client's arity can be widened by the dropped
    /// columns of this description.
    pub fn is_well_formed(&self) -> (b: bool)
        ensures
            b == self@.wf(),
    {
        let ndropped = dropped_len(&self.dropped);
        let len = self.columns.len();
        assert(self.columns.deep_view().len() == len);
        if ndropped > usize::MAX - len {
            return false;
        }
        crate::dropped::keys_below(&self.dropped, len + ndropped)
    }

    /// The writer for the described base table.
    pub fn build(self) -> (m: Mutator<SharedConnection>)
        ensures
            m@ == self@,
    {
        Mutator {
            shard_addrs: self.txs,
            addr: self.addr,
            key: self.key,
            key_is_primary: self.key_is_primary,
            transactional: self.transactional,
            dropped: self.dropped,
            table_name: self.table_name,
            columns: self.columns,
            schema: self.schema,
            exclusivity: SharedConnection,
        }
    }
}

/// The modifications of an update, one for each of `n` columns: for each
/// column the last modification that `u` names for it, and none for a column
/// that `u` does not name.
pub open spec fn modifications(n: nat, u: Seq<(usize, ModView)>) -> Seq<ModView>
    decreases u.len(),
{
    if u.len() == 0 {
        Seq::new(n, |i: int| ModView::Unchanged)
    } else {
        modifications(n, u.drop_last()).update(u.last().0 as int, u.last().1)
    }
}

/// Whether `i` is the position of the first modification of `u` that names
/// a column outside the `n` columns.
pub open spec fn first_outside(n: nat, u: Seq<(usize, ModView)>, i: int) -> bool {
    &&& 0 <= i < u.len()
    &&& u[i].0 >= n
    &&& forall|j: int| 0 <= j < i ==> (#[trigger] u[j]).0 < n
}

/// Whether every modification of `u` names one of the `n` columns.
pub open spec fn all_inside(n: nat, u: Seq<(usize, ModView)>) -> bool {
    forall|j: int| 0 <= j < u.len() ==> (#[trigger] u[j]).0 < n
}

/// Whether `i` is the position of the first row of `rows` that has not `n`
/// values.
pub open spec fn first_misfit(n: nat, rows: Seq<RowView>, i: int) -> bool {
    &&& 0 <= i < rows.len()
    &&& rows[i].len() != n
    &&& forall|j: int| 0 <= j < i ==> (#[trigger] rows[j]).len() == n
}

/// Whether `i` is the position of the first operation of `ops` that carries
/// a row that has not `n` values.
pub open spec fn first_invalid(n: nat, ops: Seq<OpView>, i: int) -> bool {
    &&& 0 <= i < ops.len()
    &&& !valid_op(n, ops[i])
    &&& forall|j: int| 0 <= j < i ==> valid_op(n, #[trigger] ops[j])
}

/// Whether the operation `op` carries no row or one of `n` values.
pub open spec fn valid_op(n: nat, op: OpView) -> bool {
    match op.row() {
        Some(row) => row.len() == n,
        None => true,
    }
}

impl<E> Mutator<E> {
    /// The invariant of a writer: rows of the client's arity can be widened
    /// by the dropped columns.
    pub open spec fn wf(&self) -> bool {
        self@.wf()
    }

    /// Widens the row of each operation that carries one by the dropped
    /// columns. An operation that carries a key is left as it is.
    fn inject_dropped_cols(&self, rs: &mut Vec<BaseOperation>)
        requires
            can_reshape(old(rs).deep_view(), self@.dropped),
        ensures
            final(rs).deep_view() == reshaped(old(rs).deep_view(), self@.dropped),
    {
        let ghost ops = rs.deep_view();
        let ghost d = self@.dropped;
        let ndropped = dropped_len(&self.dropped);
        if ndropped != 0 {
            // inject defaults for dropped columns
            let n = rs.len();
            let mut i: usize = 0;
            while i < n
                invariant
                    i <= n,
                    n == rs.len(),
                    ops.len() == n,
                    d == defaults(self.dropped),
                    can_reshape(ops, d),
                    forall|j: int| 0 <= j < i ==> (#[trigger] rs[j]).deep_view() == reshaped_op(ops[j], d),
                    forall|j: int| i <= j < n ==> (#[trigger] rs[j]).deep_view() == ops[j],
                decreases n - i,
            {
                assert(ops[i as int].row() is Some ==> can_widen(ops[i as int].row().unwrap().len(), d));
                // get a handle to the underlying data vector
                match &mut rs[i] {
                    BaseOperation::Insert(row) => {
                        widen_row(row, &self.dropped);
                    },
                    BaseOperation::InsertOrUpdate { row, .. } => {
                        widen_row(row, &self.dropped);
                    },
                    _ => {},
                }
                i += 1;
            }
            assert(rs.deep_view() =~= reshaped(ops, d));
        } else {
            proof {
                assert forall|j: int| 0 <= j < ops.len() implies reshaped_op(#[trigger] ops[j], d)
                    == ops[j] by {
                    match ops[j].row() {
                        Some(row) => {
                            lemma_widened_none(row, d);
                        },
                        None => {},
                    }
                }
                assert(rs.deep_view() =~= reshaped(ops, d));
            }
        }
    }

    /// Wraps the operations `ops` in their envelope.
    fn prep_records(&self, ops: Vec<BaseOperation>) -> (m: Input)
        requires
            can_reshape(ops.deep_view(), self@.dropped),
        ensures
            m.deep_view() == self@.envelope(ops.deep_view()),
    {
        let mut ops = ops;
        self.inject_dropped_cols(&mut ops);
        Input { link: Link::new(self.addr, self.addr), data: ops }
    }

    /// The envelope that inserts the row `u`, or the error if the row has
    /// not as many values as the table has columns.
    pub fn put(&self, u: Vec<DataType>) -> (r: Result<Input, MutatorError>)
        requires
            self.wf(),
        ensures
            match r {
                Ok(m) => u.len() == self@.columns.len() && m.deep_view() == self@.envelope(
                    seq![OpView::Insert(u.deep_view())],
                ),
                Err(e) => u.len() != self@.columns.len() && e == MutatorError::WrongColumnCount(
                    self@.columns.len() as usize,
                    u.len(),
                ),
            },
    {
        assert(self.columns.deep_view().len() == self.columns.len());
        let ghost row = u.deep_view();
        if u.len() != self.columns.len() {
            return Err(MutatorError::WrongColumnCount(self.columns.len(), u.len()));
        }
        let mut data: Vec<BaseOperation> = Vec::new();
        data.push(BaseOperation::Insert(u));
        assert(data.deep_view() =~= seq![OpView::Insert(row)]);
        Ok(self.prep_records(data))
    }

    /// The envelope that inserts the rows `rows`, or the error for the first
    /// row that has not as many values as the table has columns.
    pub fn multi_put(&self, rows: Vec<Vec<DataType>>) -> (r: Result<Input, MutatorError>)
        requires
            self.wf(),
        ensures
            match r {
                Ok(m) => {
                    &&& forall|j: int|
                        0 <= j < rows.len() ==> (#[trigger] rows.deep_view()[j]).len()
                            == self@.columns.len()
                    &&& m.deep_view() == self@.envelope(
                        Seq::new(rows.len() as nat, |j: int| OpView::Insert(rows.deep_view()[j])),
                    )
                },
                Err(e) => exists|i: int|
                    first_misfit(self@.columns.len(), rows.deep_view(), i) && e
                        == MutatorError::WrongColumnCount(
                        self@.columns.len() as usize,
                        (#[trigger] rows.deep_view()[i]).len() as usize,
                    ),
            },
    {
        assert(self.columns.deep_view().len() == self.columns.len());
        let ghost all = rows.deep_view();
        let n = self.columns.len();
        let mut data: Vec<BaseOperation> = Vec::with_capacity(rows.len());
        for row in it: rows.into_iter()
            invariant
                it.seq() == rows@,
                all == rows.deep_view(),
                n == self@.columns.len(),
                data.len() == it.index(),
                forall|j: int| 0 <= j < data.len() ==> (#[trigger] all[j]).len() == n,
                forall|j: int|
                    0 <= j < data.len() ==> (#[trigger] data[j]).deep_view() == OpView::Insert(
                        all[j],
                    ),
        {
            assert(row.deep_view() == all[it.index() as int]);
            if row.len() != n {
                assert(first_misfit(n as nat, all, it.index() as int));
                return Err(MutatorError::WrongColumnCount(n, row.len()));
            }
            data.push(BaseOperation::Insert(row));
        }
        assert(data.deep_view() =~= Seq::new(rows.len() as nat, |j: int| OpView::Insert(all[j])));
        Ok(self.prep_records(data))
    }

    /// The envelopes of a batch, one for each operation of `ops` in order;
    /// or, if an operation carries a row that has not as many values as the
    /// table has columns, the error for the first such operation and no
    /// envelope at all, so that nothing of a batch is sent unless all of it
    /// is valid.
    pub fn batch_put(&self, ops: Vec<BaseOperation>) -> (r: Result<Vec<Input>, MutatorError>)
        requires
            self.wf(),
        ensures
            match r {
                Ok(batch) => {
                    &&& batch.len() == ops.len()
                    &&& forall|j: int|
                        0 <= j < ops.len() ==> valid_op(
                            self@.columns.len(),
                            #[trigger] ops.deep_view()[j],
                        )
                    &&& forall|j: int|
                        0 <= j < batch.len() ==> (#[trigger] batch[j]).deep_view()
                            == self@.envelope(seq![ops.deep_view()[j]])
                },
                Err(e) => exists|i: int|
                    first_invalid(self@.columns.len(), ops.deep_view(), i) && e
                        == MutatorError::WrongColumnCount(
                        self@.columns.len() as usize,
                        (#[trigger] ops.deep_view()[i]).row().unwrap().len() as usize,
                    ),
            },
    {
        assert(self.columns.deep_view().len() == self.columns.len());
        let ghost all = ops.deep_view();
        let n = self.columns.len();
        // every operation is checked before any is wrapped
        let mut i: usize = 0;
        while i < ops.len()
            invariant
                i <= ops.len(),
                all == ops.deep_view(),
                n == self@.columns.len(),
                forall|j: int| 0 <= j < i ==> valid_op(n as nat, #[trigger] all[j]),
            decreases ops.len() - i,
        {
            if let Some(cols) = ops[i].row() {
                if cols.len() != n {
                    assert(first_invalid(n as nat, all, i as int));
                    return Err(MutatorError::WrongColumnCount(n, cols.len()));
                }
            }
            i += 1;
        }
        let mut batch: Vec<Input> = Vec::with_capacity(ops.len());
        for op in it: ops.into_iter()
            invariant
                self.wf(),
                it.seq() == ops@,
                all == ops.deep_view(),
                n == self@.columns.len(),
                batch.len() == it.index(),
                forall|j: int| 0 <= j < ops.len() ==> valid_op(n as nat, #[trigger] all[j]),
                forall|j: int|
                    0 <= j < batch.len() ==> (#[trigger] batch[j]).deep_view() == self@.envelope(
                        seq![all[j]],
                    ),
        {
            let ghost this = op.deep_view();
            assert(this == all[it.index() as int]);
            assert(valid_op(n as nat, all[it.index() as int]));
            let mut data: Vec<BaseOperation> = Vec::new();
            data.push(op);
            assert(data.deep_view() =~= seq![this]);
            let m = self.prep_records(data);
            batch.push(m);
        }
        Ok(batch)
    }

    /// What a batch reports once its acknowledgements are read: success
    /// if the last acknowledgement is one.
    pub fn batch_outcome(ack: Result<i64, ()>) -> (r: Result<(), MutatorError>)
        ensures
            r == match ack {
                Ok(_) => Ok::<(), MutatorError>(()),
                Err(_) => Err::<(), MutatorError>(MutatorError::TransactionFailed),
            },
    {
        match ack {
            Ok(_) => Ok(()),
            Err(_) => Err(MutatorError::TransactionFailed),
        }
    }

    /// The envelope that deletes the row with the key `key`.
    pub fn delete(&self, key: Vec<DataType>) -> (r: Result<Input, MutatorError>)
        ensures
            match r {
                Ok(m) => m.deep_view() == self@.envelope(seq![OpView::Delete { key: key.deep_view() }]),
                Err(_) => false,
            },
    {
        let ghost k = key.deep_view();
        let mut data: Vec<BaseOperation> = Vec::new();
        data.push(BaseOperation::Delete { key });
        assert(data.deep_view() =~= seq![OpView::Delete { key: k }]);
        Ok(self.prep_records(data))
    }

    /// The modifications of an update, one for each column of the table; or
    /// the error for the first modification that names no column.
    fn collect_modifications(&self, u: Vec<(usize, Modification)>) -> (r: Result<
        Vec<Modification>,
        MutatorError,
    >)
        requires
            forall|j: int| 0 <= j < u.len() ==> (#[trigger] u[j]).0 < usize::MAX,
        ensures
            match r {
                Ok(set) => all_inside(self@.columns.len(), u.deep_view()) && set.deep_view()
                    == modifications(self@.columns.len(), u.deep_view()),
                Err(e) => exists|i: int|
                    first_outside(self@.columns.len(), u.deep_view(), i) && e
                        == MutatorError::WrongColumnCount(
                        self@.columns.len() as usize,
                        ((#[trigger] u.deep_view()[i]).0 + 1) as usize,
                    ),
            },
    {
        assert(self.columns.deep_view().len() == self.columns.len());
        let ghost all = u.deep_view();
        let n = self.columns.len();
        let mut set: Vec<Modification> = Vec::with_capacity(n);
        let mut c: usize = 0;
        while c < n
            invariant
                c <= n,
                set.len() == c,
                forall|j: int| 0 <= j < c ==> (#[trigger] set[j]).deep_view() == ModView::Unchanged,
            decreases n - c,
        {
            set.push(Modification::Unchanged);
            c += 1;
        }
        proof {
            assert(all.take(0) =~= Seq::<(usize, ModView)>::empty());
            assert(set.deep_view() =~= modifications(n as nat, all.take(0)));
        }
        for entry in it: u.into_iter()
            invariant
                it.seq() == u@,
                all == u.deep_view(),
                n == self@.columns.len(),
                set.len() == n,
                forall|j: int| 0 <= j < u.len() ==> (#[trigger] u[j]).0 < usize::MAX,
                forall|j: int| 0 <= j < it.index() ==> (#[trigger] all[j]).0 < n,
                set.deep_view() == modifications(n as nat, all.take(it.index() as int)),
        {
            let ghost j = it.index() as int;
            assert(entry.deep_view() == all[j]);
            assert(entry.0 == u[j].0);
            let (coli, m) = entry;
            if coli >= n {
                assert(first_outside(n as nat, all, j));
                return Err(MutatorError::WrongColumnCount(n, coli + 1));
            }
            let ghost prior = set.deep_view();
            set[coli] = m;
            proof {
                assert(all.take(j + 1).drop_last() =~= all.take(j));
                assert(set.deep_view() =~= prior.update(coli as int, all[j].1));
            }
        }
        proof {
            assert(all.take(u@.len() as int) =~= all);
        }
        Ok(set)
    }

    /// The envelope that updates the row with the key `key` by the
    /// modifications `u`, each with the position of its column; or the error
    /// if the key has not as many values as the table has key columns, or a
    /// modification names no column.
    pub fn update(&self, key: Vec<DataType>, u: Vec<(usize, Modification)>) -> (r: Result<
        Input,
        MutatorError,
    >)
        requires
            self@.key.len() > 0,
            self@.key_is_primary,
            forall|j: int| 0 <= j < u.len() ==> (#[trigger] u[j]).0 < usize::MAX,
        ensures
            match r {
                Ok(m) => {
                    &&& key.len() == self@.key.len()
                    &&& all_inside(self@.columns.len(), u.deep_view())
                    &&& m.deep_view() == self@.envelope(
                        seq![
                            OpView::Update {
                                key: key.deep_view(),
                                set: modifications(self@.columns.len(), u.deep_view()),
                            },
                        ],
                    )
                },
                Err(e) => if key.len() != self@.key.len() {
                    e == MutatorError::WrongKeyColumnCount(self@.key.len() as usize, key.len())
                } else {
                    exists|i: int|
                        first_outside(self@.columns.len(), u.deep_view(), i) && e
                            == MutatorError::WrongColumnCount(
                            self@.columns.len() as usize,
                            ((#[trigger] u.deep_view()[i]).0 + 1) as usize,
                        )
                },
            },
    {
        if key.len() != self.key.len() {
            return Err(MutatorError::WrongKeyColumnCount(self.key.len(), key.len()));
        }
        let set = match self.collect_modifications(u) {
            Ok(set) => set,
            Err(e) => {
                return Err(e);
            },
        };
        let ghost op = OpView::Update { key: key.deep_view(), set: set.deep_view() };
        let mut data: Vec<BaseOperation> = Vec::new();
        data.push(BaseOperation::Update { key, set });
        assert(data.deep_view() =~= seq![op]);
        Ok(self.prep_records(data))
    }

    /// The envelope that inserts the row `insert` or, if a row with its key
    /// exists, updates that one by the modifications `update`; or the error
    /// if the row has not as many values as the table has columns, or a
    /// modification names no column.
    pub fn insert_or_update(&self, insert: Vec<DataType>, update: Vec<(usize, Modification)>) -> (r:
        Result<Input, MutatorError>)
        requires
            self.wf(),
            self@.key.len() > 0,
            self@.key_is_primary,
            forall|j: int| 0 <= j < update.len() ==> (#[trigger] update[j]).0 < usize::MAX,
        ensures
            match r {
                Ok(m) => {
                    &&& insert.len() == self@.columns.len()
                    &&& all_inside(self@.columns.len(), update.deep_view())
                    &&& m.deep_view() == self@.envelope(
                        seq![
                            OpView::InsertOrUpdate {
                                row: insert.deep_view(),
                                update: modifications(self@.columns.len(), update.deep_view()),
                            },
                        ],
                    )
                },
                Err(e) => if insert.len() != self@.columns.len() {
                    e == MutatorError::WrongColumnCount(self@.columns.len() as usize, insert.len())
                } else {
                    exists|i: int|
                        first_outside(self@.columns.len(), update.deep_view(), i) && e
                            == MutatorError::WrongColumnCount(
                            self@.columns.len() as usize,
                            ((#[trigger] update.deep_view()[i]).0 + 1) as usize,
                        )
                },
            },
    {
        assert(self.columns.deep_view().len() == self.columns.len());
        if insert.len() != self.columns.len() {
            return Err(MutatorError::WrongColumnCount(self.columns.len(), insert.len()));
        }
        let set = match self.collect_modifications(update) {
            Ok(set) => set,
            Err(e) => {
                return Err(e);
            },
        };
        let ghost op = OpView::InsertOrUpdate { row: insert.deep_view(), update: set.deep_view() };
        let mut data: Vec<BaseOperation> = Vec::new();
        data.push(BaseOperation::InsertOrUpdate { row: insert, update: set });
        assert(data.deep_view() =~= seq![op]);
        Ok(self.prep_records(data))
    }

    /// The name of the base table.
    pub fn table_name(&self) -> (name: &str)
        ensures
            name@ == self@.table_name,
    {
        self.table_name.as_str()
    }

    /// The names of the columns that a client writes.
    pub fn columns(&self) -> (names: &[String])
        ensures
            names.deep_view() == self@.columns,
    {
        let names = self.columns.as_slice();
        assert(names.deep_view() =~= self.columns.deep_view());
        names
    }

    /// Whether the writer knows the schema of the base table.
    pub fn has_schema(&self) -> (b: bool)
        ensures
            b == (self@.schema is Some),
    {
        self.schema.is_some()
    }

    /// The schema of the base table.
    pub fn schema(&self) -> (schema: &CreateTableStatement)
        requires
            self@.schema is Some,
        ensures
            Some(*schema) == self@.schema,
    {
        match &self.schema {
            Some(schema) => schema,
            None => vstd::pervasive::unreached(),
        }
    }

    /// The key columns of the base table, by which its rows are sharded.
    pub fn key(&self) -> (key: &[usize])
        ensures
            key@ == self@.key,
    {
        self.key.as_slice()
    }

    /// Whether the key of the base table is its primary key.
    pub fn key_is_primary(&self) -> (b: bool)
        ensures
            b == self@.key_is_primary,
    {
        self.key_is_primary
    }

    /// The addresses of the shards of the base table.
    pub fn shard_addrs(&self) -> (txs: &[ShardAddr])
        ensures
            txs@ == self@.txs,
    {
        self.shard_addrs.as_slice()
    }
}

impl Mutator<SharedConnection> {
    /// The same writer, marked as the owner of its connections.
    pub fn into_exclusive(self) -> (m: Mutator<ExclusiveConnection>)
        ensures
            m@ == self@,
    {
        Mutator {
            shard_addrs: self.shard_addrs,
            addr: self.addr,
            key_is_primary: self.key_is_primary,
            key: self.key,
            transactional: self.transactional,
            dropped: self.dropped,
            table_name: self.table_name,
            columns: self.columns,
            schema: self.schema,
            exclusivity: ExclusiveConnection,
        }
    }
}

impl Clone for Mutator<SharedConnection> {
    /// Another writer of the same base table.
    fn clone(&self) -> (m: Self)
        ensures
            m@ == self@,
    {
        let schema = match &self.schema {
            Some(s) => Some(schema_clone(s)),
            None => None,
        };
        let columns = self.columns.clone();
        assert(columns.deep_view() =~= self.columns.deep_view());
        let key = self.key.clone();
        let shard_addrs = self.shard_addrs.clone();
        assert(shard_addrs@ =~= self.shard_addrs@);
        Mutator {
            shard_addrs,
            addr: self.addr,
            key_is_primary: self.key_is_primary,
            key,
            transactional: self.transactional,
            dropped: dropped_clone(&self.dropped),
            table_name: self.table_name.clone(),
            columns,
            schema,
            exclusivity: SharedConnection,
        }
    }
}

} // verus!
