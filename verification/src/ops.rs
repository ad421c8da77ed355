//! The operations that a client sends to a base table, and the envelope
//! that carries them.

use vstd::prelude::*;
use crate::model::RowView;
use crate::value::{DataType, Value};

verus! {

/// The address of an operator inside its domain.
#[derive(Clone, Copy, Debug, PartialEq, Eq, Structural, Hash)]
pub struct LocalNodeIndex {
    pub id: u32,
}

/// The pair of operators that an envelope travels between.
#[derive(Clone, Copy, Debug, PartialEq, Eq, Structural, Hash)]
pub struct Link {
    pub src: LocalNodeIndex,
    pub dst: LocalNodeIndex,
}

impl Link {
    /// The link from `src` to `dst`.
    pub fn new(src: LocalNodeIndex, dst: LocalNodeIndex) -> (l: Link)
        ensures
            l == (Link { src, dst }),
    {
        Link { src, dst }
    }
}

/// The arithmetic of a delta modification.
#[derive(Clone, Copy, Debug, PartialEq, Eq, Structural, Hash)]
pub enum Operation {
    Add,
    Sub,
}

/// What an update does to one column.
#[derive(Debug, PartialEq, Eq)]
pub enum Modification {
    /// Replace the value.
    Assign(DataType),
    /// Add the given value to, or subtract it from, the one that is there.
    Apply(Operation, DataType),
    /// Leave the column as it is.
    Unchanged,
}

/// The model of a [`Modification`].
pub enum ModView {
    Assign(Value),
    Apply(Operation, Value),
    Unchanged,
}

impl DeepView for Modification {
    type V = ModView;

    open spec fn deep_view(&self) -> ModView {
        match self {
            Modification::Assign(v) => ModView::Assign(v@),
            Modification::Apply(op, v) => ModView::Apply(*op, v@),
            Modification::Unchanged => ModView::Unchanged,
        }
    }
}

/// One operation on a base table.
#[derive(Debug, PartialEq, Eq)]
pub enum BaseOperation {
    /// Add the row.
    Insert(Vec<DataType>),
    /// Remove the row with the given key.
    Delete { key: Vec<DataType> },
    /// Change the row with the given key, column by column.
    Update { key: Vec<DataType>, set: Vec<Modification> },
    /// Add the row, or, if a row with its key exists, change that one.
    InsertOrUpdate { row: Vec<DataType>, update: Vec<Modification> },
}

/// The model of a [`BaseOperation`].
pub enum OpView {
    Insert(RowView),
    Delete { key: RowView },
    Update { key: RowView, set: Seq<ModView> },
    InsertOrUpdate { row: RowView, update: Seq<ModView> },
}

impl DeepView for BaseOperation {
    type V = OpView;

    open spec fn deep_view(&self) -> OpView {
        match self {
            BaseOperation::Insert(row) => OpView::Insert(row.deep_view()),
            BaseOperation::Delete { key } => OpView::Delete { key: key.deep_view() },
            BaseOperation::Update { key, set } => OpView::Update {
                key: key.deep_view(),
                set: set.deep_view(),
            },
            BaseOperation::InsertOrUpdate { row, update } => OpView::InsertOrUpdate {
                row: row.deep_view(),
                update: update.deep_view(),
            },
        }
    }
}

impl OpView {
    /// The row that the operation carries, if it carries one.
    pub open spec fn row(self) -> Option<RowView> {
        match self {
            OpView::Insert(row) => Some(row),
            OpView::InsertOrUpdate { row, .. } => Some(row),
            _ => None,
        }
    }
}

impl BaseOperation {
    /// The row that the operation carries, if it carries one.
    pub fn row(&self) -> (r: Option<&[DataType]>)
        ensures
            match r {
                Some(row) => self.deep_view().row() == Some(row.deep_view()),
                None => self.deep_view().row().is_none(),
            },
    {
        match self {
            BaseOperation::Insert(row) => {
                let r = row.as_slice();
                assert(r.deep_view() =~= row.deep_view());
                Some(r)
            },
            BaseOperation::InsertOrUpdate { row, .. } => {
                let r = row.as_slice();
                assert(r.deep_view() =~= row.deep_view());
                Some(r)
            },
            _ => None,
        }
    }
}

/// The envelope in which operations travel to a shard.
#[derive(Debug, PartialEq, Eq)]
pub struct Input {
    pub link: Link,
    pub data: Vec<BaseOperation>,
}

/// The model of an [`Input`].
pub struct InputView {
    pub link: Link,
    pub data: Seq<OpView>,
}

impl DeepView for Input {
    type V = InputView;

    open spec fn deep_view(&self) -> InputView {
        InputView { link: self.link, data: self.data.deep_view() }
    }
}

} // verus!
