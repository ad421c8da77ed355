//! Column values, their mathematical model, and the stable hash that
//! partitions them over shards.

use vstd::prelude::*;
use vstd::std_specs::cmp::PartialEqSpecImpl;

verus! {

/// The mathematical value of one column.
pub enum Value {
    /// The distinguished null value.
    Null,
    /// A signed integer.
    Int(int),
    /// A text, as its sequence of characters.
    Text(Seq<char>),
}

/// A scalar column value.
#[derive(Debug)]
pub enum DataType {
    /// The distinguished null value; the default of a dropped column unless
    /// another is given.
    Null,
    /// A signed integer.
    Int(i64),
    /// A text.
    Text(String),
}

impl View for DataType {
    type V = Value;

    open spec fn view(&self) -> Value {
        match self {
            DataType::Null => Value::Null,
            DataType::Int(n) => Value::Int(*n as int),
            DataType::Text(s) => Value::Text(s@),
        }
    }
}

impl DeepView for DataType {
    type V = Value;

    open spec fn deep_view(&self) -> Value {
        self@
    }
}

impl Clone for DataType {
    fn clone(&self) -> (res: Self)
        ensures
            res@ == self@,
    {
        match self {
            DataType::Null => DataType::Null,
            DataType::Int(n) => DataType::Int(*n),
            DataType::Text(s) => DataType::Text(s.clone()),
        }
    }
}

impl PartialEq for DataType {
    fn eq(&self, other: &DataType) -> (r: bool) {
        match (self, other) {
            (DataType::Null, DataType::Null) => true,
            (DataType::Int(a), DataType::Int(b)) => *a == *b,
            (DataType::Text(a), DataType::Text(b)) => a.eq(b),
            _ => false,
        }
    }
}

impl PartialEqSpecImpl for DataType {
    open spec fn obeys_eq_spec() -> bool {
        true
    }

    open spec fn eq_spec(&self, other: &DataType) -> bool {
        self@ == other@
    }
}

impl Eq for DataType {}

/// Whether every column position in `cols` exists in the row `r`.
pub open spec fn fits(r: Seq<Value>, cols: Seq<usize>) -> bool {
    forall|i: int| 0 <= i < cols.len() ==> (#[trigger] cols[i]) < r.len()
}

/// The key of the row `r` under the key columns `cols`: the row's values at
/// those positions, in the order of `cols`.
pub open spec fn project(r: Seq<Value>, cols: Seq<usize>) -> Seq<Value> {
    Seq::new(cols.len(), |i: int| r[cols[i] as int])
}

/// Whether every key column of `cols` exists in the row `r`.
pub fn row_fits(r: &[DataType], cols: &[usize]) -> (b: bool)
    ensures
        b == fits(r.deep_view(), cols@),
{
    let mut i: usize = 0;
    while i < cols.len()
        invariant
            i <= cols.len(),
            r.deep_view().len() == r.len(),
            forall|j: int| 0 <= j < i ==> (#[trigger] cols[j]) < r.len(),
        decreases cols.len() - i,
    {
        if cols[i] >= r.len() {
            return false;
        }
        i += 1;
    }
    true
}

/// The key of the row `r` under the key columns `cols`, value by value.
pub fn key_of(r: &[DataType], cols: &[usize]) -> (k: Vec<DataType>)
    requires
        fits(r.deep_view(), cols@),
    ensures
        k.deep_view() == project(r.deep_view(), cols@),
{
    let mut k: Vec<DataType> = Vec::with_capacity(cols.len());
    let mut i: usize = 0;
    while i < cols.len()
        invariant
            i <= cols.len(),
            k.len() == i,
            r.deep_view().len() == r.len(),
            fits(r.deep_view(), cols@),
            forall|j: int| 0 <= j < i ==> k[j]@ == r[cols[j] as int]@,
        decreases cols.len() - i,
    {
        k.push(r[cols[i]].clone());
        i += 1;
    }
    assert(k.deep_view() =~= project(r.deep_view(), cols@));
    k
}

/// Whether two rows hold equal values in every column.
pub fn row_eq(a: &[DataType], b: &[DataType]) -> (r: bool)
    ensures
        r == (a.deep_view() == b.deep_view()),
{
    if a.len() != b.len() {
        assert(a.deep_view().len() != b.deep_view().len());
        return false;
    }
    let mut i: usize = 0;
    while i < a.len()
        invariant
            a.len() == b.len(),
            i <= a.len(),
            forall|j: int| 0 <= j < i ==> a[j]@ == b[j]@,
        decreases a.len() - i,
    {
        if !(a[i] == b[i]) {
            assert(a.deep_view()[i as int] != b.deep_view()[i as int]);
            return false;
        }
        i += 1;
    }
    assert(a.deep_view() =~= b.deep_view());
    true
}

/// A copy of a row, value by value.
pub fn clone_row(r: &[DataType]) -> (c: Vec<DataType>)
    ensures
        c.deep_view() == r.deep_view(),
{
    let mut c: Vec<DataType> = Vec::with_capacity(r.len());
    let mut i: usize = 0;
    while i < r.len()
        invariant
            i <= r.len(),
            c.len() == i,
            forall|j: int| 0 <= j < i ==> c[j]@ == r[j]@,
        decreases r.len() - i,
    {
        c.push(r[i].clone());
        i += 1;
    }
    assert(c.deep_view() =~= r.deep_view());
    c
}

} // verus!
