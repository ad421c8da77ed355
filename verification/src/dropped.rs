//! Compensation for dropped columns: a row that lacks the columns that were
//! dropped from a base table is widened to the table's full arity by putting
//! each dropped column's default value at its declared position.

use vstd::prelude::*;
use vec_map::VecMap;
use crate::model::RowView;
use crate::value::{DataType, Value};

verus! {

/// The map type of `vec_map`, keyed by small integers.
#[verifier::external_type_specification]
#[verifier::external_body]
#[verifier::reject_recursive_types(V)]
pub struct ExVecMap<V>(vec_map::VecMap<V>);

/// What a map of dropped columns holds: for each dropped column position its
/// default value.
pub uninterp spec fn defaults(m: VecMap<DataType>) -> Map<usize, Value>;

/// Whether `d` has exactly `n` entries.
pub open spec fn has_len(d: Map<usize, Value>, n: usize) -> bool {
    d.dom().finite() && d.dom().len() == n
}

/// `VecMap::len`: the number of entries of the map, which are finitely many.
#[verifier::external_body]
pub(crate) fn dropped_len(m: &VecMap<DataType>) -> (n: usize)
    ensures
        has_len(defaults(*m), n),
{
    m.len()
}

/// `VecMap::get`: the value stored under `key`, if the map has that key.
#[verifier::external_body]
pub(crate) fn dropped_get(m: &VecMap<DataType>, key: usize) -> (v: Option<&DataType>)
    ensures
        match v {
            Some(d) => defaults(*m).contains_key(key) && defaults(*m)[key] == d@,
            None => !defaults(*m).contains_key(key),
        },
{
    m.get(key)
}

/// The number of dropped column positions below `i`.
pub open spec fn dropped_below(d: Map<usize, Value>, i: int) -> int
    decreases i,
{
    if i <= 0 {
        0
    } else {
        dropped_below(d, i - 1) + if d.contains_key((i - 1) as usize) {
            1int
        } else {
            0int
        }
    }
}

/// Whether the dropped columns `d` can be put into a row of `len` values:
/// every dropped position lies inside the widened row, whose length a
/// machine word can hold.
pub open spec fn can_widen(len: nat, d: Map<usize, Value>) -> bool {
    &&& d.dom().finite()
    &&& len + d.dom().len() <= usize::MAX
    &&& forall|k: usize| d.contains_key(k) ==> k < len + d.dom().len()
}

/// The row `row` widened by the dropped columns `d`: at each dropped
/// position the default of that column, and at the other positions the
/// values of `row` in their order.
pub open spec fn widened(row: RowView, d: Map<usize, Value>) -> RowView {
    Seq::new(
        row.len() + d.dom().len(),
        |i: int|
            if d.contains_key(i as usize) {
                d[i as usize]
            } else {
                row[i - dropped_below(d, i)]
            },
    )
}

/// Below `i` there are between 0 and `i` dropped positions, and no fewer
/// than below any smaller position.
pub proof fn lemma_dropped_below_bounds(d: Map<usize, Value>, i: int)
    requires
        0 <= i,
    ensures
        0 <= dropped_below(d, i) <= i,
    decreases i,
{
    if i > 0 {
        lemma_dropped_below_bounds(d, i - 1);
    }
}

/// The dropped positions below `i` are counted by the set of them.
proof fn lemma_dropped_below_set(d: Map<usize, Value>, i: int)
    requires
        0 <= i <= usize::MAX + 1,
    ensures
        d.dom().filter(|k: usize| k < i).finite(),
        d.dom().filter(|k: usize| k < i).len() == dropped_below(d, i),
    decreases i,
{
    let here = d.dom().filter(|k: usize| k < i);
    if i == 0 {
        assert(here =~= Set::<usize>::empty());
    } else {
        lemma_dropped_below_set(d, i - 1);
        let below = d.dom().filter(|k: usize| k < i - 1);
        let at = (i - 1) as usize;
        if d.contains_key(at) {
            assert(here =~= below.insert(at));
        } else {
            assert(here =~= below);
        }
    }
}

/// Where every dropped position lies below `n`, the dropped positions below
/// `n` are all of them.
pub proof fn lemma_dropped_below_all(d: Map<usize, Value>, n: int)
    requires
        d.dom().finite(),
        0 <= n <= usize::MAX + 1,
        forall|k: usize| d.contains_key(k) ==> k < n,
    ensures
        dropped_below(d, n) == d.dom().len(),
{
    lemma_dropped_below_set(d, n);
    assert(d.dom().filter(|k: usize| k < n) =~= d.dom());
}

/// Widens `row` in place by the dropped columns `dropped`. The values move
/// from the back, so that each is moved once.
pub fn widen_row(row: &mut Vec<DataType>, dropped: &VecMap<DataType>)
    requires
        can_widen(old(row).deep_view().len(), defaults(*dropped)),
    ensures
        final(row).deep_view() == widened(old(row).deep_view(), defaults(*dropped)),
{
    let ghost d = defaults(*dropped);
    let ghost given = row.deep_view();
    let ghost target = widened(given, d);
    let ndropped = dropped_len(dropped);
    let len = row.len();
    let n = len + ndropped;
    proof {
        lemma_dropped_below_all(d, n as int);
    }
    // make room in the record
    row.reserve(ndropped);
    let mut filled: usize = 0;
    while filled < ndropped
        invariant
            filled <= ndropped,
            len + ndropped == n,
            row.len() == len + filled,
            forall|i: int| 0 <= i < len ==> row[i]@ == given[i],
        decreases ndropped - filled,
    {
        row.push(DataType::Null);
        filled += 1;
    }
    let mut free = n;
    let mut unmoved = len;
    let mut left = ndropped;
    while left > 0
        invariant
            d == defaults(*dropped),
            target == widened(given, d),
            given.len() == len,
            len + d.dom().len() == n,
            row.len() == n,
            free <= n,
            unmoved + left == free,
            left == dropped_below(d, free as int),
            forall|i: int| 0 <= i < unmoved ==> row[i]@ == given[i],
            forall|i: int| free <= i < n ==> row[i]@ == target[i],
        decreases free,
    {
        proof {
            lemma_dropped_below_bounds(d, free as int - 1);
        }
        // the next free slot, counting from the back
        free -= 1;
        match dropped_get(dropped, free) {
            Some(default) => {
                // this slot is a dropped column's: put its default there
                row[free] = default.clone();
                left -= 1;
            },
            None => {
                // shift another value so that the free slots move down
                unmoved -= 1;
                let mut value = DataType::Null;
                std::mem::swap(&mut row[unmoved], &mut value);
                row[free] = value;
            },
        }
    }
    proof {
        lemma_dropped_below_bounds(d, free as int);
        assert forall|i: int| 0 <= i < n implies row.deep_view()[i] == target[i] by {
            if i < free {
                lemma_no_dropped_below(d, free as int, i);
            }
        }
        assert(row.deep_view() =~= target);
    }
}

/// Where no dropped position lies below `n`, none lies below any `i` up to
/// `n` either, and `i` is not one.
pub proof fn lemma_no_dropped_below(d: Map<usize, Value>, n: int, i: int)
    requires
        0 <= i < n,
        dropped_below(d, n) == 0,
    ensures
        dropped_below(d, i) == 0,
        !d.contains_key(i as usize),
    decreases n - i,
{
    lemma_dropped_below_bounds(d, n - 1);
    if i < n - 1 {
        lemma_no_dropped_below(d, n - 1, i);
    }
}

/// Without dropped columns a row stays as it is.
pub proof fn lemma_widened_none(row: RowView, d: Map<usize, Value>)
    requires
        has_len(d, 0),
    ensures
        widened(row, d) == row,
{
    assert forall|i: int| 0 <= i < row.len() implies #[trigger] widened(row, d)[i] == row[i] by {
        assert(!d.dom().contains(i as usize));
        lemma_none_below(d, i);
    }
    assert(widened(row, d) =~= row);
}

/// A map without entries has no dropped position below any position.
proof fn lemma_none_below(d: Map<usize, Value>, i: int)
    requires
        has_len(d, 0),
    ensures
        dropped_below(d, i) == 0,
    decreases i,
{
    if i > 0 {
        lemma_none_below(d, i - 1);
        assert(!d.dom().contains((i - 1) as usize));
    }
}

/// `VecMap::clone`: a map with the same entries, each value copied.
#[verifier::external_body]
pub(crate) fn dropped_clone(m: &VecMap<DataType>) -> (c: VecMap<DataType>)
    ensures
        defaults(c) == defaults(*m),
{
    m.clone()
}

/// Whether every key of the map lies below `n`.
pub fn keys_below(m: &VecMap<DataType>, n: usize) -> (b: bool)
    ensures
        b == forall|k: usize| defaults(*m).contains_key(k) ==> k < n,
{
    let ghost d = defaults(*m);
    let len = dropped_len(m);
    let mut found: usize = 0;
    let mut i: usize = 0;
    while i < n
        invariant
            i <= n,
            found == dropped_below(d, i as int),
            d == defaults(*m),
        decreases n - i,
    {
        proof {
            lemma_dropped_below_bounds(d, i as int);
        }
        if dropped_get(m, i).is_some() {
            found += 1;
        }
        i += 1;
    }
    proof {
        lemma_dropped_below_set(d, n as int);
        let below = d.dom().filter(|k: usize| k < n);
        if found == len {
            vstd::set_lib::lemma_subset_equality(below, d.dom());
            assert forall|k: usize| d.contains_key(k) implies k < n by {
                assert(below.contains(k));
            }
        } else {
            if forall|k: usize| d.contains_key(k) ==> k < n {
                assert(below =~= d.dom());
            }
        }
    }
    found == len
}

/// The place in the client's row of the value that the widened row holds at
/// the position `i`, if `i` is no dropped position: the number of positions
/// below `i` that are not dropped.
pub open spec fn source_of(d: Map<usize, Value>, i: int) -> int {
    i - dropped_below(d, i)
}

/// Going up, the number of positions that are not dropped does not shrink,
/// and it grows past each position that is not dropped.
pub proof fn lemma_source_of_grows(d: Map<usize, Value>, i: int, j: int)
    requires
        0 <= i <= j,
    ensures
        source_of(d, i) <= source_of(d, j),
        i < j && !d.contains_key(i as usize) ==> source_of(d, i) < source_of(d, j),
    decreases j - i,
{
    if i < j {
        lemma_source_of_grows(d, i, j - 1);
        if i < j - 1 {
        }
    }
}

/// Every place of the client's row below the number of positions that are
/// not dropped below `n` is the source of such a position below `n`.
pub proof fn lemma_source_of_reaches(d: Map<usize, Value>, n: int, m: int) -> (i: int)
    requires
        0 <= n,
        0 <= m < source_of(d, n),
    ensures
        0 <= i < n,
        !d.contains_key(i as usize),
        source_of(d, i) == m,
    decreases n,
{
    if m < source_of(d, n - 1) {
        lemma_source_of_reaches(d, n - 1, m)
    } else {
        n - 1
    }
}

/// Whether the widened row holds the value at the place `m` of the client's
/// row at a position that is not dropped.
pub open spec fn is_kept(row: RowView, d: Map<usize, Value>, m: int) -> bool {
    exists|i: int|
        0 <= i < widened(row, d).len() && !d.contains_key(i as usize) && #[trigger] source_of(d, i)
            == m
}

/// A widened row has the table's full arity; it holds each dropped column's
/// default at the position of that column; and it holds the values of the
/// client's row at the other positions, all of them and in their order.
pub proof fn lemma_widened(row: RowView, d: Map<usize, Value>)
    requires
        can_widen(row.len(), d),
    ensures
        widened(row, d).len() == row.len() + d.dom().len(),
        forall|k: usize| d.contains_key(k) ==> widened(row, d)[k as int] == d[k],
        forall|i: int|
            0 <= i < widened(row, d).len() && !d.contains_key(i as usize) ==> 0 <= #[trigger] source_of(
                d,
                i,
            ) < row.len(),
        forall|i: int|
            0 <= i < widened(row, d).len() && !d.contains_key(i as usize) ==> #[trigger] widened(
                row,
                d,
            )[i] == row[source_of(d, i)],
        forall|i: int, j: int|
            0 <= i < j < widened(row, d).len() && !d.contains_key(i as usize) && !d.contains_key(
                j as usize,
            ) ==> #[trigger] source_of(d, i) < #[trigger] source_of(d, j),
        forall|m: int| 0 <= m < row.len() ==> #[trigger] is_kept(row, d, m),
{
    let n = (row.len() + d.dom().len()) as int;
    lemma_dropped_below_all(d, n);
    assert forall|i: int| 0 <= i < n && !d.contains_key(i as usize) implies 0 <= #[trigger] source_of(
        d,
        i,
    ) < row.len() by {
        lemma_dropped_below_bounds(d, i);
        lemma_source_of_grows(d, i, n);
    }
    assert forall|i: int, j: int|
        0 <= i < j < n && !d.contains_key(i as usize) && !d.contains_key(
            j as usize,
        ) implies #[trigger] source_of(d, i) < #[trigger] source_of(d, j) by {
        lemma_source_of_grows(d, i, j);
    }
    assert forall|m: int| 0 <= m < row.len() implies #[trigger] is_kept(row, d, m) by {
        let i = lemma_source_of_reaches(d, n, m);
        assert(source_of(d, i) == m);
    }
}

} // verus!
