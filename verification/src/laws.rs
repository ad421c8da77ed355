//! What holds of a materialized state whatever is done to it, stated over
//! the model and proved from it.

use vstd::prelude::*;
use crate::model::{LookupView, RowView, StateView};
use crate::value::{fits, project};

verus! {

/// One change of a state by a row: an insertion without a tag, or a removal.
pub enum Step {
    Insert(RowView),
    Remove(RowView),
}

impl Step {
    /// The row that the step inserts or removes.
    pub open spec fn row(self) -> RowView {
        match self {
            Step::Insert(r) => r,
            Step::Remove(r) => r,
        }
    }

    /// The state after the step.
    pub open spec fn apply(self, s: StateView) -> StateView {
        match self {
            Step::Insert(r) => s.insert(r, None),
            Step::Remove(r) => s.remove(r),
        }
    }
}

/// The state after the steps `steps`, in order.
pub open spec fn run(s: StateView, steps: Seq<Step>) -> StateView
    decreases steps.len(),
{
    if steps.len() == 0 {
        s
    } else {
        steps.last().apply(run(s, steps.drop_last()))
    }
}

/// Whether every index of the state holds each row as often as the first
/// index does.
pub open spec fn agrees(s: StateView) -> bool {
    forall|i: int, r: RowView|
        0 <= i < s.indices.len() ==> (#[trigger] s.indices[i].count(r)) == s.indices[0].count(r)
}

/// In a well-formed state the index on given key columns is the only one on
/// them.
pub proof fn lemma_index_of(s: StateView, i: int)
    requires
        s.wf(),
        0 <= i < s.indices.len(),
    ensures
        s.has_index(s.indices[i].key),
        s.index_of(s.indices[i].key) == i,
{
    let j = s.index_of(s.indices[i].key);
    assert(s.indices[j].key == s.indices[i].key);
}

/// An insertion of a row that has every key column keeps the state well
/// formed, leaves the key columns and the partial flags as they are, and
/// counts the row once more unless the count is at its limit.
pub proof fn lemma_insert_keeps(s: StateView, r: RowView, tag: Option<u32>)
    requires
        s.wf(),
        s.admits(r, tag),
    ensures
        s.insert(r, tag).wf(),
        s.insert(r, tag).indices.len() == s.indices.len(),
        s.insert(r, tag).is_partial() == s.is_partial(),
        forall|i: int|
            0 <= i < s.indices.len() ==> (#[trigger] s.insert(r, tag).indices[i]).key
                == s.indices[i].key,
        s.insert(r, tag).rows == if tag is None && s.rows < usize::MAX {
            (s.rows + 1) as usize
        } else {
            s.rows
        },
{
    let after = s.insert(r, tag);
    assert forall|i: int| 0 <= i < after.indices.len() implies (#[trigger] after.indices[i]).wf()
        && after.indices[i].key == s.indices[i].key && after.indices[i].partial
        == s.indices[i].partial by {
        if after.indices[i] != s.indices[i] {
            assert(fits(r, s.indices[i].key));
            s.indices[i].lemma_insert_wf(r);
        }
    }
    assert forall|i: int, j: int|
        0 <= i < after.indices.len() && 0 <= j < after.indices.len() && i != j implies (
    #[trigger] after.indices[i]).key != (#[trigger] after.indices[j]).key by {
        assert(s.indices[i].key != s.indices[j].key);
    }
    if s.is_partial() {
        let i = choose|i: int| 0 <= i < s.indices.len() && (#[trigger] s.indices[i]).partial;
        assert(after.indices[i].partial);
    }
    if after.is_partial() {
        let i = choose|i: int| 0 <= i < after.indices.len() && (#[trigger] after.indices[i]).partial;
        assert(s.indices[i].partial);
    }
}

/// A removal keeps the state well formed, leaves the key columns and the
/// partial flags as they are, and counts one row less if an index held the
/// row, but never below zero.
pub proof fn lemma_remove_keeps(s: StateView, r: RowView)
    requires
        s.wf(),
    ensures
        s.remove(r).wf(),
        s.remove(r).indices.len() == s.indices.len(),
        s.remove(r).is_partial() == s.is_partial(),
        forall|i: int|
            0 <= i < s.indices.len() ==> (#[trigger] s.remove(r).indices[i]).key
                == s.indices[i].key,
        s.remove(r).rows == if s.holds(r) && s.rows > 0 {
            (s.rows - 1) as usize
        } else {
            s.rows
        },
{
    let after = s.remove(r);
    assert forall|i: int| 0 <= i < after.indices.len() implies (#[trigger] after.indices[i]).wf()
        && after.indices[i].key == s.indices[i].key && after.indices[i].partial
        == s.indices[i].partial by {
        s.indices[i].lemma_remove_wf(r);
    }
    assert forall|i: int, j: int|
        0 <= i < after.indices.len() && 0 <= j < after.indices.len() && i != j implies (
    #[trigger] after.indices[i]).key != (#[trigger] after.indices[j]).key by {
        assert(s.indices[i].key != s.indices[j].key);
    }
    if s.is_partial() {
        let i = choose|i: int| 0 <= i < s.indices.len() && (#[trigger] s.indices[i]).partial;
        assert(after.indices[i].partial);
    }
    if after.is_partial() {
        let i = choose|i: int| 0 <= i < after.indices.len() && (#[trigger] after.indices[i]).partial;
        assert(s.indices[i].partial);
    }
}

/// In a state without partial index whose indices agree, they still agree
/// after a row was inserted without a tag.
pub proof fn lemma_insert_agrees(s: StateView, r: RowView)
    requires
        s.wf(),
        !s.is_partial(),
        agrees(s),
        s.fits_all(r),
    ensures
        agrees(s.insert(r, None)),
{
    let after = s.insert(r, None);
    assert forall|i: int, other: RowView| 0 <= i < after.indices.len() implies (
    #[trigger] after.indices[i].count(other)) == after.indices[0].count(other) by {
        assert(!s.indices[i].partial);
        assert(!s.indices[0].partial);
        s.indices[i].lemma_insert_count(r, other);
        s.indices[0].lemma_insert_count(r, other);
        assert(s.indices[i].count(other) == s.indices[0].count(other));
    }
}

/// In a state whose indices agree, they still agree after a row was
/// removed.
pub proof fn lemma_remove_agrees(s: StateView, r: RowView)
    requires
        s.wf(),
        agrees(s),
    ensures
        agrees(s.remove(r)),
{
    let after = s.remove(r);
    assert forall|i: int, other: RowView| 0 <= i < after.indices.len() implies (
    #[trigger] after.indices[i].count(other)) == after.indices[0].count(other) by {
        s.indices[i].lemma_remove_count(r, other);
        s.indices[0].lemma_remove_count(r, other);
        s.indices[i].lemma_count_holds(r);
        s.indices[0].lemma_count_holds(r);
        assert(s.indices[i].count(other) == s.indices[0].count(other));
        assert(s.indices[i].count(r) == s.indices[0].count(r));
    }
}

/// Whether every row of the steps has every key column of the state.
pub open spec fn steps_fit(s: StateView, steps: Seq<Step>) -> bool {
    forall|i: int| 0 <= i < steps.len() ==> s.fits_all((#[trigger] steps[i]).row())
}

/// Insertions without a tag and removals, in any number and order, keep a
/// state without partial index well formed and without partial index, keep
/// its key columns, and keep its indices in agreement.
pub proof fn lemma_run_keeps(s: StateView, steps: Seq<Step>)
    requires
        s.wf(),
        !s.is_partial(),
        agrees(s),
        steps_fit(s, steps),
    ensures
        run(s, steps).wf(),
        !run(s, steps).is_partial(),
        agrees(run(s, steps)),
        run(s, steps).indices.len() == s.indices.len(),
        forall|i: int|
            0 <= i < s.indices.len() ==> (#[trigger] run(s, steps).indices[i]).key
                == s.indices[i].key,
    decreases steps.len(),
{
    if steps.len() > 0 {
        let before = run(s, steps.drop_last());
        assert(steps_fit(s, steps.drop_last())) by {
            assert forall|i: int| 0 <= i < steps.drop_last().len() implies s.fits_all(
                (#[trigger] steps.drop_last()[i]).row(),
            ) by {
                assert(steps.drop_last()[i] == steps[i]);
            }
        }
        lemma_run_keeps(s, steps.drop_last());
        let r = steps.last().row();
        assert(s.fits_all(steps[steps.len() - 1].row()));
        assert(before.fits_all(r)) by {
            assert forall|i: int| 0 <= i < before.indices.len() implies fits(
                r,
                (#[trigger] before.indices[i]).key,
            ) by {
                assert(fits(r, s.indices[i].key));
            }
        }
        match steps.last() {
            Step::Insert(_) => {
                lemma_insert_keeps(before, r, None);
                lemma_insert_agrees(before, r);
            },
            Step::Remove(_) => {
                lemma_remove_keeps(before, r);
                lemma_remove_agrees(before, r);
            },
        }
    }
}

/// In a well-formed state without partial index whose indices agree, a row
/// that any index holds is found by a lookup in every index, under the key
/// that the row has in that index.
pub proof fn lemma_retrievable(s: StateView, r: RowView, j: int)
    requires
        s.wf(),
        agrees(s),
        s.holds(r),
        0 <= j < s.indices.len(),
    ensures
        s.lookup(s.indices[j].key, project(r, s.indices[j].key)) matches LookupView::Found(rows)
            && rows.contains(r),
{
    let i = choose|i: int| 0 <= i < s.indices.len() && (#[trigger] s.indices[i]).holds(r);
    s.indices[i].lemma_count_holds(r);
    s.indices[j].lemma_count_holds(r);
    assert(s.indices[i].count(r) == s.indices[0].count(r));
    assert(s.indices[j].count(r) == s.indices[0].count(r));
    lemma_index_of(s, j);
}

/// After any insertions without a tag and removals on a state without
/// partial index whose indices agree, every row that the state holds is
/// found by a lookup in every index, under the key that the row has in that
/// index.
pub proof fn lemma_rows_stay_retrievable(s: StateView, steps: Seq<Step>, r: RowView, j: int)
    requires
        s.wf(),
        !s.is_partial(),
        agrees(s),
        steps_fit(s, steps),
        run(s, steps).holds(r),
        0 <= j < s.indices.len(),
    ensures
        run(s, steps).lookup(s.indices[j].key, project(r, s.indices[j].key)) matches LookupView::Found(
            rows,
        ) && rows.contains(r),
{
    lemma_run_keeps(s, steps);
    lemma_retrievable(run(s, steps), r, j);
}

/// The row count after insertions without a tag and removals, starting at
/// `rows`: up by one for each insertion, down by one for each removal that
/// found its row, and in both directions no further than a machine word
/// goes.
pub open spec fn tally(s: StateView, steps: Seq<Step>) -> int
    decreases steps.len(),
{
    if steps.len() == 0 {
        s.rows as int
    } else {
        let before = tally(s, steps.drop_last());
        match steps.last() {
            Step::Insert(_) => if before < usize::MAX {
                before + 1
            } else {
                before
            },
            Step::Remove(r) => if run(s, steps.drop_last()).holds(r) && before > 0 {
                before - 1
            } else {
                before
            },
        }
    }
}

/// The row count of a state follows its insertions without a tag and its
/// successful removals, and never leaves the range of a machine word.
pub proof fn lemma_len_tallies(s: StateView, steps: Seq<Step>)
    ensures
        run(s, steps).rows == tally(s, steps),
        0 <= tally(s, steps) <= usize::MAX,
    decreases steps.len(),
{
    if steps.len() > 0 {
        lemma_len_tallies(s, steps.drop_last());
    }
}

/// An insertion with a tag leaves the row count as it is.
pub proof fn lemma_tagged_insert_uncounted(s: StateView, r: RowView, tag: u32)
    ensures
        s.insert(r, Some(tag)).rows == s.rows,
{
}

/// A new complete index of a state that is not empty holds exactly the rows
/// that the first index holds: a lookup in it finds every such row under the
/// key that the row has in it, and it holds each row as often as the first
/// index does.
pub proof fn lemma_backfilled(s: StateView, after: StateView, cols: Seq<usize>, r: RowView)
    requires
        s.wf(),
        after.wf(),
        !s.has_index(cols),
        !s.is_empty(),
        s.key_added(after, cols, None),
    ensures
        after.indices.len() == s.indices.len() + 1,
        !after.indices.last().partial,
        after.indices.last().key == cols,
        after.indices.last().count(r) == s.indices[0].count(r),
        s.indices[0].holds(r) ==> (after.lookup(cols, project(r, cols)) matches LookupView::Found(
            rows,
        ) && rows.contains(r)),
        !s.indices[0].holds(r) ==> !after.indices.last().holds(r),
{
    let n = s.indices.len() as int;
    let added = after.indices[n];
    s.indices[0].lemma_count_holds(r);
    added.lemma_count_holds(r);
    lemma_index_of(after, n);
    assert(after.indices.last() == added);
}

/// A new partial index is empty, and every tag given for it resolves to it.
pub proof fn lemma_partial_added(
    s: StateView,
    after: StateView,
    cols: Seq<usize>,
    tags: Seq<u32>,
    k: RowView,
)
    requires
        s.wf(),
        after.wf(),
        !s.has_index(cols),
        s.key_added(after, cols, Some(tags)),
    ensures
        after.indices.len() == s.indices.len() + 1,
        after.indices.last().partial,
        after.indices.last().key == cols,
        after.indices.last().map == Map::<RowView, Seq<RowView>>::empty(),
        after.lookup(cols, k) == LookupView::Missing,
        forall|t: u32| tags.contains(t) ==> #[trigger] after.by_tag.contains_key(t),
        forall|t: u32| tags.contains(t) ==> #[trigger] after.by_tag[t] == after.index_of(cols),
        after.indices[after.index_of(cols)].key == cols,
{
    let n = s.indices.len() as int;
    lemma_index_of(after, n);
    assert(after.indices.last() == after.indices[n]);
}

/// Filling a key makes a lookup of it answer with no rows; a row with that
/// key that is then inserted without a tag is the one row that the lookup
/// finds; and when the key is then evicted, the lookup misses if the index
/// is partial.
pub proof fn lemma_fill_insert_evict(s: StateView, k: RowView, tag: u32, r: RowView)
    requires
        s.wf(),
        s.by_tag.contains_key(tag),
        k.len() == s.indices[s.by_tag[tag] as int].key.len(),
        !s.indices[s.by_tag[tag] as int].map.contains_key(k),
        s.fits_all(r),
        project(r, s.indices[s.by_tag[tag] as int].key) == k,
    ensures
        ({
            let cols = s.indices[s.by_tag[tag] as int].key;
            let filled = s.mark_filled(k, tag);
            let inserted = filled.insert(r, None);
            let evicted = inserted.mark_hole(k, tag);
            &&& filled.lookup(cols, k) == LookupView::Found(Seq::empty())
            &&& inserted.lookup(cols, k) == LookupView::Found(seq![r])
            &&& evicted.lookup(cols, k) == if s.indices[s.by_tag[tag] as int].partial {
                LookupView::Missing
            } else {
                LookupView::Found(Seq::empty())
            }
        }),
{
    let i = s.by_tag[tag] as int;
    let cols = s.indices[i].key;
    let filled = s.mark_filled(k, tag);
    let inserted = filled.insert(r, None);
    let evicted = inserted.mark_hole(k, tag);
    lemma_index_of(s, i);
    assert(filled.has_index(cols) && filled.index_of(cols) == i) by {
        assert(filled.indices[i].key == cols);
        let j = filled.index_of(cols);
        assert(s.indices[j].key == filled.indices[j].key);
    }
    assert(inserted.has_index(cols) && inserted.index_of(cols) == i) by {
        assert(inserted.indices[i].key == cols);
        let j = inserted.index_of(cols);
        assert(s.indices[j].key == inserted.indices[j].key);
    }
    assert(evicted.has_index(cols) && evicted.index_of(cols) == i) by {
        assert(evicted.indices[i].key == cols);
        let j = evicted.index_of(cols);
        assert(s.indices[j].key == evicted.indices[j].key);
    }
    assert(Seq::<RowView>::empty().push(r) =~= seq![r]);
}

/// A state without index, tag or row is well formed, and its indices agree.
pub proof fn lemma_base_agrees(s: StateView)
    requires
        s.indices.len() == 0,
        s.by_tag == Map::<u32, usize>::empty(),
    ensures
        s.wf(),
        !s.is_partial(),
        agrees(s),
{
}

/// In a state whose indices agree, they still agree after a complete index
/// was added.
pub proof fn lemma_add_key_agrees(s: StateView, after: StateView, cols: Seq<usize>)
    requires
        s.wf(),
        agrees(s),
        s.key_added(after, cols, None),
    ensures
        agrees(after),
{
    if !s.has_index(cols) {
        let n = s.indices.len() as int;
        assert forall|i: int, r: RowView| 0 <= i < after.indices.len() implies (
        #[trigger] after.indices[i].count(r)) == after.indices[0].count(r) by {
            if i < n {
                assert(after.indices[i] == after.indices.take(n)[i]);
                assert(after.indices[0] == after.indices.take(n)[0]);
                assert(s.indices[i].count(r) == s.indices[0].count(r));
            } else if n > 0 {
                assert(after.indices[0] == after.indices.take(n)[0]);
                if s.is_empty() {
                    assert(s.indices[0].wf());
                    assert(s.indices[0].map.dom() =~= Set::<RowView>::empty());
                }
            }
        }
    }
}

} // verus!
