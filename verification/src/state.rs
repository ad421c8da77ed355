//! The materialized state of one operator: the same rows under one or more
//! indices, some of which may be partial.

use std::collections::HashMap;
use std::rc::Rc;
use vstd::prelude::*;
use vstd::slice::slice_to_vec;
use vstd::seq_lib::{lemma_multiset_commutative, to_multiset_build, to_multiset_contains};
use crate::keyed_state::{KeyedState, KeyType, Row, share_row};
use crate::model::{
    IndexView, LookupView, RowView, StateView, first_at, is_walk, lemma_first_at, swap_removed, walks,
};
use crate::value::{DataType, clone_row, fits, key_of, project, row_eq};

verus! {

broadcast use vstd::std_specs::hash::group_hash_axioms;

/// The identifier of a replay path.
#[derive(Clone, Copy, Debug, PartialEq, Eq, Hash)]
pub struct Tag(pub u32);

/// The number of an optional tag.
pub open spec fn tag_id(tag: Option<Tag>) -> Option<u32> {
    match tag {
        Some(t) => Some(t.0),
        None => None,
    }
}

/// The numbers of a list of tags.
pub open spec fn tag_ids(tags: Seq<Tag>) -> Seq<u32> {
    Seq::new(tags.len(), |i: int| tags[i].0)
}

/// The numbers of an optional list of tags.
pub open spec fn tag_list(tags: Option<Vec<Tag>>) -> Option<Seq<u32>> {
    match tags {
        Some(t) => Some(tag_ids(t@)),
        None => None,
    }
}

/// One index: its key columns, its map, and whether it is partial.
struct SingleState {
    key: Vec<usize>,
    state: KeyedState,
    partial: bool,
}

impl View for SingleState {
    type V = IndexView;

    closed spec fn view(&self) -> IndexView {
        IndexView { key: self.key@, partial: self.partial, map: self.state@ }
    }
}

impl SingleState {
    spec fn wf(&self) -> bool {
        &&& self.state.wf()
        &&& self.state.arity() == self.key@.len()
        &&& self@.wf()
    }
}

/// Whether two lists of column positions are the same.
fn same_columns(a: &[usize], b: &[usize]) -> (r: bool)
    ensures
        r == (a@ == b@),
{
    if a.len() != b.len() {
        return false;
    }
    let mut i: usize = 0;
    while i < a.len()
        invariant
            a.len() == b.len(),
            i <= a.len(),
            forall|j: int| 0 <= j < i ==> a[j] == b[j],
        decreases a.len() - i,
    {
        if a[i] != b[i] {
            return false;
        }
        i += 1;
    }
    assert(a@ =~= b@);
    true
}

/// What a lookup answers.
pub enum LookupResult<'a> {
    /// The rows stored under the key. For a complete index an absent key
    /// gives no rows.
    Found(&'a [Row]),
    /// The key is a hole of a partial index: nothing is known of its rows.
    Missing,
}

impl<'a> View for LookupResult<'a> {
    type V = LookupView;

    open spec fn view(&self) -> LookupView {
        match self {
            LookupResult::Found(rows) => LookupView::Found(rows.deep_view()),
            LookupResult::Missing => LookupView::Missing,
        }
    }
}

/// The materialized state of one operator.
pub struct State {
    state: Vec<SingleState>,
    by_tag: HashMap<u32, usize>,
    rows: usize,
}

impl View for State {
    type V = StateView;

    /// The model of the state.
    closed spec fn view(&self) -> StateView {
        StateView {
            indices: Seq::new(self.state.len() as nat, |i: int| self.state[i]@),
            by_tag: self.by_tag@,
            rows: self.rows,
        }
    }
}

impl Default for State {
    /// A state without indices, tags or rows.
    fn default() -> (s: State)
        ensures
            s.wf(),
            s@.indices.len() == 0,
            s@.by_tag == Map::<u32, usize>::empty(),
            s@.rows == 0,
    {
        State { state: Vec::new(), by_tag: HashMap::new(), rows: 0 }
    }
}

impl State {
    /// The representation invariant. It implies the invariant of the model.
    pub closed spec fn wf(&self) -> bool {
        &&& forall|i: int| 0 <= i < self.state.len() ==> (#[trigger] self.state[i]).wf()
        &&& self@.wf()
    }

    /// A well-formed state has a well-formed model.
    pub proof fn lemma_wf(&self)
        requires
            self.wf(),
        ensures
            self@.wf(),
    {
    }

    /// A state without indices, tags or rows.
    pub fn base() -> (s: State)
        ensures
            s.wf(),
            s@.indices.len() == 0,
            s@.by_tag == Map::<u32, usize>::empty(),
            s@.rows == 0,
    {
        State::default()
    }

    /// The position of the index whose key columns are `cols`.
    fn state_for(&self, cols: &[usize]) -> (r: Option<usize>)
        ensures
            match r {
                Some(i) => i < self.state.len() && self.state[i as int].key@ == cols@,
                None => forall|j: int| 0 <= j < self.state.len() ==> self.state[j].key@ != cols@,
            },
    {
        let mut i: usize = 0;
        while i < self.state.len()
            invariant
                i <= self.state.len(),
                forall|j: int| 0 <= j < i ==> self.state[j].key@ != cols@,
            decreases self.state.len() - i,
        {
            if same_columns(self.state[i].key.as_slice(), cols) {
                return Some(i);
            }
            i += 1;
        }
        None
    }

    /// The key columns of every index, oldest index first.
    pub fn keys(&self) -> (r: Vec<Vec<usize>>)
        ensures
            r.len() == self@.indices.len(),
            forall|i: int| 0 <= i < r.len() ==> (#[trigger] r[i])@ == self@.indices[i].key,
    {
        let mut r: Vec<Vec<usize>> = Vec::with_capacity(self.state.len());
        let mut i: usize = 0;
        while i < self.state.len()
            invariant
                i <= self.state.len(),
                r.len() == i,
                forall|j: int| 0 <= j < i ==> (#[trigger] r[j])@ == self.state[j].key@,
            decreases self.state.len() - i,
        {
            r.push(self.state[i].key.clone());
            i += 1;
        }
        r
    }

    /// Whether the state has any index.
    pub fn is_useful(&self) -> (b: bool)
        ensures
            b == (self@.indices.len() > 0),
    {
        !self.state.is_empty()
    }

    /// Whether any index is partial.
    pub fn is_partial(&self) -> (b: bool)
        ensures
            b == self@.is_partial(),
    {
        let mut i: usize = 0;
        while i < self.state.len()
            invariant
                i <= self.state.len(),
                forall|j: int| 0 <= j < i ==> !(#[trigger] self@.indices[j]).partial,
            decreases self.state.len() - i,
        {
            if self.state[i].partial {
                assert(self@.indices[i as int].partial);
                return true;
            }
            i += 1;
        }
        false
    }

    /// Whether the state has no index, or its first index has no key.
    pub fn is_empty(&self) -> (b: bool)
        requires
            self.wf(),
        ensures
            b == self@.is_empty(),
    {
        self.state.is_empty() || self.state[0].state.is_empty()
    }

    /// The row count: one for each insertion without a tag, less one for
    /// each removal that found its row.
    pub fn len(&self) -> (n: usize)
        ensures
            n == self@.rows,
    {
        self.rows
    }

    /// The number of keys of the first index; 0 without an index.
    pub fn nkeys(&self) -> (n: usize)
        requires
            self.wf(),
        ensures
            n == if self@.indices.len() == 0 {
                0
            } else {
                self@.indices[0].map.dom().len()
            },
    {
        if self.state.is_empty() {
            0
        } else {
            self.state[0].state.len()
        }
    }

    /// Offers the row `r` to the index `s`. Returns `false` if the row fell
    /// into a hole of a partial index and was therefore not stored.
    fn insert_into(s: &mut SingleState, r: Row) -> (hit: bool)
        requires
            old(s).wf(),
            fits(r.deep_view(), old(s).key@),
        ensures
            final(s).wf(),
            final(s)@ == old(s)@.insert(r.deep_view()),
            hit == old(s)@.accepts(r.deep_view()),
    {
        let ghost before = *s;
        let ghost row = r.deep_view();
        let values = r.as_slice();
        assert(values.deep_view() =~= row);
        let key = key_of(values, s.key.as_slice());
        let ghost k = key.deep_view();
        assert(k == project(row, s.key@));
        proof {
            s.state.lemma_keys();
        }
        match s.state.get_mut(key.as_slice()) {
            Some(rs) => {
                let ghost bucket = rs.deep_view();
                rs.push(r);
                assert(rs.deep_view() =~= bucket.push(row));
                assert(s@ =~= before@.insert(row));
                assert(s@.wf()) by {
                    before@.lemma_insert_wf(row);
                }
                true
            },
            None => {
                if s.partial {
                    return false;
                }
                let mut rs: Vec<Row> = Vec::new();
                rs.push(r);
                assert(rs.deep_view() =~= seq![row]);
                s.state.insert(key, rs);
                assert(s@ =~= before@.insert(row));
                assert(s@.wf()) by {
                    before@.lemma_insert_wf(row);
                }
                true
            },
        }
    }

    /// Inserts the row `r`.
    ///
    /// With a tag the row is a replay payload: it is offered only to the
    /// index that the tag fills, the row count stays, and for an unknown tag
    /// nothing happens and the answer is `true`. Without a tag the row count
    /// grows by one (saturating) and the row is offered to every index; the
    /// answer tells whether any index took it.
    pub fn insert(&mut self, r: Vec<DataType>, partial_tag: Option<Tag>) -> (hit: bool)
        requires
            old(self).wf(),
            old(self)@.admits(r.deep_view(), tag_id(partial_tag)),
        ensures
            final(self).wf(),
            final(self)@ == old(self)@.insert(r.deep_view(), tag_id(partial_tag)),
            hit == old(self)@.insert_hit(r.deep_view(), tag_id(partial_tag)),
    {
        let ghost before = *self;
        let ghost row = r.deep_view();
        let r: Row = Rc::new(r);
        match partial_tag {
            Some(tag) => {
                let i = match self.by_tag.get(&tag.0) {
                    Some(i) => *i,
                    None => {
                        return true;
                    },
                };
                assert(before@.by_tag.contains_key(tag.0) && before@.by_tag[tag.0] == i);
                assert(before@.indices[i as int] == before.state[i as int]@);
                let hit = State::insert_into(&mut self.state[i], r);
                proof {
                    assert(self@.indices =~= before@.indices.update(
                        i as int,
                        before@.indices[i as int].insert(row),
                    ));
                    assert forall|j: int| 0 <= j < self.state.len() implies (
                    #[trigger] self.state[j]).wf() && self@.indices[j].key
                        == before@.indices[j].key by {
                        if j != i {
                            assert(self.state[j] == before.state[j]);
                            assert(before@.indices[j] == before.state[j]@);
                        }
                    }
                    Self::lemma_same_keys_wf(before@, self@);
                }
                hit
            },
            None => {
                let mut hit_any = false;
                self.rows = self.rows.saturating_add(1);
                let n = self.state.len();
                let mut i: usize = 0;
                while i < n
                    invariant
                        before.wf(),
                        before@.fits_all(row),
                        row == r.deep_view(),
                        n == self.state.len(),
                        n == before.state.len(),
                        i <= n,
                        self.by_tag == before.by_tag,
                        self.rows == before@.insert(row, None).rows,
                        forall|j: int|
                            0 <= j < i ==> (#[trigger] self.state[j]).wf() && self.state[j]@
                                == before.state[j]@.insert(row),
                        forall|j: int| i <= j < n ==> self.state[j] == before.state[j],
                        hit_any == exists|j: int|
                            0 <= j < i && (#[trigger] before@.indices[j]).accepts(row),
                    decreases n - i,
                {
                    assert(before@.indices[i as int] == before.state[i as int]@);
                    assert(before.state[i as int].wf());
                    let hit = State::insert_into(&mut self.state[i], share_row(&r));
                    hit_any = hit || hit_any;
                    i += 1;
                }
                proof {
                    assert(self@.indices =~= before@.insert(row, None).indices);
                    assert forall|j: int| 0 <= j < self.state.len() implies self@.indices[j].key
                        == before@.indices[j].key by {}
                    Self::lemma_same_keys_wf(before@, self@);
                }
                hit_any
            },
        }
    }

    /// A state whose indices are well formed keeps the invariant of the
    /// model when neither the key columns nor the tags change.
    proof fn lemma_same_keys_wf(before: StateView, after: StateView)
        requires
            before.wf(),
            after.by_tag == before.by_tag,
            after.indices.len() == before.indices.len(),
            forall|j: int|
                0 <= j < after.indices.len() ==> (#[trigger] after.indices[j]).wf()
                    && after.indices[j].key == before.indices[j].key,
        ensures
            after.wf(),
    {
        assert forall|i: int, j: int|
            0 <= i < after.indices.len() && 0 <= j < after.indices.len() && i != j implies (
        #[trigger] after.indices[i]).key != (#[trigger] after.indices[j]).key by {
            assert(before.indices[i].key != before.indices[j].key);
        }
    }

    /// Takes the first row equal to `r` out of the bucket `rs`, moving the
    /// last row into its place.
    fn fix(rs: &mut Vec<Row>, r: &[DataType]) -> (removed: bool)
        ensures
            removed == old(rs).deep_view().contains(r.deep_view()),
            final(rs).deep_view() == if removed {
                swap_removed(old(rs).deep_view(), first_at(old(rs).deep_view(), r.deep_view()))
            } else {
                old(rs).deep_view()
            },
    {
        let ghost bucket = rs.deep_view();
        let ghost row = r.deep_view();
        let mut i: usize = 0;
        while i < rs.len()
            invariant
                i <= rs.len(),
                rs.deep_view() == bucket,
                bucket == old(rs).deep_view(),
                row == r.deep_view(),
                forall|j: int| 0 <= j < i ==> bucket[j] != row,
            decreases rs.len() - i,
        {
            let candidate = rs[i].as_slice();
            assert(candidate.deep_view() =~= bucket[i as int]);
            if row_eq(candidate, r) {
                proof {
                    lemma_first_at(bucket, row, i as int);
                    assert(bucket.contains(row));
                }
                rs.swap_remove(i);
                assert(rs.deep_view() =~= swap_removed(bucket, i as int));
                return true;
            }
            i += 1;
        }
        false
    }

    /// Takes one occurrence of the row `r` out of the index `s`. The first
    /// answer tells whether the index has a bucket for the key of the row,
    /// the second whether the row was found in it.
    fn remove_from(s: &mut SingleState, r: &[DataType]) -> (res: (bool, bool))
        requires
            old(s).wf(),
            fits(r.deep_view(), old(s).key@),
        ensures
            final(s).wf(),
            final(s)@ == old(s)@.remove(r.deep_view()),
            res.0 == old(s)@.reaches(r.deep_view()),
            res.1 == old(s)@.holds(r.deep_view()),
    {
        let ghost before = *s;
        let ghost row = r.deep_view();
        let key = key_of(r, s.key.as_slice());
        match s.state.get_mut(key.as_slice()) {
            Some(rs) => {
                let removed = State::fix(rs, r);
                assert(s@ =~= before@.remove(row));
                assert(s@.wf()) by {
                    before@.lemma_remove_wf(row);
                }
                (true, removed)
            },
            None => (false, false),
        }
    }

    /// Removes one occurrence of the row `r`, found by the equality of all
    /// its values, from every index that holds it. The row count shrinks by
    /// one (saturating) if any index held the row. The answer tells whether
    /// any index had a bucket for the key of the row.
    pub fn remove(&mut self, r: &[DataType]) -> (hit: bool)
        requires
            old(self).wf(),
            old(self)@.fits_all(r.deep_view()),
        ensures
            final(self).wf(),
            final(self)@ == old(self)@.remove(r.deep_view()),
            hit == old(self)@.reaches(r.deep_view()),
    {
        let ghost before = *self;
        let ghost row = r.deep_view();
        let mut hit = false;
        let mut removed = false;
        let n = self.state.len();
        let mut i: usize = 0;
        while i < n
            invariant
                before.wf(),
                before@.fits_all(row),
                row == r.deep_view(),
                n == self.state.len(),
                n == before.state.len(),
                i <= n,
                self.by_tag == before.by_tag,
                self.rows == before.rows,
                forall|j: int|
                    0 <= j < i ==> (#[trigger] self.state[j]).wf() && self.state[j]@
                        == before.state[j]@.remove(row),
                forall|j: int| i <= j < n ==> self.state[j] == before.state[j],
                hit == exists|j: int| 0 <= j < i && (#[trigger] before@.indices[j]).reaches(row),
                removed == exists|j: int| 0 <= j < i && (#[trigger] before@.indices[j]).holds(row),
            decreases n - i,
        {
            assert(before@.indices[i as int] == before.state[i as int]@);
            assert(before.state[i as int].wf());
            let found = State::remove_from(&mut self.state[i], r);
            if found.0 {
                hit = true;
            }
            if found.1 {
                removed = true;
            }
            i += 1;
        }
        if removed {
            self.rows = self.rows.saturating_sub(1);
        }
        proof {
            assert(self@.indices =~= before@.remove(row).indices);
            assert forall|j: int| 0 <= j < self.state.len() implies self@.indices[j].key
                == before@.indices[j].key by {}
            Self::lemma_same_keys_wf(before@, self@);
        }
        hit
    }

    /// Whether `tag` is registered, that is, resolves to an index.
    pub fn has_tag(&self, tag: &Tag) -> (b: bool)
        ensures
            b == self@.by_tag.contains_key(tag.0),
    {
        self.by_tag.contains_key(&tag.0)
    }

    /// Declares the key `key` of the index that `tag` fills to be present
    /// and, so far, empty.
    pub fn mark_filled(&mut self, key: Vec<DataType>, tag: &Tag)
        requires
            old(self).wf(),
            old(self)@.by_tag.contains_key(tag.0),
            key.deep_view().len() == old(self)@.indices[old(self)@.by_tag[tag.0] as int].key.len(),
            !old(self)@.indices[old(self)@.by_tag[tag.0] as int].map.contains_key(key.deep_view()),
        ensures
            final(self).wf(),
            final(self)@ == old(self)@.mark_filled(key.deep_view(), tag.0),
    {
        let ghost before = *self;
        let ghost k = key.deep_view();
        let i = match self.by_tag.get(&tag.0) {
            Some(i) => *i,
            None => vstd::pervasive::unreached(),
        };
        assert(before@.indices[i as int] == before.state[i as int]@);
        let index = &mut self.state[i];
        let empty: Vec<Row> = Vec::new();
        assert(empty.deep_view() =~= Seq::<RowView>::empty());
        let replaced = index.state.insert(key, empty);
        proof {
            assert(self.state[i as int]@ =~= before@.indices[i as int].fill(k));
            assert(self@.indices =~= before@.mark_filled(k, tag.0).indices);
            assert forall|j: int| 0 <= j < self.state.len() implies (#[trigger] self.state[j]).wf()
                && self@.indices[j].key == before@.indices[j].key by {
                if j != i {
                    assert(self.state[j] == before.state[j]);
                    assert(before@.indices[j] == before.state[j]@);
                } else {
                    let ix = before@.indices[i as int];
                    let after = ix.fill(k);
                    assert forall|q: RowView, m: int|
                        after.map.contains_key(q) && 0 <= m < after.map[q].len() implies fits(
                        #[trigger] after.map[q][m],
                        after.key,
                    ) && project(after.map[q][m], after.key) == q by {
                        assert(ix.map.contains_key(q));
                        assert(after.map[q][m] == ix.map[q][m]);
                    }
                }
            }
            Self::lemma_same_keys_wf(before@, self@);
        }
    }

    /// Evicts the key `key` from the index that `tag` fills: the key is a
    /// hole again.
    pub fn mark_hole(&mut self, key: &[DataType], tag: &Tag)
        requires
            old(self).wf(),
            old(self)@.by_tag.contains_key(tag.0),
            key.deep_view().len() == old(self)@.indices[old(self)@.by_tag[tag.0] as int].key.len(),
            old(self)@.indices[old(self)@.by_tag[tag.0] as int].map.contains_key(key.deep_view()),
        ensures
            final(self).wf(),
            final(self)@ == old(self)@.mark_hole(key.deep_view(), tag.0),
    {
        let ghost before = *self;
        let ghost k = key.deep_view();
        let i = match self.by_tag.get(&tag.0) {
            Some(i) => *i,
            None => vstd::pervasive::unreached(),
        };
        assert(before@.indices[i as int] == before.state[i as int]@);
        let index = &mut self.state[i];
        let removed = index.state.remove(key);
        proof {
            assert(self.state[i as int]@ =~= before@.indices[i as int].evict(k));
            assert(self@.indices =~= before@.mark_hole(k, tag.0).indices);
            assert forall|j: int| 0 <= j < self.state.len() implies (#[trigger] self.state[j]).wf()
                && self@.indices[j].key == before@.indices[j].key by {
                if j != i {
                    assert(self.state[j] == before.state[j]);
                    assert(before@.indices[j] == before.state[j]@);
                } else {
                    let ix = before@.indices[i as int];
                    let after = ix.evict(k);
                    assert forall|q: RowView, m: int|
                        after.map.contains_key(q) && 0 <= m < after.map[q].len() implies fits(
                        #[trigger] after.map[q][m],
                        after.key,
                    ) && project(after.map[q][m], after.key) == q by {
                        assert(ix.map.contains_key(q));
                        assert(after.map[q][m] == ix.map[q][m]);
                    }
                }
            }
            Self::lemma_same_keys_wf(before@, self@);
        }
    }

    /// Looks the key `key` up in the index on `columns`.
    pub fn lookup<'a>(&'a self, columns: &[usize], key: &KeyType) -> (r: LookupResult<'a>)
        requires
            self.wf(),
            self@.has_index(columns@),
            key@.len() == columns@.len(),
        ensures
            r@ == self@.lookup(columns@, key@),
    {
        let i = match self.state_for(columns) {
            Some(i) => i,
            None => {
                proof {
                    let j = self@.index_of(columns@);
                    assert(self@.indices[j] == self.state[j]@);
                }
                vstd::pervasive::unreached()
            },
        };
        proof {
            let j = self@.index_of(columns@);
            assert(self@.indices[j] == self.state[j]@);
            assert(self@.indices[i as int] == self.state[i as int]@);
            assert(j == i);
        }
        let index = &self.state[i];
        match index.state.lookup(key) {
            Some(rs) => {
                let rows = rs.as_slice();
                assert(rows.deep_view() =~= rs.deep_view());
                LookupResult::Found(rows)
            },
            None => {
                if index.partial {
                    LookupResult::Missing
                } else {
                    let none: &[Row] = &[];
                    assert(none.deep_view() =~= Seq::<RowView>::empty());
                    LookupResult::Found(none)
                }
            },
        }
    }

    /// Forgets every row of every index; the indices and the tags stay.
    pub fn clear(&mut self)
        requires
            old(self).wf(),
        ensures
            final(self).wf(),
            final(self)@ == old(self)@.clear(),
    {
        let ghost before = *self;
        self.rows = 0;
        let n = self.state.len();
        let mut i: usize = 0;
        while i < n
            invariant
                before.wf(),
                n == self.state.len(),
                n == before.state.len(),
                i <= n,
                self.by_tag == before.by_tag,
                self.rows == 0,
                forall|j: int|
                    0 <= j < i ==> (#[trigger] self.state[j]).wf() && self.state[j]@
                        == before.state[j]@.clear(),
                forall|j: int| i <= j < n ==> self.state[j] == before.state[j],
            decreases n - i,
        {
            assert(before.state[i as int].wf());
            let index = &mut self.state[i];
            index.state.clear();
            proof {
                assert(self.state[i as int]@ =~= before.state[i as int]@.clear());
                assert(self.state[i as int]@.map.dom() =~= Set::<RowView>::empty());
            }
            i += 1;
        }
        proof {
            assert(self@.indices =~= before@.clear().indices);
            assert forall|j: int| 0 <= j < self.state.len() implies self@.indices[j].key
                == before@.indices[j].key by {}
            Self::lemma_same_keys_wf(before@, self@);
        }
    }

    /// Every row handle of the index, bucket by bucket.
    fn all_rows(index: &SingleState) -> (all: Vec<&Row>)
        requires
            index.wf(),
        ensures
            forall|r: RowView| #[trigger]
                all.deep_view().to_multiset().count(r) == index@.count(r),
    {
        let values = index.state.values();
        let ghost keys = index.state.key_order();
        let ghost ix = index@;
        proof {
            index.state.lemma_key_order();
        }
        let mut all: Vec<&Row> = Vec::new();
        let mut j: usize = 0;
        proof {
            assert(all.deep_view() =~= Seq::<RowView>::empty());
            assert(keys.take(0) =~= Seq::<RowView>::empty());
            assert(all.deep_view().to_multiset().len() == 0) by {
                vstd::seq_lib::to_multiset_len(all.deep_view());
            }
            assert forall|r: RowView| #[trigger]
                all.deep_view().to_multiset().count(r) == ix.count_within(keys.take(0), r) by {
                to_multiset_contains(all.deep_view(), r);
            }
        }
        while j < values.len()
            invariant
                ix.wf(),
                keys.no_duplicates(),
                keys.len() == values.len(),
                forall|k: RowView| keys.contains(k) <==> ix.map.contains_key(k),
                forall|i: int|
                    0 <= i < values.len() ==> (#[trigger] values[i]).deep_view() == ix.map[keys[i]],
                j <= values.len(),
                forall|r: RowView| #[trigger]
                    all.deep_view().to_multiset().count(r) == ix.count_within(
                        keys.take(j as int),
                        r,
                    ),
            decreases values.len() - j,
        {
            let bucket = values[j];
            let ghost base = all.deep_view();
            let mut m: usize = 0;
            assert(bucket.deep_view().take(0) =~= Seq::<RowView>::empty());
            assert(base + Seq::<RowView>::empty() =~= base);
            while m < bucket.len()
                invariant
                    m <= bucket.len(),
                    all.deep_view() == base + bucket.deep_view().take(m as int),
                decreases bucket.len() - m,
            {
                let ghost prev = all.deep_view();
                all.push(&bucket[m]);
                proof {
                    let row = bucket.deep_view()[m as int];
                    assert(all.deep_view() =~= prev.push(row));
                    assert(bucket.deep_view().take(m + 1) =~= bucket.deep_view().take(
                        m as int,
                    ).push(row));
                    assert(all.deep_view() =~= base + bucket.deep_view().take(m + 1));
                }
                m += 1;
            }
            proof {
                assert(bucket.deep_view().take(m as int) =~= bucket.deep_view());
                lemma_multiset_commutative(base, bucket.deep_view());
                assert(keys.contains(keys[j as int]));
                assert forall|r: RowView| #[trigger]
                    all.deep_view().to_multiset().count(r) == ix.count_within(
                        keys.take(j + 1),
                        r,
                    ) by {
                    ix.lemma_count_within_step(keys, j as int, r);
                    assert(base.to_multiset().count(r) == ix.count_within(keys.take(j as int), r));
                }
            }
            j += 1;
        }
        proof {
            assert(keys.take(j as int) =~= keys);
            assert forall|r: RowView| #[trigger]
                all.deep_view().to_multiset().count(r) == ix.count(r) by {
                assert(all.deep_view().to_multiset().count(r) == ix.count_within(keys, r));
            }
        }
        all
    }

    /// A copy of every row that the first index holds, bucket by bucket.
    pub fn cloned_records(&self) -> (records: Vec<Vec<DataType>>)
        requires
            self.wf(),
            self@.indices.len() > 0,
        ensures
            forall|r: RowView| #[trigger]
                records.deep_view().to_multiset().count(r) == self@.indices[0].count(r),
    {
        assert(self@.indices[0] == self.state[0]@);
        let all = State::all_rows(&self.state[0]);
        let mut records: Vec<Vec<DataType>> = Vec::with_capacity(all.len());
        let mut i: usize = 0;
        while i < all.len()
            invariant
                i <= all.len(),
                records.len() == i,
                forall|j: int| 0 <= j < i ==> (#[trigger] records[j]).deep_view() == all[j].deep_view(),
            decreases all.len() - i,
        {
            let row = all[i].as_slice();
            assert(row.deep_view() =~= all[i as int].deep_view());
            records.push(clone_row(row));
            i += 1;
        }
        assert(records.deep_view() =~= all.deep_view());
        records
    }

    /// Adds an index on `columns`, or only new tags for it if it exists.
    ///
    /// Each tag of `partial` resolves to the index from now on. A new index
    /// is partial if tags were given. A new complete index of a state that
    /// is not empty is filled from the first index.
    pub fn add_key(&mut self, columns: &[usize], partial: Option<Vec<Tag>>)
        requires
            old(self).wf(),
            !old(self)@.has_index(columns@) ==> 1 <= columns@.len() <= 6,
            old(self)@.backfills(columns@, tag_list(partial)) ==> old(self)@.rows_fit(0, columns@),
        ensures
            final(self).wf(),
            old(self)@.key_added(final(self)@, columns@, tag_list(partial)),
    {
        let ghost before = *self;
        let ghost given = match tag_list(partial) {
            Some(t) => t,
            None => Seq::<u32>::empty(),
        };
        let n = self.state.len();
        let found = self.state_for(columns);
        let (i, exists) = match found {
            Some(i) => (i, true),
            None => (n, false),
        };
        proof {
            assert forall|j: int| 0 <= j < n implies (#[trigger] before@.indices[j]).key
                == before.state[j].key@ by {}
            if exists {
                assert(before@.indices[i as int].key == columns@);
                assert(before@.has_index(columns@));
                assert(before@.index_of(columns@) == i);
            } else {
                assert(!before@.has_index(columns@));
            }
        }
        let is_partial = partial.is_some();
        match &partial {
            Some(p) => {
                let mut m: usize = 0;
                assert(tag_ids(p@).take(0) =~= Seq::<u32>::empty());
                assert(self.by_tag@ =~= before@.tagged(tag_ids(p@).take(0), i));
                while m < p.len()
                    invariant
                        m <= p.len(),
                        self.state == before.state,
                        self.rows == before.rows,
                        self.by_tag@ == before@.tagged(tag_ids(p@).take(m as int), i),
                    decreases p.len() - m,
                {
                    self.by_tag.insert(p[m].0, i);
                    proof {
                        let shorter = tag_ids(p@).take(m as int);
                        let longer = tag_ids(p@).take(m + 1);
                        assert(longer =~= shorter.push(p[m as int].0));
                        assert forall|t: u32| longer.contains(t) <==> shorter.contains(t) || t
                            == p[m as int].0 by {
                            if shorter.contains(t) {
                                let a = choose|a: int| 0 <= a < shorter.len() && shorter[a] == t;
                                assert(longer[a] == t);
                            }
                            if t == p[m as int].0 {
                                assert(longer[m as int] == t);
                            }
                        }
                        assert(self.by_tag@ =~= before@.tagged(longer, i));
                    }
                    m += 1;
                }
                assert(tag_ids(p@).take(m as int) =~= given);
            },
            None => {
                assert(self.by_tag@ =~= before@.tagged(given, i));
            },
        }
        if exists {
            proof {
                assert(self@.indices =~= before@.indices);
                assert(self@.wf());
            }
            return ;
        }
        let mut index = SingleState {
            key: slice_to_vec(columns),
            state: KeyedState::new(columns.len()),
            partial: is_partial,
        };
        proof {
            assert(index@.map.dom() =~= Set::<RowView>::empty());
            assert(index.wf());
        }
        if !is_partial && !self.is_empty() {
            assert(before@.indices[0] == before.state[0]@);
            let all = State::all_rows(&self.state[0]);
            let ghost first = before@.indices[0];
            proof {
                assert forall|a: int| 0 <= a < all.len() implies fits(
                    (#[trigger] all[a]).deep_view(),
                    columns@,
                ) by {
                    let r = all[a].deep_view();
                    assert(all.deep_view()[a] == r);
                    assert(all.deep_view().contains(r));
                    to_multiset_contains(all.deep_view(), r);
                    first.lemma_count_holds(r);
                    let bucket = first.map[first.key_of(r)];
                    let b = choose|b: int| 0 <= b < bucket.len() && bucket[b] == r;
                    assert(fits(first.map[first.key_of(r)][b], columns@));
                }
                assert(all.deep_view().take(0) =~= Seq::<RowView>::empty());
                assert forall|r: RowView| #[trigger]
                    index@.count(r) == all.deep_view().take(0).to_multiset().count(r) by {
                    to_multiset_contains(all.deep_view().take(0), r);
                }
            }
            let mut m: usize = 0;
            while m < all.len()
                invariant
                    m <= all.len(),
                    index.wf(),
                    index.key@ == columns@,
                    !index.partial,
                    forall|a: int|
                        0 <= a < all.len() ==> fits((#[trigger] all[a]).deep_view(), columns@),
                    forall|r: RowView| #[trigger]
                        index@.count(r) == all.deep_view().take(m as int).to_multiset().count(r),
                    forall|k: RowView| #[trigger]
                        index@.map.contains_key(k) ==> index@.map[k].len() > 0,
                decreases all.len() - m,
            {
                let ghost prior = index@;
                let ghost row = all[m as int].deep_view();
                State::insert_into(&mut index, share_row(all[m]));
                proof {
                    let shorter = all.deep_view().take(m as int);
                    assert(all.deep_view().take(m + 1) =~= shorter.push(row));
                    to_multiset_build(shorter, row);
                    assert forall|r: RowView| #[trigger]
                        index@.count(r) == all.deep_view().take(m + 1).to_multiset().count(r) by {
                        prior.lemma_insert_count(row, r);
                    }
                }
                m += 1;
            }
            proof {
                assert(all.deep_view().take(m as int) =~= all.deep_view());
            }
        }
        let ghost added = index@;
        self.state.push(index);
        proof {
            assert(self@.indices.take(n as int) =~= before@.indices);
            assert(self@.indices[n as int] == added);
            assert forall|a: int, b: int|
                0 <= a < self@.indices.len() && 0 <= b < self@.indices.len() && a != b implies (
            #[trigger] self@.indices[a]).key != (#[trigger] self@.indices[b]).key by {
                if a < n && b < n {
                    assert(before@.indices[a].key != before@.indices[b].key);
                }
            }
            assert forall|a: int| 0 <= a < self.state.len() implies (#[trigger] self.state[a]).wf() by {
                if a < n {
                    assert(self.state[a] == before.state[a]);
                }
            }
            assert(self@.wf());
        }
    }

    /// The buckets of the oldest index with a single key column, each key's
    /// bucket once.
    pub fn iter(&self) -> (r: Vec<&Vec<Row>>)
        requires
            self.wf(),
            exists|i: int| self@.is_first_single(i) && !(#[trigger] self@.indices[i]).partial,
        ensures
            exists|i: int|
                self@.is_first_single(i) && is_walk(
                    r.deep_view(),
                    (#[trigger] self@.indices[i]).map,
                ),
    {
        let ghost at = choose|i: int|
            self@.is_first_single(i) && !(#[trigger] self@.indices[i]).partial;
        let mut i: usize = 0;
        while i < self.state.len()
            invariant
                i <= at,
                at < self.state.len(),
                self.wf(),
                self@.is_first_single(at),
            decreases self.state.len() - i,
        {
            assert(self@.indices[i as int] == self.state[i as int]@);
            let index = &self.state[i];
            if index.key.len() == 1 {
                let r = index.state.values();
                proof {
                    index.state.lemma_key_order();
                    assert(walks(index.state.key_order(), r.deep_view(), index.state@));
                    assert(self@.is_first_single(i as int));
                }
                return r;
            }
            i += 1;
        }
        vstd::pervasive::unreached()
    }

    /// Drops every index but the youngest, so that each row has one owner.
    fn unalias_for_state(&mut self)
        ensures
            final(self).state@ == if old(self).state.len() > 0 {
                seq![old(self).state@.last()]
            } else {
                Seq::<SingleState>::empty()
            },
    {
        let left = self.state.pop();
        self.state.clear();
        if let Some(left) = left {
            self.state.push(left);
        }
        assert(self.state@ =~= if old(self).state.len() > 0 {
            seq![old(self).state@.last()]
        } else {
            Seq::<SingleState>::empty()
        });
    }

    /// The rows of a bucket as owned values: each handle gives up its row if
    /// it is the only one to it, and a copy of the row otherwise.
    fn own(rs: Vec<Row>) -> (rows: Vec<Vec<DataType>>)
        ensures
            rows.deep_view() == rs.deep_view(),
    {
        let mut rows: Vec<Vec<DataType>> = Vec::with_capacity(rs.len());
        for r in it: rs.into_iter()
            invariant
                it.seq() == rs@,
                rows.len() == it.index(),
                forall|i: int| 0 <= i < rows.len() ==> (#[trigger] rows[i]).deep_view() == rs[i].deep_view(),
        {
            let row = match Rc::try_unwrap(r) {
                Ok(row) => row,
                Err(shared) => {
                    let values = shared.as_slice();
                    assert(values.deep_view() =~= shared.deep_view());
                    clone_row(values)
                },
            };
            rows.push(row);
        }
        assert(rows.deep_view() =~= rs.deep_view());
        rows
    }

    /// Takes the state apart: the buckets of its youngest index, each key's
    /// bucket once, with the rows as owned values.
    pub fn into_iter(self) -> (r: Vec<Vec<Vec<DataType>>>)
        requires
            self.wf(),
            self@.indices.len() > 0,
        ensures
            is_walk(r.deep_view(), self@.indices.last().map),
    {
        let ghost last = self.state@.last();
        assert(self@.indices.last() == last@);
        assert(last.wf());
        let mut this = self;
        this.unalias_for_state();
        let index = match this.state.pop() {
            Some(index) => index,
            None => vstd::pervasive::unreached(),
        };
        let buckets = index.state.into_values();
        let mut r: Vec<Vec<Vec<DataType>>> = Vec::with_capacity(buckets.len());
        for bucket in it: buckets.into_iter()
            invariant
                it.seq() == buckets@,
                r.len() == it.index(),
                forall|i: int| 0 <= i < r.len() ==> (#[trigger] r[i]).deep_view() == buckets[i].deep_view(),
        {
            r.push(State::own(bucket));
        }
        proof {
            assert(r.deep_view() =~= buckets.deep_view());
        }
        r
    }
}

} // verus!
