//! The mathematical model of a materialized state: what each index holds,
//! and what every operation of the state does to it.

use vstd::prelude::*;
use vstd::seq_lib::{
    to_multiset_build, to_multiset_contains, to_multiset_len, to_multiset_remove, to_multiset_update,
};
use crate::value::{Value, fits, project};

verus! {

/// A row or a key: the values of its columns in order.
pub type RowView = Seq<Value>;

/// A bucket with the row at position `i` taken out by moving the last row
/// into its place.
pub open spec fn swap_removed(s: Seq<RowView>, i: int) -> Seq<RowView> {
    s.update(i, s.last()).drop_last()
}

/// The position of the first row of `s` that equals `r`; the length of `s`
/// if there is none.
pub open spec fn first_at(s: Seq<RowView>, r: RowView) -> int
    decreases s.len(),
{
    if s.len() == 0 {
        0
    } else if s[0] == r {
        0
    } else {
        1 + first_at(s.drop_first(), r)
    }
}

/// Whether `buckets` are the buckets of `map`, one for each key, in the
/// order of the distinct keys `keys`.
pub open spec fn walks(
    keys: Seq<RowView>,
    buckets: Seq<Seq<RowView>>,
    map: Map<RowView, Seq<RowView>>,
) -> bool {
    &&& keys.no_duplicates()
    &&& keys.len() == buckets.len()
    &&& forall|k: RowView| keys.contains(k) <==> map.contains_key(k)
    &&& forall|i: int| 0 <= i < buckets.len() ==> #[trigger] buckets[i] == map[keys[i]]
}

/// Whether `buckets` are the buckets of `map`, each key's bucket once, in
/// some order of the keys.
pub open spec fn is_walk(buckets: Seq<Seq<RowView>>, map: Map<RowView, Seq<RowView>>) -> bool {
    exists|keys: Seq<RowView>| walks(keys, buckets, map)
}

/// Where a scan that met no equal row before position `i` finds the first
/// equal row.
pub proof fn lemma_first_at(s: Seq<RowView>, r: RowView, i: int)
    requires
        0 <= i <= s.len(),
        forall|j: int| 0 <= j < i ==> s[j] != r,
        i < s.len() ==> s[i] == r,
    ensures
        first_at(s, r) == i,
    decreases i,
{
    if i > 0 {
        let rest = s.drop_first();
        assert forall|j: int| 0 <= j < i - 1 implies rest[j] != r by {
            assert(rest[j] == s[j + 1]);
        }
        lemma_first_at(rest, r, i - 1);
    }
}

/// The first equal row is found at or before any equal row.
pub proof fn lemma_first_at_bound(s: Seq<RowView>, r: RowView, i: int)
    requires
        0 <= i < s.len(),
        s[i] == r,
    ensures
        0 <= first_at(s, r) <= i,
        s[first_at(s, r)] == r,
    decreases i,
{
    if s[0] != r {
        let rest = s.drop_first();
        assert(rest[i - 1] == s[i]);
        lemma_first_at_bound(rest, r, i - 1);
        assert(rest[first_at(rest, r)] == s[first_at(rest, r) + 1]);
    }
}

/// Taking the row at position `i` out of a bucket takes one occurrence of
/// that row out of what the bucket holds.
pub proof fn lemma_swap_removed(s: Seq<RowView>, i: int)
    requires
        0 <= i < s.len(),
    ensures
        swap_removed(s, i).to_multiset() == s.to_multiset().remove(s[i]),
{
    let last = s.len() - 1;
    let moved = s.update(i, s.last());
    to_multiset_update(s, i, s.last());
    assert(moved.drop_last() =~= moved.remove(last));
    to_multiset_remove(moved, last);
    to_multiset_contains(s, s[i]);
    to_multiset_contains(s, s.last());
    assert(s.contains(s[i]));
    assert(s.contains(s[last]));
    assert(swap_removed(s, i).to_multiset() =~= s.to_multiset().remove(s[i]));
}

/// What a lookup answers.
pub enum LookupView {
    /// The key is present (or the index is complete): these are its rows.
    Found(Seq<RowView>),
    /// The key is a hole of a partial index.
    Missing,
}

/// The model of one index of a state.
#[verifier::ext_equal]
pub struct IndexView {
    /// The key columns.
    pub key: Seq<usize>,
    /// Whether an absent key is a hole (unknown) rather than empty.
    pub partial: bool,
    /// The bucket of rows stored under each present key.
    pub map: Map<RowView, Seq<RowView>>,
}

impl IndexView {
    /// The invariant of an index: between one and six key columns, finitely
    /// many keys, each of the index's arity, and every row stored under the
    /// key that its own values give.
    pub open spec fn wf(self) -> bool {
        &&& 1 <= self.key.len() <= 6
        &&& self.map.dom().finite()
        &&& forall|k: RowView| #[trigger] self.map.contains_key(k) ==> k.len() == self.key.len()
        &&& forall|k: RowView, i: int|
            self.map.contains_key(k) && 0 <= i < self.map[k].len() ==> fits(
                #[trigger] self.map[k][i],
                self.key,
            ) && project(self.map[k][i], self.key) == k
    }

    /// The key of the row `r` in this index.
    pub open spec fn key_of(self, r: RowView) -> RowView {
        project(r, self.key)
    }

    /// Whether the index takes the row `r`: its key is present, or the index
    /// is complete and so has no holes.
    pub open spec fn accepts(self, r: RowView) -> bool {
        self.map.contains_key(self.key_of(r)) || !self.partial
    }

    /// The index after the row `r` was offered to it: appended to the bucket
    /// of its key, in a new bucket if the index is complete and the key was
    /// absent, and dropped if the key is a hole.
    pub open spec fn insert(self, r: RowView) -> IndexView {
        let k = self.key_of(r);
        if self.map.contains_key(k) {
            IndexView { map: self.map.insert(k, self.map[k].push(r)), ..self }
        } else if self.partial {
            self
        } else {
            IndexView { map: self.map.insert(k, seq![r]), ..self }
        }
    }

    /// Whether the index holds a bucket for the key of the row `r`.
    pub open spec fn reaches(self, r: RowView) -> bool {
        self.map.contains_key(self.key_of(r))
    }

    /// Whether the index holds the row `r`.
    pub open spec fn holds(self, r: RowView) -> bool {
        self.reaches(r) && self.map[self.key_of(r)].contains(r)
    }

    /// The index after one occurrence of the row `r`, the first of its
    /// bucket, was taken out.
    pub open spec fn remove(self, r: RowView) -> IndexView {
        let k = self.key_of(r);
        if self.holds(r) {
            IndexView {
                map: self.map.insert(k, swap_removed(self.map[k], first_at(self.map[k], r))),
                ..self
            }
        } else {
            self
        }
    }

    /// How often the index holds the row `r`.
    pub open spec fn count(self, r: RowView) -> nat {
        if fits(r, self.key) && self.reaches(r) {
            self.map[self.key_of(r)].to_multiset().count(r)
        } else {
            0
        }
    }

    /// What a lookup of the key `k` answers.
    pub open spec fn lookup(self, k: RowView) -> LookupView {
        if self.map.contains_key(k) {
            LookupView::Found(self.map[k])
        } else if self.partial {
            LookupView::Missing
        } else {
            LookupView::Found(Seq::empty())
        }
    }

    /// The index with the key `k` declared present and empty.
    pub open spec fn fill(self, k: RowView) -> IndexView {
        IndexView { map: self.map.insert(k, Seq::empty()), ..self }
    }

    /// The index with the key `k` evicted.
    pub open spec fn evict(self, k: RowView) -> IndexView {
        IndexView { map: self.map.remove(k), ..self }
    }

    /// The index with every key forgotten.
    pub open spec fn clear(self) -> IndexView {
        IndexView { map: Map::empty(), ..self }
    }

    /// Offering a row that has the key columns keeps an index well formed.
    pub proof fn lemma_insert_wf(self, r: RowView)
        requires
            self.wf(),
            fits(r, self.key),
        ensures
            self.insert(r).wf(),
    {
        let k = self.key_of(r);
        let after = self.insert(r);
        assert(k.len() == self.key.len());
        assert forall|q: RowView, i: int|
            after.map.contains_key(q) && 0 <= i < after.map[q].len() implies fits(
            #[trigger] after.map[q][i],
            after.key,
        ) && project(after.map[q][i], after.key) == q by {
            if q == k && after.map != self.map {
                if self.map.contains_key(k) {
                    if i < self.map[k].len() {
                        assert(after.map[q][i] == self.map[k][i]);
                    }
                }
            } else {
                assert(self.map.contains_key(q));
                assert(after.map[q][i] == self.map[q][i]);
            }
        }
    }

    /// Taking a row out keeps an index well formed.
    pub proof fn lemma_remove_wf(self, r: RowView)
        requires
            self.wf(),
        ensures
            self.remove(r).wf(),
    {
        let k = self.key_of(r);
        let after = self.remove(r);
        if self.holds(r) {
            let bucket = self.map[k];
            let at = first_at(bucket, r);
            let i0 = choose|i: int| 0 <= i < bucket.len() && bucket[i] == r;
            lemma_first_at_bound(bucket, r, i0);
            assert forall|q: RowView, i: int|
                after.map.contains_key(q) && 0 <= i < after.map[q].len() implies fits(
                #[trigger] after.map[q][i],
                after.key,
            ) && project(after.map[q][i], after.key) == q by {
                if q == k {
                    if i == at {
                        assert(after.map[q][i] == bucket[bucket.len() - 1]);
                    } else {
                        assert(after.map[q][i] == bucket[i]);
                    }
                } else {
                    assert(after.map[q][i] == self.map[q][i]);
                }
            }
        }
    }

    /// Taking a row out takes one occurrence of that row, if the index holds
    /// one, and of no other.
    pub proof fn lemma_remove_count(self, r: RowView, other: RowView)
        requires
            self.wf(),
        ensures
            self.remove(r).count(other) == if other == r && self.holds(r) {
                (self.count(other) - 1) as nat
            } else {
                self.count(other)
            },
    {
        let k = self.key_of(r);
        if self.holds(r) {
            let bucket = self.map[k];
            let i0 = choose|i: int| 0 <= i < bucket.len() && bucket[i] == r;
            lemma_first_at_bound(bucket, r, i0);
            lemma_swap_removed(bucket, first_at(bucket, r));
            assert(fits(bucket[i0], self.key));
            to_multiset_contains(bucket, r);
        }
    }

    /// How often the buckets of the keys in `keys` hold the row `r`.
    pub open spec fn count_within(self, keys: Seq<RowView>, r: RowView) -> nat {
        if fits(r, self.key) && keys.contains(self.key_of(r)) && self.reaches(r) {
            self.map[self.key_of(r)].to_multiset().count(r)
        } else {
            0
        }
    }

    /// A row is counted in an index exactly if the index holds it.
    pub proof fn lemma_count_holds(self, r: RowView)
        requires
            self.wf(),
        ensures
            self.count(r) > 0 <==> self.holds(r),
    {
        if self.reaches(r) {
            let bucket = self.map[self.key_of(r)];
            to_multiset_contains(bucket, r);
            if bucket.contains(r) {
                let i = choose|i: int| 0 <= i < bucket.len() && bucket[i] == r;
                assert(fits(bucket[i], self.key));
            }
        }
    }

    /// Walking one more key adds what the bucket of that key holds.
    pub proof fn lemma_count_within_step(self, keys: Seq<RowView>, j: int, r: RowView)
        requires
            self.wf(),
            keys.no_duplicates(),
            0 <= j < keys.len(),
            self.map.contains_key(keys[j]),
        ensures
            self.count_within(keys.take(j + 1), r) == self.count_within(keys.take(j), r)
                + self.map[keys[j]].to_multiset().count(r),
    {
        let p = self.key_of(r);
        let bucket = self.map[keys[j]];
        let shorter = keys.take(j);
        let longer = keys.take(j + 1);
        to_multiset_contains(bucket, r);
        assert(longer[j] == keys[j]);
        if fits(r, self.key) && p == keys[j] {
            if shorter.contains(p) {
                let i = choose|i: int| 0 <= i < shorter.len() && shorter[i] == p;
                assert(keys[i] == keys[j]);
            }
        } else {
            if bucket.contains(r) {
                let i = choose|i: int| 0 <= i < bucket.len() && bucket[i] == r;
                assert(fits(bucket[i], self.key));
            }
            if longer.contains(p) {
                let i = choose|i: int| 0 <= i < longer.len() && longer[i] == p;
                if i < j {
                    assert(shorter[i] == p);
                }
            }
            if shorter.contains(p) {
                let i = choose|i: int| 0 <= i < shorter.len() && shorter[i] == p;
                assert(longer[i] == p);
            }
        }
    }

    /// Offering a row to a complete index adds one occurrence of that row
    /// and of no other.
    pub proof fn lemma_insert_count(self, r: RowView, other: RowView)
        requires
            self.wf(),
            !self.partial,
            fits(r, self.key),
        ensures
            self.insert(r).count(other) == self.count(other) + if other == r {
                1nat
            } else {
                0nat
            },
    {
        let k = self.key_of(r);
        let after = self.insert(r);
        if fits(other, self.key) && self.key_of(other) == k {
            if self.map.contains_key(k) {
                to_multiset_build(self.map[k], r);
            } else {
                to_multiset_build(Seq::<RowView>::empty(), r);
                assert(Seq::<RowView>::empty().push(r) =~= seq![r]);
                to_multiset_len(Seq::<RowView>::empty());
                assert(Seq::<RowView>::empty().to_multiset().count(other) == 0);
            }
        } else if fits(other, self.key) {
            assert(other != r);
        }
    }
}

/// The model of a state: its indices in order of creation, the index that
/// each replay tag resolves to, and the row count.
#[verifier::ext_equal]
pub struct StateView {
    /// The indices, oldest first.
    pub indices: Seq<IndexView>,
    /// The position of the index that each known tag fills.
    pub by_tag: Map<u32, usize>,
    /// The row count that `len` reports.
    pub rows: usize,
}

impl StateView {
    /// The invariant of a state: every index is well formed, no two indices
    /// have the same key columns, and every tag resolves to an index.
    pub open spec fn wf(self) -> bool {
        &&& forall|i: int| 0 <= i < self.indices.len() ==> (#[trigger] self.indices[i]).wf()
        &&& forall|i: int, j: int|
            0 <= i < self.indices.len() && 0 <= j < self.indices.len() && i != j
                ==> (#[trigger] self.indices[i]).key != (#[trigger] self.indices[j]).key
        &&& forall|t: u32| #[trigger]
            self.by_tag.contains_key(t) ==> self.by_tag[t] < self.indices.len()
    }

    /// Whether an index with the key columns `cols` exists.
    pub open spec fn has_index(self, cols: Seq<usize>) -> bool {
        exists|i: int| 0 <= i < self.indices.len() && (#[trigger] self.indices[i]).key == cols
    }

    /// The position of the index with the key columns `cols`.
    pub open spec fn index_of(self, cols: Seq<usize>) -> int {
        choose|i: int| 0 <= i < self.indices.len() && (#[trigger] self.indices[i]).key == cols
    }

    /// Whether any index is partial.
    pub open spec fn is_partial(self) -> bool {
        exists|i: int| 0 <= i < self.indices.len() && (#[trigger] self.indices[i]).partial
    }

    /// Whether the state holds no row as far as its first index knows: it
    /// has no index, or the first index has no key.
    pub open spec fn is_empty(self) -> bool {
        self.indices.len() == 0 || self.indices[0].map.dom().len() == 0
    }

    /// Whether every key column of every index exists in the row `r`.
    pub open spec fn fits_all(self, r: RowView) -> bool {
        forall|i: int| 0 <= i < self.indices.len() ==> fits(r, (#[trigger] self.indices[i]).key)
    }

    /// Whether the row `r` may be inserted under `tag`: it has every key
    /// column of each index that the insertion touches.
    pub open spec fn admits(self, r: RowView, tag: Option<u32>) -> bool {
        match tag {
            Some(t) => self.by_tag.contains_key(t) ==> fits(
                r,
                self.indices[self.by_tag[t] as int].key,
            ),
            None => self.fits_all(r),
        }
    }

    /// The state after `insert(r, tag)`.
    pub open spec fn insert(self, r: RowView, tag: Option<u32>) -> StateView {
        match tag {
            Some(t) => if self.by_tag.contains_key(t) {
                let i = self.by_tag[t] as int;
                StateView { indices: self.indices.update(i, self.indices[i].insert(r)), ..self }
            } else {
                self
            },
            None => StateView {
                indices: Seq::new(self.indices.len(), |i: int| self.indices[i].insert(r)),
                rows: if self.rows == usize::MAX {
                    self.rows
                } else {
                    (self.rows + 1) as usize
                },
                ..self
            },
        }
    }

    /// What `insert(r, tag)` returns: for an unknown tag `true`; for a known
    /// tag whether its index took the row; without a tag whether any index
    /// took it.
    pub open spec fn insert_hit(self, r: RowView, tag: Option<u32>) -> bool {
        match tag {
            Some(t) => if self.by_tag.contains_key(t) {
                self.indices[self.by_tag[t] as int].accepts(r)
            } else {
                true
            },
            None => exists|i: int|
                0 <= i < self.indices.len() && (#[trigger] self.indices[i]).accepts(r),
        }
    }

    /// Whether some index holds a bucket for the key of the row `r`.
    pub open spec fn reaches(self, r: RowView) -> bool {
        exists|i: int| 0 <= i < self.indices.len() && (#[trigger] self.indices[i]).reaches(r)
    }

    /// Whether some index holds the row `r`.
    pub open spec fn holds(self, r: RowView) -> bool {
        exists|i: int| 0 <= i < self.indices.len() && (#[trigger] self.indices[i]).holds(r)
    }

    /// The state after `remove(r)`.
    pub open spec fn remove(self, r: RowView) -> StateView {
        StateView {
            indices: Seq::new(self.indices.len(), |i: int| self.indices[i].remove(r)),
            rows: if self.holds(r) && self.rows > 0 {
                (self.rows - 1) as usize
            } else {
                self.rows
            },
            ..self
        }
    }

    /// The state after `mark_filled(k, tag)`.
    pub open spec fn mark_filled(self, k: RowView, tag: u32) -> StateView {
        let i = self.by_tag[tag] as int;
        StateView { indices: self.indices.update(i, self.indices[i].fill(k)), ..self }
    }

    /// The state after `mark_hole(k, tag)`.
    pub open spec fn mark_hole(self, k: RowView, tag: u32) -> StateView {
        let i = self.by_tag[tag] as int;
        StateView { indices: self.indices.update(i, self.indices[i].evict(k)), ..self }
    }

    /// What `lookup(cols, k)` answers.
    pub open spec fn lookup(self, cols: Seq<usize>, k: RowView) -> LookupView {
        self.indices[self.index_of(cols)].lookup(k)
    }

    /// The state after `clear()`.
    pub open spec fn clear(self) -> StateView {
        StateView {
            indices: Seq::new(self.indices.len(), |i: int| self.indices[i].clear()),
            rows: 0,
            ..self
        }
    }

    /// Whether `i` is the position of the oldest index with a single key
    /// column.
    pub open spec fn is_first_single(self, i: int) -> bool {
        &&& 0 <= i < self.indices.len()
        &&& self.indices[i].key.len() == 1
        &&& forall|j: int| 0 <= j < i ==> (#[trigger] self.indices[j]).key.len() != 1
    }

    /// Whether `after` is what `add_key(cols, tags)` may leave of this
    /// state.
    ///
    /// Each tag resolves to the index on `cols`. Where that index existed,
    /// nothing else changes. Otherwise it is appended: partial if tags were
    /// given; empty if it is partial or the state was empty; and else
    /// holding every row that the first index holds, as often as the first
    /// index holds it, with no empty bucket.
    pub open spec fn key_added(self, after: StateView, cols: Seq<usize>, tags: Option<Seq<u32>>) -> bool {
        let n = self.indices.len() as int;
        let given = match tags {
            Some(t) => t,
            None => Seq::empty(),
        };
        &&& after.rows == self.rows
        &&& if self.has_index(cols) {
            &&& after.indices == self.indices
            &&& after.by_tag == self.tagged(given, self.index_of(cols) as usize)
        } else {
            &&& n <= usize::MAX
            &&& after.by_tag == self.tagged(given, n as usize)
            &&& after.indices.len() == n + 1
            &&& after.indices.take(n) == self.indices
            &&& after.indices[n].key == cols
            &&& after.indices[n].partial == tags.is_some()
            &&& if tags.is_some() || self.is_empty() {
                after.indices[n].map == Map::<RowView, Seq<RowView>>::empty()
            } else {
                &&& forall|r: RowView| #[trigger]
                    after.indices[n].count(r) == self.indices[0].count(r)
                &&& forall|k: RowView| #[trigger]
                    after.indices[n].map.contains_key(k) ==> after.indices[n].map[k].len() > 0
            }
        }
    }

    /// Whether `add_key(cols, tags)` must walk the first index to fill the
    /// new one.
    pub open spec fn backfills(self, cols: Seq<usize>, tags: Option<Seq<u32>>) -> bool {
        !self.has_index(cols) && tags.is_none() && !self.is_empty()
    }

    /// Whether every row that the index holds has the columns `cols`.
    pub open spec fn rows_fit(self, i: int, cols: Seq<usize>) -> bool {
        forall|k: RowView, m: int|
            self.indices[i].map.contains_key(k) && 0 <= m < self.indices[i].map[k].len() ==> fits(
                #[trigger] self.indices[i].map[k][m],
                cols,
            )
    }

    /// The tag map after each tag of `tags` was pointed at the index `i`.
    pub open spec fn tagged(self, tags: Seq<u32>, i: usize) -> Map<u32, usize> {
        Map::new(
            |t: u32| self.by_tag.contains_key(t) || tags.contains(t),
            |t: u32| if tags.contains(t) { i } else { self.by_tag[t] },
        )
    }
}

} // verus!
