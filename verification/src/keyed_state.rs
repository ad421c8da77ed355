//! One index of a materialized state: a map from a key of fixed arity to the
//! bucket of rows stored under that key.

use std::collections::HashMap;
use std::rc::Rc;
use vstd::prelude::*;
use crate::hash::{HASH_OFFSET, HASH_PRIME, hash_key, hash_value, key_hash};
use crate::model::{is_walk, walks};
use crate::value::{DataType, Value, row_eq};

verus! {

broadcast use vstd::std_specs::hash::group_hash_axioms;

/// A shared, immutable row. Every index of a state that holds the row holds
/// a handle to the same allocation.
pub type Row = Rc<Vec<DataType>>;

/// `Rc::clone` on a row handle: a second handle to the same allocation. The
/// row is not copied, so the new handle holds exactly what the given one
/// holds.
#[verifier::external_body]
pub(crate) fn share_row(r: &Row) -> (s: Row)
    ensures
        s == *r,
{
    Rc::clone(r)
}

/// A lookup key of one of the six supported arities.
pub enum KeyType<'a> {
    Single(&'a DataType),
    Double((DataType, DataType)),
    Tri((DataType, DataType, DataType)),
    Quad((DataType, DataType, DataType, DataType)),
    Quin((DataType, DataType, DataType, DataType, DataType)),
    Sex((DataType, DataType, DataType, DataType, DataType, DataType)),
}

impl<'a> View for KeyType<'a> {
    type V = Seq<Value>;

    /// The key as the sequence of its values.
    open spec fn view(&self) -> Seq<Value> {
        match self {
            KeyType::Single(a) => seq![a@],
            KeyType::Double(k) => seq![k.0@, k.1@],
            KeyType::Tri(k) => seq![k.0@, k.1@, k.2@],
            KeyType::Quad(k) => seq![k.0@, k.1@, k.2@, k.3@],
            KeyType::Quin(k) => seq![k.0@, k.1@, k.2@, k.3@, k.4@],
            KeyType::Sex(k) => seq![k.0@, k.1@, k.2@, k.3@, k.4@, k.5@],
        }
    }
}

impl<'a> KeyType<'a> {
    /// The number of values in the key.
    pub fn len(&self) -> (n: usize)
        ensures
            n == self@.len(),
            1 <= n <= 6,
    {
        match self {
            KeyType::Single(_) => 1,
            KeyType::Double(_) => 2,
            KeyType::Tri(_) => 3,
            KeyType::Quad(_) => 4,
            KeyType::Quin(_) => 5,
            KeyType::Sex(_) => 6,
        }
    }

    /// The value at position `i` of the key.
    pub fn get(&self, i: usize) -> (v: &DataType)
        requires
            i < self@.len(),
        ensures
            v@ == self@[i as int],
    {
        match self {
            KeyType::Single(a) => a,
            KeyType::Double(k) => if i == 0 { &k.0 } else { &k.1 },
            KeyType::Tri(k) => if i == 0 { &k.0 } else if i == 1 { &k.1 } else { &k.2 },
            KeyType::Quad(k) => if i == 0 { &k.0 } else if i == 1 { &k.1 } else if i == 2 { &k.2 } else { &k.3 },
            KeyType::Quin(k) => if i == 0 { &k.0 } else if i == 1 { &k.1 } else if i == 2 { &k.2 } else if i == 3 { &k.3 } else { &k.4 },
            KeyType::Sex(k) => if i == 0 { &k.0 } else if i == 1 { &k.1 } else if i == 2 { &k.2 } else if i == 3 { &k.3 } else if i == 4 { &k.4 } else { &k.5 },
        }
    }

    /// The hash of the key.
    pub fn hash(&self) -> (h: u64)
        ensures
            h == key_hash(self@),
    {
        let n = self.len();
        let mut h: u64 = HASH_OFFSET;
        let mut i: usize = 0;
        assert(self@.take(0) =~= Seq::<Value>::empty());
        while i < n
            invariant
                i <= n,
                n == self@.len(),
                h == key_hash(self@.take(i as int)),
            decreases n - i,
        {
            proof {
                let longer = self@.take(i + 1);
                assert(longer.drop_last() =~= self@.take(i as int));
                assert(longer.last() == self@[i as int]);
            }
            h = (h ^ hash_value(self.get(i))).wrapping_mul(HASH_PRIME);
            i += 1;
        }
        assert(self@.take(i as int) =~= self@);
        h
    }

    /// Whether the stored key `key` holds the same values as this key.
    pub fn matches(&self, key: &[DataType]) -> (b: bool)
        ensures
            b == (key.deep_view() == self@),
    {
        let n = self.len();
        if key.len() != n {
            assert(key.deep_view().len() != self@.len());
            return false;
        }
        let mut i: usize = 0;
        while i < n
            invariant
                i <= n,
                n == self@.len(),
                key.len() == n,
                forall|j: int| 0 <= j < i ==> key[j]@ == self@[j],
            decreases n - i,
        {
            if !(key[i] == *self.get(i)) {
                assert(key.deep_view()[i as int] != self@[i as int]);
                return false;
            }
            i += 1;
        }
        assert(key.deep_view() =~= self@);
        true
    }
}

/// One key of an index together with the rows stored under it.
struct Bucket {
    key: Vec<DataType>,
    rows: Vec<Row>,
}

/// A hash map from keys of one fixed arity to buckets of rows. The order of
/// the rows inside a bucket is the order in which they were added; the keys
/// themselves are unordered.
///
/// The buckets stand in a vector; a table from the hash of a key to the
/// positions of the buckets whose keys have that hash finds the bucket of a
/// key without a walk through all of them.
pub struct KeyedState {
    arity: usize,
    buckets: Vec<Bucket>,
    index: HashMap<u64, Vec<usize>>,
}

/// The position `q` after the bucket at `from` has moved to `to`.
spec fn moved_to(q: usize, from: usize, to: usize) -> usize {
    if q == from {
        to
    } else {
        q
    }
}

/// Whether `x` is the new position of a bucket, other than the one at
/// `gone`, whose position the chain `chain` holds.
spec fn rechained(chain: Seq<usize>, x: usize, gone: usize, from: usize) -> bool {
    exists|d: int|
        0 <= d < chain.len() && (#[trigger] chain[d]) != gone && x == moved_to(chain[d], from, gone)
}

/// The chain `chain` after the bucket at `gone` was taken out and the bucket
/// at `from` has moved into its place.
fn rechain(chain: &Vec<usize>, gone: usize, from: usize) -> (r: Vec<usize>)
    ensures
        forall|c: int| 0 <= c < r.len() ==> rechained(chain@, #[trigger] r[c], gone, from),
        forall|d: int|
            0 <= d < chain.len() && (#[trigger] chain[d]) != gone ==> r@.contains(
                moved_to(chain[d], from, gone),
            ),
{
    let mut r: Vec<usize> = Vec::with_capacity(chain.len());
    let ghost mut source: Seq<int> = Seq::empty();
    let mut d: usize = 0;
    while d < chain.len()
        invariant
            d <= chain.len(),
            source.len() == r.len(),
            forall|c: int|
                0 <= c < r.len() ==> 0 <= (#[trigger] source[c]) < d && chain[source[c]] != gone && r[c]
                    == moved_to(chain[source[c]], from, gone),
            forall|e: int|
                0 <= e < d && (#[trigger] chain[e]) != gone ==> r@.contains(
                    moved_to(chain[e], from, gone),
                ),
        decreases chain.len() - d,
    {
        let q = chain[d];
        if q != gone {
            let ghost before = r@;
            r.push(if q == from { gone } else { q });
            proof {
                source = source.push(d as int);
                assert(r[r.len() - 1] == moved_to(chain[d as int], from, gone));
                assert forall|e: int| 0 <= e <= d && (#[trigger] chain[e]) != gone implies r@.contains(
                    moved_to(chain[e], from, gone),
                ) by {
                    if e < d {
                        let c = choose|c: int|
                            0 <= c < before.len() && before[c] == moved_to(chain[e], from, gone);
                        assert(r[c] == moved_to(chain[e], from, gone));
                    }
                }
            }
        }
        d += 1;
    }
    proof {
        assert forall|c: int| 0 <= c < r.len() implies rechained(
            chain@,
            #[trigger] r[c],
            gone,
            from,
        ) by {
            let e = source[c];
            assert(chain[e] != gone && r[c] == moved_to(chain[e], from, gone));
        }
    }
    r
}

impl View for KeyedState {
    type V = Map<Seq<Value>, Seq<Seq<Value>>>;

    /// The map from each key to the rows of its bucket.
    closed spec fn view(&self) -> Map<Seq<Value>, Seq<Seq<Value>>> {
        Map::new(|k: Seq<Value>| self.has(k), |k: Seq<Value>| self.rows_at(self.slot(k)))
    }
}

impl KeyedState {
    spec fn key_at(&self, i: int) -> Seq<Value> {
        self.buckets[i].key.deep_view()
    }

    spec fn rows_at(&self, i: int) -> Seq<Seq<Value>> {
        self.buckets[i].rows.deep_view()
    }

    spec fn has(&self, k: Seq<Value>) -> bool {
        exists|i: int| 0 <= i < self.buckets.len() && self.key_at(i) == k
    }

    spec fn slot(&self, k: Seq<Value>) -> int {
        choose|i: int| 0 <= i < self.buckets.len() && self.key_at(i) == k
    }

    /// The number of values in each key of this index.
    pub closed spec fn arity(&self) -> nat {
        self.arity as nat
    }

    /// The hash table holds the positions of buckets whose keys have the
    /// hash that they stand under, and the position of every bucket.
    spec fn indexed(&self) -> bool {
        &&& forall|h: u64, c: int|
            self.index@.contains_key(h) && 0 <= c < self.index@[h]@.len() ==> (
            #[trigger] self.index@[h]@[c]) < self.buckets.len() && key_hash(
                self.key_at(self.index@[h]@[c] as int),
            ) == h
        &&& forall|p: int|
            0 <= p < self.buckets.len() ==> self.index@.contains_key(
                key_hash(#[trigger] self.key_at(p)),
            ) && self.index@[key_hash(self.key_at(p))]@.contains(p as usize)
    }

    /// The representation invariant: the arity is one of the six supported
    /// ones, every key has that arity, no key occurs twice, and the hash
    /// table finds every key.
    pub closed spec fn wf(&self) -> bool {
        self.shape() && self.indexed()
    }

    spec fn shape(&self) -> bool {
        &&& 1 <= self.arity <= 6
        &&& forall|i: int| 0 <= i < self.buckets.len() ==> (#[trigger] self.key_at(i)).len() == self.arity
        &&& forall|i: int, j: int|
            0 <= i < self.buckets.len() && 0 <= j < self.buckets.len() && i != j
                ==> self.key_at(i) != self.key_at(j)
    }

    proof fn lemma_slot(&self, i: int)
        requires
            self.shape(),
            0 <= i < self.buckets.len(),
        ensures
            self.has(self.key_at(i)),
            self.slot(self.key_at(i)) == i,
            self@.contains_key(self.key_at(i)),
            self@[self.key_at(i)] == self.rows_at(i),
    {
    }

    /// Every key of a well-formed index has the index's arity, and the keys
    /// are finitely many.
    pub proof fn lemma_keys(&self)
        requires
            self.wf(),
        ensures
            1 <= self.arity() <= 6,
            self@.dom().finite(),
            forall|k: Seq<Value>| self@.contains_key(k) ==> k.len() == self.arity(),
    {
        self.lemma_count();
    }

    proof fn lemma_count(&self)
        requires
            self.shape(),
        ensures
            self@.dom().finite(),
            self@.dom().len() == self.buckets.len(),
    {
        let keys = Seq::new(self.buckets.len() as nat, |i: int| self.key_at(i));
        assert(keys.no_duplicates());
        keys.unique_seq_to_set();
        assert(keys.to_set() =~= self@.dom()) by {
            assert forall|k: Seq<Value>| keys.to_set().contains(k) == self@.dom().contains(k) by {
                if keys.to_set().contains(k) {
                    let i = choose|i: int| 0 <= i < keys.len() && keys[i] == k;
                    assert(self.key_at(i) == k);
                }
                if self@.dom().contains(k) {
                    let i = self.slot(k);
                    assert(keys[i] == k);
                }
            }
        }
    }

    /// An empty index for keys of `arity` values.
    pub fn new(arity: usize) -> (s: KeyedState)
        requires
            1 <= arity <= 6,
        ensures
            s.wf(),
            s.arity() == arity,
            s@ == Map::<Seq<Value>, Seq<Seq<Value>>>::empty(),
    {
        let s = KeyedState { arity, buckets: Vec::new(), index: HashMap::new() };
        assert(s@ =~= Map::<Seq<Value>, Seq<Seq<Value>>>::empty());
        s
    }

    /// The number of values in each key of this index.
    pub fn key_len(&self) -> (n: usize)
        ensures
            n == self.arity(),
    {
        self.arity
    }

    /// The number of keys.
    pub fn len(&self) -> (n: usize)
        requires
            self.wf(),
        ensures
            n == self@.dom().len(),
    {
        proof {
            self.lemma_count();
        }
        self.buckets.len()
    }

    /// Whether the index holds no key.
    pub fn is_empty(&self) -> (b: bool)
        requires
            self.wf(),
        ensures
            b == (self@.dom().len() == 0),
            b == (self@ == Map::<Seq<Value>, Seq<Seq<Value>>>::empty()),
    {
        proof {
            self.lemma_count();
            if self.buckets.len() == 0 {
                assert(self@ =~= Map::<Seq<Value>, Seq<Seq<Value>>>::empty());
            } else {
                self.lemma_slot(0);
            }
        }
        self.buckets.len() == 0
    }

    /// Forgets every key and every row.
    pub fn clear(&mut self)
        requires
            old(self).wf(),
        ensures
            final(self).wf(),
            final(self).arity() == old(self).arity(),
            final(self)@ == Map::<Seq<Value>, Seq<Seq<Value>>>::empty(),
    {
        self.buckets.clear();
        self.index.clear();
        assert(self@ =~= Map::<Seq<Value>, Seq<Seq<Value>>>::empty());
    }

    /// A key that the chain of its hash does not hold is not in the index.
    proof fn lemma_not_chained(&self, k: Seq<Value>)
        requires
            self.wf(),
            self.index@.contains_key(key_hash(k)) ==> forall|c: int|
                0 <= c < self.index@[key_hash(k)]@.len() ==> self.key_at(
                    (#[trigger] self.index@[key_hash(k)]@[c]) as int,
                ) != k,
        ensures
            !self.has(k),
    {
        if self.has(k) {
            let p = self.slot(k);
            assert(self.key_at(p) == k);
            let chain = self.index@[key_hash(k)]@;
            let c = choose|c: int| 0 <= c < chain.len() && chain[c] == p as usize;
            assert(self.key_at(chain[c] as int) == k);
        }
    }

    /// The position of the bucket whose key is `key`.
    fn position(&self, key: &[DataType]) -> (p: Option<usize>)
        requires
            self.wf(),
        ensures
            match p {
                Some(i) => i < self.buckets.len() && self.key_at(i as int) == key.deep_view(),
                None => !self.has(key.deep_view()),
            },
    {
        let h = hash_key(key);
        let chain = match self.index.get(&h) {
            Some(chain) => chain,
            None => {
                proof {
                    self.lemma_not_chained(key.deep_view());
                }
                return None;
            },
        };
        let mut c: usize = 0;
        while c < chain.len()
            invariant
                self.wf(),
                h == key_hash(key.deep_view()),
                self.index@.contains_key(h),
                self.index@[h] == chain,
                c <= chain.len(),
                forall|d: int| 0 <= d < c ==> self.key_at((#[trigger] chain[d]) as int) != key.deep_view(),
            decreases chain.len() - c,
        {
            let i = chain[c];
            assert(self.index@[h]@[c as int] == i);
            let stored = self.buckets[i].key.as_slice();
            assert(stored.deep_view() =~= self.key_at(i as int));
            if row_eq(stored, key) {
                return Some(i);
            }
            c += 1;
        }
        proof {
            self.lemma_not_chained(key.deep_view());
        }
        None
    }

    /// The position of the bucket whose key is the lookup key `key`.
    fn position_of(&self, key: &KeyType) -> (p: Option<usize>)
        requires
            self.wf(),
        ensures
            match p {
                Some(i) => i < self.buckets.len() && self.key_at(i as int) == key@,
                None => !self.has(key@),
            },
    {
        let h = key.hash();
        let chain = match self.index.get(&h) {
            Some(chain) => chain,
            None => {
                proof {
                    self.lemma_not_chained(key@);
                }
                return None;
            },
        };
        let mut c: usize = 0;
        while c < chain.len()
            invariant
                self.wf(),
                h == key_hash(key@),
                self.index@.contains_key(h),
                self.index@[h] == chain,
                c <= chain.len(),
                forall|d: int| 0 <= d < c ==> self.key_at((#[trigger] chain[d]) as int) != key@,
            decreases chain.len() - c,
        {
            let i = chain[c];
            assert(self.index@[h]@[c as int] == i);
            let stored = self.buckets[i].key.as_slice();
            assert(stored.deep_view() =~= self.key_at(i as int));
            if key.matches(stored) {
                return Some(i);
            }
            c += 1;
        }
        proof {
            self.lemma_not_chained(key@);
        }
        None
    }

    /// The bucket stored under `key`, if the index holds that key.
    pub fn lookup(&self, key: &KeyType) -> (r: Option<&Vec<Row>>)
        requires
            self.wf(),
        ensures
            match r {
                Some(rows) => self@.contains_key(key@) && rows.deep_view() == self@[key@],
                None => !self@.contains_key(key@),
            },
    {
        match self.position_of(key) {
            Some(i) => {
                proof {
                    self.lemma_slot(i as int);
                }
                Some(&self.buckets[i].rows)
            },
            None => None,
        }
    }

    /// The bucket stored under `key`, if the index holds that key.
    pub fn get(&self, key: &[DataType]) -> (r: Option<&Vec<Row>>)
        requires
            self.wf(),
        ensures
            match r {
                Some(rows) => self@.contains_key(key.deep_view()) && rows.deep_view() == self@[key.deep_view()],
                None => !self@.contains_key(key.deep_view()),
            },
    {
        match self.position(key) {
            Some(i) => {
                proof {
                    self.lemma_slot(i as int);
                }
                Some(&self.buckets[i].rows)
            },
            None => None,
        }
    }

    /// The view after the rows of the bucket at position `i` were replaced.
    proof fn lemma_rows_replaced(&self, prior: &KeyedState, i: int)
        requires
            prior.wf(),
            0 <= i < prior.buckets.len(),
            self.arity == prior.arity,
            self.index == prior.index,
            self.buckets.len() == prior.buckets.len(),
            forall|j: int| 0 <= j < prior.buckets.len() ==> self.key_at(j) == prior.key_at(j),
            forall|j: int| 0 <= j < prior.buckets.len() && j != i ==> self.rows_at(j) == prior.rows_at(j),
        ensures
            self.wf(),
            self@ == prior@.insert(prior.key_at(i), self.rows_at(i)),
    {
        let k = prior.key_at(i);
        assert(self.shape());
        assert(self.indexed()) by {
            assert forall|p: int| 0 <= p < self.buckets.len() implies self.index@.contains_key(
                key_hash(#[trigger] self.key_at(p)),
            ) && self.index@[key_hash(self.key_at(p))]@.contains(p as usize) by {
                assert(self.key_at(p) == prior.key_at(p));
            }
        }
        assert forall|q: Seq<Value>| self.has(q) == prior.has(q) by {
            if self.has(q) {
                let j = self.slot(q);
                assert(prior.key_at(j) == q);
            }
            if prior.has(q) {
                let j = prior.slot(q);
                assert(self.key_at(j) == q);
            }
        }
        assert forall|q: Seq<Value>| self.has(q) implies self@[q] == prior@.insert(k, self.rows_at(i))[q] by {
            let j = self.slot(q);
            self.lemma_slot(j);
            prior.lemma_slot(j);
        }
        prior.lemma_slot(i);
        assert(self@ =~= prior@.insert(k, self.rows_at(i)));
    }

    /// The bucket stored under `key`, for changing it in place.
    pub fn get_mut(&mut self, key: &[DataType]) -> (r: Option<&mut Vec<Row>>)
        requires
            old(self).wf(),
        ensures
            match r {
                Some(rows) => {
                    &&& old(self)@.contains_key(key.deep_view())
                    &&& rows.deep_view() == old(self)@[key.deep_view()]
                    &&& final(self).wf()
                    &&& final(self).arity() == old(self).arity()
                    &&& final(self)@ == old(self)@.insert(key.deep_view(), final(rows).deep_view())
                },
                None => !old(self)@.contains_key(key.deep_view()) && *final(self) == *old(self),
            },
    {
        match self.position(key) {
            Some(i) => {
                proof {
                    self.lemma_slot(i as int);
                }
                let ghost prior = *self;
                let ghost after = *final(self);
                let bucket = &mut self.buckets[i];
                let rows = &mut bucket.rows;
                proof {
                    after.lemma_rows_replaced(&prior, i as int);
                }
                Some(rows)
            },
            None => None,
        }
    }

    /// Stores `rows` under `key`, in place of the bucket that was stored
    /// there, if any; that earlier bucket is returned.
    pub fn insert(&mut self, key: Vec<DataType>, rows: Vec<Row>) -> (prior: Option<Vec<Row>>)
        requires
            old(self).wf(),
            key.deep_view().len() == old(self).arity(),
        ensures
            final(self).wf(),
            final(self).arity() == old(self).arity(),
            final(self)@ == old(self)@.insert(key.deep_view(), rows.deep_view()),
            match prior {
                Some(b) => old(self)@.contains_key(key.deep_view()) && b.deep_view() == old(
                    self,
                )@[key.deep_view()],
                None => !old(self)@.contains_key(key.deep_view()),
            },
    {
        let ghost before = *self;
        let ghost k = key.deep_view();
        let found = self.position(key.as_slice());
        match found {
            Some(i) => {
                proof {
                    self.lemma_slot(i as int);
                }
                let mut rows = rows;
                std::mem::swap(&mut self.buckets[i].rows, &mut rows);
                proof {
                    self.lemma_rows_replaced(&before, i as int);
                }
                Some(rows)
            },
            None => {
                let h = hash_key(key.as_slice());
                let at = self.buckets.len();
                self.buckets.push(Bucket { key, rows });
                let mut chain = match self.index.remove(&h) {
                    Some(chain) => chain,
                    None => Vec::new(),
                };
                let ghost earlier = chain@;
                chain.push(at);
                self.index.insert(h, chain);
                proof {
                    let n = before.buckets.len() as int;
                    assert(self.key_at(n) == k);
                    assert forall|j: int| 0 <= j < n implies self.key_at(j) == before.key_at(j)
                        && self.rows_at(j) == before.rows_at(j) by {}
                    assert forall|j: int| 0 <= j <= n implies (#[trigger] self.key_at(j)).len()
                        == self.arity by {
                        if j < n {
                            assert(before.key_at(j).len() == before.arity);
                        }
                    }
                    assert forall|a: int, b: int| 0 <= a <= n && 0 <= b <= n && a != b implies self.key_at(
                        a,
                    ) != self.key_at(b) by {
                        if a < n && b < n {
                            assert(before.key_at(a) != before.key_at(b));
                        } else if a < n {
                            assert(before.key_at(a) != k);
                        } else {
                            assert(before.key_at(b) != k);
                        }
                    }
                    assert(self.shape());
                    assert(before.index@.contains_key(h) ==> earlier == before.index@[h]@);
                    assert(!before.index@.contains_key(h) ==> earlier.len() == 0);
                    assert forall|g: u64, c: int|
                        self.index@.contains_key(g) && 0 <= c < self.index@[g]@.len() implies (
                    #[trigger] self.index@[g]@[c]) < self.buckets.len() && key_hash(
                        self.key_at(self.index@[g]@[c] as int),
                    ) == g by {
                        if g == h {
                            if c < earlier.len() {
                                assert(self.index@[g]@[c] == before.index@[g]@[c]);
                                assert(self.key_at(before.index@[g]@[c] as int) == before.key_at(
                                    before.index@[g]@[c] as int,
                                ));
                            }
                        } else {
                            assert(self.index@[g] == before.index@[g]);
                            assert(self.key_at(before.index@[g]@[c] as int) == before.key_at(
                                before.index@[g]@[c] as int,
                            ));
                        }
                    }
                    assert forall|p: int| 0 <= p < self.buckets.len() implies self.index@.contains_key(
                        key_hash(#[trigger] self.key_at(p)),
                    ) && self.index@[key_hash(self.key_at(p))]@.contains(p as usize) by {
                        let g = key_hash(self.key_at(p));
                        if p < n {
                            assert(self.key_at(p) == before.key_at(p));
                            assert(before.index@[g]@.contains(p as usize));
                            if g == h {
                                let c = choose|c: int|
                                    0 <= c < earlier.len() && earlier[c] == p as usize;
                                assert(self.index@[g]@[c] == p as usize);
                            }
                        } else {
                            assert(self.index@[h]@[earlier.len() as int] == p as usize);
                        }
                    }
                    assert(self.wf());
                    assert forall|q: Seq<Value>| self.has(q) == (before.has(q) || q == k) by {
                        if self.has(q) {
                            let j = self.slot(q);
                            if j < n {
                                assert(before.key_at(j) == q);
                            }
                        }
                        if before.has(q) {
                            let j = before.slot(q);
                            assert(self.key_at(j) == q);
                        }
                    }
                    assert forall|q: Seq<Value>| self.has(q) implies self@[q] == before@.insert(
                        k,
                        rows.deep_view(),
                    )[q] by {
                        let j = self.slot(q);
                        self.lemma_slot(j);
                        if j < n {
                            before.lemma_slot(j);
                        }
                    }
                    assert(self@ =~= before@.insert(k, rows.deep_view()));
                }
                None
            },
        }
    }

    /// Forgets `key` and returns the bucket that was stored under it, if any.
    pub fn remove(&mut self, key: &[DataType]) -> (prior: Option<Vec<Row>>)
        requires
            old(self).wf(),
        ensures
            final(self).wf(),
            final(self).arity() == old(self).arity(),
            final(self)@ == old(self)@.remove(key.deep_view()),
            match prior {
                Some(b) => old(self)@.contains_key(key.deep_view()) && b.deep_view() == old(
                    self,
                )@[key.deep_view()],
                None => !old(self)@.contains_key(key.deep_view()),
            },
    {
        let ghost before = *self;
        let ghost k = key.deep_view();
        let found = self.position(key);
        match found {
            Some(i) => {
                proof {
                    self.lemma_slot(i as int);
                }
                let last = self.buckets.len() - 1;
                let h_gone = hash_key(key);
                let stored = self.buckets[last].key.as_slice();
                assert(stored.deep_view() =~= self.key_at(last as int));
                let h_last = hash_key(stored);
                let bucket = self.buckets.swap_remove(i);
                let ghost mut first: Seq<usize> = Seq::empty();
                let ghost mut second: Seq<usize> = Seq::empty();
                if let Some(chain) = self.index.remove(&h_gone) {
                    let chain = rechain(&chain, i, last);
                    proof {
                        first = chain@;
                    }
                    if chain.len() > 0 {
                        self.index.insert(h_gone, chain);
                    }
                }
                let ghost halfway = self.index@;
                if h_last != h_gone {
                    if let Some(chain) = self.index.remove(&h_last) {
                        let chain = rechain(&chain, i, last);
                        proof {
                            second = chain@;
                        }
                        self.index.insert(h_last, chain);
                    }
                }
                proof {
                    let n = before.buckets.len() as int;
                    let moved = |j: int| if j == i { n - 1 } else { j };
                    assert forall|j: int| 0 <= j < n - 1 implies self.key_at(j) == before.key_at(
                        moved(j),
                    ) && self.rows_at(j) == before.rows_at(moved(j)) by {}
                    assert forall|j: int| 0 <= j < n - 1 implies (#[trigger] self.key_at(j)).len()
                        == self.arity by {
                        assert(before.key_at(moved(j)).len() == before.arity);
                    }
                    assert forall|a: int, b: int| 0 <= a < n - 1 && 0 <= b < n - 1 && a != b implies self.key_at(
                        a,
                    ) != self.key_at(b) by {
                        assert(before.key_at(moved(a)) != before.key_at(moved(b)));
                    }
                    assert(self.shape());
                    let m0 = before.index@;
                    before.lemma_slot(i as int);
                    before.lemma_slot(last as int);
                    assert(key_hash(before.key_at(i as int)) == h_gone);
                    assert(key_hash(before.key_at(last as int)) == h_last);
                    assert(m0.contains_key(h_gone) && m0[h_gone]@.contains(i));
                    assert(m0.contains_key(h_last) && m0[h_last]@.contains(last));
                    assert forall|x: usize| first.contains(x) implies rechained(
                        m0[h_gone]@,
                        x,
                        i,
                        last,
                    ) by {
                        let c = choose|c: int| 0 <= c < first.len() && first[c] == x;
                        assert(rechained(m0[h_gone]@, first[c], i, last));
                    }
                    assert forall|x: usize| h_last != h_gone && second.contains(x) implies rechained(
                        m0[h_last]@,
                        x,
                        i,
                        last,
                    ) by {
                        let c = choose|c: int| 0 <= c < second.len() && second[c] == x;
                        assert(rechained(m0[h_last]@, second[c], i, last));
                    }
                    assert forall|g: u64, c: int|
                        self.index@.contains_key(g) && 0 <= c < self.index@[g]@.len() implies (
                    #[trigger] self.index@[g]@[c]) < self.buckets.len() && key_hash(
                        self.key_at(self.index@[g]@[c] as int),
                    ) == g by {
                        let x = self.index@[g]@[c];
                        if g == h_gone || g == h_last {
                            assert(self.index@[g]@.contains(x));
                            assert(rechained(m0[g]@, x, i, last));
                            let d = choose|d: int|
                                0 <= d < m0[g]@.len() && (#[trigger] m0[g]@[d]) != i && x
                                    == moved_to(m0[g]@[d], last, i);
                            let q = m0[g]@[d];
                            assert(q < n && key_hash(before.key_at(q as int)) == g);
                            assert(self.key_at(x as int) == before.key_at(moved(x as int)));
                        } else {
                            assert(self.index@[g] == m0[g]);
                            let q = m0[g]@[c];
                            assert(q < n && key_hash(before.key_at(q as int)) == g);
                            assert(self.key_at(q as int) == before.key_at(moved(q as int)));
                        }
                    }
                    assert forall|p: int| 0 <= p < self.buckets.len() implies self.index@.contains_key(
                        key_hash(#[trigger] self.key_at(p)),
                    ) && self.index@[key_hash(self.key_at(p))]@.contains(p as usize) by {
                        let q = moved(p);
                        let g = key_hash(self.key_at(p));
                        assert(self.key_at(p) == before.key_at(q));
                        assert(m0.contains_key(g) && m0[g]@.contains(q as usize));
                        let d = choose|d: int| 0 <= d < m0[g]@.len() && m0[g]@[d] == q as usize;
                        assert(moved_to(q as usize, last, i) == p as usize);
                        if g == h_gone {
                            assert(m0[g]@[d] != i);
                            assert(first.contains(moved_to(m0[g]@[d], last, i)));
                        } else if g == h_last {
                            assert(m0[g]@[d] != i);
                            assert(second.contains(moved_to(m0[g]@[d], last, i)));
                        } else {
                            assert(self.index@[g] == m0[g]);
                        }
                    }
                    assert(self.wf());
                    assert forall|q: Seq<Value>| self.has(q) == (before.has(q) && q != k) by {
                        if self.has(q) {
                            let j = self.slot(q);
                            assert(before.key_at(moved(j)) == q);
                        }
                        if before.has(q) && q != k {
                            let j = before.slot(q);
                            if j == n - 1 {
                                assert(self.key_at(i as int) == q);
                            } else {
                                assert(self.key_at(j) == q);
                            }
                        }
                    }
                    assert forall|q: Seq<Value>| self.has(q) implies self@[q] == before@.remove(
                        k,
                    )[q] by {
                        let j = self.slot(q);
                        self.lemma_slot(j);
                        before.lemma_slot(moved(j));
                    }
                    assert(self@ =~= before@.remove(k));
                }
                Some(bucket.rows)
            },
            None => {
                assert(self@ =~= before@.remove(k));
                None
            },
        }
    }

    /// The keys in the order in which [`KeyedState::values`] walks them.
    pub closed spec fn key_order(&self) -> Seq<Seq<Value>> {
        Seq::new(self.buckets.len() as nat, |i: int| self.key_at(i))
    }

    /// The walk of the keys visits every key of the index exactly once.
    pub proof fn lemma_key_order(&self)
        requires
            self.wf(),
        ensures
            self.key_order().no_duplicates(),
            forall|k: Seq<Value>| self.key_order().contains(k) <==> self@.contains_key(k),
    {
        let keys = self.key_order();
        assert forall|k: Seq<Value>| keys.contains(k) <==> self@.contains_key(k) by {
            if keys.contains(k) {
                let i = choose|i: int| 0 <= i < keys.len() && keys[i] == k;
                assert(self.key_at(i) == k);
            }
            if self@.contains_key(k) {
                let i = self.slot(k);
                assert(keys[i] == k);
            }
        }
    }

    /// The buckets of the index, one for each key, in the order of
    /// [`KeyedState::key_order`].
    pub fn values(&self) -> (r: Vec<&Vec<Row>>)
        requires
            self.wf(),
        ensures
            r.len() == self.key_order().len(),
            forall|i: int|
                0 <= i < r.len() ==> (#[trigger] r[i]).deep_view() == self@[self.key_order()[i]],
    {
        let mut r: Vec<&Vec<Row>> = Vec::with_capacity(self.buckets.len());
        let mut i: usize = 0;
        while i < self.buckets.len()
            invariant
                self.wf(),
                i <= self.buckets.len(),
                r.len() == i,
                forall|j: int|
                    0 <= j < i ==> (#[trigger] r[j]).deep_view() == self@[self.key_order()[j]],
            decreases self.buckets.len() - i,
        {
            proof {
                self.lemma_slot(i as int);
            }
            r.push(&self.buckets[i].rows);
            i += 1;
        }
        r
    }

    /// The buckets of the index, moved out of it: each key's bucket once.
    pub fn into_values(self) -> (r: Vec<Vec<Row>>)
        requires
            self.wf(),
        ensures
            is_walk(r.deep_view(), self@),
    {
        let ghost n = self.buckets.len() as int;
        let ghost keys = Seq::new(n as nat, |i: int| self.key_at(n - 1 - i));
        let mut this = self;
        let mut r: Vec<Vec<Row>> = Vec::with_capacity(this.buckets.len());
        while this.buckets.len() > 0
            invariant
                n == self.buckets.len(),
                this.buckets.len() + r.len() == n,
                forall|i: int|
                    0 <= i < this.buckets.len() ==> (#[trigger] this.buckets[i]) == self.buckets[i],
                forall|i: int|
                    0 <= i < r.len() ==> (#[trigger] r[i]).deep_view() == self.rows_at(n - 1 - i),
            decreases this.buckets.len(),
        {
            if let Some(bucket) = this.buckets.pop() {
                r.push(bucket.rows);
            }
        }
        proof {
            assert forall|a: int, b: int| 0 <= a < keys.len() && 0 <= b < keys.len() && a
                != b implies keys[a] != keys[b] by {
                assert(self.key_at(n - 1 - a) != self.key_at(n - 1 - b));
            }
            assert forall|k: Seq<Value>| keys.contains(k) <==> self@.contains_key(k) by {
                if keys.contains(k) {
                    let i = choose|i: int| 0 <= i < keys.len() && keys[i] == k;
                    assert(self.key_at(n - 1 - i) == k);
                }
                if self@.contains_key(k) {
                    let i = self.slot(k);
                    assert(keys[n - 1 - i] == k);
                }
            }
            assert forall|i: int| 0 <= i < r.len() implies #[trigger] r.deep_view()[i]
                == self@[keys[i]] by {
                self.lemma_slot(n - 1 - i);
            }
            assert(walks(keys, r.deep_view(), self@));
        }
        r
    }
}

} // verus!
