//! A multimap split into shards.
//!
//! A key belongs to the shard that its hash selects, so an operation on a
//! key touches that one shard and no other. Within a shard a pair of key and
//! value is stored at most once.
//!
//! To its users the map is a function from keys to sequences of values: the
//! values that were inserted under a key, each once, in the order in which
//! they first came.

use vstd::prelude::*;

verus! {

/// A key that can be placed in a shard: its hash and its equality depend on
/// its mathematical value alone.
pub trait ShardKey: View + Sized {
    /// The hash of the keys whose value is `v`.
    spec fn hash_of(v: Self::V) -> u64;

    /// Computes the hash of this key.
    fn hash_code(&self) -> (h: u64)
        ensures
            h == Self::hash_of(self@),
    ;

    /// Whether two keys have the same value.
    fn same_key(&self, other: &Self) -> (b: bool)
        ensures
            b == (self@ == other@),
    ;
}

/// A value that can be stored: it can be compared and copied, and both go
/// by its mathematical value.
pub trait ShardValue: View + Sized {
    /// Whether two values are the same.
    fn same_value(&self, other: &Self) -> (b: bool)
        ensures
            b == (self@ == other@),
    ;

    /// A copy of this value.
    fn duplicate(&self) -> (copy: Self)
        ensures
            copy@ == self@,
    ;
}

/// The shard, among `count`, of the keys with the hash `hash`.
pub open spec fn shard_index(hash: u64, count: nat) -> int {
    (hash as int) % (count as int)
}

/// The values that `entries` holds under the key `k`, in the order of the
/// entries.
pub open spec fn values_for<A, B>(entries: Seq<(A, B)>, k: A) -> Seq<B>
    decreases entries.len(),
{
    if entries.len() == 0 {
        Seq::empty()
    } else if entries.last().0 == k {
        values_for(entries.drop_last(), k).push(entries.last().1)
    } else {
        values_for(entries.drop_last(), k)
    }
}

/// The values that the map `m` holds under the key `k`; none where `k` is
/// not in the map.
pub open spec fn values_in<A, B>(m: Map<A, Seq<B>>, k: A) -> Seq<B> {
    if m.dom().contains(k) {
        m[k]
    } else {
        Seq::empty()
    }
}

/// The map `m` after the value `v` was inserted under the key `k`: `v` is
/// appended to the values of `k` unless it is among them already.
pub open spec fn with_value<A, B>(m: Map<A, Seq<B>>, k: A, v: B) -> Map<A, Seq<B>> {
    if values_in(m, k).contains(v) {
        m
    } else {
        m.insert(k, values_in(m, k).push(v))
    }
}

/// No key of `m` holds a value twice, and every key of `m` holds a value.
pub open spec fn distinct_values<A, B>(m: Map<A, Seq<B>>) -> bool {
    forall|k: A| #[trigger]
        m.dom().contains(k) ==> m[k].no_duplicates() && m[k].len() > 0
}

/// The mathematical values of stored entries.
pub open spec fn entries_model<K: View, V: View>(entries: Seq<(K, V)>) -> Seq<(K::V, V::V)> {
    entries.map_values(|e: (K, V)| e@)
}

/// The mathematical values of stored values.
pub open spec fn values_model<V: View>(values: Seq<V>) -> Seq<V::V> {
    values.map_values(|v: V| v@)
}

/// Whether `entries` can be shard `i` of `count`: no pair occurs twice, and
/// every key hashes to this shard.
pub open spec fn placed<K: ShardKey, B>(entries: Seq<(K::V, B)>, i: int, count: nat) -> bool {
    &&& entries.no_duplicates()
    &&& forall|j: int|
        0 <= j < entries.len() ==> shard_index(K::hash_of((#[trigger] entries[j]).0), count) == i
}

/// The values under `k` are those of the entries with the key `k`.
pub proof fn lemma_values_for_contains<A, B>(entries: Seq<(A, B)>, k: A, v: B)
    ensures
        values_for(entries, k).contains(v) <==> entries.contains((k, v)),
    decreases entries.len(),
{
    if entries.len() > 0 {
        let front = entries.drop_last();
        lemma_values_for_contains(front, k, v);
        assert(entries =~= front.push(entries.last()));
        if entries.contains((k, v)) {
            let j = choose|j: int| 0 <= j < entries.len() && entries[j] == (k, v);
            if j < front.len() {
                assert(front[j] == (k, v));
            }
        }
        if front.contains((k, v)) {
            let j = choose|j: int| 0 <= j < front.len() && front[j] == (k, v);
            assert(entries[j] == (k, v));
        }
        if entries.last().0 == k {
            let vs = values_for(front, k);
            let all = vs.push(entries.last().1);
            if vs.contains(v) {
                let j = choose|j: int| 0 <= j < vs.len() && vs[j] == v;
                assert(all[j] == v);
            }
            if entries.last().1 == v {
                assert(all[vs.len() as int] == v);
                assert(entries[entries.len() - 1] == (k, v));
            }
        }
    }
}

/// Entries without a repeated pair hold no value twice under a key.
pub proof fn lemma_values_for_distinct<A, B>(entries: Seq<(A, B)>, k: A)
    requires
        entries.no_duplicates(),
    ensures
        values_for(entries, k).no_duplicates(),
    decreases entries.len(),
{
    if entries.len() > 0 {
        let front = entries.drop_last();
        lemma_values_for_distinct(front, k);
        if entries.last().0 == k {
            let v = entries.last().1;
            lemma_values_for_contains(front, k, v);
            if front.contains((k, v)) {
                let j = choose|j: int| 0 <= j < front.len() && front[j] == (k, v);
                assert(entries[j] == entries[entries.len() - 1]);
            }
        }
    }
}

/// A new entry adds its value under its own key and changes no other key.
pub proof fn lemma_values_for_push<A, B>(entries: Seq<(A, B)>, e: (A, B), k: A)
    ensures
        values_for(entries.push(e), k) == if e.0 == k {
            values_for(entries, k).push(e.1)
        } else {
            values_for(entries, k)
        },
{
    assert(entries.push(e).drop_last() =~= entries);
}

/// An insertion keeps every key free of repeated values.
pub proof fn lemma_with_value_distinct<A, B>(m: Map<A, Seq<B>>, k: A, v: B)
    requires
        distinct_values(m),
    ensures
        distinct_values(with_value(m, k, v)),
{
    let after = with_value(m, k, v);
    assert forall|q: A| #[trigger] after.dom().contains(q) implies after[q].no_duplicates()
        && after[q].len() > 0 by {
        if q == k && !values_in(m, k).contains(v) {
            let vs = values_in(m, k);
            assert(m.dom().contains(k) ==> m[k].no_duplicates());
            assert(after[q] == vs.push(v));
        } else {
            assert(m.dom().contains(q));
        }
    }
}

/// A pair inserted twice is held once: the second insertion changes
/// nothing, and the value then stands exactly once among the values of
/// its key.
pub proof fn lemma_insert_twice<A, B>(m: Map<A, Seq<B>>, k: A, v: B)
    requires
        distinct_values(m),
    ensures
        with_value(with_value(m, k, v), k, v) == with_value(m, k, v),
        values_in(with_value(with_value(m, k, v), k, v), k).to_multiset().count(v) == 1,
{
    let once = with_value(m, k, v);
    let vs = values_in(once, k);
    if !values_in(m, k).contains(v) {
        assert(vs == values_in(m, k).push(v));
        assert(vs[vs.len() - 1] == v);
    }
    assert(vs.contains(v));
    lemma_with_value_distinct(m, k, v);
    assert(vs.no_duplicates());
    vs.lemma_multiset_has_no_duplicates();
    vs.to_multiset_ensures();
}

/// An insertion under one key leaves the values of every other key as
/// they were.
pub proof fn lemma_with_value_other_key<A, B>(m: Map<A, Seq<B>>, k: A, v: B, other: A)
    requires
        other != k,
    ensures
        values_in(with_value(m, k, v), other) == values_in(m, other),
{
}

/// Insertions under different keys do not see each other: in either
/// order they give the same map.
pub proof fn lemma_with_value_commutes<A, B>(m: Map<A, Seq<B>>, k1: A, v1: B, k2: A, v2: B)
    requires
        k1 != k2,
    ensures
        with_value(with_value(m, k1, v1), k2, v2) == with_value(with_value(m, k2, v2), k1, v1),
{
    assert(values_in(with_value(m, k1, v1), k2) == values_in(m, k2));
    assert(values_in(with_value(m, k2, v2), k1) == values_in(m, k1));
    assert(with_value(with_value(m, k1, v1), k2, v2) =~= with_value(with_value(m, k2, v2), k1, v1));
}

/// A value that is inserted comes after the values that its key held, or
/// is among them already.
pub proof fn lemma_with_value_order<A, B>(m: Map<A, Seq<B>>, k: A, v: B)
    ensures
        values_in(m, k).is_prefix_of(values_in(with_value(m, k, v), k)),
        values_in(with_value(m, k, v), k).contains(v),
{
    let vs = values_in(m, k);
    if !vs.contains(v) {
        assert(vs.push(v)[vs.len() as int] == v);
        assert(vs =~= vs.push(v).take(vs.len() as int));
    } else {
        assert(vs =~= vs.take(vs.len() as int));
    }
}

/// A multimap from keys to values, split into a fixed number of shards.
pub struct ConcurrentMultiMap<K, V> {
    buckets: Vec<Vec<(K, V)>>,
}

impl<K: ShardKey, V: ShardValue> ConcurrentMultiMap<K, V> {
    /// The number of shards.
    pub closed spec fn shard_count(&self) -> nat {
        self.buckets@.len()
    }

    /// The entries of shard `i`, oldest first.
    pub closed spec fn shard(&self, i: int) -> Seq<(K::V, V::V)> {
        entries_model(self.buckets@[i]@)
    }

    /// The shard that the key `k` belongs to.
    pub open spec fn shard_of(&self, k: K::V) -> int {
        shard_index(K::hash_of(k), self.shard_count())
    }

    /// The values stored under the key `k`, oldest first.
    pub open spec fn values(&self, k: K::V) -> Seq<V::V> {
        values_for(self.shard(self.shard_of(k)), k)
    }

    /// There is a shard, every entry is in the shard of its key, and no
    /// shard holds a pair twice.
    pub open spec fn wf(&self) -> bool {
        &&& self.shard_count() > 0
        &&& forall|i: int|
            0 <= i < self.shard_count() ==> placed::<K, V::V>(
                #[trigger] self.shard(i),
                i,
                self.shard_count(),
            )
    }

    /// In a well-formed map no key holds a value twice, and the values of a
    /// key are those found in its shard.
    pub proof fn lemma_view(&self)
        requires
            self.wf(),
        ensures
            distinct_values(self@),
            forall|k: K::V| #[trigger] values_in(self@, k) == self.values(k),
    {
        assert forall|k: K::V| #[trigger] values_in(self@, k) == self.values(k) by {
            assert(values_in(self@, k) =~= self.values(k));
        }
        assert forall|k: K::V| #[trigger] self@.dom().contains(k) implies self@[k].no_duplicates()
            && self@[k].len() > 0 by {
            let i = self.shard_of(k);
            assert(placed::<K, V::V>(self.shard(i), i, self.shard_count()));
            lemma_values_for_distinct(self.shard(i), k);
        }
    }

    /// Creates an empty map with `bucket_count` shards.
    pub fn new(bucket_count: usize) -> (m: Self)
        requires
            bucket_count > 0,
        ensures
            m.wf(),
            m.shard_count() == bucket_count,
            m@ == Map::<K::V, Seq<V::V>>::empty(),
    {
        let mut buckets: Vec<Vec<(K, V)>> = Vec::new();
        let mut i: usize = 0;
        while i < bucket_count
            invariant
                0 <= i <= bucket_count,
                buckets@.len() == i,
                forall|j: int| 0 <= j < i ==> (#[trigger] buckets@[j])@.len() == 0,
            decreases bucket_count - i,
        {
            buckets.push(Vec::new());
            i += 1;
        }
        let m = ConcurrentMultiMap { buckets };
        proof {
            assert forall|j: int| 0 <= j < m.shard_count() implies placed::<K, V::V>(
                #[trigger] m.shard(j),
                j,
                m.shard_count(),
            ) by {
                assert(m.shard(j).len() == 0);
            }
            assert forall|k: K::V| m.values(k).len() == 0 by {
                assert(m.shard(m.shard_of(k)).len() == 0);
            }
            assert(m@ =~= Map::<K::V, Seq<V::V>>::empty());
        }
        m
    }

    /// Associates `value` with `key`, unless it is associated with it
    /// already. Only the shard of `key` is touched.
    pub fn set(&mut self, key: K, value: V)
        requires
            old(self).wf(),
        ensures
            final(self).wf(),
            final(self).shard_count() == old(self).shard_count(),
            final(self)@ == with_value(old(self)@, key@, value@),
            forall|i: int|
                0 <= i < old(self).shard_count() && i != old(self).shard_of(key@)
                    ==> final(self).shard(i) == old(self).shard(i),
    {
        let count = self.buckets.len();
        let at = (key.hash_code() % (count as u64)) as usize;
        let ghost k = key@;
        let ghost v = value@;
        let ghost before = self.shard(at as int);
        assert(at == self.shard_of(k));
        assert(placed::<K, V::V>(self.shard(at as int), at as int, self.shard_count()));
        let mut i: usize = 0;
        while i < self.buckets[at].len()
            invariant
                0 <= i <= self.buckets@[at as int]@.len(),
                at < self.buckets@.len(),
                *self == *old(self),
                self.wf(),
                k == key@,
                v == value@,
                before == self.shard(at as int),
                forall|j: int| 0 <= j < i ==> before[j] != (k, v),
            decreases self.buckets@[at as int]@.len() - i,
        {
            let entry = &self.buckets[at][i];
            if entry.0.same_key(&key) && entry.1.same_value(&value) {
                proof {
                    assert(before[i as int] == (k, v));
                    lemma_values_for_contains(before, k, v);
                    self.lemma_view();
                }
                return ;
            }
            i += 1;
        }
        self.buckets[at].push((key, value));
        proof {
            let after = self.shard(at as int);
            let n = self.shard_count();
            assert(after =~= before.push((k, v)));
            assert forall|j: int| 0 <= j < n && j != at implies #[trigger] self.shard(j)
                == old(self).shard(j) by {}
            assert(!before.contains((k, v)));
            lemma_values_for_contains(before, k, v);
            assert forall|j: int| 0 <= j < n implies placed::<K, V::V>(
                #[trigger] self.shard(j),
                j,
                n,
            ) by {
                if j != at {
                    assert(placed::<K, V::V>(old(self).shard(j), j, n));
                }
            }
            old(self).lemma_view();
            assert forall|q: K::V| #[trigger] self.values(q) == values_in(
                with_value(old(self)@, k, v),
                q,
            ) by {
                if self.shard_of(q) == at as int {
                    lemma_values_for_push(before, (k, v), q);
                }
                assert(values_in(old(self)@, q) == old(self).values(q));
            }
            assert(self@ =~= with_value(old(self)@, k, v));
        }
    }

    /// The values associated with `key`, in the order in which they were
    /// first inserted.
    pub fn get(&self, key: &K) -> (values: Vec<V>)
        requires
            self.wf(),
        ensures
            values_model(values@) == values_in(self@, key@),
    {
        let count = self.buckets.len();
        let at = (key.hash_code() % (count as u64)) as usize;
        let bucket = &self.buckets[at];
        let ghost entries = self.shard(at as int);
        let mut values: Vec<V> = Vec::new();
        let mut i: usize = 0;
        while i < bucket.len()
            invariant
                0 <= i <= bucket@.len(),
                entries == entries_model(bucket@),
                values_model(values@) == values_for(entries.take(i as int), key@),
            decreases bucket@.len() - i,
        {
            let entry = &bucket[i];
            proof {
                assert(entries.take(i + 1).drop_last() =~= entries.take(i as int));
                assert(entries.take(i + 1).last() == entry@);
            }
            if entry.0.same_key(key) {
                let ghost earlier = values@;
                values.push(entry.1.duplicate());
                assert(values_model(values@) =~= values_model(earlier).push(entry.1@));
            }
            i += 1;
        }
        proof {
            assert(entries.take(bucket@.len() as int) =~= entries);
            self.lemma_view();
        }
        values
    }
}

impl<K: ShardKey, V: ShardValue> View for ConcurrentMultiMap<K, V> {
    type V = Map<K::V, Seq<V::V>>;

    /// The keys that hold a value, each with its values, oldest first.
    open spec fn view(&self) -> Map<K::V, Seq<V::V>> {
        Map::new(|k: K::V| self.values(k).len() > 0, |k: K::V| self.values(k))
    }
}

} // verus!
