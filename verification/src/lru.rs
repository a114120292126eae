//! The reference cache provider: a bounded least-recently-used store.
//!
//! The store is modelled as a sequence of key/value pairs ordered by
//! recency, most recently used first. A `Get` hit moves the entry to the
//! front; an `Insert` writes the entry at the front and, when the store
//! would exceed its capacity, drops the entry at the back — the least
//! recently used one. A store of capacity zero caches nothing: every
//! insert is discarded at once.

use vstd::prelude::*;
use vstd::rwlock::RwLock;
use vstd::rwlock::RwLockPredicate;

use std::sync::Arc;

use crate::ProviderRequest;
use crate::ProviderResponse;

verus! {

/// Relies on `std::sync::Arc::clone`: the new handle points to the same
/// allocation as the old one, so both refer to the very same value.
#[verifier::external_body]
fn clone_arc<T>(handle: &Arc<T>) -> (res: Arc<T>)
    ensures
        res == *handle,
{
    Arc::clone(handle)
}

/// Index of the first entry of `s` whose key is `k`, or `-1` when no entry
/// has that key.
pub open spec fn key_index<K, V>(s: Seq<(K, V)>, k: K) -> int
    decreases s.len(),
{
    if s.len() == 0 {
        -1
    } else if s[0].0 == k {
        0
    } else {
        let rest = key_index(s.drop_first(), k);
        if rest < 0 {
            -1
        } else {
            rest + 1
        }
    }
}

/// Whether some entry of `s` has key `k`.
pub open spec fn has_key<K, V>(s: Seq<(K, V)>, k: K) -> bool {
    exists|i: int| 0 <= i < s.len() && s[i].0 == k
}

/// Whether no two entries of `s` share a key.
pub open spec fn distinct_keys<K, V>(s: Seq<(K, V)>) -> bool {
    forall|i: int, j: int| 0 <= i < j < s.len() ==> s[i].0 != s[j].0
}

/// The store after a `Get` hit on `k`: the entry for `k` moves to the
/// front, everything else keeps its order. Meaningful only when `s` has
/// the key.
pub open spec fn lru_touch<K, V>(s: Seq<(K, V)>, k: K) -> Seq<(K, V)> {
    s.remove(key_index(s, k)).insert(0, s[key_index(s, k)])
}

/// The store after `Insert(k, v)` into a store of capacity `cap`: any
/// earlier entry for `k` goes away, the new entry stands at the front, and
/// when the store would exceed `cap` the entry at the back — the least
/// recently used — is dropped.
pub open spec fn lru_insert<K, V>(s: Seq<(K, V)>, cap: nat, k: K, v: V) -> Seq<(K, V)> {
    let trimmed = if has_key(s, k) {
        s.remove(key_index(s, k))
    } else {
        s
    };
    let pushed = trimmed.insert(0, (k, v));
    if pushed.len() > cap {
        pushed.drop_last()
    } else {
        pushed
    }
}

/// Relates `key_index` to the entries of `s`: the result is a valid index
/// of the first entry with key `k`, or `-1` exactly when `s` has no such
/// entry.
pub proof fn lemma_key_index<K, V>(s: Seq<(K, V)>, k: K)
    ensures
        -1 <= key_index(s, k) < s.len(),
        key_index(s, k) >= 0 ==> s[key_index(s, k)].0 == k,
        key_index(s, k) >= 0 ==> forall|j: int| 0 <= j < key_index(s, k) ==> s[j].0 != k,
        key_index(s, k) == -1 <==> !has_key(s, k),
    decreases s.len(),
{
    if s.len() == 0 {
    } else if s[0].0 == k {
    } else {
        lemma_key_index(s.drop_first(), k);
        assert forall|j: int| 0 <= j < s.len() && s[j].0 == k implies
            has_key(s.drop_first(), k) by {
            assert(s.drop_first()[j - 1].0 == k);
        }
        if key_index(s.drop_first(), k) >= 0 {
            let r = key_index(s.drop_first(), k);
            assert(s[r + 1] == s.drop_first()[r]);
            assert forall|j: int| 0 <= j < r + 1 implies s[j].0 != k by {
                if j > 0 {
                    assert(s.drop_first()[j - 1] == s[j]);
                }
            }
        }
    }
}

/// Removing the first entry with key `k` keeps the remaining keys distinct
/// and leaves no entry with key `k`.
pub proof fn lemma_remove_key<K, V>(s: Seq<(K, V)>, k: K)
    requires
        distinct_keys(s),
        has_key(s, k),
    ensures
        distinct_keys(s.remove(key_index(s, k))),
        !has_key(s.remove(key_index(s, k)), k),
        s.remove(key_index(s, k)).len() == s.len() - 1,
{
    lemma_key_index(s, k);
    let i = key_index(s, k);
    let r = s.remove(i);
    s.remove_ensures(i);
    assert forall|p: int, q: int| 0 <= p < q < r.len() implies r[p].0 != r[q].0 by {
        let p0 = if p < i { p } else { p + 1 };
        let q0 = if q < i { q } else { q + 1 };
        assert(r[p] == s[p0] && r[q] == s[q0]);
    }
    assert forall|j: int| 0 <= j < r.len() implies r[j].0 != k by {
        let j0 = if j < i { j } else { j + 1 };
        assert(r[j] == s[j0]);
    }
}

/// Inserting an entry at the front of a store that has no entry with its
/// key keeps the keys distinct.
pub proof fn lemma_push_front_distinct<K, V>(s: Seq<(K, V)>, k: K, v: V)
    requires
        distinct_keys(s),
        !has_key(s, k),
    ensures
        distinct_keys(s.insert(0, (k, v))),
{
    let pushed = s.insert(0, (k, v));
    s.insert_ensures(0, (k, v));
    assert forall|p: int, q: int| 0 <= p < q < pushed.len() implies pushed[p].0 != pushed[q].0 by {
        assert(pushed[q] == s[q - 1]);
        if p == 0 {
            assert(s[q - 1].0 != k);
        } else {
            assert(pushed[p] == s[p - 1]);
        }
    }
}

/// A `Get` hit keeps the keys distinct and the number of entries unchanged.
pub proof fn lemma_touch_wf<K, V>(s: Seq<(K, V)>, k: K)
    requires
        distinct_keys(s),
        has_key(s, k),
    ensures
        distinct_keys(lru_touch(s, k)),
        lru_touch(s, k).len() == s.len(),
{
    lemma_key_index(s, k);
    lemma_remove_key(s, k);
    let trimmed = s.remove(key_index(s, k));
    assert forall|j: int| 0 <= j < trimmed.len() implies trimmed[j].0 != s[key_index(s, k)].0 by {
        assert(!has_key(trimmed, s[key_index(s, k)].0));
    }
    lemma_push_front_distinct(trimmed, s[key_index(s, k)].0, s[key_index(s, k)].1);
    trimmed.insert_ensures(0, s[key_index(s, k)]);
    assert(lru_touch(s, k) =~= trimmed.insert(0, (s[key_index(s, k)].0, s[key_index(s, k)].1)));
}

/// Capacity invariant: an insert into a well-formed store of capacity
/// `cap` keeps the keys distinct and never leaves more than `cap` entries.
pub proof fn lemma_insert_wf<K, V>(s: Seq<(K, V)>, cap: nat, k: K, v: V)
    requires
        distinct_keys(s),
        s.len() <= cap,
    ensures
        distinct_keys(lru_insert(s, cap, k, v)),
        lru_insert(s, cap, k, v).len() <= cap,
{
    let trimmed = if has_key(s, k) {
        s.remove(key_index(s, k))
    } else {
        s
    };
    if has_key(s, k) {
        lemma_key_index(s, k);
        lemma_remove_key(s, k);
    }
    let pushed = trimmed.insert(0, (k, v));
    trimmed.insert_ensures(0, (k, v));
    lemma_push_front_distinct(trimmed, k, v);
    if pushed.len() > cap {
        let kept = pushed.drop_last();
        assert forall|p: int, q: int| 0 <= p < q < kept.len() implies kept[p].0 != kept[q].0 by {
            assert(kept[p] == pushed[p] && kept[q] == pushed[q]);
        }
    }
}

/// An in-process, capacity-bounded, least-recently-used store of key/value
/// pairs. Entries stand in recency order, most recently used first. The
/// capacity is fixed at construction; the number of entries never exceeds
/// it.
pub struct LruState<K, V> {
    entries: Vec<(K, V)>,
    capacity: usize,
}

impl<K, V> View for LruState<K, V> {
    type V = Seq<(K, V)>;

    closed spec fn view(&self) -> Seq<(K, V)> {
        self.entries@
    }
}

impl<K, V> LruState<K, V> {
    /// The bound on the number of entries, fixed at construction.
    pub closed spec fn cap(self) -> nat {
        self.capacity as nat
    }
}

impl<K: PartialEq, V> LruState<K, V> {
    /// Well-formedness: no two entries share a key, the capacity bound
    /// holds, and `==` on keys decides logical equality — uniqueness of
    /// keys is by logical equality, not identity.
    pub open spec fn wf(self) -> bool {
        &&& distinct_keys(self@)
        &&& self@.len() <= self.cap()
        &&& vstd::laws_eq::obeys_concrete_eq::<K>()
    }

    /// Create an empty store that will hold at most `capacity` entries.
    /// Construction never fails; a store of capacity zero caches nothing.
    pub fn new(capacity: usize) -> (s: Self)
        requires
            vstd::laws_eq::obeys_concrete_eq::<K>(),
        ensures
            s.wf(),
            s.cap() == capacity,
            s@ == Seq::<(K, V)>::empty(),
    {
        LruState { entries: Vec::new(), capacity }
    }

    /// The number of entries the store holds; never more than its
    /// capacity while the store is well formed.
    pub fn len(&self) -> (n: usize)
        ensures
            n == self@.len(),
    {
        self.entries.len()
    }

    /// The bound on the number of entries, fixed at construction.
    pub fn capacity(&self) -> (c: usize)
        ensures
            c == self.cap(),
    {
        self.capacity
    }

    /// Index of the first entry whose key equals `*key`, if any.
    fn find_index(&self, key: &K) -> (found: Option<usize>)
        requires
            vstd::laws_eq::obeys_concrete_eq::<K>(),
        ensures
            match found {
                Some(i) => key_index(self@, *key) == i,
                None => !has_key(self@, *key),
            },
    {
        let n = self.entries.len();
        let mut i: usize = 0;
        while i < n
            invariant
                vstd::laws_eq::obeys_concrete_eq::<K>(),
                n == self@.len(),
                i <= n,
                forall|j: int| 0 <= j < i ==> self@[j].0 != *key,
            decreases n - i,
        {
            proof {
                reveal(vstd::laws_eq::obeys_concrete_eq);
            }
            let hit = self.entries[i].0 == *key;
            if hit {
                proof {
                    assert(has_key(self@, *key));
                    lemma_key_index(self@, *key);
                }
                return Some(i);
            }
            i += 1;
        }
        proof {
            assert(forall|j: int| 0 <= j < self@.len() ==> self@[j].0 != *key);
        }
        None
    }
}

impl<K: PartialEq, V: Clone> LruState<K, V> {
    /// Look the key up. On a hit the entry becomes the most recently used
    /// and a clone of its value is returned; on a miss nothing changes.
    pub fn get(&mut self, key: &K) -> (found: Option<V>)
        requires
            old(self).wf(),
        ensures
            final(self).wf(),
            final(self).cap() == old(self).cap(),
            match found {
                Some(v) => {
                    &&& has_key(old(self)@, *key)
                    &&& cloned::<V>(old(self)@[key_index(old(self)@, *key)].1, v)
                    &&& final(self)@ == lru_touch(old(self)@, *key)
                },
                None => {
                    &&& !has_key(old(self)@, *key)
                    &&& final(self)@ == old(self)@
                },
            },
    {
        match self.find_index(key) {
            Some(i) => {
                proof {
                    lemma_key_index(old(self)@, *key);
                    lemma_touch_wf(old(self)@, *key);
                }
                let entry = self.entries.remove(i);
                let value = entry.1.clone();
                self.entries.insert(0, entry);
                Some(value)
            }
            None => None,
        }
    }

    /// Write the entry for the key, making it the most recently used, and
    /// evict the least recently used entry when the store would exceed its
    /// capacity. In a store of capacity zero the entry is discarded at
    /// once.
    pub fn insert(&mut self, key: K, value: V)
        requires
            old(self).wf(),
        ensures
            final(self).wf(),
            final(self).cap() == old(self).cap(),
            final(self)@ == lru_insert(old(self)@, old(self).cap(), key, value),
    {
        proof {
            lemma_insert_wf(old(self)@, old(self).cap(), key, value);
        }
        match self.find_index(&key) {
            Some(i) => {
                proof {
                    lemma_key_index(old(self)@, key);
                }
                self.entries.remove(i);
            }
            None => {}
        }
        self.entries.insert(0, (key, value));
        if self.entries.len() > self.capacity {
            self.entries.pop();
        }
    }

    /// One round trip of the provider protocol: answer a `Get` with the
    /// cached value or `NotFound`, an `Insert` with `Found` echoing a clone
    /// of the inserted value.
    pub fn call(&mut self, request: ProviderRequest<K, V>) -> (response: ProviderResponse<V>)
        requires
            old(self).wf(),
        ensures
            final(self).wf(),
            final(self).cap() == old(self).cap(),
            final(self)@ == step_state(old(self)@, old(self).cap(), request),
            valid_response(old(self)@, request, response),
    {
        match request {
            ProviderRequest::Get(key) => match self.get(&key) {
                Some(value) => ProviderResponse::Found(value),
                None => ProviderResponse::NotFound,
            },
            ProviderRequest::Insert(key, value) => {
                let echo = value.clone();
                self.insert(key, value);
                ProviderResponse::Found(echo)
            },
        }
    }
}

/// Round trip: after `Insert(k, v)` into a well-formed store of positive
/// capacity, the entry for `k` stands at the front holding `v`, so an
/// immediate `Get(k)` answers `Found` with that value. A store of capacity
/// zero discards every insert, so it is left out here.
pub proof fn lemma_round_trip<K, V>(s: Seq<(K, V)>, cap: nat, k: K, v: V)
    requires
        cap >= 1,
        distinct_keys(s),
        s.len() <= cap,
    ensures
        has_key(lru_insert(s, cap, k, v), k),
        key_index(lru_insert(s, cap, k, v), k) == 0,
        lru_insert(s, cap, k, v)[0] == (k, v),
{
    let trimmed = if has_key(s, k) {
        s.remove(key_index(s, k))
    } else {
        s
    };
    let pushed = trimmed.insert(0, (k, v));
    trimmed.insert_ensures(0, (k, v));
    let result = lru_insert(s, cap, k, v);
    if pushed.len() > cap {
        assert(result[0] == pushed[0]);
    }
    assert(result[0].0 == k);
    assert(has_key(result, k));
}

/// Applying `Insert` for each entry of `batch` in order, first entry
/// first, to a store of capacity `cap`.
pub open spec fn insert_all<K, V>(s: Seq<(K, V)>, cap: nat, batch: Seq<(K, V)>) -> Seq<(K, V)>
    decreases batch.len(),
{
    if batch.len() == 0 {
        s
    } else {
        insert_all(lru_insert(s, cap, batch[0].0, batch[0].1), cap, batch.drop_first())
    }
}

/// Capacity invariant over whole sequences: inserting any batch of
/// entries into a well-formed store of capacity `cap` leaves the keys
/// distinct and never more than `cap` entries — and since the batch is
/// arbitrary, the bound holds after every prefix of a sequence of inserts.
pub proof fn lemma_capacity_invariant<K, V>(s: Seq<(K, V)>, cap: nat, batch: Seq<(K, V)>)
    requires
        distinct_keys(s),
        s.len() <= cap,
    ensures
        distinct_keys(insert_all(s, cap, batch)),
        insert_all(s, cap, batch).len() <= cap,
    decreases batch.len(),
{
    if batch.len() == 0 {
    } else {
        lemma_insert_wf(s, cap, batch[0].0, batch[0].1);
        lemma_capacity_invariant(lru_insert(s, cap, batch[0].0, batch[0].1), cap, batch.drop_first());
    }
}

/// Inserting one batch after another is inserting their concatenation.
pub proof fn lemma_insert_all_append<K, V>(s: Seq<(K, V)>, cap: nat, a: Seq<(K, V)>, b: Seq<(K, V)>)
    ensures
        insert_all(s, cap, a + b) == insert_all(insert_all(s, cap, a), cap, b),
    decreases a.len(),
{
    if a.len() == 0 {
        assert(a + b =~= b);
    } else {
        assert((a + b)[0] == a[0]);
        assert((a + b).drop_first() =~= a.drop_first() + b);
        lemma_insert_all_append(lru_insert(s, cap, a[0].0, a[0].1), cap, a.drop_first(), b);
    }
}

/// Filling a store with fresh, pairwise distinct keys while staying within
/// the capacity evicts nothing: the batch ends up in front of the earlier
/// entries, most recently inserted first.
pub proof fn lemma_insert_all_fresh<K, V>(s: Seq<(K, V)>, cap: nat, batch: Seq<(K, V)>)
    requires
        distinct_keys(s),
        distinct_keys(batch),
        forall|i: int| 0 <= i < batch.len() ==> !has_key(s, #[trigger] batch[i].0),
        s.len() + batch.len() <= cap,
    ensures
        insert_all(s, cap, batch) == batch.reverse() + s,
    decreases batch.len(),
{
    if batch.len() == 0 {
        assert(batch.reverse() + s =~= s);
    } else {
        let k = batch[0].0;
        let v = batch[0].1;
        let s1 = lru_insert(s, cap, k, v);
        s.insert_ensures(0, (k, v));
        assert(s1 =~= s.insert(0, (k, v)));
        lemma_push_front_distinct(s, k, v);
        let rest = batch.drop_first();
        assert forall|i: int| 0 <= i < rest.len() implies !has_key(s1, #[trigger] rest[i].0) by {
            assert(rest[i] == batch[i + 1]);
            assert(batch[i + 1].0 != k);
            if has_key(s1, rest[i].0) {
                let w = choose|w: int| 0 <= w < s1.len() && s1[w].0 == rest[i].0;
                assert(w > 0 && s1[w] == s[w - 1]);
                assert(has_key(s, batch[i + 1].0));
            }
        }
        lemma_insert_all_fresh(s1, cap, rest);
        assert(insert_all(s, cap, batch) == insert_all(s1, cap, rest));
        assert(rest.reverse() + s1 =~= batch.reverse() + s) by {
            assert forall|i: int| 0 <= i < batch.len() + s.len() implies
                (rest.reverse() + s1)[i] == (batch.reverse() + s)[i] by {
                if i < batch.len() - 1 {
                    assert((rest.reverse() + s1)[i] == rest[batch.len() - 2 - i]);
                    assert(rest[batch.len() - 2 - i] == batch[batch.len() - 1 - i]);
                    assert((batch.reverse() + s)[i] == batch[batch.len() - 1 - i]);
                } else if i == batch.len() - 1 {
                    assert((rest.reverse() + s1)[i] == s1[0]);
                } else {
                    assert((rest.reverse() + s1)[i] == s1[i - (batch.len() - 1)]);
                    assert(s1[i - batch.len() + 1] == s[i - batch.len()]);
                }
            }
        }
    }
}

/// Recency eviction: inserting `cap + 1` entries with pairwise distinct
/// keys into an empty store of capacity `cap` evicts exactly the first
/// key; every later key is retained.
pub proof fn lemma_recency_eviction<K, V>(cap: nat, batch: Seq<(K, V)>)
    requires
        batch.len() == cap + 1,
        distinct_keys(batch),
    ensures
        !has_key(insert_all(Seq::<(K, V)>::empty(), cap, batch), batch[0].0),
        forall|i: int|
            1 <= i < batch.len() ==> has_key(
                insert_all(Seq::<(K, V)>::empty(), cap, batch),
                #[trigger] batch[i].0,
            ),
{
    let s0 = Seq::<(K, V)>::empty();
    let head = batch.take(cap as int);
    let last = batch.subrange(cap as int, cap as int + 1);
    assert(batch =~= head + last);
    lemma_insert_all_append(s0, cap, head, last);
    assert forall|i: int| 0 <= i < head.len() implies !has_key(s0, #[trigger] head[i].0) by {}
    lemma_insert_all_fresh(s0, cap, head);
    let full = head.reverse() + s0;
    assert(full =~= head.reverse());
    assert(insert_all(s0, cap, batch) == insert_all(full, cap, last));
    let k = batch[cap as int].0;
    let v = batch[cap as int].1;
    assert(last[0] == batch[cap as int]);
    let mid = lru_insert(full, cap, last[0].0, last[0].1);
    assert(last.drop_first().len() == 0);
    assert(insert_all(mid, cap, last.drop_first()) == mid);
    assert(insert_all(full, cap, last) == mid);
    assert(insert_all(s0, cap, batch) == lru_insert(full, cap, k, v));
    assert forall|j: int| 0 <= j < full.len() implies full[j].0 != k by {
        assert(full[j] == head[cap - 1 - j]);
        assert(batch[cap - 1 - j].0 != batch[cap as int].0);
    }
    assert(!has_key(full, k));
    assert forall|p: int, q: int| 0 <= p < q < full.len() implies full[p].0 != full[q].0 by {
        assert(full[p] == head[cap - 1 - p] && full[q] == head[cap - 1 - q]);
    }
    let pushed = full.insert(0, (k, v));
    full.insert_ensures(0, (k, v));
    let result = lru_insert(full, cap, k, v);
    assert(pushed.len() == cap + 1);
    assert(result =~= pushed.drop_last());
    assert forall|i: int|
        1 <= i < batch.len() implies has_key(insert_all(s0, cap, batch), #[trigger] batch[i].0) by {
        if i == cap as int {
            assert(result[0] == (k, v));
            assert(result[0].0 == batch[i].0);
        } else {
            assert(full[cap - 1 - i] == head[i]);
            assert(result[cap - i] == pushed[cap - i]);
            assert(pushed[cap - i] == full[cap - 1 - i]);
            assert(result[cap - i].0 == batch[i].0);
        }
    }
    assert forall|j: int| 0 <= j < result.len() implies result[j].0 != batch[0].0 by {
        assert(result[j] == pushed[j]);
        if j > 0 {
            assert(pushed[j] == full[j - 1]);
            assert(full[j - 1] == head[cap - j]);
            assert(batch[cap - j].0 != batch[0].0 || cap - j == 0);
            if cap - j == 0 {
                assert(full[j - 1] == head[0]);
                assert(head[0] == batch[0]);
            }
        } else {
            assert(pushed[0].0 == k);
            assert(batch[cap as int].0 != batch[0].0);
        }
    }
    assert(!has_key(result, batch[0].0));
}

/// Get refreshes recency: in a store of capacity two holding `a` then
/// `b`, a `Get` hit on `a` followed by `Insert` of a third key `c` evicts
/// `b`; `a` and `c` remain.
pub proof fn lemma_get_refreshes_recency<K, V>(a: K, av: V, b: K, bv: V, c: K, cv: V)
    requires
        a != b,
        a != c,
        b != c,
    ensures
        ({
            let s1 = lru_insert(Seq::<(K, V)>::empty(), 2, a, av);
            let s2 = lru_insert(s1, 2, b, bv);
            let s3 = lru_touch(s2, a);
            let s4 = lru_insert(s3, 2, c, cv);
            &&& has_key(s4, a)
            &&& has_key(s4, c)
            &&& !has_key(s4, b)
        }),
{
    let s0 = Seq::<(K, V)>::empty();
    let s1 = lru_insert(s0, 2, a, av);
    assert(!has_key(s0, a));
    assert(s1 =~= seq![(a, av)]);
    let s2 = lru_insert(s1, 2, b, bv);
    assert(!has_key(s1, b)) by {
        assert(s1[0].0 == a);
    }
    assert(s2 =~= seq![(b, bv), (a, av)]);
    let s3 = lru_touch(s2, a);
    assert(key_index(s2, a) == 1) by {
        assert(s2.drop_first() =~= seq![(a, av)]);
        assert(key_index(s2.drop_first(), a) == 0);
    }
    assert(s3 =~= seq![(a, av), (b, bv)]) by {
        assert(s2.remove(1) =~= seq![(b, bv)]);
        seq![(b, bv)].insert_ensures(0, (a, av));
    }
    let s4 = lru_insert(s3, 2, c, cv);
    assert(!has_key(s3, c)) by {
        assert(s3[0].0 == a && s3[1].0 == b);
    }
    let pushed = s3.insert(0, (c, cv));
    s3.insert_ensures(0, (c, cv));
    assert(pushed.len() == 3);
    assert(s4 =~= pushed.drop_last());
    assert(s4[0] == (c, cv) && s4[1] == (a, av));
    assert(s4.len() == 2);
    assert(has_key(s4, a));
    assert(has_key(s4, c));
    assert forall|j: int| 0 <= j < s4.len() implies s4[j].0 != b by {}
}

/// The store a well-formed provider holds after serving `request` on the
/// store `s` under capacity `cap`.
pub open spec fn step_state<K, V>(s: Seq<(K, V)>, cap: nat, request: ProviderRequest<K, V>) -> Seq<
    (K, V),
> {
    match request {
        ProviderRequest::Get(k) => if has_key(s, k) {
            lru_touch(s, k)
        } else {
            s
        },
        ProviderRequest::Insert(k, v) => lru_insert(s, cap, k, v),
    }
}

/// The lock invariant of the shared store: the guarded state is well
/// formed and has the capacity the provider was built with.
pub struct StorePred {
    pub capacity: nat,
}

impl<K: PartialEq, V> RwLockPredicate<LruState<K, V>> for StorePred {
    open spec fn inv(self, s: LruState<K, V>) -> bool {
        s.wf() && s.cap() == self.capacity
    }
}

/// The reference cache provider: a cheaply duplicable handle to a shared,
/// capacity-bounded, least-recently-used store. Every handle cloned from
/// this one answers against the same cache; each request is served
/// atomically under the store's lock, so concurrent callers interleave
/// without observing a partially applied update.
pub struct LruProvider<K: PartialEq, V> {
    inner: Arc<RwLock<LruState<K, V>, StorePred>>,
}

impl<K: PartialEq, V> LruProvider<K, V> {
    /// The bound on the number of entries of the shared store, fixed when
    /// the first handle was created.
    pub closed spec fn cap(self) -> nat {
        self.inner.pred().capacity
    }

    /// Create a provider over a fresh, empty store of the given capacity.
    /// Construction never fails; a capacity of zero caches nothing. Keys
    /// must compare by logical equality.
    pub fn new(capacity: usize) -> (provider: Self)
        requires
            vstd::laws_eq::obeys_concrete_eq::<K>(),
        ensures
            provider.cap() == capacity,
    {
        let state = LruState::<K, V>::new(capacity);
        let lock = RwLock::new(state, Ghost(StorePred { capacity: capacity as nat }));
        LruProvider { inner: Arc::new(lock) }
    }

    /// The capacity of the shared store, as every handle to it sees it.
    pub fn capacity(&self) -> (c: usize)
        ensures
            c == self.cap(),
    {
        let (state, handle) = self.inner.acquire_write();
        let c = state.capacity();
        handle.release_write(state);
        c
    }
}

impl<K: PartialEq, V: Clone> LruProvider<K, V> {
    /// Serve one protocol round trip against the shared store. The whole
    /// step — lookup, recency update, eviction — happens between acquiring
    /// and releasing the store's lock, so the response is the protocol's
    /// answer for the well-formed store this call observed, whatever other
    /// handles do concurrently.
    pub fn call(&self, request: ProviderRequest<K, V>) -> (response: ProviderResponse<V>)
        ensures
            exists|s: Seq<(K, V)>|
                {
                    &&& distinct_keys(s)
                    &&& s.len() <= self.cap()
                    &&& #[trigger] valid_response(s, request, response)
                },
    {
        let (mut state, handle) = self.inner.acquire_write();
        let response = state.call(request);
        handle.release_write(state);
        response
    }
}

impl<K: PartialEq, V> Clone for LruProvider<K, V> {
    /// Duplicate the handle, not the data: the copy shares the underlying
    /// store, so a value cached through one handle is served through the
    /// other.
    fn clone(&self) -> (res: Self)
        ensures
            res == *self,
    {
        LruProvider { inner: clone_arc(&self.inner) }
    }
}

/// Whether `response` is the answer the provider protocol demands for
/// `request` served on the store `s`: a `Get` is answered `Found` with a
/// clone of the cached value exactly when the key is present, and an
/// `Insert` is always answered `Found` with a clone of the inserted value,
/// never `NotFound`.
pub open spec fn valid_response<K, V: Clone>(
    s: Seq<(K, V)>,
    request: ProviderRequest<K, V>,
    response: ProviderResponse<V>,
) -> bool {
    match request {
        ProviderRequest::Get(k) => match response {
            ProviderResponse::Found(v) => has_key(s, k) && cloned::<V>(
                s[key_index(s, k)].1,
                v,
            ),
            ProviderResponse::NotFound => !has_key(s, k),
        },
        ProviderRequest::Insert(k, v) => match response {
            ProviderResponse::Found(w) => cloned::<V>(v, w),
            ProviderResponse::NotFound => false,
        },
    }
}

} // verus!
