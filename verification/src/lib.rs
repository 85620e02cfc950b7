//! A bounded key-value cache with least-recently-used eviction.
//!
//! The cache stores its entries in a single sequence ordered from least- to
//! most-recently touched; the key-to-value mapping and the recency order are
//! both views of that one sequence, so they can never disagree.

use vstd::prelude::*;

verus! {

/// The keys of a sequence of entries, least-recently touched first.
pub open spec fn keys_of(s: Seq<(u64, u64)>) -> Seq<u64> {
    s.map_values(|e: (u64, u64)| e.0)
}

/// No key occupies two positions.
pub open spec fn distinct_keys(s: Seq<(u64, u64)>) -> bool {
    forall|i: int, j: int| 0 <= i < j < s.len() ==> s[i].0 != s[j].0
}

/// Some position holds the key `k`.
pub open spec fn has_key(s: Seq<(u64, u64)>, k: u64) -> bool {
    exists|i: int| 0 <= i < s.len() && s[i].0 == k
}

/// The position holding `k`; meaningful only when `has_key(s, k)` and the
/// keys are distinct, in which case it is the unique such position.
pub open spec fn key_index(s: Seq<(u64, u64)>, k: u64) -> int {
    choose|i: int| 0 <= i < s.len() && #[trigger] s[i].0 == k
}

/// The value stored under `k`; meaningful only when `has_key(s, k)`.
pub open spec fn value_of(s: Seq<(u64, u64)>, k: u64) -> u64 {
    s[key_index(s, k)].1
}

/// The state a well-formed cache holding `s` under capacity `cap` satisfies:
/// the capacity is positive, at most `cap` entries are stored, and no key is
/// stored twice.
pub open spec fn wf_seq(s: Seq<(u64, u64)>, cap: nat) -> bool {
    &&& 1 <= cap
    &&& s.len() <= cap
    &&& distinct_keys(s)
}

/// In a sequence with distinct keys, `key_index` is the one position that
/// holds `k`.
pub proof fn lemma_key_index(s: Seq<(u64, u64)>, k: u64)
    requires
        distinct_keys(s),
        has_key(s, k),
    ensures
        0 <= key_index(s, k) < s.len(),
        s[key_index(s, k)].0 == k,
        forall|i: int| 0 <= i < s.len() && s[i].0 == k ==> i == key_index(s, k),
{
    let ci = key_index(s, k);
    assert(0 <= ci < s.len() && s[ci].0 == k);
    assert forall|i: int| 0 <= i < s.len() && s[i].0 == k implies i == ci by {
        if i < ci {
            assert(s[i].0 != s[ci].0);
        } else if ci < i {
            assert(s[ci].0 != s[i].0);
        }
    }
}

/// Appending an entry under a key not yet stored keeps the keys distinct.
pub proof fn lemma_push_fresh_distinct(s: Seq<(u64, u64)>, k: u64, v: u64)
    requires
        distinct_keys(s),
        !has_key(s, k),
    ensures
        distinct_keys(s.push((k, v))),
{
    let t = s.push((k, v));
    assert forall|i: int, j: int| 0 <= i < j < t.len() implies t[i].0 != t[j].0 by {
        if j == s.len() {
            assert(s[i].0 != k);
        }
    }
}

/// Removing a position keeps the keys distinct, introduces no key, and,
/// when the keys are distinct, removes the key that stood there.
pub proof fn lemma_remove_keeps_distinct(s: Seq<(u64, u64)>, i: int)
    requires
        distinct_keys(s),
        0 <= i < s.len(),
    ensures
        s.remove(i).len() == s.len() - 1,
        distinct_keys(s.remove(i)),
        forall|k2: u64| has_key(s.remove(i), k2) ==> has_key(s, k2),
        !has_key(s.remove(i), s[i].0),
{
    let t = s.remove(i);
    s.remove_ensures(i);
    assert forall|a: int, b: int| 0 <= a < b < t.len() implies t[a].0 != t[b].0 by {
        let a0: int = if a < i { a } else { a + 1 };
        let b0: int = if b < i { b } else { b + 1 };
        assert(t[a] == s[a0] && t[b] == s[b0]);
    }
    assert forall|k2: u64| has_key(t, k2) implies has_key(s, k2) by {
        let a = choose|a: int| 0 <= a < t.len() && t[a].0 == k2;
        let a0: int = if a < i { a } else { a + 1 };
        assert(s[a0].0 == k2);
    }
    assert forall|a: int| 0 <= a < t.len() implies t[a].0 != s[i].0 by {
        let a0: int = if a < i { a } else { a + 1 };
        assert(t[a] == s[a0] && a0 != i);
    }
}

/// The keys present after a push are the keys present before plus the
/// pushed one.
pub proof fn lemma_has_key_push(s: Seq<(u64, u64)>, e: (u64, u64))
    ensures
        forall|k2: u64| has_key(s.push(e), k2) <==> (has_key(s, k2) || k2 == e.0),
{
    let t = s.push(e);
    assert forall|k2: u64| has_key(t, k2) implies (has_key(s, k2) || k2 == e.0) by {
        let a = choose|a: int| 0 <= a < t.len() && t[a].0 == k2;
        if a < s.len() {
            assert(s[a].0 == k2);
        }
    }
    assert forall|k2: u64| has_key(s, k2) || k2 == e.0 implies has_key(t, k2) by {
        if has_key(s, k2) {
            let a = choose|a: int| 0 <= a < s.len() && s[a].0 == k2;
            assert(t[a].0 == k2);
        } else {
            assert(t[s.len() as int].0 == k2);
        }
    }
}

/// When the keys are distinct, removing a position removes exactly the key
/// that stood there.
pub proof fn lemma_has_key_remove(s: Seq<(u64, u64)>, i: int)
    requires
        distinct_keys(s),
        0 <= i < s.len(),
    ensures
        forall|k2: u64| has_key(s.remove(i), k2) <==> (has_key(s, k2) && k2 != s[i].0),
{
    let t = s.remove(i);
    s.remove_ensures(i);
    lemma_remove_keeps_distinct(s, i);
    assert forall|k2: u64| has_key(s, k2) && k2 != s[i].0 implies has_key(t, k2) by {
        let a = choose|a: int| 0 <= a < s.len() && s[a].0 == k2;
        if a < i {
            assert(t[a].0 == k2);
        } else {
            assert(t[a - 1] == s[a]);
        }
    }
    assert forall|k2: u64| has_key(t, k2) implies has_key(s, k2) && k2 != s[i].0 by {
        assert(!has_key(t, s[i].0));
    }
}

/// Every position of a sequence with distinct keys is the position that
/// `key_index` finds for its key.
pub proof fn lemma_value_witness(s: Seq<(u64, u64)>, i: int)
    requires
        distinct_keys(s),
        0 <= i < s.len(),
    ensures
        has_key(s, s[i].0),
        key_index(s, s[i].0) == i,
        value_of(s, s[i].0) == s[i].1,
{
    assert(has_key(s, s[i].0)) by {
        assert(0 <= i < s.len() && s[i].0 == s[i].0);
    }
    lemma_key_index(s, s[i].0);
}

/// Moving a present key to the most-recent end, with a (possibly new)
/// value, keeps the size and the key set, keeps every other value, and
/// leaves the key last in the order.
pub proof fn lemma_relocate(s: Seq<(u64, u64)>, k: u64, v: u64)
    requires
        distinct_keys(s),
        has_key(s, k),
    ensures
        ({
            let t = s.remove(key_index(s, k)).push((k, v));
            &&& t.len() == s.len()
            &&& distinct_keys(t)
            &&& (forall|k2: u64| has_key(t, k2) <==> has_key(s, k2))
            &&& key_index(t, k) == t.len() - 1
            &&& value_of(t, k) == v
            &&& (forall|k2: u64| k2 != k && has_key(s, k2) ==> value_of(t, k2) == value_of(s, k2))
            &&& keys_of(t).last() == k
        }),
{
    lemma_key_index(s, k);
    let ci = key_index(s, k);
    let r = s.remove(ci);
    let t = r.push((k, v));
    s.remove_ensures(ci);
    lemma_remove_keeps_distinct(s, ci);
    lemma_has_key_remove(s, ci);
    lemma_push_fresh_distinct(r, k, v);
    lemma_has_key_push(r, (k, v));
    lemma_value_witness(t, t.len() - 1);
    assert forall|k2: u64| k2 != k && has_key(s, k2) implies value_of(t, k2) == value_of(s, k2) by {
        lemma_key_index(s, k2);
        let a = key_index(s, k2);
        let a2: int = if a < ci { a } else { a - 1 };
        assert(t[a2] == s[a]);
        lemma_value_witness(t, a2);
        assert(value_of(s, k2) == s[a].1);
    }
    assert(keys_of(t).last() == t[t.len() - 1].0);
}

/// What `insert` does to the stored entries: an already-present key keeps
/// the cache's size and is moved, with its new value, to the most-recent
/// end; a fresh key is appended, after evicting the least-recent entry if
/// the cache is full.
pub open spec fn insert_spec(s: Seq<(u64, u64)>, cap: nat, k: u64, v: u64) -> Seq<(u64, u64)> {
    if has_key(s, k) {
        s.remove(key_index(s, k)).push((k, v))
    } else if s.len() < cap {
        s.push((k, v))
    } else {
        s.drop_first().push((k, v))
    }
}

/// What a successful `get` does to the stored entries: the touched key moves
/// to the most-recent end, keeping its value; a miss changes nothing.
pub open spec fn touch_spec(s: Seq<(u64, u64)>, k: u64) -> Seq<(u64, u64)> {
    if has_key(s, k) {
        s.remove(key_index(s, k)).push((k, value_of(s, k)))
    } else {
        s
    }
}

/// The lookup view of a sequence of entries: each stored key mapped to its
/// value.
pub open spec fn map_of(s: Seq<(u64, u64)>) -> Map<u64, u64> {
    Map::new(|k: u64| has_key(s, k), |k: u64| value_of(s, k))
}

/// The lookup view and the recency order describe the same keys: the
/// mapping's domain is exactly the set of ordered keys, the order repeats
/// no key, and both views have the cache's size.
pub proof fn lemma_views_agree(s: Seq<(u64, u64)>)
    requires
        distinct_keys(s),
    ensures
        map_of(s).dom() =~= keys_of(s).to_set(),
        keys_of(s).no_duplicates(),
        keys_of(s).len() == s.len(),
        map_of(s).dom().len() == s.len(),
{
    assert forall|k2: u64| map_of(s).dom().contains(k2) implies keys_of(s).to_set().contains(
        k2,
    ) by {
        let a = choose|a: int| 0 <= a < s.len() && s[a].0 == k2;
        assert(keys_of(s)[a] == k2);
    }
    assert forall|k2: u64| keys_of(s).to_set().contains(k2) implies map_of(s).dom().contains(
        k2,
    ) by {
        let a = choose|a: int| 0 <= a < keys_of(s).len() && keys_of(s)[a] == k2;
        assert(s[a].0 == k2);
    }
    assert(keys_of(s).no_duplicates());
    keys_of(s).unique_seq_to_set();
    assert(map_of(s).dom() =~= keys_of(s).to_set());
}

/// A well-formed cache never holds more than its capacity, and when a
/// fresh key is admitted into a full cache, the key evicted is exactly the
/// least-recently-touched one: the front of the order.
pub proof fn lemma_capacity_bound(s: Seq<(u64, u64)>, cap: nat, k: u64, v: u64)
    requires
        wf_seq(s, cap),
    ensures
        insert_spec(s, cap, k, v).len() <= cap,
        s.len() == cap && !has_key(s, k) ==> ({
            let t = insert_spec(s, cap, k, v);
            &&& t.len() == cap
            &&& !has_key(t, s[0].0)
            &&& has_key(t, k)
            &&& forall|k2: u64| has_key(t, k2) <==> ((has_key(s, k2) && k2 != s[0].0) || k2 == k)
        }),
{
    if has_key(s, k) {
        lemma_relocate(s, k, v);
    } else if s.len() == cap {
        let t = insert_spec(s, cap, k, v);
        assert(s.drop_first() =~= s.remove(0));
        lemma_remove_keeps_distinct(s, 0);
        lemma_has_key_remove(s, 0);
        lemma_has_key_push(s.remove(0), (k, v));
        assert(s[0].0 != k);
    }
}

/// Touching a present key keeps the cache's size and every stored value,
/// and moves the key to the most-recent end of the order.
pub proof fn lemma_touch(s: Seq<(u64, u64)>, k: u64)
    requires
        distinct_keys(s),
        has_key(s, k),
    ensures
        touch_spec(s, k).len() == s.len(),
        distinct_keys(touch_spec(s, k)),
        map_of(touch_spec(s, k)) =~= map_of(s),
        keys_of(touch_spec(s, k)).last() == k,
{
    lemma_relocate(s, k, value_of(s, k));
    let t = touch_spec(s, k);
    assert forall|k2: u64| map_of(t).dom().contains(k2) implies map_of(t)[k2] == map_of(s)[k2] by {
        if k2 != k {
            assert(value_of(t, k2) == value_of(s, k2));
        }
    }
}

/// After a touch the touched key occupies exactly one position in the
/// recency order.
pub proof fn lemma_touch_single_entry(s: Seq<(u64, u64)>, k: u64)
    requires
        distinct_keys(s),
        has_key(s, k),
    ensures
        ({
            let t = touch_spec(s, k);
            &&& has_key(t, k)
            &&& forall|i: int, j: int|
                0 <= i < t.len() && 0 <= j < t.len() && t[i].0 == k && t[j].0 == k ==> i == j
        }),
{
    lemma_relocate(s, k, value_of(s, k));
    let t = touch_spec(s, k);
    assert forall|i: int, j: int|
        0 <= i < t.len() && 0 <= j < t.len() && t[i].0 == k && t[j].0 == k implies i == j by {
        if i < j {
            assert(t[i].0 != t[j].0);
        } else if j < i {
            assert(t[j].0 != t[i].0);
        }
    }
}

/// Touching a key twice is the same as touching it once: the second touch
/// relocates an entry that already sits at the most-recent end.
pub proof fn lemma_touch_idempotent(s: Seq<(u64, u64)>, k: u64)
    requires
        distinct_keys(s),
    ensures
        touch_spec(touch_spec(s, k), k) == touch_spec(s, k),
{
    if has_key(s, k) {
        lemma_key_index(s, k);
        lemma_relocate(s, k, value_of(s, k));
        let t = touch_spec(s, k);
        let last = t.len() - 1;
        assert(t[last] == (k, value_of(s, k)));
        lemma_value_witness(t, last);
        assert(t.remove(last).push((k, value_of(t, k))) =~= t);
    }
}

/// Inserting under an already-present key replaces its value and nothing
/// else: the size is unchanged, no key is evicted, and every other value
/// is kept.
pub proof fn lemma_overwrite(s: Seq<(u64, u64)>, cap: nat, k: u64, v: u64)
    requires
        wf_seq(s, cap),
        has_key(s, k),
    ensures
        ({
            let t = insert_spec(s, cap, k, v);
            &&& t.len() == s.len()
            &&& has_key(t, k)
            &&& value_of(t, k) == v
            &&& (forall|k2: u64| has_key(t, k2) <==> has_key(s, k2))
            &&& (forall|k2: u64| k2 != k && has_key(s, k2) ==> value_of(t, k2) == value_of(s, k2))
        }),
{
    lemma_relocate(s, k, v);
}

/// A bounded key-value cache that evicts the least-recently-used entry.
///
/// Entries are held from least- to most-recently touched; a key's position
/// in that order is found by search, so every operation manipulates one
/// structure and the lookup mapping and the recency order cannot drift
/// apart.
pub struct LRU {
    capacity: usize,
    entries: Vec<(u64, u64)>,
}

impl View for LRU {
    type V = Seq<(u64, u64)>;

    /// The stored entries, least-recently touched first.
    closed spec fn view(&self) -> Seq<(u64, u64)> {
        self.entries@
    }
}

impl LRU {
    /// The capacity fixed at construction.
    pub closed spec fn cap(&self) -> nat {
        self.capacity as nat
    }

    /// The cache's invariant: positive capacity, at most `cap()` entries,
    /// no key stored twice.
    pub open spec fn wf(&self) -> bool {
        wf_seq(self@, self.cap())
    }

    /// The cache's lookup view: each stored key mapped to its value.
    pub open spec fn as_map(&self) -> Map<u64, u64> {
        map_of(self@)
    }

    /// Creates an empty cache that will hold at most `capacity` entries.
    pub fn new(capacity: usize) -> (r: Self)
        requires
            1 <= capacity,
        ensures
            r.wf(),
            r@ == Seq::<(u64, u64)>::empty(),
            r.cap() == capacity,
    {
        LRU { capacity, entries: Vec::new() }
    }

    /// The position of `key` among the entries, if it is stored.
    fn find(&self, key: u64) -> (r: Option<usize>)
        ensures
            match r {
                Some(i) => {
                    &&& i < self@.len()
                    &&& self@[i as int].0 == key
                    &&& forall|j: int| 0 <= j < i ==> self@[j].0 != key
                },
                None => !has_key(self@, key),
            },
    {
        let mut i: usize = 0;
        while i < self.entries.len()
            invariant
                i <= self@.len(),
                forall|j: int| 0 <= j < i ==> self@[j].0 != key,
            decreases self@.len() - i,
        {
            if self.entries[i].0 == key {
                return Some(i);
            }
            i = i + 1;
        }
        None
    }

    /// Stores `value` under `key` and makes `key` the most recently used.
    ///
    /// A key already present keeps the cache's size and has its value
    /// replaced; a fresh key is appended, and if the cache is full the
    /// least-recently-used entry is evicted first.
    pub fn insert(&mut self, key: u64, value: u64)
        requires
            old(self).wf(),
        ensures
            final(self).wf(),
            final(self).cap() == old(self).cap(),
            final(self)@ == insert_spec(old(self)@, old(self).cap(), key, value),
    {
        let ghost s = self@;
        match self.find(key) {
            Some(i) => {
                proof {
                    assert(has_key(s, key));
                    lemma_key_index(s, key);
                    lemma_remove_keeps_distinct(s, i as int);
                    lemma_push_fresh_distinct(s.remove(i as int), key, value);
                }
                self.entries.remove(i);
                self.entries.push((key, value));
            }
            None => {
                if self.entries.len() == self.capacity {
                    proof {
                        lemma_remove_keeps_distinct(s, 0);
                        lemma_push_fresh_distinct(s.remove(0), key, value);
                        assert(s.remove(0) =~= s.drop_first());
                    }
                    self.entries.remove(0);
                    self.entries.push((key, value));
                } else {
                    proof {
                        lemma_push_fresh_distinct(s, key, value);
                    }
                    self.entries.push((key, value));
                }
            }
        }
    }

    /// Returns the value stored under `key`, touching the key: a hit moves
    /// it to the most-recent end of the order without changing its value or
    /// the cache's size; a miss changes nothing.
    pub fn get(&mut self, key: u64) -> (r: Option<u64>)
        requires
            old(self).wf(),
        ensures
            final(self).wf(),
            final(self).cap() == old(self).cap(),
            final(self)@ == touch_spec(old(self)@, key),
            has_key(old(self)@, key) ==> r == Some(value_of(old(self)@, key)),
            !has_key(old(self)@, key) ==> r == None::<u64>,
    {
        let ghost s = self@;
        match self.find(key) {
            Some(i) => {
                proof {
                    assert(has_key(s, key));
                    lemma_key_index(s, key);
                    lemma_remove_keeps_distinct(s, i as int);
                    lemma_push_fresh_distinct(s.remove(i as int), key, s[i as int].1);
                }
                let e = self.entries.remove(i);
                self.entries.push(e);
                Some(e.1)
            }
            None => None,
        }
    }

    /// The number of entries currently stored.
    pub fn len(&self) -> (r: usize)
        ensures
            r == self@.len(),
    {
        self.entries.len()
    }

    /// Whether `key` is currently stored. Probing does not count as a
    /// touch: the recency order is left as it is.
    pub fn contains(&self, key: u64) -> (r: bool)
        ensures
            r == has_key(self@, key),
    {
        match self.find(key) {
            Some(_) => {
                proof {
                    assert(has_key(self@, key));
                }
                true
            }
            None => false,
        }
    }

    /// The capacity fixed at construction.
    pub fn capacity(&self) -> (r: usize)
        ensures
            r == self.cap(),
    {
        self.capacity
    }

    /// The stored keys from least- to most-recently touched, without
    /// touching any of them.
    pub fn order(&self) -> (r: Vec<u64>)
        ensures
            r@ == keys_of(self@),
    {
        let mut r: Vec<u64> = Vec::new();
        let mut i: usize = 0;
        while i < self.entries.len()
            invariant
                i <= self@.len(),
                r@ == keys_of(self@).take(i as int),
            decreases self@.len() - i,
        {
            r.push(self.entries[i].0);
            proof {
                assert(r@ =~= keys_of(self@).take(i + 1));
            }
            i = i + 1;
        }
        proof {
            assert(keys_of(self@).take(self@.len() as int) =~= keys_of(self@));
        }
        r
    }
}

} // verus!
