//! The key-value store: a map of strings with an LRU cache in front of it
//! and hit/miss statistics, and the database that pairs it with the sorted
//! sets.
use vstd::prelude::*;
use std::collections::HashMap;
use crate::sorted_set_store::SortedSetStore;
use crate::lru_cache::{
    Entries, LRUCache, has_key, keys_distinct, lru_del, lru_lookup, lru_put, lru_touch,
};

verus! {

/// The contents of a map of strings, by the contents of its keys and values.
pub uninterp spec fn kv_contents(m: HashMap<String, String>) -> Map<Seq<char>, Seq<char>>;

/// No keys.
pub open spec fn empty_contents() -> Map<Seq<char>, Seq<char>> {
    Map::empty()
}

/// Calls `HashMap::new`.  Claimed: the map is empty.
#[verifier::external_body]
fn kv_new() -> (r: HashMap<String, String>)
    ensures
        kv_contents(r) == empty_contents(),
{
    HashMap::new()
}

/// Calls `HashMap::len`.  Claimed: the number of keys.
#[verifier::external_body]
fn kv_len(m: &HashMap<String, String>) -> (r: usize)
    ensures
        r == kv_contents(*m).len(),
{
    m.len()
}

/// Calls `HashMap::get` (and clones the value).  Claimed: the value of
/// `k`, if it is a key.
#[verifier::external_body]
fn kv_get(m: &HashMap<String, String>, k: &String) -> (r: Option<String>)
    ensures
        match r {
            Some(v) => kv_contents(*m).contains_key(k@) && v@ == kv_contents(*m)[k@],
            None => !kv_contents(*m).contains_key(k@),
        },
{
    m.get(k).cloned()
}

/// Calls `HashMap::insert`.  Claimed: `k` now maps to `v`, nothing else
/// changes, and the previous value of `k` is returned.
#[verifier::external_body]
fn kv_insert(m: &mut HashMap<String, String>, k: String, v: String) -> (r: Option<String>)
    ensures
        kv_contents(*final(m)) == kv_contents(*old(m)).insert(k@, v@),
        match r {
            Some(x) => kv_contents(*old(m)).contains_key(k@) && x@ == kv_contents(*old(m))[k@],
            None => !kv_contents(*old(m)).contains_key(k@),
        },
{
    m.insert(k, v)
}

/// Calls `HashMap::remove`.  Claimed: `k` is no longer a key, nothing else
/// changes, and its value is returned.
#[verifier::external_body]
fn kv_remove(m: &mut HashMap<String, String>, k: &String) -> (r: Option<String>)
    ensures
        kv_contents(*final(m)) == kv_contents(*old(m)).remove(k@),
        match r {
            Some(x) => kv_contents(*old(m)).contains_key(k@) && x@ == kv_contents(*old(m))[k@],
            None => !kv_contents(*old(m)).contains_key(k@),
        },
{
    m.remove(k)
}

/// Calls `HashMap::clear`.  Claimed: the map is empty.
#[verifier::external_body]
fn kv_clear(m: &mut HashMap<String, String>)
    ensures
        kv_contents(*final(m)) == empty_contents(),
{
    m.clear()
}

/// `kvs` lists every key-value pair of `m` once.
pub open spec fn lists_kv(kvs: Seq<(String, String)>, m: Map<Seq<char>, Seq<char>>) -> bool {
    &&& kvs.len() == m.len()
    &&& forall|i: int| 0 <= i < kvs.len() ==> m.contains_key((#[trigger] kvs[i]).0@) && m[kvs[i].0@] == kvs[i].1@
    &&& forall|i: int, j: int| 0 <= i < j < kvs.len() ==> (#[trigger] kvs[i]).0@ != (#[trigger] kvs[j]).0@
    &&& forall|k: Seq<char>| #[trigger] m.contains_key(k) ==> exists|i: int| 0 <= i < kvs.len() && (#[trigger] kvs[i]).0@ == k
}

/// Calls `HashMap::iter` (and clones each entry).  Claimed: each key-value
/// pair of the map once, in an order that is left open (it depends on the
/// hasher's seed).
#[verifier::external_body]
fn kv_entries(m: &HashMap<String, String>) -> (r: Vec<(String, String)>)
    ensures
        lists_kv(r@, kv_contents(*m)),
{
    m.iter().map(|(k, v)| (k.clone(), v.clone())).collect()
}

/// How many entries the cache in front of the store holds.
pub const LRU_CAPACITY: usize = 50;

/// A map of strings with an LRU cache in front of it.
pub struct HashMapWrapper {
    map: HashMap<String, String>,
    cache: LRUCache,
    hits: usize,
    misses: usize,
}

/// What a read of `key` finds: the cache's value, else the map's.
pub open spec fn kv_read(map: Map<Seq<char>, Seq<char>>, cache: Entries, key: Seq<char>) -> Option<Seq<char>> {
    match lru_lookup(cache, key) {
        Some(v) => Some(v),
        None => if map.contains_key(key) {
            Some(map[key])
        } else {
            None
        },
    }
}

/// The cache after a read of `key`: a cache hit touches the entry, a value
/// found only in the map enters the cache.
pub open spec fn kv_cache_after_read(map: Map<Seq<char>, Seq<char>>, cache: Entries, key: Seq<char>) -> Entries {
    match lru_lookup(cache, key) {
        Some(_) => lru_touch(cache, key),
        None => if map.contains_key(key) {
            lru_put(cache, key, map[key], LRU_CAPACITY as nat)
        } else {
            cache
        },
    }
}

/// The map's value for `key`.
pub open spec fn kv_lookup(map: Map<Seq<char>, Seq<char>>, key: Seq<char>) -> Option<Seq<char>> {
    if map.contains_key(key) {
        Some(map[key])
    } else {
        None
    }
}

/// Every cached entry agrees with the map.
pub open spec fn cache_agrees(map: Map<Seq<char>, Seq<char>>, cache: Entries) -> bool {
    forall|i: int|
        0 <= i < cache.len() ==> map.contains_key((#[trigger] cache[i]).0) && map[cache[i].0] == cache[i].1
}

impl HashMapWrapper {
    /// The contents of the map.
    pub closed spec fn map_view(&self) -> Map<Seq<char>, Seq<char>> {
        kv_contents(self.map)
    }

    /// The entries of the cache, most recently used first.
    pub closed spec fn cache_view(&self) -> Entries {
        self.cache@
    }

    pub closed spec fn spec_hits(&self) -> nat {
        self.hits as nat
    }

    pub closed spec fn spec_misses(&self) -> nat {
        self.misses as nat
    }

    pub closed spec fn wf(&self) -> bool {
        &&& self.cache.wf()
        &&& self.cache.spec_capacity() == LRU_CAPACITY
        &&& self.map_view().dom().finite()
        &&& cache_agrees(self.map_view(), self.cache_view())
    }

    /// What well-formedness gives callers: the cache holds distinct keys
    /// within its capacity and agrees with the map, which is finite.
    pub proof fn lemma_wf(&self)
        requires
            self.wf(),
        ensures
            keys_distinct(self.cache_view()),
            self.cache_view().len() <= LRU_CAPACITY,
            self.map_view().dom().finite(),
            cache_agrees(self.map_view(), self.cache_view()),
    {
        self.cache.lemma_wf();
    }

    /// An empty store.
    pub fn new() -> (r: Self)
        ensures
            r.wf(),
            r.map_view() == Map::<Seq<char>, Seq<char>>::empty(),
            r.cache_view() == Entries::empty(),
            r.spec_hits() == 0,
            r.spec_misses() == 0,
    {
        Self { map: kv_new(), cache: LRUCache::new(LRU_CAPACITY), hits: 0, misses: 0 }
    }

    /// The number of keys in the map.
    pub fn len(&self) -> (r: usize)
        requires
            self.wf(),
        ensures
            r == self.map_view().len(),
    {
        kv_len(&self.map)
    }

    /// How many lookups found their key.
    pub fn hits(&self) -> (r: usize)
        ensures
            r == self.spec_hits(),
    {
        self.hits
    }

    /// How many lookups missed.
    pub fn misses(&self) -> (r: usize)
        ensures
            r == self.spec_misses(),
    {
        self.misses
    }

    /// The cache's entry for `key` if it has one, else the map's (which then
    /// enters the cache); counts a hit or a miss.
    pub fn get(&mut self, key: &String) -> (r: Option<String>)
        requires
            old(self).wf(),
            kv_read(old(self).map_view(), old(self).cache_view(), key@) is Some ==> old(self).spec_hits() < usize::MAX,
            kv_read(old(self).map_view(), old(self).cache_view(), key@) is None ==> old(self).spec_misses() < usize::MAX,
        ensures
            final(self).wf(),
            final(self).map_view() == old(self).map_view(),
            final(self).cache_view() == kv_cache_after_read(old(self).map_view(), old(self).cache_view(), key@),
            kv_read(old(self).map_view(), old(self).cache_view(), key@) == kv_lookup(old(self).map_view(), key@),
            match kv_read(old(self).map_view(), old(self).cache_view(), key@) {
                Some(v) => {
                    &&& r matches Some(x) && x@ == v
                    &&& final(self).spec_hits() == old(self).spec_hits() + 1
                    &&& final(self).spec_misses() == old(self).spec_misses()
                },
                None => {
                    &&& r is None
                    &&& final(self).spec_hits() == old(self).spec_hits()
                    &&& final(self).spec_misses() == old(self).spec_misses() + 1
                },
            },
    {
        proof {
            self.cache.lemma_wf();
            law_cache_transparent(self.map_view(), self.cache_view(), key@);
            law_agreement_kept(self.map_view(), self.cache_view(), key@, key@);
        }
        if let Some(value) = self.cache.get(key) {
            self.hits = self.hits + 1;
            return Some(value);
        }
        match kv_get(&self.map, key) {
            Some(value) => {
                self.hits = self.hits + 1;
                self.cache.put(key.clone(), value.clone());
                Some(value)
            },
            None => {
                self.misses = self.misses + 1;
                None
            },
        }
    }

    /// Whether `key` is in the store, found as `get` finds it.
    pub fn contains_key(&mut self, key: &String) -> (r: bool)
        requires
            old(self).wf(),
            kv_read(old(self).map_view(), old(self).cache_view(), key@) is Some ==> old(self).spec_hits() < usize::MAX,
            kv_read(old(self).map_view(), old(self).cache_view(), key@) is None ==> old(self).spec_misses() < usize::MAX,
        ensures
            final(self).wf(),
            final(self).map_view() == old(self).map_view(),
            final(self).cache_view() == kv_cache_after_read(old(self).map_view(), old(self).cache_view(), key@),
            r == kv_read(old(self).map_view(), old(self).cache_view(), key@) is Some,
            r == old(self).map_view().contains_key(key@),
            r ==> final(self).spec_hits() == old(self).spec_hits() + 1 && final(self).spec_misses()
                == old(self).spec_misses(),
            !r ==> final(self).spec_misses() == old(self).spec_misses() + 1 && final(self).spec_hits()
                == old(self).spec_hits(),
    {
        proof {
            self.cache.lemma_wf();
            law_cache_transparent(self.map_view(), self.cache_view(), key@);
            law_agreement_kept(self.map_view(), self.cache_view(), key@, key@);
        }
        if let Some(_) = self.cache.get(key) {
            self.hits = self.hits + 1;
            return true;
        }
        match kv_get(&self.map, key) {
            Some(value) => {
                self.hits = self.hits + 1;
                self.cache.put(key.clone(), value);
                true
            },
            None => {
                self.misses = self.misses + 1;
                false
            },
        }
    }

    /// Sets `key` to `value` in the map and the cache; returns the map's
    /// previous value.
    pub fn insert(&mut self, key: String, value: String) -> (r: Option<String>)
        requires
            old(self).wf(),
        ensures
            final(self).wf(),
            final(self).map_view() == old(self).map_view().insert(key@, value@),
            final(self).cache_view() == lru_put(old(self).cache_view(), key@, value@, LRU_CAPACITY as nat),
            final(self).spec_hits() == old(self).spec_hits(),
            final(self).spec_misses() == old(self).spec_misses(),
            match r {
                Some(v) => old(self).map_view().contains_key(key@) && v@ == old(self).map_view()[key@],
                None => !old(self).map_view().contains_key(key@),
            },
    {
        proof {
            self.cache.lemma_wf();
            law_agreement_kept(self.map_view(), self.cache_view(), key@, value@);
        }
        self.cache.put(key.clone(), value.clone());
        kv_insert(&mut self.map, key, value)
    }

    /// Removes `key` from the cache and the map; returns the map's value.
    pub fn remove(&mut self, key: &String) -> (r: Option<String>)
        requires
            old(self).wf(),
        ensures
            final(self).wf(),
            final(self).map_view() == old(self).map_view().remove(key@),
            final(self).cache_view() == lru_del(old(self).cache_view(), key@),
            final(self).spec_hits() == old(self).spec_hits(),
            final(self).spec_misses() == old(self).spec_misses(),
            match r {
                Some(v) => old(self).map_view().contains_key(key@) && v@ == old(self).map_view()[key@],
                None => !old(self).map_view().contains_key(key@),
            },
    {
        proof {
            self.cache.lemma_wf();
            law_agreement_kept(self.map_view(), self.cache_view(), key@, key@);
        }
        self.cache.del(key);
        kv_remove(&mut self.map, key)
    }

    /// Every key-value pair of the map once, in an order that is left open.
    pub fn entries(&self) -> (r: Vec<(String, String)>)
        ensures
            lists_kv(r@, self.map_view()),
    {
        kv_entries(&self.map)
    }

    /// Empties the map and the cache.
    pub fn clear(&mut self)
        requires
            old(self).wf(),
        ensures
            final(self).wf(),
            final(self).map_view() == Map::<Seq<char>, Seq<char>>::empty(),
            final(self).cache_view() == Entries::empty(),
            final(self).spec_hits() == old(self).spec_hits(),
            final(self).spec_misses() == old(self).spec_misses(),
    {
        kv_clear(&mut self.map);
        self.cache.clear();
    }
}

impl Default for HashMapWrapper {
    fn default() -> (r: Self)
        ensures
            r.wf(),
            r.map_view() == Map::<Seq<char>, Seq<char>>::empty(),
            r.cache_view() == Entries::empty(),
            r.spec_hits() == 0,
            r.spec_misses() == 0,
    {
        Self::new()
    }
}


/// While the cache agrees with the map, a read gives the map's value: the
/// cache changes how fast a read is, not what it gives back.
pub proof fn law_cache_transparent(map: Map<Seq<char>, Seq<char>>, cache: Entries, k: Seq<char>)
    requires
        cache_agrees(map, cache),
    ensures
        kv_read(map, cache, k) == (if map.contains_key(k) {
            Some(map[k])
        } else {
            None
        }),
{
    if has_key(cache, k) {
        let i = crate::lru_cache::key_index(cache, k);
        assert(map.contains_key(cache[i].0));
    }
}

/// Every operation but `clear` keeps the cache in agreement with the map.
pub proof fn law_agreement_kept(map: Map<Seq<char>, Seq<char>>, cache: Entries, k: Seq<char>, v: Seq<char>)
    requires
        cache_agrees(map, cache),
        keys_distinct(cache),
    ensures
        cache_agrees(map.insert(k, v), lru_put(cache, k, v, LRU_CAPACITY as nat)),
        cache_agrees(map.remove(k), lru_del(cache, k)),
        cache_agrees(map, lru_touch(cache, k)),
        map.contains_key(k) ==> cache_agrees(map, lru_put(cache, k, map[k], LRU_CAPACITY as nat)),
{
    crate::lru_cache::lemma_entries_from(cache, k, v, LRU_CAPACITY as nat);
    let r = lru_put(cache, k, v, LRU_CAPACITY as nat);
    assert forall|i: int| 0 <= i < r.len() implies map.insert(k, v).contains_key((#[trigger] r[i]).0)
        && map.insert(k, v)[r[i].0] == r[i].1 by {
        if i > 0 {
            let j = cache.index_of(r[i]);
            assert(cache[j] == r[i]);
        }
    }
    let d = lru_del(cache, k);
    assert forall|i: int| 0 <= i < d.len() implies map.remove(k).contains_key((#[trigger] d[i]).0)
        && map.remove(k)[d[i].0] == d[i].1 by {
        let j = cache.index_of(d[i]);
        assert(cache[j] == d[i]);
    }
    let t = lru_touch(cache, k);
    assert forall|i: int| 0 <= i < t.len() implies map.contains_key((#[trigger] t[i]).0) && map[t[i].0] == t[i].1 by {
        let j = cache.index_of(t[i]);
        assert(cache[j] == t[i]);
    }
    if map.contains_key(k) {
        crate::lru_cache::lemma_entries_from(cache, k, map[k], LRU_CAPACITY as nat);
        let r2 = lru_put(cache, k, map[k], LRU_CAPACITY as nat);
        assert forall|i: int| 0 <= i < r2.len() implies map.contains_key((#[trigger] r2[i]).0) && map[r2[i].0] == r2[i].1 by {
            if i > 0 {
                let j = cache.index_of(r2[i]);
                assert(cache[j] == r2[i]);
            }
        }
    }
}

/// A value just inserted is what the next `get` of its key returns.
pub proof fn law_insert_then_get(map: Map<Seq<char>, Seq<char>>, cache: Entries, k: Seq<char>, v: Seq<char>)
    requires
        keys_distinct(cache),
    ensures
        kv_read(map.insert(k, v), lru_put(cache, k, v, LRU_CAPACITY as nat), k) == Some(v),
{
    crate::lru_cache::law_put_then_lookup(cache, k, v, LRU_CAPACITY as nat);
}

/// After a key is removed, `get` finds nothing for it.
pub proof fn law_remove_then_get(map: Map<Seq<char>, Seq<char>>, cache: Entries, k: Seq<char>)
    requires
        keys_distinct(cache),
    ensures
        kv_read(map.remove(k), lru_del(cache, k), k) is None,
{
    crate::lru_cache::law_touch_and_del(cache, k);
}

/// After `clear`, `get` finds nothing.
pub proof fn law_clear_then_get(k: Seq<char>)
    ensures
        kv_read(Map::empty(), Entries::empty(), k) is None,
{
}


/// The whole database: the key-value store and the sorted sets.
pub struct Db {
    pub kv_store: HashMapWrapper,
    pub sorted_sets: SortedSetStore,
}

impl Db {
    pub open spec fn wf(&self) -> bool {
        self.kv_store.wf() && self.sorted_sets.wf()
    }

    /// An empty database.
    pub fn new() -> (r: Self)
        ensures
            r.wf(),
            r.kv_store.map_view() == Map::<Seq<char>, Seq<char>>::empty(),
            r.kv_store.cache_view() == Entries::empty(),
            r.kv_store.spec_hits() == 0,
            r.kv_store.spec_misses() == 0,
            r.sorted_sets.view_sets() == Map::<Seq<char>, crate::sorted_set_store::SetEntries>::empty(),
    {
        Self { kv_store: HashMapWrapper::new(), sorted_sets: SortedSetStore::new() }
    }
}

} // verus!
