use kv_database::store::{Db, HashMapWrapper, LRU_CAPACITY};

fn s(x: &str) -> String {
    x.to_string()
}

#[test]
fn insert_then_get() {
    let mut m = HashMapWrapper::new();
    assert_eq!(m.insert(s("a"), s("1")), None);
    assert_eq!(m.get(&s("a")), Some(s("1")));
    assert_eq!(m.insert(s("a"), s("2")), Some(s("1")));
    assert_eq!(m.get(&s("a")), Some(s("2")));
    assert_eq!(m.len(), 1);
}

#[test]
fn hits_and_misses() {
    let mut m = HashMapWrapper::new();
    assert_eq!((m.hits(), m.misses()), (0, 0));
    assert_eq!(m.get(&s("a")), None);
    assert_eq!((m.hits(), m.misses()), (0, 1));
    m.insert(s("a"), s("1"));
    // The insert put the value in the cache.
    assert_eq!(m.get(&s("a")), Some(s("1")));
    assert_eq!((m.hits(), m.misses()), (1, 1));
    assert!(m.contains_key(&s("a")));
    assert!(!m.contains_key(&s("b")));
    assert_eq!((m.hits(), m.misses()), (2, 2));
}

#[test]
fn value_outside_cache_is_found_in_map() {
    let mut m = HashMapWrapper::new();
    for i in 0..(LRU_CAPACITY + 5) {
        m.insert(format!("k{i}"), format!("v{i}"));
    }
    assert_eq!(m.len(), LRU_CAPACITY + 5);
    // `k0` has left the cache; the read finds it in the map (a hit) and
    // puts it back in the cache.
    assert_eq!(m.get(&s("k0")), Some(s("v0")));
    assert_eq!((m.hits(), m.misses()), (1, 0));
    assert_eq!(m.get(&s("k0")), Some(s("v0")));
    assert_eq!((m.hits(), m.misses()), (2, 0));
    assert_eq!(m.get(&s("nope")), None);
    assert_eq!((m.hits(), m.misses()), (2, 1));
}

#[test]
fn remove_then_get() {
    let mut m = HashMapWrapper::new();
    m.insert(s("a"), s("1"));
    assert_eq!(m.remove(&s("a")), Some(s("1")));
    assert_eq!(m.remove(&s("a")), None);
    assert_eq!(m.get(&s("a")), None);
    assert_eq!(m.len(), 0);
}

#[test]
fn clear_empties_map_and_cache() {
    let mut m = HashMapWrapper::new();
    m.insert(s("a"), s("1"));
    m.clear();
    assert_eq!(m.len(), 0);
    assert_eq!(m.get(&s("a")), None);
    assert!(!m.contains_key(&s("a")));
    assert_eq!(m.get(&s("b")), None);
}

#[test]
fn entries_lists_every_pair() {
    let mut m = HashMapWrapper::new();
    m.insert(s("a"), s("1"));
    m.insert(s("b"), s("2"));
    m.insert(s("a"), s("3"));
    let mut e = m.entries();
    e.sort();
    assert_eq!(e, vec![(s("a"), s("3")), (s("b"), s("2"))]);
}

#[test]
fn new_db_is_empty() {
    let db = Db::new();
    assert_eq!(db.kv_store.len(), 0);
    assert!(db.sorted_sets.all_sets().is_empty());
}
