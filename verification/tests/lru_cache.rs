use kv_database::lru_cache::LRUCache;

fn s(x: &str) -> String {
    x.to_string()
}

#[test]
fn get_after_put() {
    let mut c = LRUCache::new(2);
    assert_eq!(c.get(&s("a")), None);
    c.put(s("a"), s("1"));
    assert_eq!(c.get(&s("a")), Some(s("1")));
}

#[test]
fn put_replaces_value() {
    let mut c = LRUCache::new(2);
    c.put(s("a"), s("1"));
    c.put(s("a"), s("2"));
    assert_eq!(c.get(&s("a")), Some(s("2")));
}

#[test]
fn evicts_least_recently_used() {
    let mut c = LRUCache::new(2);
    c.put(s("a"), s("1"));
    c.put(s("b"), s("2"));
    // Reading `a` makes `b` the least recently used.
    assert_eq!(c.get(&s("a")), Some(s("1")));
    c.put(s("c"), s("3"));
    assert_eq!(c.get(&s("b")), None);
    assert_eq!(c.get(&s("a")), Some(s("1")));
    assert_eq!(c.get(&s("c")), Some(s("3")));
}

#[test]
fn update_counts_as_use() {
    let mut c = LRUCache::new(2);
    c.put(s("a"), s("1"));
    c.put(s("b"), s("2"));
    c.put(s("a"), s("9"));
    c.put(s("c"), s("3"));
    assert_eq!(c.get(&s("b")), None);
    assert_eq!(c.get(&s("a")), Some(s("9")));
}

#[test]
fn capacity_one() {
    let mut c = LRUCache::new(1);
    c.put(s("a"), s("1"));
    c.put(s("b"), s("2"));
    assert_eq!(c.get(&s("a")), None);
    assert_eq!(c.get(&s("b")), Some(s("2")));
}

#[test]
fn del_forgets_key() {
    let mut c = LRUCache::new(3);
    c.put(s("a"), s("1"));
    c.put(s("b"), s("2"));
    c.del(&s("a"));
    assert_eq!(c.get(&s("a")), None);
    assert_eq!(c.get(&s("b")), Some(s("2")));
    c.del(&s("missing"));
    // The freed slot is reused.
    c.put(s("c"), s("3"));
    c.put(s("d"), s("4"));
    assert_eq!(c.get(&s("b")), Some(s("2")));
    assert_eq!(c.get(&s("c")), Some(s("3")));
    assert_eq!(c.get(&s("d")), Some(s("4")));
}

#[test]
fn many_keys_keep_only_the_newest() {
    let mut c = LRUCache::new(3);
    for i in 0..10 {
        c.put(format!("k{i}"), format!("v{i}"));
    }
    for i in 0..7 {
        assert_eq!(c.get(&format!("k{i}")), None);
    }
    for i in 7..10 {
        assert_eq!(c.get(&format!("k{i}")), Some(format!("v{i}")));
    }
}
