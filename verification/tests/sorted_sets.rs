use kv_database::sorted_set::SkipList;
use kv_database::sorted_set_store::{SortedSetStore, TREE_HEIGHT};

fn s(x: &str) -> String {
    x.to_string()
}

fn b(x: f64) -> u64 {
    x.to_bits()
}

fn members(l: &SkipList) -> Vec<(String, f64)> {
    l.iter_all().into_iter().map(|(m, sc)| (m, f64::from_bits(sc))).collect()
}

#[test]
fn skip_list_orders_by_score_then_member() {
    let mut l = SkipList::new(TREE_HEIGHT);
    assert!(l.is_empty());
    l.insert(s("b"), b(2.0));
    l.insert(s("c"), b(1.0));
    l.insert(s("a"), b(1.0));
    l.insert(s("neg"), b(-3.5));
    assert!(!l.is_empty());
    assert_eq!(l.len(), 4);
    assert_eq!(members(&l), vec![(s("neg"), -3.5), (s("a"), 1.0), (s("c"), 1.0), (s("b"), 2.0)]);
    assert_eq!(l.get(&s("c")), Some(&b(1.0)));
    assert_eq!(l.get(&s("zz")), None);
}

#[test]
fn skip_list_special_scores() {
    let mut l = SkipList::new(4);
    l.insert(s("nan"), b(f64::NAN));
    l.insert(s("inf"), b(f64::INFINITY));
    l.insert(s("minf"), b(f64::NEG_INFINITY));
    l.insert(s("zero"), b(0.0));
    let names: Vec<String> = l.iter_all().into_iter().map(|(m, _)| m).collect();
    assert_eq!(names, vec![s("minf"), s("zero"), s("inf"), s("nan")]);
}

#[test]
fn skip_list_reinsert_moves_member() {
    let mut l = SkipList::new(TREE_HEIGHT);
    l.insert(s("x"), b(1.0));
    l.insert(s("y"), b(2.0));
    l.insert(s("x"), b(3.0));
    assert_eq!(members(&l), vec![(s("y"), 2.0), (s("x"), 3.0)]);
    // An equal score (0.0 and -0.0 are equal) leaves the entry as it is.
    l.insert(s("z"), b(0.0));
    l.insert(s("z"), b(-0.0));
    assert_eq!(l.get(&s("z")), Some(&b(0.0)));
    assert_eq!(l.len(), 3);
}

#[test]
fn skip_list_remove() {
    let mut l = SkipList::new(TREE_HEIGHT);
    for (i, m) in ["a", "b", "c", "d"].iter().enumerate() {
        l.insert(s(m), b(i as f64));
    }
    assert_eq!(l.remove(&s("b")), Some(b(1.0)));
    assert_eq!(l.remove(&s("b")), None);
    assert_eq!(members(&l), vec![(s("a"), 0.0), (s("c"), 2.0), (s("d"), 3.0)]);
    for m in ["a", "c", "d"] {
        l.remove(&s(m));
    }
    assert!(l.is_empty());
    l.insert(s("again"), b(5.0));
    assert_eq!(members(&l), vec![(s("again"), 5.0)]);
}

#[test]
fn skip_list_range_by_rank() {
    let mut l = SkipList::new(TREE_HEIGHT);
    for i in 0..20 {
        l.insert(format!("m{i:02}"), b(i as f64));
    }
    assert_eq!(l.range(1, 3), vec![(1, s("m00")), (2, s("m01")), (3, s("m02"))]);
    assert_eq!(l.range(20, 20), vec![(20, s("m19"))]);
    // Rank 0 counts as rank 1.
    assert_eq!(l.range(0, 1), vec![(0, s("m00")), (1, s("m01"))]);
}

#[test]
fn skip_list_matches_sorted_model() {
    let mut l = SkipList::new(TREE_HEIGHT);
    let mut model: Vec<(String, f64)> = Vec::new();
    for i in 0..200u64 {
        let m = format!("k{}", (i * 37) % 61);
        let score = ((i * 13) % 17) as f64 - 8.0;
        if i % 5 == 4 {
            let removed = l.remove(&m);
            let pos = model.iter().position(|(x, _)| *x == m);
            assert_eq!(removed.map(f64::from_bits), pos.map(|p| model[p].1));
            if let Some(p) = pos {
                model.remove(p);
            }
        } else {
            l.insert(m.clone(), b(score));
            model.retain(|(x, _)| *x != m);
            model.push((m, score));
        }
        model.sort_by(|x, y| x.1.partial_cmp(&y.1).unwrap().then(x.0.cmp(&y.0)));
        assert_eq!(members(&l), model);
        assert_eq!(l.len(), model.len());
    }
    let n = l.len();
    let all = l.range(1, n);
    for (i, (rank, m)) in all.iter().enumerate() {
        assert_eq!(*rank, i + 1);
        assert_eq!(*m, model[i].0);
    }
}

#[test]
fn zadd_zscore_zrem() {
    let mut st = SortedSetStore::new();
    let k = s("board");
    assert!(st.zadd(&k, s("alice"), b(1.5)));
    assert!(st.zadd(&k, s("bob"), b(0.5)));
    assert!(!st.zadd(&k, s("alice"), b(2.5)));
    assert_eq!(st.zscore(&k, &s("alice")), Some(b(2.5)));
    assert_eq!(st.zscore(&k, &s("carol")), None);
    assert_eq!(st.zscore(&s("other"), &s("alice")), None);
    assert_eq!(st.zrem(&k, &s("alice")), Some(b(2.5)));
    assert_eq!(st.zrem(&k, &s("alice")), None);
    assert_eq!(st.zrem(&s("other"), &s("alice")), None);
    assert_eq!(st.zscore(&k, &s("bob")), Some(b(0.5)));
    // Removing the last member removes the set.
    assert_eq!(st.zrem(&k, &s("bob")), Some(b(0.5)));
    assert_eq!(st.zrange(&k, 0, -1, false), None);
    assert!(st.all_sets().is_empty());
}

#[test]
fn zrange_indices() {
    let mut st = SortedSetStore::new();
    let k = s("z");
    for (m, sc) in [("a", 1.0), ("b", 2.0), ("c", 3.0), ("d", 4.0)] {
        st.zadd(&k, s(m), b(sc));
    }
    let names = |r: Option<Vec<(String, Option<u64>)>>| r.unwrap().into_iter().map(|(m, _)| m).collect::<Vec<_>>();
    assert_eq!(names(st.zrange(&k, 0, -1, false)), vec!["a", "b", "c", "d"]);
    assert_eq!(names(st.zrange(&k, 1, 2, false)), vec!["b", "c"]);
    assert_eq!(names(st.zrange(&k, -2, -1, false)), vec!["c", "d"]);
    assert_eq!(names(st.zrange(&k, -100, 100, false)), vec!["a", "b", "c", "d"]);
    assert!(names(st.zrange(&k, 3, 1, false)).is_empty());
    assert!(names(st.zrange(&k, 4, 10, false)).is_empty());
    assert_eq!(
        st.zrange(&k, 0, 1, true),
        Some(vec![(s("a"), Some(b(1.0))), (s("b"), Some(b(2.0)))])
    );
    assert_eq!(st.zrange(&s("missing"), 0, -1, true), None);
}

#[test]
fn all_sets_lists_each_set() {
    let mut st = SortedSetStore::new();
    st.zadd(&s("x"), s("m1"), b(2.0));
    st.zadd(&s("y"), s("m2"), b(1.0));
    st.zadd(&s("x"), s("m0"), b(1.0));
    let mut sets = st.all_sets();
    sets.sort();
    assert_eq!(
        sets,
        vec![
            (s("x"), vec![(s("m0"), b(1.0)), (s("m1"), b(2.0))]),
            (s("y"), vec![(s("m2"), b(1.0))]),
        ]
    );
}

#[test]
fn zscore_follows_the_last_write() {
    let mut st = SortedSetStore::new();
    let k = s("k");
    st.zadd(&k, s("m"), b(1.0));
    st.zadd(&k, s("m"), b(4.0));
    st.zadd(&k, s("o"), b(9.0));
    assert_eq!(st.zscore(&k, &s("m")), Some(b(4.0)));
    st.zrem(&k, &s("m"));
    assert_eq!(st.zscore(&k, &s("m")), None);
    st.zadd(&k, s("m"), b(0.0));
    // An equal score (-0.0 == 0.0) keeps the one already there.
    st.zadd(&k, s("m"), b(-0.0));
    assert_eq!(st.zscore(&k, &s("m")), Some(b(0.0)));
    assert_eq!(st.zscore(&k, &s("o")), Some(b(9.0)));
}

#[test]
fn zscore_across_keys_follows_the_last_write() {
    let mut st = SortedSetStore::new();
    st.zadd(&s("a"), s("m"), b(1.0));
    st.zadd(&s("b"), s("m"), b(2.0));
    st.zadd(&s("a"), s("m"), b(3.0));
    st.zrem(&s("b"), &s("m"));
    st.zadd(&s("b"), s("n"), b(5.0));
    assert_eq!(st.zscore(&s("a"), &s("m")), Some(b(3.0)));
    assert_eq!(st.zscore(&s("b"), &s("m")), None);
    assert_eq!(st.zscore(&s("b"), &s("n")), Some(b(5.0)));
    assert_eq!(st.zscore(&s("c"), &s("m")), None);
    st.zrem(&s("a"), &s("m"));
    assert_eq!(st.zscore(&s("a"), &s("m")), None);
    assert_eq!(st.zrange(&s("a"), 0, -1, false), None);
}
