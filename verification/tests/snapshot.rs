use kv_database::snapshot::{
    encode_snapshot, encode_snapshot_parts, load_snapshot_from_bytes, SnapshotError, SNAPSHOT_MAGIC, SNAPSHOT_VERSION,
};
use kv_database::protocol::Command;
use kv_database::store::Db;
use kv_database::wal::{apply_to_store, encode_record, replay_from_bytes};

fn s(x: &str) -> String {
    x.to_string()
}

fn field(buf: &mut Vec<u8>, text: &str) {
    buf.extend_from_slice(&(text.len() as u32).to_le_bytes());
    buf.extend_from_slice(text.as_bytes());
}

/// A snapshot laid out by hand: magic, version, timestamp, log position,
/// the pairs, the sets, then the checksum.
fn readable(pairs: &[(&str, &str)], sets: &[(&str, &[(&str, f64)])]) -> Vec<u8> {
    let mut b = Vec::new();
    b.extend_from_slice(&SNAPSHOT_MAGIC.to_le_bytes());
    b.extend_from_slice(&SNAPSHOT_VERSION.to_le_bytes());
    b.extend_from_slice(&1234i64.to_le_bytes());
    b.extend_from_slice(&77u64.to_le_bytes());
    b.extend_from_slice(&(pairs.len() as u32).to_le_bytes());
    for (k, v) in pairs {
        field(&mut b, k);
        field(&mut b, v);
    }
    b.extend_from_slice(&(sets.len() as u32).to_le_bytes());
    for (k, ms) in sets {
        field(&mut b, k);
        b.extend_from_slice(&(ms.len() as u32).to_le_bytes());
        for (m, sc) in ms.iter() {
            field(&mut b, m);
            b.extend_from_slice(&sc.to_bits().to_le_bytes());
        }
    }
    let crc = crc32fast::hash(&b);
    b.extend_from_slice(&crc.to_le_bytes());
    b
}

#[test]
fn loads_pairs_and_sets() {
    let bytes = readable(&[("a", "1"), ("b", "2")], &[("board", &[("alice", 1.5), ("bob", 0.5)])]);
    let mut db = Db::new();
    assert_eq!(load_snapshot_from_bytes(&bytes, &mut db).unwrap(), bytes.len() as u64);
    assert_eq!(db.kv_store.len(), 2);
    assert_eq!(db.kv_store.get(&s("b")), Some(s("2")));
    assert_eq!(db.sorted_sets.zscore(&s("board"), &s("alice")), Some(1.5f64.to_bits()));
    let names: Vec<String> =
        db.sorted_sets.zrange(&s("board"), 0, -1, false).unwrap().into_iter().map(|(m, _)| m).collect();
    assert_eq!(names, vec![s("bob"), s("alice")]);
}

#[test]
fn trailing_bytes_are_not_read() {
    let mut bytes = readable(&[("a", "1")], &[]);
    let n = bytes.len();
    bytes.extend_from_slice(&[0xde, 0xad]);
    let mut db = Db::new();
    assert_eq!(load_snapshot_from_bytes(&bytes, &mut db).unwrap(), n as u64);
}

#[test]
fn wrong_magic_or_version() {
    let mut bytes = readable(&[], &[]);
    bytes[0] ^= 1;
    assert!(matches!(load_snapshot_from_bytes(&bytes, &mut Db::new()), Err(SnapshotError::InvalidSnapshot)));
    let mut bytes = readable(&[], &[]);
    bytes[4] = 2;
    assert!(matches!(load_snapshot_from_bytes(&bytes, &mut Db::new()), Err(SnapshotError::InvalidSnapshot)));
}

#[test]
fn short_snapshots() {
    assert!(matches!(load_snapshot_from_bytes(&[], &mut Db::new()), Err(SnapshotError::UnexpectedEof)));
    let bytes = readable(&[("key", "value")], &[("z", &[("m", 1.0)])]);
    for cut in [3, 7, 11, 15, 23, 27, bytes.len() - 13, bytes.len() - 1] {
        assert!(
            matches!(load_snapshot_from_bytes(&bytes[..cut], &mut Db::new()), Err(SnapshotError::UnexpectedEof)),
            "cut at {cut}"
        );
    }
}

#[test]
fn invalid_utf8_is_an_invalid_snapshot() {
    let mut bytes = readable(&[("k", "v")], &[]);
    // The value's only byte, before the set count and the checksum.
    let at = bytes.len() - 9;
    bytes[at] = 0xff;
    assert!(matches!(load_snapshot_from_bytes(&bytes, &mut Db::new()), Err(SnapshotError::InvalidSnapshot)));
}

#[test]
fn what_was_read_before_an_error_stays() {
    let bytes = readable(&[("a", "1"), ("b", "2")], &[]);
    let mut db = Db::new();
    // Cut inside the second pair's value (the set count and the checksum
    // follow it).
    let r = load_snapshot_from_bytes(&bytes[..bytes.len() - 9], &mut db);
    assert!(matches!(r, Err(SnapshotError::UnexpectedEof)));
    assert_eq!(db.kv_store.len(), 1);
    assert_eq!(db.kv_store.get(&s("a")), Some(s("1")));
}

#[test]
fn encoded_layout() {
    let kvs = vec![(s("k"), s("v"))];
    let sets = vec![(s("z"), vec![(s("m"), 2.0f64.to_bits()), (s("n"), 3.0f64.to_bits())])];
    let out = encode_snapshot_parts(-5, 99, &kvs, &sets);
    let mut body = Vec::new();
    body.extend_from_slice(&SNAPSHOT_MAGIC.to_le_bytes());
    body.extend_from_slice(&SNAPSHOT_VERSION.to_le_bytes());
    body.extend_from_slice(&(-5i64).to_le_bytes());
    body.extend_from_slice(&99u64.to_le_bytes());
    body.extend_from_slice(&1u32.to_le_bytes());
    field(&mut body, "k");
    field(&mut body, "v");
    // The number of sets.
    body.extend_from_slice(&1u32.to_le_bytes());
    field(&mut body, "z");
    body.extend_from_slice(&2u32.to_le_bytes());
    field(&mut body, "m");
    body.extend_from_slice(&2.0f64.to_bits().to_le_bytes());
    field(&mut body, "n");
    body.extend_from_slice(&3.0f64.to_bits().to_le_bytes());
    let mut expected = body.clone();
    expected.extend_from_slice(&crc32fast::hash(&body).to_le_bytes());
    assert_eq!(out, expected);
}

#[test]
fn encode_snapshot_of_a_database() {
    let mut db = Db::new();
    db.kv_store.insert(s("k"), s("v"));
    db.sorted_sets.zadd(&s("z"), s("m"), 2.0f64.to_bits());
    let out = encode_snapshot(&db, 7, 8);
    let expected = encode_snapshot_parts(
        7,
        8,
        &vec![(s("k"), s("v"))],
        &vec![(s("z"), vec![(s("m"), 2.0f64.to_bits())])],
    );
    assert_eq!(out, expected);
    let empty = encode_snapshot(&Db::new(), 0, 0);
    assert_eq!(empty.len(), 4 + 4 + 8 + 8 + 4 + 4 + 4);
}

#[test]
fn checksum_mismatch_is_an_invalid_snapshot() {
    let mut bytes = readable(&[("k", "v")], &[]);
    let last = bytes.len() - 1;
    bytes[last] ^= 0x01;
    assert!(matches!(load_snapshot_from_bytes(&bytes, &mut Db::new()), Err(SnapshotError::InvalidSnapshot)));
}

#[test]
fn written_snapshot_reads_back() {
    let mut db = Db::new();
    for i in 0..60 {
        db.kv_store.insert(format!("k{i}"), format!("v{i}"));
    }
    db.sorted_sets.zadd(&s("board"), s("alice"), 1.5f64.to_bits());
    db.sorted_sets.zadd(&s("board"), s("bob"), (-2.0f64).to_bits());
    db.sorted_sets.zadd(&s("other"), s("x"), 7.0f64.to_bits());
    let out = encode_snapshot(&db, 1_700_000_000_000, 42);
    let mut fresh = Db::new();
    assert_eq!(load_snapshot_from_bytes(&out, &mut fresh).unwrap(), out.len() as u64);
    assert_eq!(fresh.kv_store.len(), 60);
    for i in 0..60 {
        assert_eq!(fresh.kv_store.get(&format!("k{i}")), Some(format!("v{i}")));
    }
    let mut a = db.sorted_sets.all_sets();
    let mut b = fresh.sorted_sets.all_sets();
    a.sort();
    b.sort();
    assert_eq!(a, b);
}

#[test]
fn restart_recovers_every_write() {
    let mut engine = Db::new();
    engine.kv_store.insert(s("a"), s("1"));
    engine.kv_store.insert(s("b"), s("2"));
    engine.sorted_sets.zadd(&s("z"), s("m"), 1.0f64.to_bits());
    let snapshot = encode_snapshot(&engine, 5, 0);
    let writes = vec![
        Command::Del { key: s("a") },
        Command::SetValue { key: s("c"), value: s("3") },
        Command::Zadd { key: s("z"), member: s("n"), score: 2.0f64.to_bits() },
        Command::Zrem { key: s("z"), member: s("m") },
        Command::Zadd { key: s("w"), member: s("q"), score: 0.0f64.to_bits() },
    ];
    let mut log = Vec::new();
    for w in writes {
        log.extend_from_slice(&encode_record(&w));
        apply_to_store(&mut engine, w);
    }
    let mut restarted = Db::new();
    assert_eq!(load_snapshot_from_bytes(&snapshot, &mut restarted).unwrap(), snapshot.len() as u64);
    assert_eq!(replay_from_bytes(&log, &mut restarted), log.len() as u64);
    let mut a = engine.kv_store.entries();
    let mut b = restarted.kv_store.entries();
    a.sort();
    b.sort();
    assert_eq!(a, b);
    let mut a = engine.sorted_sets.all_sets();
    let mut b = restarted.sorted_sets.all_sets();
    a.sort();
    b.sort();
    assert_eq!(a, b);
    // A CLEAR after the snapshot is recovered too.
    let mut restarted = Db::new();
    load_snapshot_from_bytes(&snapshot, &mut restarted).unwrap();
    replay_from_bytes(&encode_record(&Command::Clear), &mut restarted);
    assert_eq!(restarted.kv_store.len(), 0);
}
