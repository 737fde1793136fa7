use kv_database::protocol::Command;
use kv_database::store::Db;
use kv_database::wal::{apply_to_store, decode_record, encode_record, replay_from_bytes, write_bytes_with_len, WalError};

fn set(k: &str, v: &str) -> Command {
    Command::SetValue { key: k.to_string(), value: v.to_string() }
}

fn del(k: &str) -> Command {
    Command::Del { key: k.to_string() }
}

/// A record with a correct checksum around an arbitrary body.
fn framed(body: &[u8]) -> Vec<u8> {
    let mut r = crc32fast::hash(body).to_le_bytes().to_vec();
    r.extend_from_slice(&(body.len() as u32).to_le_bytes());
    r.extend_from_slice(body);
    r
}

#[test]
fn torn_write() {
    let record1 = encode_record(&set("k1", "v1"));
    let record2 = encode_record(&set("k2", "v2"));

    // What a writer that stops accepting bytes halfway through the second
    // record leaves behind.
    let limit = record1.len() + record2.len() / 2;
    let mut bytes = record1.clone();
    bytes.extend_from_slice(&record2);
    bytes.truncate(limit);

    let mut db = Db::new();
    let good_len = replay_from_bytes(&bytes, &mut db);

    assert_eq!(good_len, record1.len() as u64);
    assert_eq!(db.kv_store.get(&"k1".to_string()), Some("v1".to_string()));
    assert_eq!(db.kv_store.get(&"k2".to_string()), None);
}

#[test]
fn encode_record_layout() {
    let r = encode_record(&set("k1", "v1"));
    let mut expected: Vec<u8> = vec![210, 108, 63, 216, 13, 0, 0, 0, 1, 2, 0, 0, 0];
    expected.extend_from_slice(b"k1");
    expected.extend_from_slice(&[2, 0, 0, 0]);
    expected.extend_from_slice(b"v1");
    assert_eq!(r, expected);

    let r = encode_record(&del("abc"));
    let mut expected: Vec<u8> = vec![89, 90, 138, 220, 8, 0, 0, 0, 2, 3, 0, 0, 0];
    expected.extend_from_slice(b"abc");
    assert_eq!(r, expected);
}

#[test]
fn write_bytes_with_len_prefixes_length() {
    let mut buf = vec![9u8];
    write_bytes_with_len(&mut buf, b"hey");
    assert_eq!(buf, vec![9, 3, 0, 0, 0, b'h', b'e', b'y']);
    write_bytes_with_len(&mut buf, b"");
    assert_eq!(buf, vec![9, 3, 0, 0, 0, b'h', b'e', b'y', 0, 0, 0, 0]);
}

#[test]
fn decode_reads_back_what_was_encoded() {
    for cmd in [set("key", "value"), del("key"), set("", ""), set("ключ", "значение")] {
        let mut bytes = encode_record(&cmd);
        let n = bytes.len();
        bytes.extend_from_slice(b"trailing");
        match decode_record(&bytes) {
            Ok(Some((c, used))) => {
                assert_eq!(c, cmd);
                assert_eq!(used, n);
            }
            _ => panic!("record not read back"),
        }
    }
}

#[test]
fn decode_clean_end() {
    assert!(matches!(decode_record(&[]), Ok(None)));
    assert!(matches!(decode_record(&[1, 2, 3]), Ok(None)));
}

#[test]
fn decode_unexpected_eof() {
    assert!(matches!(decode_record(&[1, 2, 3, 4, 5]), Err(WalError::UnexpectedEof)));
    let r = encode_record(&set("k", "v"));
    assert!(matches!(decode_record(&r[..r.len() - 1]), Err(WalError::UnexpectedEof)));
    // A body that ends inside the key's length prefix.
    assert!(matches!(decode_record(&framed(&[1, 5, 0])), Err(WalError::UnexpectedEof)));
    // An empty body.
    assert!(matches!(decode_record(&framed(&[])), Err(WalError::UnexpectedEof)));
}

#[test]
fn decode_checksum_mismatch() {
    let mut r = encode_record(&set("k", "v"));
    let last = r.len() - 1;
    r[last] ^= 0xff;
    assert!(matches!(decode_record(&r), Err(WalError::ChecksumMismatch)));
}

#[test]
fn decode_unknown_command_byte() {
    assert!(matches!(decode_record(&framed(&[7, 0, 0, 0, 0])), Err(WalError::UnknownCommandByte(7))));
    assert!(matches!(decode_record(&framed(&[0])), Err(WalError::UnknownCommandByte(0))));
}

#[test]
fn decode_invalid_utf8() {
    assert!(matches!(decode_record(&framed(&[2, 2, 0, 0, 0, 0xff, 0xfe])), Err(WalError::InvalidUtf8)));
}

#[test]
fn replay_applies_records_in_order() {
    let mut log = Vec::new();
    for cmd in [set("a", "1"), set("b", "2"), set("a", "3"), del("b")] {
        log.extend_from_slice(&encode_record(&cmd));
    }
    let mut db = Db::new();
    let good_len = replay_from_bytes(&log, &mut db);
    assert_eq!(good_len, log.len() as u64);
    assert_eq!(db.kv_store.len(), 1);
    assert_eq!(db.kv_store.get(&"a".to_string()), Some("3".to_string()));
    assert_eq!(db.kv_store.get(&"b".to_string()), None);
}

#[test]
fn replay_stops_at_corrupt_record() {
    let r1 = encode_record(&set("a", "1"));
    let mut r2 = encode_record(&set("b", "2"));
    let r3 = encode_record(&set("c", "3"));
    r2[0] ^= 1;
    let mut log = r1.clone();
    log.extend_from_slice(&r2);
    log.extend_from_slice(&r3);
    let mut db = Db::new();
    assert_eq!(replay_from_bytes(&log, &mut db), r1.len() as u64);
    assert_eq!(db.kv_store.len(), 1);
}

#[test]
fn replay_of_empty_log() {
    let mut db = Db::new();
    assert_eq!(replay_from_bytes(&[], &mut db), 0);
    assert_eq!(db.kv_store.len(), 0);
}

#[test]
fn apply_to_store_applies_writes_only() {
    let mut db = Db::new();
    apply_to_store(&mut db, set("x", "y"));
    apply_to_store(&mut db, Command::DbSize);
    apply_to_store(&mut db, Command::Zadd { key: "z".to_string(), member: "m".to_string(), score: 0 });
    assert_eq!(db.kv_store.len(), 1);
    assert_eq!(db.sorted_sets.zscore(&"z".to_string(), &"m".to_string()), Some(0));
    apply_to_store(&mut db, Command::Zrem { key: "z".to_string(), member: "m".to_string() });
    assert_eq!(db.sorted_sets.zscore(&"z".to_string(), &"m".to_string()), None);
    apply_to_store(&mut db, del("x"));
    assert_eq!(db.kv_store.len(), 0);
    apply_to_store(&mut db, set("a", "b"));
    apply_to_store(&mut db, Command::Clear);
    assert_eq!(db.kv_store.len(), 0);
    assert_eq!(db.kv_store.get(&"a".to_string()), None);
}

#[test]
fn every_write_survives_replay() {
    let zadd = |k: &str, m: &str, sc: f64| Command::Zadd { key: k.to_string(), member: m.to_string(), score: sc.to_bits() };
    let zrem = |k: &str, m: &str| Command::Zrem { key: k.to_string(), member: m.to_string() };
    let cmds = vec![
        set("a", "1"),
        set("b", "2"),
        Command::Clear,
        set("c", "3"),
        zadd("s", "x", 1.0),
        zadd("s", "y", 2.0),
        zadd("s", "x", 3.0),
        zrem("s", "y"),
        zadd("t", "only", 0.5),
        zrem("t", "only"),
    ];
    let mut engine = Db::new();
    let mut log = Vec::new();
    for cmd in cmds {
        log.extend_from_slice(&encode_record(&cmd));
        apply_to_store(&mut engine, cmd);
    }
    let mut fresh = Db::new();
    assert_eq!(replay_from_bytes(&log, &mut fresh), log.len() as u64);
    assert_eq!(fresh.kv_store.len(), 1);
    assert_eq!(fresh.kv_store.get(&"a".to_string()), None);
    assert_eq!(fresh.kv_store.get(&"c".to_string()), Some("3".to_string()));
    assert_eq!(fresh.sorted_sets.all_sets(), engine.sorted_sets.all_sets());
    assert_eq!(fresh.sorted_sets.zscore(&"s".to_string(), &"x".to_string()), Some(3.0f64.to_bits()));
    assert_eq!(fresh.sorted_sets.zrange(&"t".to_string(), 0, -1, false), None);
}

#[test]
fn new_record_kinds_read_back() {
    let cmds = [
        Command::Clear,
        Command::Zadd { key: "k".to_string(), member: "m".to_string(), score: (-1.25f64).to_bits() },
        Command::Zrem { key: "k".to_string(), member: "m".to_string() },
    ];
    for cmd in cmds {
        let r = encode_record(&cmd);
        match decode_record(&r) {
            Ok(Some((c, n))) => {
                assert_eq!(c, cmd);
                assert_eq!(n, r.len());
            }
            _ => panic!("record not read back"),
        }
    }
    assert_eq!(encode_record(&Command::Clear)[8..], [3u8]);
    // A ZADD record whose score is cut short.
    let mut body = vec![4u8, 1, 0, 0, 0, b'k', 1, 0, 0, 0, b'm'];
    body.extend_from_slice(&[0, 0, 0]);
    assert!(matches!(decode_record(&framed(&body)), Err(WalError::UnexpectedEof)));
}
