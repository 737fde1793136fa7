//! Snapshots of the whole database: the bytes a snapshot is written as, the
//! reading of a snapshot into a database, and the law that a written
//! snapshot reads back to the database it was taken of.
use vstd::prelude::*;
use vstd::bytes::{
    lemma_auto_spec_u32_to_from_le_bytes, lemma_auto_spec_u64_to_from_le_bytes, spec_u32_to_le_bytes, spec_u64_from_le_bytes, spec_u64_to_le_bytes, u32_from_le_bytes, u32_to_le_bytes,
    u64_to_le_bytes,
};
use vstd::slice::slice_subrange;
use vstd::utf8::encode_utf8;
use crate::wal::{
    DbView, LogCmd, WalError, crc32, crc32_of, db_apply, db_replay, db_view, field_bytes, law_replay_log, le32_at,
    lemma_db_replay_append, lemma_db_replay_push, lemma_read_field, log_bytes, read_float, read_string,
    read_string_spec, record_fits, replay_spec, write_bytes_with_len,
};
use crate::store::{Db, lists_kv};
use crate::sorted_set_store::{SetEntries, entries_of, lemma_zadd_spec, lists_sets, set_valid, zadd_result};
use crate::order::score_rank;

verus! {

/// Marks a snapshot.
pub const SNAPSHOT_MAGIC: u32 = 0x534E4150;

/// The format version of snapshots.
pub const SNAPSHOT_VERSION: u32 = 1;

/// Why a snapshot could not be read.
#[derive(Debug)]
pub enum SnapshotError {
    Io(std::io::Error),
    InvalidSnapshot,
    UnexpectedEof,
}

/// How a log-reading error counts when reading a snapshot.
pub open spec fn snap_err(e: WalError) -> SnapshotError {
    match e {
        WalError::UnexpectedEof => SnapshotError::UnexpectedEof,
        _ => SnapshotError::InvalidSnapshot,
    }
}

impl From<WalError> for SnapshotError {
    fn from(error: WalError) -> (r: Self) {
        match error {
            WalError::Io(e) => SnapshotError::Io(e),
            WalError::UnexpectedEof => SnapshotError::UnexpectedEof,
            _ => SnapshotError::InvalidSnapshot,
        }
    }
}

impl vstd::std_specs::convert::FromSpecImpl<WalError> for SnapshotError {
    open spec fn obeys_from_spec() -> bool {
        true
    }

    open spec fn from_spec(error: WalError) -> SnapshotError {
        match error {
            WalError::Io(e) => SnapshotError::Io(e),
            WalError::UnexpectedEof => SnapshotError::UnexpectedEof,
            _ => SnapshotError::InvalidSnapshot,
        }
    }
}

/// The little-endian `u32` at `pos`, if there are four bytes there.
pub open spec fn read_u32_spec(s: Seq<u8>, pos: int) -> Option<u32> {
    if s.len() - pos < 4 {
        None
    } else {
        Some(le32_at(s, pos))
    }
}

/// Reading `cnt` key-value pairs at `pos`: the inserts, and where they end
/// or why they could not be read.
pub open spec fn parse_kv(s: Seq<u8>, pos: int, cnt: nat) -> (Seq<LogCmd>, Result<int, SnapshotError>)
    decreases cnt,
{
    if cnt == 0 {
        (Seq::empty(), Ok(pos))
    } else {
        match read_string_spec(s.skip(pos)) {
            Err(e) => (Seq::empty(), Err(snap_err(e))),
            Ok((k, n1)) => match read_string_spec(s.skip(pos + n1)) {
                Err(e) => (Seq::empty(), Err(snap_err(e))),
                Ok((v, n2)) => {
                    let (ops, r) = parse_kv(s, pos + n1 + n2, (cnt - 1) as nat);
                    (seq![LogCmd::Write(k, v)] + ops, r)
                },
            },
        }
    }
}

/// Reading `cnt` members of the set `key` at `pos`.
pub open spec fn parse_members(s: Seq<u8>, pos: int, key: Seq<char>, cnt: nat) -> (Seq<LogCmd>, Result<int, SnapshotError>)
    decreases cnt,
{
    if cnt == 0 {
        (Seq::empty(), Ok(pos))
    } else {
        match read_string_spec(s.skip(pos)) {
            Err(e) => (Seq::empty(), Err(snap_err(e))),
            Ok((m, n1)) => if s.len() - (pos + n1) < 8 {
                (Seq::empty(), Err(SnapshotError::UnexpectedEof))
            } else {
                let bits = spec_u64_from_le_bytes(s.subrange(pos + n1, pos + n1 + 8));
                let (ops, r) = parse_members(s, pos + n1 + 8, key, (cnt - 1) as nat);
                (seq![LogCmd::Zadd(key, m, bits)] + ops, r)
            },
        }
    }
}

/// Reading `cnt` sorted sets at `pos`.
pub open spec fn parse_sets(s: Seq<u8>, pos: int, cnt: nat) -> (Seq<LogCmd>, Result<int, SnapshotError>)
    decreases cnt,
{
    if cnt == 0 {
        (Seq::empty(), Ok(pos))
    } else {
        match read_string_spec(s.skip(pos)) {
            Err(e) => (Seq::empty(), Err(snap_err(e))),
            Ok((k, n1)) => match read_u32_spec(s, pos + n1) {
                None => (Seq::empty(), Err(SnapshotError::UnexpectedEof)),
                Some(mc) => {
                    let (ops1, r1) = parse_members(s, pos + n1 + 4, k, mc as nat);
                    match r1 {
                        Err(e) => (ops1, Err(e)),
                        Ok(p) => {
                            let (ops2, r2) = parse_sets(s, p, (cnt - 1) as nat);
                            (ops1 + ops2, r2)
                        },
                    }
                },
            },
        }
    }
}

/// The end of a snapshot whose body ends at `q`: its checksum must be the
/// CRC-32 of the body.
pub open spec fn checksum_spec(s: Seq<u8>, q: int) -> Result<int, SnapshotError> {
    match read_u32_spec(s, q) {
        None => Err(SnapshotError::UnexpectedEof),
        Some(c) => if c != crc32_of(s.subrange(0, q)) {
            Err(SnapshotError::InvalidSnapshot)
        } else {
            Ok(q + 4)
        },
    }
}

/// Reading a snapshot: the steps it applies to the database, and the
/// number of bytes it read or why it stopped.  The header is the magic
/// number, the version, the timestamp and the log position (eight bytes
/// each); then the key-value pairs and the sorted sets, each preceded by its
/// count; then the checksum of all that comes before it.
pub open spec fn snapshot_spec(s: Seq<u8>) -> (Seq<LogCmd>, Result<int, SnapshotError>) {
    match read_u32_spec(s, 0) {
        None => (Seq::empty(), Err(SnapshotError::UnexpectedEof)),
        Some(magic) => if magic != SNAPSHOT_MAGIC {
            (Seq::empty(), Err(SnapshotError::InvalidSnapshot))
        } else {
            match read_u32_spec(s, 4) {
                None => (Seq::empty(), Err(SnapshotError::UnexpectedEof)),
                Some(version) => if version != SNAPSHOT_VERSION {
                    (Seq::empty(), Err(SnapshotError::InvalidSnapshot))
                } else if s.len() < 24 {
                    (Seq::empty(), Err(SnapshotError::UnexpectedEof))
                } else {
                    match read_u32_spec(s, 24) {
                        None => (Seq::empty(), Err(SnapshotError::UnexpectedEof)),
                        Some(kc) => {
                            let (o1, r1) = parse_kv(s, 28, kc as nat);
                            match r1 {
                                Err(e) => (o1, Err(e)),
                                Ok(p) => match read_u32_spec(s, p) {
                                    None => (o1, Err(SnapshotError::UnexpectedEof)),
                                    Some(sc) => {
                                        let (o2, r2) = parse_sets(s, p + 4, sc as nat);
                                        match r2 {
                                            Err(e) => (o1 + o2, Err(e)),
                                            Ok(q) => (o1 + o2, checksum_spec(s, q)),
                                        }
                                    },
                                },
                            }
                        },
                    }
                },
            }
        },
    }
}

/// The key-value section: each pair as two length-prefixed strings.
pub open spec fn kv_section(kvs: Seq<(Seq<char>, Seq<char>)>) -> Seq<u8>
    decreases kvs.len(),
{
    if kvs.len() == 0 {
        Seq::empty()
    } else {
        field_bytes(kvs[0].0) + field_bytes(kvs[0].1) + kv_section(kvs.drop_first())
    }
}

/// The members of one set: each member as a length-prefixed string and its
/// score as eight little-endian bytes.
pub open spec fn members_section(ms: SetEntries) -> Seq<u8>
    decreases ms.len(),
{
    if ms.len() == 0 {
        Seq::empty()
    } else {
        field_bytes(ms[0].0) + spec_u64_to_le_bytes(ms[0].1) + members_section(ms.drop_first())
    }
}

/// The sorted-set section: each key, its member count and its members.
pub open spec fn sets_section(sets: Seq<(Seq<char>, SetEntries)>) -> Seq<u8>
    decreases sets.len(),
{
    if sets.len() == 0 {
        Seq::empty()
    } else {
        field_bytes(sets[0].0) + spec_u32_to_le_bytes(sets[0].1.len() as u32) + members_section(sets[0].1)
            + sets_section(sets.drop_first())
    }
}

proof fn lemma_kv_section_push(kvs: Seq<(Seq<char>, Seq<char>)>, x: (Seq<char>, Seq<char>))
    ensures
        kv_section(kvs.push(x)) == kv_section(kvs) + field_bytes(x.0) + field_bytes(x.1),
    decreases kvs.len(),
{
    if kvs.len() == 0 {
        assert(kvs.push(x).drop_first() =~= kvs);
    } else {
        assert(kvs.push(x).drop_first() =~= kvs.drop_first().push(x));
        lemma_kv_section_push(kvs.drop_first(), x);
    }
    assert(kv_section(kvs.push(x)) =~= kv_section(kvs) + field_bytes(x.0) + field_bytes(x.1));
}

proof fn lemma_members_section_push(ms: SetEntries, x: (Seq<char>, u64))
    ensures
        members_section(ms.push(x)) == members_section(ms) + field_bytes(x.0) + spec_u64_to_le_bytes(x.1),
    decreases ms.len(),
{
    if ms.len() == 0 {
        assert(ms.push(x).drop_first() =~= ms);
    } else {
        assert(ms.push(x).drop_first() =~= ms.drop_first().push(x));
        lemma_members_section_push(ms.drop_first(), x);
    }
    assert(members_section(ms.push(x)) =~= members_section(ms) + field_bytes(x.0) + spec_u64_to_le_bytes(x.1));
}

proof fn lemma_sets_section_push(sets: Seq<(Seq<char>, SetEntries)>, x: (Seq<char>, SetEntries))
    ensures
        sets_section(sets.push(x)) == sets_section(sets) + field_bytes(x.0) + spec_u32_to_le_bytes(
            x.1.len() as u32,
        ) + members_section(x.1),
    decreases sets.len(),
{
    if sets.len() == 0 {
        assert(sets.push(x).drop_first() =~= sets);
    } else {
        assert(sets.push(x).drop_first() =~= sets.drop_first().push(x));
        lemma_sets_section_push(sets.drop_first(), x);
    }
    assert(sets_section(sets.push(x)) =~= sets_section(sets) + field_bytes(x.0) + spec_u32_to_le_bytes(
        x.1.len() as u32,
    ) + members_section(x.1));
}

/// A snapshot without its trailing checksum: magic number, version, the
/// timestamp and the log position (eight bytes each), the number of pairs
/// and the pairs, the number of sets and the sets.
pub open spec fn snapshot_body(
    timestamp_millis: i64,
    wal_position: u64,
    kvs: Seq<(Seq<char>, Seq<char>)>,
    sets: Seq<(Seq<char>, SetEntries)>,
) -> Seq<u8> {
    spec_u32_to_le_bytes(SNAPSHOT_MAGIC) + spec_u32_to_le_bytes(SNAPSHOT_VERSION) + spec_u64_to_le_bytes(
        timestamp_millis as u64,
    ) + spec_u64_to_le_bytes(wal_position) + spec_u32_to_le_bytes(kvs.len() as u32) + kv_section(kvs)
        + spec_u32_to_le_bytes(sets.len() as u32) + sets_section(sets)
}

/// A whole snapshot: the body and the CRC-32 of the body.
pub open spec fn snapshot_image(
    timestamp_millis: i64,
    wal_position: u64,
    kvs: Seq<(Seq<char>, Seq<char>)>,
    sets: Seq<(Seq<char>, SetEntries)>,
) -> Seq<u8> {
    let body = snapshot_body(timestamp_millis, wal_position, kvs, sets);
    body + spec_u32_to_le_bytes(crc32_of(body))
}

/// Key-value pairs by the contents of their strings.
pub open spec fn kv_pairs(v: Seq<(String, String)>) -> Seq<(Seq<char>, Seq<char>)> {
    v.map_values(|e: (String, String)| (e.0@, e.1@))
}

/// Listed sets by the contents of their keys and members.
pub open spec fn set_lists(v: Seq<(String, Vec<(String, u64)>)>) -> Seq<(Seq<char>, SetEntries)> {
    v.map_values(|e: (String, Vec<(String, u64)>)| (e.0@, entries_of(e.1@)))
}

/// The bytes of a snapshot of the given key-value pairs and sorted sets, in
/// the order given.
pub fn encode_snapshot_parts(
    timestamp_millis: i64,
    wal_position: u64,
    kvs: &Vec<(String, String)>,
    sets: &Vec<(String, Vec<(String, u64)>)>,
) -> (r: Vec<u8>)
    ensures
        r@ == snapshot_image(timestamp_millis, wal_position, kv_pairs(kvs@), set_lists(sets@)),
{
    let ghost kv = kv_pairs(kvs@);
    let ghost sl = set_lists(sets@);
    let mut buf: Vec<u8> = Vec::new();
    let mut b = u32_to_le_bytes(SNAPSHOT_MAGIC);
    buf.append(&mut b);
    let mut b = u32_to_le_bytes(SNAPSHOT_VERSION);
    buf.append(&mut b);
    let mut b = u64_to_le_bytes(timestamp_millis as u64);
    buf.append(&mut b);
    let mut b = u64_to_le_bytes(wal_position);
    buf.append(&mut b);
    let mut b = u32_to_le_bytes(kvs.len() as u32);
    buf.append(&mut b);
    let ghost head = buf@;
    let mut i: usize = 0;
    while i < kvs.len()
        invariant
            kv == kv_pairs(kvs@),
            i <= kvs@.len(),
            buf@ == head + kv_section(kv.take(i as int)),
        decreases kvs@.len() - i,
    {
        write_bytes_with_len(&mut buf, kvs[i].0.as_str().as_bytes());
        write_bytes_with_len(&mut buf, kvs[i].1.as_str().as_bytes());
        proof {
            assert(kv.take(i + 1) =~= kv.take(i as int).push(kv[i as int]));
            lemma_kv_section_push(kv.take(i as int), kv[i as int]);
        }
        i = i + 1;
    }
    proof {
        assert(kv.take(kvs@.len() as int) =~= kv);
    }
    let mut b = u32_to_le_bytes(sets.len() as u32);
    buf.append(&mut b);
    let ghost mid = buf@;
    let mut i: usize = 0;
    while i < sets.len()
        invariant
            sl == set_lists(sets@),
            i <= sets@.len(),
            buf@ == mid + sets_section(sl.take(i as int)),
        decreases sets@.len() - i,
    {
        let members = &sets[i].1;
        write_bytes_with_len(&mut buf, sets[i].0.as_str().as_bytes());
        let mut b = u32_to_le_bytes(members.len() as u32);
        buf.append(&mut b);
        let ghost es = entries_of(members@);
        let ghost start = buf@;
        let mut j: usize = 0;
        while j < members.len()
            invariant
                es == entries_of(members@),
                j <= members@.len(),
                buf@ == start + members_section(es.take(j as int)),
            decreases members@.len() - j,
        {
            write_bytes_with_len(&mut buf, members[j].0.as_str().as_bytes());
            let mut b = u64_to_le_bytes(members[j].1);
            buf.append(&mut b);
            proof {
                assert(es.take(j + 1) =~= es.take(j as int).push(es[j as int]));
                lemma_members_section_push(es.take(j as int), es[j as int]);
            }
            j = j + 1;
        }
        proof {
            assert(es.take(members@.len() as int) =~= es);
            assert(sl.take(i + 1) =~= sl.take(i as int).push(sl[i as int]));
            assert(sl[i as int] == (sets@[i as int].0@, es));
            lemma_sets_section_push(sl.take(i as int), sl[i as int]);
        }
        i = i + 1;
    }
    proof {
        assert(sl.take(sets@.len() as int) =~= sl);
        assert(buf@ =~= snapshot_body(timestamp_millis, wal_position, kv, sl));
    }
    let checksum = crc32(buf.as_slice());
    let mut b = u32_to_le_bytes(checksum);
    buf.append(&mut b);
    buf
}

/// The bytes of a snapshot of `db`, stamped with `timestamp_millis` and the
/// log position `wal_position`.  The pairs and the sets are written in an
/// order that is left open.
pub fn encode_snapshot(db: &Db, timestamp_millis: i64, wal_position: u64) -> (r: Vec<u8>)
    requires
        db.wf(),
    ensures
        exists|kvs: Seq<(String, String)>, sets: Seq<(String, Vec<(String, u64)>)>|
            {
                &&& lists_kv(kvs, db.kv_store.map_view())
                &&& lists_sets(sets, db.sorted_sets.view_sets())
                &&& r@ == snapshot_image(timestamp_millis, wal_position, kv_pairs(kvs), set_lists(sets))
            },
{
    let kvs = db.kv_store.entries();
    let sets = db.sorted_sets.all_sets();
    let r = encode_snapshot_parts(timestamp_millis, wal_position, &kvs, &sets);
    assert(lists_kv(kvs@, db.kv_store.map_view()));
    r
}


/// The writes that reading a key-value section applies.
pub open spec fn kv_ops(kvs: Seq<(Seq<char>, Seq<char>)>) -> Seq<LogCmd>
    decreases kvs.len(),
{
    if kvs.len() == 0 {
        Seq::empty()
    } else {
        seq![LogCmd::Write(kvs[0].0, kvs[0].1)] + kv_ops(kvs.drop_first())
    }
}

/// The writes that reading the members of the set `k` applies.
pub open spec fn member_ops(k: Seq<char>, ms: SetEntries) -> Seq<LogCmd>
    decreases ms.len(),
{
    if ms.len() == 0 {
        Seq::empty()
    } else {
        seq![LogCmd::Zadd(k, ms[0].0, ms[0].1)] + member_ops(k, ms.drop_first())
    }
}

/// The writes that reading a sorted-set section applies.
pub open spec fn set_ops(sets: Seq<(Seq<char>, SetEntries)>) -> Seq<LogCmd>
    decreases sets.len(),
{
    if sets.len() == 0 {
        Seq::empty()
    } else {
        member_ops(sets[0].0, sets[0].1) + set_ops(sets.drop_first())
    }
}

/// A string fits its four-byte length prefix.
pub open spec fn field_fits(t: Seq<char>) -> bool {
    encode_utf8(t).len() <= u32::MAX
}

/// Every count and string of a snapshot fits its four-byte prefix.
pub open spec fn snapshot_fits(kvs: Seq<(Seq<char>, Seq<char>)>, sets: Seq<(Seq<char>, SetEntries)>) -> bool {
    &&& kvs.len() <= u32::MAX
    &&& sets.len() <= u32::MAX
    &&& forall|i: int| 0 <= i < kvs.len() ==> field_fits((#[trigger] kvs[i]).0) && field_fits(kvs[i].1)
    &&& forall|i: int|
        0 <= i < sets.len() ==> field_fits((#[trigger] sets[i]).0) && sets[i].1.len() <= u32::MAX && forall|j: int|
            0 <= j < sets[i].1.len() ==> field_fits((#[trigger] sets[i].1[j]).0)
}

proof fn lemma_split(s: Seq<u8>, pos: int, a: Seq<u8>, b: Seq<u8>)
    requires
        0 <= pos,
        pos + a.len() + b.len() <= s.len(),
        s.subrange(pos, pos + a.len() + b.len()) == a + b,
    ensures
        s.subrange(pos, pos + a.len()) == a,
        s.subrange(pos + a.len(), pos + a.len() + b.len()) == b,
        s.skip(pos) == a + s.skip(pos + a.len()),
{
    let w = s.subrange(pos, pos + a.len() + b.len());
    assert forall|i: int| 0 <= i < a.len() implies s[pos + i] == a[i] by {
        assert(w[i] == (a + b)[i]);
    }
    assert forall|i: int| 0 <= i < b.len() implies s[pos + a.len() + i] == b[i] by {
        assert(w[a.len() + i] == (a + b)[a.len() + i]);
    }
    assert(s.subrange(pos, pos + a.len()) =~= a);
    assert(s.subrange(pos + a.len(), pos + a.len() + b.len()) =~= b);
    assert(s.skip(pos) =~= a + s.skip(pos + a.len()));
}

proof fn lemma_parse_kv(s: Seq<u8>, pos: int, kvs: Seq<(Seq<char>, Seq<char>)>)
    requires
        0 <= pos,
        pos + kv_section(kvs).len() <= s.len(),
        s.subrange(pos, pos + kv_section(kvs).len()) == kv_section(kvs),
        forall|i: int| 0 <= i < kvs.len() ==> field_fits((#[trigger] kvs[i]).0) && field_fits(kvs[i].1),
    ensures
        parse_kv(s, pos, kvs.len()) == (kv_ops(kvs), Ok::<int, SnapshotError>(pos + kv_section(kvs).len())),
    decreases kvs.len(),
{
    if kvs.len() > 0 {
        let rest = kvs.drop_first();
        let f0 = field_bytes(kvs[0].0);
        let f1 = field_bytes(kvs[0].1);
        let sec = kv_section(kvs);
        assert(sec == f0 + f1 + kv_section(rest));
        assert(field_fits(kvs[0].0) && field_fits(kvs[0].1));
        let p1 = pos + f0.len();
        let p2 = p1 + f1.len();
        lemma_split(s, pos, f0 + f1, kv_section(rest));
        lemma_split(s, pos, f0, f1);
        lemma_split(s, p1, f1, Seq::<u8>::empty());
        lemma_read_field(kvs[0].0, s.skip(p1));
        lemma_read_field(kvs[0].1, s.skip(p2));
        assert forall|i: int| 0 <= i < rest.len() implies field_fits((#[trigger] rest[i]).0) && field_fits(rest[i].1) by {
            assert(rest[i] == kvs[i + 1]);
        }
        lemma_parse_kv(s, p2, rest);
    }
}

proof fn lemma_parse_members(s: Seq<u8>, pos: int, key: Seq<char>, ms: SetEntries)
    requires
        0 <= pos,
        pos + members_section(ms).len() <= s.len(),
        s.subrange(pos, pos + members_section(ms).len()) == members_section(ms),
        forall|j: int| 0 <= j < ms.len() ==> field_fits((#[trigger] ms[j]).0),
    ensures
        parse_members(s, pos, key, ms.len()) == (member_ops(key, ms), Ok::<int, SnapshotError>(
            pos + members_section(ms).len(),
        )),
    decreases ms.len(),
{
    if ms.len() > 0 {
        lemma_auto_spec_u64_to_from_le_bytes();
        let rest = ms.drop_first();
        let f0 = field_bytes(ms[0].0);
        let sb = spec_u64_to_le_bytes(ms[0].1);
        let sec = members_section(ms);
        assert(sec == f0 + sb + members_section(rest));
        assert(field_fits(ms[0].0));
        let p1 = pos + f0.len();
        let p2 = p1 + 8;
        lemma_split(s, pos, f0 + sb, members_section(rest));
        lemma_split(s, pos, f0, sb);
        lemma_read_field(ms[0].0, s.skip(p1));
        assert forall|j: int| 0 <= j < rest.len() implies field_fits((#[trigger] rest[j]).0) by {
            assert(rest[j] == ms[j + 1]);
        }
        lemma_parse_members(s, p2, key, rest);
    }
}

proof fn lemma_parse_sets(s: Seq<u8>, pos: int, sets: Seq<(Seq<char>, SetEntries)>)
    requires
        0 <= pos,
        pos + sets_section(sets).len() <= s.len(),
        s.subrange(pos, pos + sets_section(sets).len()) == sets_section(sets),
        forall|i: int|
            0 <= i < sets.len() ==> field_fits((#[trigger] sets[i]).0) && sets[i].1.len() <= u32::MAX && forall|j: int|
                0 <= j < sets[i].1.len() ==> field_fits((#[trigger] sets[i].1[j]).0),
    ensures
        parse_sets(s, pos, sets.len()) == (set_ops(sets), Ok::<int, SnapshotError>(pos + sets_section(sets).len())),
    decreases sets.len(),
{
    if sets.len() > 0 {
        lemma_auto_spec_u32_to_from_le_bytes();
        let rest = sets.drop_first();
        let k = sets[0].0;
        let ms = sets[0].1;
        let f0 = field_bytes(k);
        let cb = spec_u32_to_le_bytes(ms.len() as u32);
        let msec = members_section(ms);
        let sec = sets_section(sets);
        assert(sec == f0 + cb + msec + sets_section(rest));
        assert(field_fits(k));
        let p1 = pos + f0.len();
        let p2 = p1 + 4;
        let p3 = p2 + msec.len();
        lemma_split(s, pos, f0 + cb + msec, sets_section(rest));
        lemma_split(s, pos, f0 + cb, msec);
        lemma_split(s, pos, f0, cb);
        lemma_read_field(k, s.skip(p1));
        assert(read_u32_spec(s, p1) == Some(ms.len() as u32));
        lemma_parse_members(s, p2, k, ms);
        assert forall|i: int| 0 <= i < rest.len() implies field_fits((#[trigger] rest[i]).0) && rest[i].1.len()
            <= u32::MAX && forall|j: int| 0 <= j < rest[i].1.len() ==> field_fits((#[trigger] rest[i].1[j]).0) by {
            assert(rest[i] == sets[i + 1]);
        }
        lemma_parse_sets(s, p3, rest);
    }
}

/// Reading a written snapshot reads all of it, and applies the writes of its
/// key-value pairs, then of its sets' members, in the order written.
pub proof fn lemma_read_written(
    ts: i64,
    wal: u64,
    kvs: Seq<(Seq<char>, Seq<char>)>,
    sets: Seq<(Seq<char>, SetEntries)>,
)
    requires
        snapshot_fits(kvs, sets),
    ensures
        snapshot_spec(snapshot_image(ts, wal, kvs, sets)) == (kv_ops(kvs) + set_ops(sets), Ok::<int, SnapshotError>(
            snapshot_image(ts, wal, kvs, sets).len() as int,
        )),
{
    lemma_auto_spec_u32_to_from_le_bytes();
    lemma_auto_spec_u64_to_from_le_bytes();
    let body = snapshot_body(ts, wal, kvs, sets);
    let img = snapshot_image(ts, wal, kvs, sets);
    let ksec = kv_section(kvs);
    let ssec = sets_section(sets);
    let p: int = 28 + ksec.len() as int;
    let q: int = p + 4 + ssec.len();
    assert(body.len() == q);
    assert(img.subrange(0, 4) =~= spec_u32_to_le_bytes(SNAPSHOT_MAGIC));
    assert(img.subrange(4, 8) =~= spec_u32_to_le_bytes(SNAPSHOT_VERSION));
    assert(img.subrange(24, 28) =~= spec_u32_to_le_bytes(kvs.len() as u32));
    assert(img.subrange(28, p) =~= ksec);
    lemma_parse_kv(img, 28, kvs);
    assert(img.subrange(p, p + 4) =~= spec_u32_to_le_bytes(sets.len() as u32));
    assert(img.subrange(p + 4, q) =~= ssec);
    lemma_parse_sets(img, p + 4, sets);
    assert(img.subrange(0, q) =~= body);
    assert(img.subrange(q, q + 4) =~= spec_u32_to_le_bytes(crc32_of(body)));
}

/// Key `k` is among the listed pairs.
pub open spec fn kv_listed(kvs: Seq<(Seq<char>, Seq<char>)>, k: Seq<char>) -> bool {
    exists|i: int| 0 <= i < kvs.len() && (#[trigger] kvs[i]).0 == k
}

/// Key `k` is among the listed sets.
pub open spec fn set_listed(sets: Seq<(Seq<char>, SetEntries)>, k: Seq<char>) -> bool {
    exists|i: int| 0 <= i < sets.len() && (#[trigger] sets[i]).0 == k
}

proof fn lemma_replay_front(d: DbView, x: LogCmd, rest: Seq<LogCmd>)
    ensures
        db_replay(d, seq![x] + rest) == db_replay(db_apply(d, x), rest),
{
    assert((seq![x] + rest)[0] == x);
    assert((seq![x] + rest).drop_first() =~= rest);
}

proof fn lemma_apply_kv(d: DbView, kvs: Seq<(Seq<char>, Seq<char>)>)
    requires
        forall|i: int, j: int| 0 <= i < j < kvs.len() ==> (#[trigger] kvs[i]).0 != (#[trigger] kvs[j]).0,
    ensures
        db_replay(d, kv_ops(kvs)).sets == d.sets,
        forall|k: Seq<char>|
            #[trigger] db_replay(d, kv_ops(kvs)).kv.contains_key(k) <==> (d.kv.contains_key(k) || kv_listed(kvs, k)),
        forall|i: int|
            0 <= i < kvs.len() ==> db_replay(d, kv_ops(kvs)).kv[(#[trigger] kvs[i]).0] == kvs[i].1,
        forall|k: Seq<char>|
            d.kv.contains_key(k) && !kv_listed(kvs, k) ==> #[trigger] db_replay(d, kv_ops(kvs)).kv[k] == d.kv[k],
    decreases kvs.len(),
{
    if kvs.len() > 0 {
        let rest = kvs.drop_first();
        let x = LogCmd::Write(kvs[0].0, kvs[0].1);
        let d1 = db_apply(d, x);
        lemma_replay_front(d, x, kv_ops(rest));
        assert forall|i: int, j: int| 0 <= i < j < rest.len() implies (#[trigger] rest[i]).0 != (#[trigger] rest[j]).0 by {
            assert(rest[i] == kvs[i + 1] && rest[j] == kvs[j + 1]);
        }
        lemma_apply_kv(d1, rest);
        let r = db_replay(d, kv_ops(kvs));
        assert forall|k: Seq<char>| #[trigger] r.kv.contains_key(k) <==> (d.kv.contains_key(k) || kv_listed(kvs, k)) by {
            if kv_listed(rest, k) {
                let i = choose|i: int| 0 <= i < rest.len() && (#[trigger] rest[i]).0 == k;
                assert(kvs[i + 1] == rest[i]);
            }
            if kv_listed(kvs, k) {
                let i = choose|i: int| 0 <= i < kvs.len() && (#[trigger] kvs[i]).0 == k;
                if i > 0 {
                    assert(rest[i - 1] == kvs[i]);
                }
            }
            if k == kvs[0].0 {
                assert(kvs[0].0 == k);
            }
        }
        assert forall|i: int| 0 <= i < kvs.len() implies r.kv[(#[trigger] kvs[i]).0] == kvs[i].1 by {
            if i == 0 {
                if kv_listed(rest, kvs[0].0) {
                    let j = choose|j: int| 0 <= j < rest.len() && (#[trigger] rest[j]).0 == kvs[0].0;
                    assert(rest[j] == kvs[j + 1]);
                }
            } else {
                assert(rest[i - 1] == kvs[i]);
            }
        }
        assert forall|k: Seq<char>| d.kv.contains_key(k) && !kv_listed(kvs, k) implies #[trigger] r.kv[k] == d.kv[k] by {
            assert(k != kvs[0].0) by {
                if k == kvs[0].0 {
                    assert(kvs[0].0 == k);
                }
            }
            if kv_listed(rest, k) {
                let i = choose|i: int| 0 <= i < rest.len() && (#[trigger] rest[i]).0 == k;
                assert(kvs[i + 1] == rest[i]);
            }
        }
    }
}

/// Adding the members of a valid set one after another, from `j` on, into
/// a database whose set `k` holds the first `j` of them, gives the set.
proof fn lemma_apply_members(d: DbView, k: Seq<char>, ms: SetEntries, j: int)
    requires
        set_valid(ms),
        0 <= j <= ms.len(),
        j == 0 ==> !d.sets.contains_key(k),
        j > 0 ==> d.sets.contains_key(k) && d.sets[k] == ms.take(j),
    ensures
        db_replay(d, member_ops(k, ms.skip(j))).kv == d.kv,
        db_replay(d, member_ops(k, ms.skip(j))).sets == (if ms.len() > 0 {
            d.sets.insert(k, ms)
        } else {
            d.sets
        }),
    decreases ms.len() - j,
{
    if j == ms.len() {
        assert(ms.skip(j) =~= SetEntries::empty());
        if j > 0 {
            assert(ms.take(j) =~= ms);
            assert(d.sets.insert(k, ms) =~= d.sets);
        }
    } else {
        let e = ms[j];
        let x = LogCmd::Zadd(k, e.0, e.1);
        assert(ms.skip(j)[0] == e);
        assert(ms.skip(j).drop_first() =~= ms.skip(j + 1));
        lemma_replay_front(d, x, member_ops(k, ms.skip(j + 1)));
        let old = ms.take(j);
        let new = ms.take(j + 1);
        assert(crate::wal::set_or_empty(d.sets, k) =~= old);
        assert(!(exists|i: int| 0 <= i < old.len() && (#[trigger] old[i]).0 == e.0 && score_rank(old[i].1) == score_rank(e.1))) by {
            if exists|i: int| 0 <= i < old.len() && (#[trigger] old[i]).0 == e.0 && score_rank(old[i].1) == score_rank(e.1) {
                let i = choose|i: int| 0 <= i < old.len() && (#[trigger] old[i]).0 == e.0 && score_rank(old[i].1) == score_rank(e.1);
                assert(ms[i] == old[i]);
            }
        }
        assert forall|f: (Seq<char>, u64)| #[trigger] new.contains(f) <==> ((old.contains(f) && f.0 != e.0) || f == e) by {
            if new.contains(f) {
                let i = new.index_of(f);
                if i < j {
                    assert(old[i] == f);
                    assert(ms[i] == f);
                }
            }
            if old.contains(f) {
                let i = old.index_of(f);
                assert(new[i] == f);
            }
            if f == e {
                assert(new[j] == e);
            }
        }
        assert(zadd_result(old, new, e.0, e.1));
        lemma_zadd_spec(old, new, e.0, e.1);
        let d1 = db_apply(d, x);
        assert(d1.sets == d.sets.insert(k, new));
        lemma_apply_members(d1, k, ms, j + 1);
        assert(d.sets.insert(k, new).insert(k, ms) =~= d.sets.insert(k, ms));
    }
}

proof fn lemma_apply_sets(d: DbView, sets: Seq<(Seq<char>, SetEntries)>)
    requires
        forall|i: int, j: int| 0 <= i < j < sets.len() ==> (#[trigger] sets[i]).0 != (#[trigger] sets[j]).0,
        forall|i: int| 0 <= i < sets.len() ==> set_valid((#[trigger] sets[i]).1) && sets[i].1.len() > 0,
        forall|i: int| 0 <= i < sets.len() ==> !d.sets.contains_key((#[trigger] sets[i]).0),
    ensures
        db_replay(d, set_ops(sets)).kv == d.kv,
        forall|k: Seq<char>|
            #[trigger] db_replay(d, set_ops(sets)).sets.contains_key(k) <==> (d.sets.contains_key(k) || set_listed(
                sets,
                k,
            )),
        forall|i: int| 0 <= i < sets.len() ==> db_replay(d, set_ops(sets)).sets[(#[trigger] sets[i]).0] == sets[i].1,
        forall|k: Seq<char>|
            d.sets.contains_key(k) && !set_listed(sets, k) ==> #[trigger] db_replay(d, set_ops(sets)).sets[k]
                == d.sets[k],
    decreases sets.len(),
{
    if sets.len() > 0 {
        let rest = sets.drop_first();
        let (k0, ms0) = sets[0];
        assert(!d.sets.contains_key(k0));
        assert(ms0.skip(0) =~= ms0);
        lemma_apply_members(d, k0, ms0, 0);
        let d1 = db_replay(d, member_ops(k0, ms0));
        lemma_db_replay_append(d, member_ops(k0, ms0), set_ops(rest));
        assert forall|i: int, j: int| 0 <= i < j < rest.len() implies (#[trigger] rest[i]).0 != (#[trigger] rest[j]).0 by {
            assert(rest[i] == sets[i + 1] && rest[j] == sets[j + 1]);
        }
        assert forall|i: int| 0 <= i < rest.len() implies set_valid((#[trigger] rest[i]).1) && rest[i].1.len() > 0 by {
            assert(rest[i] == sets[i + 1]);
        }
        assert forall|i: int| 0 <= i < rest.len() implies !d1.sets.contains_key((#[trigger] rest[i]).0) by {
            assert(rest[i] == sets[i + 1]);
            assert(sets[0].0 != sets[i + 1].0);
        }
        lemma_apply_sets(d1, rest);
        let r = db_replay(d, set_ops(sets));
        assert forall|k: Seq<char>| #[trigger] r.sets.contains_key(k) <==> (d.sets.contains_key(k) || set_listed(sets, k)) by {
            if set_listed(rest, k) {
                let i = choose|i: int| 0 <= i < rest.len() && (#[trigger] rest[i]).0 == k;
                assert(sets[i + 1] == rest[i]);
            }
            if set_listed(sets, k) {
                let i = choose|i: int| 0 <= i < sets.len() && (#[trigger] sets[i]).0 == k;
                if i > 0 {
                    assert(rest[i - 1] == sets[i]);
                }
            }
        }
        assert forall|i: int| 0 <= i < sets.len() implies r.sets[(#[trigger] sets[i]).0] == sets[i].1 by {
            if i == 0 {
                if set_listed(rest, k0) {
                    let j = choose|j: int| 0 <= j < rest.len() && (#[trigger] rest[j]).0 == k0;
                    assert(rest[j] == sets[j + 1]);
                }
            } else {
                assert(rest[i - 1] == sets[i]);
            }
        }
        assert forall|k: Seq<char>| d.sets.contains_key(k) && !set_listed(sets, k) implies #[trigger] r.sets[k]
            == d.sets[k] by {
            assert(k != k0) by {
                if k == k0 {
                    assert(sets[0].0 == k);
                }
            }
            if set_listed(rest, k) {
                let i = choose|i: int| 0 <= i < rest.len() && (#[trigger] rest[i]).0 == k;
                assert(sets[i + 1] == rest[i]);
            }
        }
    }
}

/// A written snapshot reads back to the database it was taken of: reading
/// the bytes that `encode_snapshot` writes for a database (whose pairs and
/// sets it lists as `kvs` and `sets`) into an empty database reads all of
/// them and gives back the same key-value pairs and the same sorted sets.
/// Every count and string must fit its four-byte prefix.
pub proof fn law_snapshot_round_trip(
    ts: i64,
    wal: u64,
    kvs: Seq<(String, String)>,
    sets: Seq<(String, Vec<(String, u64)>)>,
    m: Map<Seq<char>, Seq<char>>,
    ss: Map<Seq<char>, SetEntries>,
    d: DbView,
)
    requires
        lists_kv(kvs, m),
        lists_sets(sets, ss),
        forall|k: Seq<char>| #[trigger] ss.contains_key(k) ==> set_valid(ss[k]) && ss[k].len() > 0,
        snapshot_fits(kv_pairs(kvs), set_lists(sets)),
        d.kv == Map::<Seq<char>, Seq<char>>::empty(),
        d.sets == Map::<Seq<char>, SetEntries>::empty(),
    ensures
        ({
            let img = snapshot_image(ts, wal, kv_pairs(kvs), set_lists(sets));
            &&& snapshot_spec(img).1 == Ok::<int, SnapshotError>(img.len() as int)
            &&& db_replay(d, snapshot_spec(img).0).kv == m
            &&& db_replay(d, snapshot_spec(img).0).sets == ss
        }),
{
    let kv = kv_pairs(kvs);
    let sl = set_lists(sets);
    lemma_read_written(ts, wal, kv, sl);
    lemma_db_replay_append(d, kv_ops(kv), set_ops(sl));
    assert forall|i: int, j: int| 0 <= i < j < kv.len() implies (#[trigger] kv[i]).0 != (#[trigger] kv[j]).0 by {
        assert(kvs[i].0@ != kvs[j].0@);
    }
    lemma_apply_kv(d, kv);
    let d1 = db_replay(d, kv_ops(kv));
    assert forall|i: int, j: int| 0 <= i < j < sl.len() implies (#[trigger] sl[i]).0 != (#[trigger] sl[j]).0 by {
        assert(sets[i].0@ != sets[j].0@);
    }
    assert forall|i: int| 0 <= i < sl.len() implies set_valid((#[trigger] sl[i]).1) && sl[i].1.len() > 0 by {
        assert(ss.contains_key(sets[i].0@));
    }
    assert forall|i: int| 0 <= i < sl.len() implies !d1.sets.contains_key((#[trigger] sl[i]).0) by {}
    lemma_apply_sets(d1, sl);
    let r = db_replay(d1, set_ops(sl));
    assert forall|k: Seq<char>| #[trigger] r.kv.contains_key(k) <==> m.contains_key(k) by {
        if m.contains_key(k) {
            let i = choose|i: int| 0 <= i < kvs.len() && (#[trigger] kvs[i]).0@ == k;
            assert(kv[i].0 == k);
        }
        if kv_listed(kv, k) {
            let i = choose|i: int| 0 <= i < kv.len() && (#[trigger] kv[i]).0 == k;
            assert(kvs[i].0@ == k);
        }
    }
    assert forall|k: Seq<char>| #[trigger] m.contains_key(k) implies r.kv[k] == m[k] by {
        let i = choose|i: int| 0 <= i < kvs.len() && (#[trigger] kvs[i]).0@ == k;
        assert(kv[i].0 == k);
    }
    assert(r.kv =~= m);
    assert forall|k: Seq<char>| #[trigger] r.sets.contains_key(k) <==> ss.contains_key(k) by {
        if ss.contains_key(k) {
            let i = choose|i: int| 0 <= i < sets.len() && (#[trigger] sets[i]).0@ == k;
            assert(sl[i].0 == k);
        }
        if set_listed(sl, k) {
            let i = choose|i: int| 0 <= i < sl.len() && (#[trigger] sl[i]).0 == k;
            assert(sets[i].0@ == k);
        }
    }
    assert forall|k: Seq<char>| #[trigger] ss.contains_key(k) implies r.sets[k] == ss[k] by {
        let i = choose|i: int| 0 <= i < sets.len() && (#[trigger] sets[i]).0@ == k;
        assert(sl[i].0 == k);
    }
    assert(r.sets =~= ss);
}

/// Reads the little-endian `u32` at `pos`; gives it and the position after it.
fn read_u32(bytes: &[u8], pos: usize) -> (r: Result<(u32, usize), SnapshotError>)
    requires
        pos <= bytes@.len(),
    ensures
        match (r, read_u32_spec(bytes@, pos as int)) {
            (Ok((x, next)), Some(y)) => x == y && next == pos + 4,
            (Err(e), None) => e == SnapshotError::UnexpectedEof,
            _ => false,
        },
{
    if bytes.len() - pos < 4 {
        return Err(SnapshotError::UnexpectedEof);
    }
    let res = u32_from_le_bytes(slice_subrange(bytes, pos, pos + 4));
    Ok((res, pos + 4))
}

/// The outcome of a loading step matches the spec's.
pub open spec fn outcome_matches(r: Result<usize, SnapshotError>, spec: Result<int, SnapshotError>) -> bool {
    match (r, spec) {
        (Ok(n), Ok(m)) => n == m,
        (Err(e1), Err(e2)) => e1 == e2,
        _ => false,
    }
}

fn load_kv(bytes: &[u8], pos: usize, cnt: u32, db: &mut Db) -> (r: Result<usize, SnapshotError>)
    requires
        old(db).wf(),
        pos <= bytes@.len(),
    ensures
        final(db).wf(),
        final(db).kv_store.spec_hits() == old(db).kv_store.spec_hits(),
        final(db).kv_store.spec_misses() == old(db).kv_store.spec_misses(),
        db_view(*final(db)) == db_replay(db_view(*old(db)), parse_kv(bytes@, pos as int, cnt as nat).0),
        outcome_matches(r, parse_kv(bytes@, pos as int, cnt as nat).1),
        r matches Ok(p) ==> p <= bytes@.len(),
{
    let ghost s = bytes@;
    let ghost d0 = db_view(*db);
    let ghost mut done: Seq<LogCmd> = Seq::empty();
    let mut p = pos;
    let mut i: u32 = 0;
    while i < cnt
        invariant
            db.wf(),
            db.kv_store.spec_hits() == old(db).kv_store.spec_hits(),
            db.kv_store.spec_misses() == old(db).kv_store.spec_misses(),
            s == bytes@,
            d0 == db_view(*old(db)),
            i <= cnt,
            p <= s.len(),
            parse_kv(s, pos as int, cnt as nat).0 == done + parse_kv(s, p as int, (cnt - i) as nat).0,
            parse_kv(s, pos as int, cnt as nat).1 == parse_kv(s, p as int, (cnt - i) as nat).1,
            db_view(*db) == db_replay(d0, done),
        decreases cnt - i,
    {
        let ghost rem = (cnt - i) as nat;
        let (key, p1) = match read_string(bytes, p) {
            Ok(x) => x,
            Err(e) => {
                proof {
                    assert(done + Seq::<LogCmd>::empty() =~= done);
                }
                return Err(SnapshotError::from(e));
            },
        };
        let (val, p2) = match read_string(bytes, p1) {
            Ok(x) => x,
            Err(e) => {
                proof {
                    assert(s.skip(p as int).skip(p1 - p) =~= s.skip(p1 as int));
                    assert(done + Seq::<LogCmd>::empty() =~= done);
                }
                return Err(SnapshotError::from(e));
            },
        };
        proof {
            assert(s.skip(p as int).skip(p1 - p) =~= s.skip(p1 as int));
            let op = LogCmd::Write(key@, val@);
            assert(parse_kv(s, p as int, rem).0 == seq![op] + parse_kv(s, p2 as int, (rem - 1) as nat).0);
            assert(done + (seq![op] + parse_kv(s, p2 as int, (rem - 1) as nat).0) =~= done.push(op) + parse_kv(
                s,
                p2 as int,
                (rem - 1) as nat,
            ).0);
            lemma_db_replay_push(d0, done, op);
            done = done.push(op);
        }
        db.kv_store.insert(key, val);
        p = p2;
        i = i + 1;
    }
    proof {
        assert(done + Seq::<LogCmd>::empty() =~= done);
    }
    Ok(p)
}

fn load_members(bytes: &[u8], pos: usize, key: &String, cnt: u32, db: &mut Db) -> (r: Result<usize, SnapshotError>)
    requires
        old(db).wf(),
        pos <= bytes@.len(),
    ensures
        final(db).wf(),
        final(db).kv_store == old(db).kv_store,
        db_view(*final(db)) == db_replay(db_view(*old(db)), parse_members(bytes@, pos as int, key@, cnt as nat).0),
        outcome_matches(r, parse_members(bytes@, pos as int, key@, cnt as nat).1),
        r matches Ok(p) ==> p <= bytes@.len(),
{
    let ghost s = bytes@;
    let ghost d0 = db_view(*db);
    let ghost mut done: Seq<LogCmd> = Seq::empty();
    let mut p = pos;
    let mut i: u32 = 0;
    while i < cnt
        invariant
            db.wf(),
            db.kv_store == old(db).kv_store,
            s == bytes@,
            d0 == db_view(*old(db)),
            i <= cnt,
            p <= s.len(),
            parse_members(s, pos as int, key@, cnt as nat).0 == done + parse_members(s, p as int, key@, (cnt - i) as nat).0,
            parse_members(s, pos as int, key@, cnt as nat).1 == parse_members(s, p as int, key@, (cnt - i) as nat).1,
            db_view(*db) == db_replay(d0, done),
        decreases cnt - i,
    {
        let ghost rem = (cnt - i) as nat;
        let (member, p1) = match read_string(bytes, p) {
            Ok(x) => x,
            Err(e) => {
                proof {
                    assert(done + Seq::<LogCmd>::empty() =~= done);
                }
                return Err(SnapshotError::from(e));
            },
        };
        let (score, p2) = match read_float(bytes, p1) {
            Ok(x) => x,
            Err(e) => {
                proof {
                    assert(done + Seq::<LogCmd>::empty() =~= done);
                }
                return Err(SnapshotError::from(e));
            },
        };
        proof {
            let op = LogCmd::Zadd(key@, member@, score);
            assert(parse_members(s, p as int, key@, rem).0 == seq![op] + parse_members(s, p2 as int, key@, (rem - 1) as nat).0);
            assert(done + (seq![op] + parse_members(s, p2 as int, key@, (rem - 1) as nat).0) =~= done.push(op)
                + parse_members(s, p2 as int, key@, (rem - 1) as nat).0);
            lemma_db_replay_push(d0, done, op);
            done = done.push(op);
        }
        db.sorted_sets.zadd(key, member, score);
        p = p2;
        i = i + 1;
    }
    proof {
        assert(done + Seq::<LogCmd>::empty() =~= done);
    }
    Ok(p)
}

fn load_sets(bytes: &[u8], pos: usize, cnt: u32, db: &mut Db) -> (r: Result<usize, SnapshotError>)
    requires
        old(db).wf(),
        pos <= bytes@.len(),
    ensures
        final(db).wf(),
        final(db).kv_store == old(db).kv_store,
        db_view(*final(db)) == db_replay(db_view(*old(db)), parse_sets(bytes@, pos as int, cnt as nat).0),
        outcome_matches(r, parse_sets(bytes@, pos as int, cnt as nat).1),
        r matches Ok(p) ==> p <= bytes@.len(),
{
    let ghost s = bytes@;
    let ghost d0 = db_view(*db);
    let ghost mut done: Seq<LogCmd> = Seq::empty();
    let mut p = pos;
    let mut i: u32 = 0;
    while i < cnt
        invariant
            db.wf(),
            db.kv_store == old(db).kv_store,
            s == bytes@,
            d0 == db_view(*old(db)),
            i <= cnt,
            p <= s.len(),
            parse_sets(s, pos as int, cnt as nat).0 == done + parse_sets(s, p as int, (cnt - i) as nat).0,
            parse_sets(s, pos as int, cnt as nat).1 == parse_sets(s, p as int, (cnt - i) as nat).1,
            db_view(*db) == db_replay(d0, done),
        decreases cnt - i,
    {
        let ghost rem = (cnt - i) as nat;
        let (key, p1) = match read_string(bytes, p) {
            Ok(x) => x,
            Err(e) => {
                proof {
                    assert(done + Seq::<LogCmd>::empty() =~= done);
                }
                return Err(SnapshotError::from(e));
            },
        };
        let (member_count, p2) = match read_u32(bytes, p1) {
            Ok(x) => x,
            Err(e) => {
                proof {
                    assert(done + Seq::<LogCmd>::empty() =~= done);
                }
                return Err(e);
            },
        };
        let ghost mid = db_view(*db);
        let inner = load_members(bytes, p2, &key, member_count, db);
        let ghost ops1 = parse_members(s, p2 as int, key@, member_count as nat).0;
        proof {
            lemma_db_replay_append(d0, done, ops1);
        }
        match inner {
            Err(e) => {
                proof {
                    assert(done + (ops1 + Seq::<LogCmd>::empty()) =~= done + ops1);
                }
                return Err(e);
            },
            Ok(p3) => {
                proof {
                    assert(done + (ops1 + parse_sets(s, p3 as int, (rem - 1) as nat).0) =~= (done + ops1) + parse_sets(
                        s,
                        p3 as int,
                        (rem - 1) as nat,
                    ).0);
                    done = done + ops1;
                }
                p = p3;
            },
        }
        i = i + 1;
    }
    proof {
        assert(done + Seq::<LogCmd>::empty() =~= done);
    }
    Ok(p)
}

/// Loads a snapshot held in `bytes` into `db`, and gives the number of bytes
/// read.  What it read before an error stays loaded.
pub fn load_snapshot_from_bytes(bytes: &[u8], db: &mut Db) -> (r: Result<u64, SnapshotError>)
    requires
        old(db).wf(),
    ensures
        final(db).wf(),
        final(db).kv_store.spec_hits() == old(db).kv_store.spec_hits(),
        final(db).kv_store.spec_misses() == old(db).kv_store.spec_misses(),
        db_view(*final(db)) == db_replay(db_view(*old(db)), snapshot_spec(bytes@).0),
        match (r, snapshot_spec(bytes@).1) {
            (Ok(n), Ok(m)) => n == m,
            (Err(e1), Err(e2)) => e1 == e2,
            _ => false,
        },
{
    let ghost s = bytes@;
    let ghost d0 = db_view(*db);
    let (magic, p) = read_u32(bytes, 0)?;
    if magic != SNAPSHOT_MAGIC {
        return Err(SnapshotError::InvalidSnapshot);
    }
    let (version, p) = read_u32(bytes, p)?;
    if version != SNAPSHOT_VERSION {
        return Err(SnapshotError::InvalidSnapshot);
    }
    // The timestamp and the log position, eight bytes each.
    if bytes.len() < 24 {
        return Err(SnapshotError::UnexpectedEof);
    }
    let (kv_cnt, p) = read_u32(bytes, 24)?;
    let p = load_kv(bytes, p, kv_cnt, db)?;
    let ghost o1 = parse_kv(s, 28, kv_cnt as nat).0;
    let (ss_cnt, p) = match read_u32(bytes, p) {
        Ok(x) => x,
        Err(e) => {
            proof {
                assert(o1 + Seq::<LogCmd>::empty() =~= o1);
            }
            return Err(e);
        },
    };
    let loaded = load_sets(bytes, p, ss_cnt, db);
    proof {
        lemma_db_replay_append(d0, o1, parse_sets(s, p as int, ss_cnt as nat).0);
    }
    let q = match loaded {
        Ok(q) => q,
        Err(e) => {
            return Err(e);
        },
    };
    let (stored, end) = read_u32(bytes, q)?;
    let computed = crc32(slice_subrange(bytes, 0, q));
    if stored != computed {
        return Err(SnapshotError::InvalidSnapshot);
    }
    Ok(end as u64)
}

/// Two databases with the same pairs and sets keep the same pairs and sets
/// through the same writes (the caches play no part in them).
pub proof fn lemma_replay_same_contents(d1: DbView, d2: DbView, cmds: Seq<LogCmd>)
    requires
        d1.kv == d2.kv,
        d1.sets == d2.sets,
    ensures
        db_replay(d1, cmds).kv == db_replay(d2, cmds).kv,
        db_replay(d1, cmds).sets == db_replay(d2, cmds).sets,
    decreases cmds.len(),
{
    if cmds.len() > 0 {
        lemma_replay_same_contents(db_apply(d1, cmds[0]), db_apply(d2, cmds[0]), cmds.drop_first());
    }
}

/// Restart gives back every acknowledged write.  Take a database whose
/// pairs and sets `encode_snapshot` lists as `kvs` and `sets`, snapshot it,
/// and log the writes `cmds` it acknowledges after that.  Loading the
/// snapshot into an empty database and replaying the log reads all of both,
/// and gives the same key-value pairs and sorted sets as the database after
/// those writes.
pub proof fn law_restart_recovers(
    ts: i64,
    wal: u64,
    kvs: Seq<(String, String)>,
    sets: Seq<(String, Vec<(String, u64)>)>,
    engine: DbView,
    cmds: Seq<LogCmd>,
    fresh: DbView,
)
    requires
        lists_kv(kvs, engine.kv),
        lists_sets(sets, engine.sets),
        forall|k: Seq<char>| #[trigger] engine.sets.contains_key(k) ==> set_valid(engine.sets[k]) && engine.sets[k].len() > 0,
        snapshot_fits(kv_pairs(kvs), set_lists(sets)),
        forall|i: int| 0 <= i < cmds.len() ==> record_fits(#[trigger] cmds[i]),
        fresh.kv == Map::<Seq<char>, Seq<char>>::empty(),
        fresh.sets == Map::<Seq<char>, SetEntries>::empty(),
    ensures
        ({
            let img = snapshot_image(ts, wal, kv_pairs(kvs), set_lists(sets));
            let restored = db_replay(fresh, snapshot_spec(img).0);
            let log = log_bytes(cmds);
            let after = db_replay(restored, replay_spec(log).1);
            &&& snapshot_spec(img).1 == Ok::<int, SnapshotError>(img.len() as int)
            &&& replay_spec(log).0 == log.len()
            &&& after.kv == db_replay(engine, cmds).kv
            &&& after.sets == db_replay(engine, cmds).sets
        }),
{
    law_snapshot_round_trip(ts, wal, kvs, sets, engine.kv, engine.sets, fresh);
    law_replay_log(cmds);
    let img = snapshot_image(ts, wal, kv_pairs(kvs), set_lists(sets));
    let restored = db_replay(fresh, snapshot_spec(img).0);
    lemma_replay_same_contents(restored, engine, cmds);
}

} // verus!
