//! The write-ahead log: the checksummed, self-delimiting record format of
//! the writes (`SET`, `DEL`, `CLEAR`, `ZADD`, `ZREM`), and the replay of a
//! log into a database.
//!
//! Record: `[checksum: u32][body_len: u32][body]`, little-endian, where the
//! checksum is the CRC-32 of the body and the body is `[cmd: u8]` followed by
//! the command's fields: `[len: u32][bytes]` for each string (key, then value
//! or member) and eight bytes for a `ZADD` score.
use vstd::prelude::*;
use vstd::bytes::{
    lemma_auto_spec_u32_to_from_le_bytes, lemma_auto_spec_u64_to_from_le_bytes, spec_u32_from_le_bytes,
    spec_u32_to_le_bytes, spec_u64_from_le_bytes, spec_u64_to_le_bytes, u32_from_le_bytes, u32_to_le_bytes,
    u64_from_le_bytes, u64_to_le_bytes,
};
use vstd::slice::{slice_subrange, slice_to_vec};
use vstd::utf8::{decode_utf8, encode_utf8, valid_utf8};
use crate::protocol::Command;
use crate::text::string_from_utf8;
use crate::store::{Db, LRU_CAPACITY};
use crate::lru_cache::{Entries, lru_del, lru_put};
use crate::sorted_set_store::{SetEntries, set_without, zadd_spec};

verus! {

broadcast use {vstd::utf8::encode_utf8_valid_utf8, vstd::utf8::encode_utf8_decode_utf8};

pub const CMD_SET: u8 = 1;

pub const CMD_DEL: u8 = 2;

pub const CMD_CLEAR: u8 = 3;

pub const CMD_ZADD: u8 = 4;

pub const CMD_ZREM: u8 = 5;

/// The CRC-32 (IEEE) checksum of a byte string.
pub uninterp spec fn crc32_of(bytes: Seq<u8>) -> u32;

/// Calls `crc32fast::hash`, which computes the CRC-32 checksum of `bytes`
/// (the same as `Hasher::new`, `update`, `finalize`).  Claimed: the result is
/// `crc32_of(bytes)`, a function of the bytes alone.
#[verifier::external_body]
pub(crate) fn crc32(bytes: &[u8]) -> (r: u32)
    ensures
        r == crc32_of(bytes@),
{
    crc32fast::hash(bytes)
}

#[verifier::external_type_specification]
#[verifier::external_body]
pub struct ExIoError(std::io::Error);

/// Why a log record could not be read.
#[derive(Debug)]
pub enum WalError {
    Io(std::io::Error),
    ChecksumMismatch,
    UnknownCommandByte(u8),
    InvalidUtf8,
    UnexpectedEof,
}

/// The command of a log record (a write), by the contents of its strings.
pub ghost enum LogCmd {
    Write(Seq<char>, Seq<char>),
    Delete(Seq<char>),
    Clear,
    Zadd(Seq<char>, Seq<char>, u64),
    Zrem(Seq<char>, Seq<char>),
}

/// The log record of a command, if it is a write.
pub open spec fn log_cmd(c: Command) -> Option<LogCmd> {
    match c {
        Command::SetValue { key, value } => Some(LogCmd::Write(key@, value@)),
        Command::Del { key } => Some(LogCmd::Delete(key@)),
        Command::Clear => Some(LogCmd::Clear),
        Command::Zadd { key, member, score } => Some(LogCmd::Zadd(key@, member@, score)),
        Command::Zrem { key, member } => Some(LogCmd::Zrem(key@, member@)),
        _ => None,
    }
}

/// A length-prefixed string field.
pub open spec fn field_bytes(s: Seq<char>) -> Seq<u8> {
    spec_u32_to_le_bytes(encode_utf8(s).len() as u32) + encode_utf8(s)
}

/// The body of a record.
pub open spec fn body_bytes(c: LogCmd) -> Seq<u8> {
    match c {
        LogCmd::Write(k, v) => seq![CMD_SET] + field_bytes(k) + field_bytes(v),
        LogCmd::Delete(k) => seq![CMD_DEL] + field_bytes(k),
        LogCmd::Clear => seq![CMD_CLEAR],
        LogCmd::Zadd(k, m, sc) => seq![CMD_ZADD] + field_bytes(k) + field_bytes(m) + spec_u64_to_le_bytes(sc),
        LogCmd::Zrem(k, m) => seq![CMD_ZREM] + field_bytes(k) + field_bytes(m),
    }
}

/// The whole record of a command.
pub open spec fn record_bytes(c: LogCmd) -> Seq<u8> {
    let body = body_bytes(c);
    spec_u32_to_le_bytes(crc32_of(body)) + spec_u32_to_le_bytes(body.len() as u32) + body
}

/// The little-endian `u32` at `i`.
pub open spec fn le32_at(s: Seq<u8>, i: int) -> u32 {
    spec_u32_from_le_bytes(s.subrange(i, i + 4))
}

/// Reading a length-prefixed string from the start of `s`: the string and
/// the number of bytes it took.
pub open spec fn read_string_spec(s: Seq<u8>) -> Result<(Seq<char>, int), WalError> {
    if s.len() < 4 {
        Err(WalError::UnexpectedEof)
    } else {
        let len = le32_at(s, 0) as int;
        if s.len() - 4 < len {
            Err(WalError::UnexpectedEof)
        } else if !valid_utf8(s.subrange(4, 4 + len)) {
            Err(WalError::InvalidUtf8)
        } else {
            Ok((decode_utf8(s.subrange(4, 4 + len)), 4 + len))
        }
    }
}

/// Reading the command of a record body.
pub open spec fn parse_body_spec(body: Seq<u8>) -> Result<LogCmd, WalError> {
    if body.len() == 0 {
        Err(WalError::UnexpectedEof)
    } else {
        let rest = body.skip(1);
        if body[0] == CMD_SET {
            match read_string_spec(rest) {
                Err(e) => Err(e),
                Ok((k, n)) => match read_string_spec(rest.skip(n)) {
                    Err(e) => Err(e),
                    Ok((v, _)) => Ok(LogCmd::Write(k, v)),
                },
            }
        } else if body[0] == CMD_DEL {
            match read_string_spec(rest) {
                Err(e) => Err(e),
                Ok((k, _)) => Ok(LogCmd::Delete(k)),
            }
        } else if body[0] == CMD_CLEAR {
            Ok(LogCmd::Clear)
        } else if body[0] == CMD_ZADD {
            match read_string_spec(rest) {
                Err(e) => Err(e),
                Ok((k, n)) => match read_string_spec(rest.skip(n)) {
                    Err(e) => Err(e),
                    Ok((m, n2)) => if rest.len() - (n + n2) < 8 {
                        Err(WalError::UnexpectedEof)
                    } else {
                        Ok(LogCmd::Zadd(k, m, spec_u64_from_le_bytes(rest.subrange(n + n2, n + n2 + 8))))
                    },
                },
            }
        } else if body[0] == CMD_ZREM {
            match read_string_spec(rest) {
                Err(e) => Err(e),
                Ok((k, n)) => match read_string_spec(rest.skip(n)) {
                    Err(e) => Err(e),
                    Ok((m, _)) => Ok(LogCmd::Zrem(k, m)),
                },
            }
        } else {
            Err(WalError::UnknownCommandByte(body[0]))
        }
    }
}

/// Reading the record at the start of `s`: `Ok(None)` at a clean end (fewer
/// than four bytes), else the command and the length of the record, or why
/// it is malformed.
pub open spec fn decode_spec(s: Seq<u8>) -> Result<Option<(LogCmd, int)>, WalError> {
    if s.len() < 4 {
        Ok(None)
    } else if s.len() < 8 {
        Err(WalError::UnexpectedEof)
    } else {
        let blen = le32_at(s, 4) as int;
        if s.len() < 8 + blen {
            Err(WalError::UnexpectedEof)
        } else {
            let body = s.subrange(8, 8 + blen);
            if crc32_of(body) != le32_at(s, 0) {
                Err(WalError::ChecksumMismatch)
            } else {
                match parse_body_spec(body) {
                    Ok(c) => Ok(Some((c, 8 + blen))),
                    Err(e) => Err(e),
                }
            }
        }
    }
}

/// Appends the length of `data` (as a little-endian `u32`) and `data` to `buf`.
pub fn write_bytes_with_len(buf: &mut Vec<u8>, data: &[u8])
    ensures
        final(buf)@ == old(buf)@ + spec_u32_to_le_bytes(data@.len() as u32) + data@,
{
    let mut len_bytes = u32_to_le_bytes(data.len() as u32);
    buf.append(&mut len_bytes);
    let mut copy = slice_to_vec(data);
    buf.append(&mut copy);
}

/// The log record of a `SET` or `DEL` command.
pub fn encode_record(cmd: &Command) -> (r: Vec<u8>)
    requires
        log_cmd(*cmd) is Some,
    ensures
        r@ == record_bytes(log_cmd(*cmd)->0),
{
    let mut body: Vec<u8> = Vec::new();
    match cmd {
        Command::SetValue { key, value } => {
            body.push(CMD_SET);
            write_bytes_with_len(&mut body, key.as_str().as_bytes());
            write_bytes_with_len(&mut body, value.as_str().as_bytes());
        },
        Command::Del { key } => {
            body.push(CMD_DEL);
            write_bytes_with_len(&mut body, key.as_str().as_bytes());
        },
        Command::Clear => {
            body.push(CMD_CLEAR);
        },
        Command::Zadd { key, member, score } => {
            body.push(CMD_ZADD);
            write_bytes_with_len(&mut body, key.as_str().as_bytes());
            write_bytes_with_len(&mut body, member.as_str().as_bytes());
            let mut b = u64_to_le_bytes(*score);
            body.append(&mut b);
        },
        Command::Zrem { key, member } => {
            body.push(CMD_ZREM);
            write_bytes_with_len(&mut body, key.as_str().as_bytes());
            write_bytes_with_len(&mut body, member.as_str().as_bytes());
        },
        _ => {},
    }
    proof {
        assert(body@ =~= body_bytes(log_cmd(*cmd)->0));
    }
    let checksum = crc32(body.as_slice());
    let mut record: Vec<u8> = Vec::new();
    let mut c = u32_to_le_bytes(checksum);
    record.append(&mut c);
    let mut l = u32_to_le_bytes(body.len() as u32);
    record.append(&mut l);
    record.append(&mut body);
    record
}


/// Reads the byte at `pos`; gives it and the position after it.
fn read_u8(bytes: &[u8], pos: usize) -> (r: Result<(u8, usize), WalError>)
    requires
        pos <= bytes@.len(),
    ensures
        match r {
            Ok((b, next)) => pos < bytes@.len() && b == bytes@[pos as int] && next == pos + 1,
            Err(e) => pos == bytes@.len() && e == WalError::UnexpectedEof,
        },
{
    if pos < bytes.len() {
        Ok((bytes[pos], pos + 1))
    } else {
        Err(WalError::UnexpectedEof)
    }
}

/// Reads the eight-byte little-endian score (bit pattern of a double) at
/// `pos`; gives it and the position after it.
pub(crate) fn read_float(bytes: &[u8], pos: usize) -> (r: Result<(u64, usize), WalError>)
    requires
        pos <= bytes@.len(),
    ensures
        match r {
            Ok((bits, next)) => bytes@.len() - pos >= 8 && bits == spec_u64_from_le_bytes(
                bytes@.subrange(pos as int, pos + 8),
            ) && next == pos + 8,
            Err(e) => bytes@.len() - pos < 8 && e == WalError::UnexpectedEof,
        },
{
    if bytes.len() - pos < 8 {
        return Err(WalError::UnexpectedEof);
    }
    Ok((u64_from_le_bytes(slice_subrange(bytes, pos, pos + 8)), pos + 8))
}

/// Reads a length-prefixed string at `pos`; gives it and the position after it.
pub(crate) fn read_string(bytes: &[u8], pos: usize) -> (r: Result<(String, usize), WalError>)
    requires
        pos <= bytes@.len(),
    ensures
        match (r, read_string_spec(bytes@.skip(pos as int))) {
            (Ok((s, next)), Ok((t, n))) => s@ == t && next == pos + n && next <= bytes@.len(),
            (Err(e1), Err(e2)) => e1 == e2,
            _ => false,
        },
{
    let ghost rest = bytes@.skip(pos as int);
    if bytes.len() - pos < 4 {
        return Err(WalError::UnexpectedEof);
    }
    let len = u32_from_le_bytes(slice_subrange(bytes, pos, pos + 4)) as usize;
    proof {
        assert(rest.subrange(0, 4) =~= bytes@.subrange(pos as int, pos + 4));
    }
    let start = pos + 4;
    if bytes.len() - start < len {
        return Err(WalError::UnexpectedEof);
    }
    let raw = slice_to_vec(slice_subrange(bytes, start, start + len));
    proof {
        assert(rest.subrange(4, 4 + len) =~= raw@);
    }
    match string_from_utf8(raw) {
        Some(s) => Ok((s, start + len)),
        None => Err(WalError::InvalidUtf8),
    }
}

/// Reads the record at the start of `bytes`: `Ok(None)` at a clean end of
/// the log, else the command and the number of bytes the record takes.
pub fn decode_record(bytes: &[u8]) -> (r: Result<Option<(Command, usize)>, WalError>)
    ensures
        match (r, decode_spec(bytes@)) {
            (Ok(None), Ok(None)) => true,
            (Ok(Some((c, n))), Ok(Some((lc, m)))) => log_cmd(c) == Some(lc) && n == m,
            (Err(e1), Err(e2)) => e1 == e2,
            _ => false,
        },
{
    if bytes.len() < 4 {
        return Ok(None);
    }
    let expected_checksum = u32_from_le_bytes(slice_subrange(bytes, 0, 4));
    if bytes.len() < 8 {
        return Err(WalError::UnexpectedEof);
    }
    let body_len = u32_from_le_bytes(slice_subrange(bytes, 4, 8)) as usize;
    if bytes.len() - 8 < body_len {
        return Err(WalError::UnexpectedEof);
    }
    let body = slice_subrange(bytes, 8, 8 + body_len);
    if crc32(body) != expected_checksum {
        return Err(WalError::ChecksumMismatch);
    }
    let ghost rest = body@.skip(1);
    let (cmd_type, pos) = match read_u8(body, 0) {
        Ok(x) => x,
        Err(e) => {
            return Err(e);
        },
    };
    proof {
        assert(body@.skip(1) =~= body@.skip(pos as int));
    }
    let cmd = if cmd_type == CMD_SET {
        let (key, pos2) = match read_string(body, pos) {
            Ok(x) => x,
            Err(e) => {
                return Err(e);
            },
        };
        proof {
            let n = (pos2 - pos) as int;
            assert(rest.skip(n) =~= body@.skip(pos2 as int));
        }
        let (value, _) = match read_string(body, pos2) {
            Ok(x) => x,
            Err(e) => {
                return Err(e);
            },
        };
        Command::SetValue { key, value }
    } else if cmd_type == CMD_DEL {
        let (key, _) = match read_string(body, pos) {
            Ok(x) => x,
            Err(e) => {
                return Err(e);
            },
        };
        Command::Del { key }
    } else if cmd_type == CMD_CLEAR {
        Command::Clear
    } else if cmd_type == CMD_ZADD || cmd_type == CMD_ZREM {
        let (key, pos2) = match read_string(body, pos) {
            Ok(x) => x,
            Err(e) => {
                return Err(e);
            },
        };
        proof {
            let n = (pos2 - pos) as int;
            assert(rest.skip(n) =~= body@.skip(pos2 as int));
        }
        let (member, pos3) = match read_string(body, pos2) {
            Ok(x) => x,
            Err(e) => {
                return Err(e);
            },
        };
        if cmd_type == CMD_ZADD {
            let (score, _) = match read_float(body, pos3) {
                Ok(x) => x,
                Err(e) => {
                    return Err(e);
                },
            };
            proof {
                let n = (pos3 - pos) as int;
                assert(rest.subrange(n, n + 8) =~= body@.subrange(pos3 as int, pos3 + 8));
            }
            Command::Zadd { key, member, score }
        } else {
            Command::Zrem { key, member }
        }
    } else {
        return Err(WalError::UnknownCommandByte(cmd_type));
    };
    Ok(Some((cmd, 8 + body_len)))
}


/// The parts of a database that writes change: the key-value map, the
/// cache in front of it, and the sorted sets.
pub ghost struct DbView {
    pub kv: Map<Seq<char>, Seq<char>>,
    pub cache: Entries,
    pub sets: Map<Seq<char>, SetEntries>,
}

pub open spec fn db_view(db: Db) -> DbView {
    DbView { kv: db.kv_store.map_view(), cache: db.kv_store.cache_view(), sets: db.sorted_sets.view_sets() }
}

/// The entries of the set at `k`; none if there is no such set.
pub open spec fn set_or_empty(sets: Map<Seq<char>, SetEntries>, k: Seq<char>) -> SetEntries {
    if sets.contains_key(k) {
        sets[k]
    } else {
        SetEntries::empty()
    }
}

/// The sets after `ZREM k m`: the member leaves its set, and a set left
/// empty goes away.
pub open spec fn sets_after_zrem(sets: Map<Seq<char>, SetEntries>, k: Seq<char>, m: Seq<char>) -> Map<
    Seq<char>,
    SetEntries,
> {
    if sets.contains_key(k) {
        let after = set_without(sets[k], m);
        if after.len() == 0 {
            sets.remove(k)
        } else {
            sets.insert(k, after)
        }
    } else {
        sets
    }
}

/// A database after one write.
pub open spec fn db_apply(d: DbView, c: LogCmd) -> DbView {
    match c {
        LogCmd::Write(k, v) => DbView { kv: d.kv.insert(k, v), cache: lru_put(d.cache, k, v, LRU_CAPACITY as nat), sets: d.sets },
        LogCmd::Delete(k) => DbView { kv: d.kv.remove(k), cache: lru_del(d.cache, k), sets: d.sets },
        LogCmd::Clear => DbView { kv: Map::empty(), cache: Entries::empty(), sets: d.sets },
        LogCmd::Zadd(k, m, sc) => DbView {
            kv: d.kv,
            cache: d.cache,
            sets: d.sets.insert(k, zadd_spec(set_or_empty(d.sets, k), m, sc)),
        },
        LogCmd::Zrem(k, m) => DbView { kv: d.kv, cache: d.cache, sets: sets_after_zrem(d.sets, k, m) },
    }
}

/// A database after writes in order.
pub open spec fn db_replay(d: DbView, cmds: Seq<LogCmd>) -> DbView
    decreases cmds.len(),
{
    if cmds.len() == 0 {
        d
    } else {
        db_replay(db_apply(d, cmds[0]), cmds.drop_first())
    }
}

/// Replaying a log: the length of its longest prefix of well-formed records,
/// and their commands in order.
pub open spec fn replay_spec(s: Seq<u8>) -> (int, Seq<LogCmd>)
    decreases s.len(),
{
    match decode_spec(s) {
        Ok(Some((c, n))) => if 0 < n <= s.len() {
            let (g, cs) = replay_spec(s.skip(n));
            (n + g, seq![c] + cs)
        } else {
            (0, Seq::empty())
        },
        _ => (0, Seq::empty()),
    }
}

pub proof fn lemma_db_replay_push(d: DbView, cmds: Seq<LogCmd>, x: LogCmd)
    ensures
        db_replay(d, cmds.push(x)) == db_apply(db_replay(d, cmds), x),
    decreases cmds.len(),
{
    if cmds.len() == 0 {
        assert(cmds.push(x).drop_first() =~= Seq::<LogCmd>::empty());
        assert(cmds.push(x)[0] == x);
        assert(db_replay(db_apply(d, x), Seq::<LogCmd>::empty()) == db_apply(d, x));
    } else {
        assert(cmds.push(x)[0] == cmds[0]);
        assert(cmds.push(x).drop_first() =~= cmds.drop_first().push(x));
        lemma_db_replay_push(db_apply(d, cmds[0]), cmds.drop_first(), x);
    }
}

pub proof fn lemma_db_replay_append(d: DbView, a: Seq<LogCmd>, b: Seq<LogCmd>)
    ensures
        db_replay(d, a + b) == db_replay(db_replay(d, a), b),
    decreases b.len(),
{
    if b.len() == 0 {
        assert(a + b =~= a);
    } else {
        let b2 = b.drop_last();
        let x = b.last();
        assert(a + b =~= (a + b2).push(x));
        assert(b =~= b2.push(x));
        lemma_db_replay_append(d, a, b2);
        lemma_db_replay_push(d, a + b2, x);
        lemma_db_replay_push(db_replay(d, a), b2, x);
    }
}

/// Applies a write to the store; other commands change nothing.
pub fn apply_to_store(store: &mut Db, cmd: Command)
    requires
        old(store).wf(),
    ensures
        final(store).wf(),
        final(store).kv_store.spec_hits() == old(store).kv_store.spec_hits(),
        final(store).kv_store.spec_misses() == old(store).kv_store.spec_misses(),
        db_view(*final(store)) == (match log_cmd(cmd) {
            Some(lc) => db_apply(db_view(*old(store)), lc),
            None => db_view(*old(store)),
        }),
{
    match cmd {
        Command::SetValue { key, value } => {
            store.kv_store.insert(key, value);
        },
        Command::Del { key } => {
            store.kv_store.remove(&key);
        },
        Command::Clear => {
            store.kv_store.clear();
        },
        Command::Zadd { key, member, score } => {
            store.sorted_sets.zadd(&key, member, score);
        },
        Command::Zrem { key, member } => {
            store.sorted_sets.zrem(&key, &member);
        },
        _ => {},
    }
}

/// Replays a log held in `bytes` into `store`: applies its records in order
/// up to the first one that is torn or malformed, and gives the length of
/// the well-formed prefix.
pub fn replay_from_bytes(bytes: &[u8], store: &mut Db) -> (good_len: u64)
    requires
        old(store).wf(),
    ensures
        final(store).wf(),
        good_len == replay_spec(bytes@).0,
        final(store).kv_store.spec_hits() == old(store).kv_store.spec_hits(),
        final(store).kv_store.spec_misses() == old(store).kv_store.spec_misses(),
        db_view(*final(store)) == db_replay(db_view(*old(store)), replay_spec(bytes@).1),
{
    let ghost d0 = db_view(*store);
    let ghost mut done: Seq<LogCmd> = Seq::empty();
    let mut pos: usize = 0;
    let mut good_len: u64 = 0;
    proof {
        assert(bytes@.skip(0) =~= bytes@);
    }
    loop
        invariant
            store.wf(),
            pos <= bytes@.len(),
            good_len == pos,
            store.kv_store.spec_hits() == old(store).kv_store.spec_hits(),
            store.kv_store.spec_misses() == old(store).kv_store.spec_misses(),
            d0 == db_view(*old(store)),
            replay_spec(bytes@).0 == pos + replay_spec(bytes@.skip(pos as int)).0,
            replay_spec(bytes@).1 == done + replay_spec(bytes@.skip(pos as int)).1,
            db_view(*store) == db_replay(d0, done),
        ensures
            good_len == replay_spec(bytes@).0,
            store.wf(),
            store.kv_store.spec_hits() == old(store).kv_store.spec_hits(),
            store.kv_store.spec_misses() == old(store).kv_store.spec_misses(),
            db_view(*store) == db_replay(d0, replay_spec(bytes@).1),
        decreases bytes@.len() - pos,
    {
        let rest = slice_subrange(bytes, pos, bytes.len());
        let ghost tail = bytes@.skip(pos as int);
        proof {
            assert(rest@ =~= tail);
        }
        match decode_record(rest) {
            Ok(Some((cmd, used))) => {
                let ghost lc = log_cmd(cmd)->0;
                proof {
                    assert(decode_spec(tail) == Ok::<Option<(LogCmd, int)>, WalError>(Some((lc, used as int))));
                    assert(8 <= used <= tail.len());
                    assert(tail.skip(used as int) =~= bytes@.skip(pos + used));
                    lemma_db_replay_push(d0, done, lc);
                }
                apply_to_store(store, cmd);
                pos = pos + used;
                good_len = pos as u64;
                proof {
                    assert(done.push(lc) + replay_spec(bytes@.skip(pos as int)).1 =~= done + (seq![lc] + replay_spec(bytes@.skip(pos as int)).1));
                    done = done.push(lc);
                }
            },
            Ok(None) => {
                proof {
                    assert(done + Seq::<LogCmd>::empty() =~= done);
                }
                break;
            },
            Err(_) => {
                proof {
                    assert(done + Seq::<LogCmd>::empty() =~= done);
                }
                break;
            },
        }
    }
    good_len
}


/// A record's fields fit their `u32` length prefixes.
pub open spec fn record_fits(c: LogCmd) -> bool {
    body_bytes(c).len() <= u32::MAX
}

pub proof fn lemma_read_field(t: Seq<char>, x: Seq<u8>)
    requires
        encode_utf8(t).len() <= u32::MAX,
    ensures
        read_string_spec(field_bytes(t) + x) == Ok::<(Seq<char>, int), WalError>((t, field_bytes(t).len() as int)),
        (field_bytes(t) + x).skip(field_bytes(t).len() as int) == x,
{
    lemma_auto_spec_u32_to_from_le_bytes();
    let e = encode_utf8(t);
    let f = field_bytes(t);
    let s = f + x;
    assert(s.subrange(0, 4) =~= spec_u32_to_le_bytes(e.len() as u32));
    assert(le32_at(s, 0) == e.len());
    assert(s.subrange(4, 4 + e.len() as int) =~= e);
    assert(s.skip(f.len() as int) =~= x);
}

/// Reading back a record gives the command that was written, and the
/// record's length, whatever follows it.
pub proof fn law_decode_encode(c: LogCmd, rest: Seq<u8>)
    requires
        record_fits(c),
    ensures
        decode_spec(record_bytes(c) + rest) == Ok::<Option<(LogCmd, int)>, WalError>(
            Some((c, record_bytes(c).len() as int)),
        ),
{
    lemma_auto_spec_u32_to_from_le_bytes();
    let body = body_bytes(c);
    let r = record_bytes(c);
    let s = r + rest;
    assert(s.subrange(0, 4) =~= spec_u32_to_le_bytes(crc32_of(body)));
    assert(s.subrange(4, 8) =~= spec_u32_to_le_bytes(body.len() as u32));
    assert(le32_at(s, 4) == body.len());
    assert(s.subrange(8, 8 + body.len() as int) =~= body);
    match c {
        LogCmd::Write(k, v) => {
            let tail = body.skip(1);
            assert(tail =~= field_bytes(k) + field_bytes(v));
            lemma_read_field(k, field_bytes(v));
            assert(field_bytes(v) =~= field_bytes(v) + Seq::<u8>::empty());
            lemma_read_field(v, Seq::<u8>::empty());
        },
        LogCmd::Delete(k) => {
            let tail = body.skip(1);
            assert(tail =~= field_bytes(k) + Seq::<u8>::empty());
            lemma_read_field(k, Seq::<u8>::empty());
        },
        LogCmd::Clear => {},
        LogCmd::Zadd(k, m, sc) => {
            lemma_auto_spec_u64_to_from_le_bytes();
            let tail = body.skip(1);
            let sb = spec_u64_to_le_bytes(sc);
            assert(tail =~= field_bytes(k) + (field_bytes(m) + sb));
            lemma_read_field(k, field_bytes(m) + sb);
            lemma_read_field(m, sb);
            let n = field_bytes(k).len() as int;
            let n2 = field_bytes(m).len() as int;
            assert(tail.subrange(n + n2, n + n2 + 8) =~= sb);
        },
        LogCmd::Zrem(k, m) => {
            let tail = body.skip(1);
            assert(tail =~= field_bytes(k) + field_bytes(m));
            lemma_read_field(k, field_bytes(m));
            assert(field_bytes(m) =~= field_bytes(m) + Seq::<u8>::empty());
            lemma_read_field(m, Seq::<u8>::empty());
        },
    }
}

/// Replaying a record followed by more log applies its command, then
/// replays the rest.
pub proof fn law_replay_record(c: LogCmd, rest: Seq<u8>)
    requires
        record_fits(c),
    ensures
        replay_spec(record_bytes(c) + rest) == (
            record_bytes(c).len() + replay_spec(rest).0,
            seq![c] + replay_spec(rest).1,
        ),
{
    law_decode_encode(c, rest);
    let s = record_bytes(c) + rest;
    assert(s.skip(record_bytes(c).len() as int) =~= rest);
}

/// A record cut short by a torn write is never applied: a log that is a
/// proper prefix of a record replays to nothing.
pub proof fn law_torn_record(c: LogCmd, k: int)
    requires
        record_fits(c),
        0 <= k < record_bytes(c).len(),
    ensures
        replay_spec(record_bytes(c).take(k)) == (0int, Seq::<LogCmd>::empty()),
{
    lemma_auto_spec_u32_to_from_le_bytes();
    let body = body_bytes(c);
    let s = record_bytes(c).take(k);
    if k >= 8 {
        assert(s.subrange(4, 8) =~= spec_u32_to_le_bytes(body.len() as u32));
        assert(le32_at(s, 4) == body.len());
    }
}

/// The well-formed prefix never runs past the log.
pub proof fn law_replay_within_log(s: Seq<u8>)
    ensures
        0 <= replay_spec(s).0 <= s.len(),
    decreases s.len(),
{
    match decode_spec(s) {
        Ok(Some((c, n))) => if 0 < n <= s.len() {
            law_replay_within_log(s.skip(n));
        },
        _ => {},
    }
}

/// The log that records `cmds` in order.
pub open spec fn log_bytes(cmds: Seq<LogCmd>) -> Seq<u8>
    decreases cmds.len(),
{
    if cmds.len() == 0 {
        Seq::empty()
    } else {
        record_bytes(cmds[0]) + log_bytes(cmds.drop_first())
    }
}

/// Replaying a log of records gives back every command that was logged, in
/// order, and the whole log is well-formed.
pub proof fn law_replay_log(cmds: Seq<LogCmd>)
    requires
        forall|i: int| 0 <= i < cmds.len() ==> record_fits(#[trigger] cmds[i]),
    ensures
        replay_spec(log_bytes(cmds)) == (log_bytes(cmds).len() as int, cmds),
    decreases cmds.len(),
{
    if cmds.len() == 0 {
        assert(replay_spec(Seq::<u8>::empty()) == (0int, Seq::<LogCmd>::empty()));
        assert(cmds =~= Seq::<LogCmd>::empty());
    } else {
        let rest = cmds.drop_first();
        assert forall|i: int| 0 <= i < rest.len() implies record_fits(#[trigger] rest[i]) by {
            assert(rest[i] == cmds[i + 1]);
        }
        law_replay_log(rest);
        assert(record_fits(cmds[0]));
        law_replay_record(cmds[0], log_bytes(rest));
        assert(seq![cmds[0]] + rest =~= cmds);
    }
}

/// A log whose last record was cut short by a torn write replays every
/// complete record before it, and its well-formed prefix ends where the torn
/// record begins.
pub proof fn law_torn_tail(cmds: Seq<LogCmd>, c: LogCmd, k: int)
    requires
        forall|i: int| 0 <= i < cmds.len() ==> record_fits(#[trigger] cmds[i]),
        record_fits(c),
        0 <= k < record_bytes(c).len(),
    ensures
        replay_spec(log_bytes(cmds) + record_bytes(c).take(k)) == (log_bytes(cmds).len() as int, cmds),
    decreases cmds.len(),
{
    let torn = record_bytes(c).take(k);
    if cmds.len() == 0 {
        law_torn_record(c, k);
        assert(log_bytes(cmds) + torn =~= torn);
        assert(cmds =~= Seq::<LogCmd>::empty());
    } else {
        let rest = cmds.drop_first();
        assert forall|i: int| 0 <= i < rest.len() implies record_fits(#[trigger] rest[i]) by {
            assert(rest[i] == cmds[i + 1]);
        }
        law_torn_tail(rest, c, k);
        assert(record_fits(cmds[0]));
        law_replay_record(cmds[0], log_bytes(rest) + torn);
        assert(log_bytes(cmds) + torn =~= record_bytes(cmds[0]) + (log_bytes(rest) + torn));
        assert(seq![cmds[0]] + rest =~= cmds);
    }
}

} // verus!
