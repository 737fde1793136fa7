//! What the server does with a request: which log record it writes first,
//! how it changes the database, and what it answers.
use vstd::prelude::*;
use crate::protocol::{Command, PErr, ProtocolError, perr_view};
use crate::text::{decimal, decimal_chars, lit, string_from_chars};
use crate::store::{Db, kv_cache_after_read, kv_read, LRU_CAPACITY};
use crate::lru_cache::{Entries, lru_del, lru_put};
use crate::sorted_set_store::{SetEntries, lemma_zadd_spec, score_of, set_without, zadd_result, zrange_bounds};
use crate::wal::{db_apply, db_view, encode_record, log_cmd, record_bytes};

verus! {

/// The answer to a request, before it is put into words.
pub enum Reply {
    /// A value found.
    Value(String),
    /// Nothing found.
    Nil,
    /// Done.
    Done,
    /// A number of keys.
    Count(usize),
    /// Whether a key exists.
    Flag(bool),
    /// A score (bit pattern of an IEEE-754 double).
    Score(u64),
    /// Members of a sorted set, each with its score if asked for.
    Rows(Vec<(String, Option<u64>)>),
}

/// The log record to make durable before a request is applied: every write
/// (`SET`, `DEL`, `CLEAR`, `ZADD`, `ZREM`) is logged, reads are not.
pub fn wal_record(cmd: &Command) -> (r: Option<Vec<u8>>)
    ensures
        match log_cmd(*cmd) {
            Some(lc) => r matches Some(v) && v@ == record_bytes(lc),
            None => r is None,
        },
{
    match cmd {
        Command::SetValue { .. } | Command::Del { .. } | Command::Clear | Command::Zadd { .. } | Command::Zrem {
            ..
        } => Some(encode_record(cmd)),
        _ => None,
    }
}

/// The counter that a read of `key` bumps has room.
pub open spec fn read_counts_fit(db: Db, key: Seq<char>) -> bool {
    if kv_read(db.kv_store.map_view(), db.kv_store.cache_view(), key) is Some {
        db.kv_store.spec_hits() < usize::MAX
    } else {
        db.kv_store.spec_misses() < usize::MAX
    }
}

/// The key-value store after a read of `key`, as in `HashMapWrapper::get`.
pub open spec fn read_done(old: Db, new: Db, key: Seq<char>) -> bool {
    let found = kv_read(old.kv_store.map_view(), old.kv_store.cache_view(), key) is Some;
    &&& new.kv_store.map_view() == old.kv_store.map_view()
    &&& new.kv_store.cache_view() == kv_cache_after_read(old.kv_store.map_view(), old.kv_store.cache_view(), key)
    &&& new.kv_store.spec_hits() == old.kv_store.spec_hits() + (if found { 1int } else { 0int })
    &&& new.kv_store.spec_misses() == old.kv_store.spec_misses() + (if found { 0int } else { 1int })
    &&& new.sorted_sets == old.sorted_sets
}

/// Nothing changed.
pub open spec fn unchanged(old: Db, new: Db) -> bool {
    &&& new.kv_store.map_view() == old.kv_store.map_view()
    &&& new.kv_store.cache_view() == old.kv_store.cache_view()
    &&& new.kv_store.spec_hits() == old.kv_store.spec_hits()
    &&& new.kv_store.spec_misses() == old.kv_store.spec_misses()
    &&& new.sorted_sets == old.sorted_sets
}

/// Only the key-value store's map and cache changed, to `m` and `c`.
pub open spec fn kv_changed(old: Db, new: Db, m: Map<Seq<char>, Seq<char>>, c: Entries) -> bool {
    &&& new.kv_store.map_view() == m
    &&& new.kv_store.cache_view() == c
    &&& new.kv_store.spec_hits() == old.kv_store.spec_hits()
    &&& new.kv_store.spec_misses() == old.kv_store.spec_misses()
    &&& new.sorted_sets == old.sorted_sets
}

/// Only the sorted sets changed.
pub open spec fn sets_changed(old: Db, new: Db) -> bool {
    &&& new.kv_store.map_view() == old.kv_store.map_view()
    &&& new.kv_store.cache_view() == old.kv_store.cache_view()
    &&& new.kv_store.spec_hits() == old.kv_store.spec_hits()
    &&& new.kv_store.spec_misses() == old.kv_store.spec_misses()
}

/// What executing `cmd` does: `new` is the database after it and `r` the
/// answer.  A write changes the database as its log record says; the other
/// requests leave the pairs and the sets as they are.
pub open spec fn executed(old: Db, new: Db, cmd: Command, r: Reply) -> bool {
    &&& (log_cmd(cmd) matches Some(lc) ==> db_view(new) == db_apply(db_view(old), lc))
    &&& (log_cmd(cmd) is None ==> new.kv_store.map_view() == old.kv_store.map_view()
        && new.sorted_sets.view_sets() == old.sorted_sets.view_sets())
    &&& (match cmd {
        Command::Get { key } => {
            &&& read_done(old, new, key@)
            &&& match kv_read(old.kv_store.map_view(), old.kv_store.cache_view(), key@) {
                Some(v) => r matches Reply::Value(x) && x@ == v,
                None => r is Nil,
            }
        },
        Command::SetValue { key, value } => r is Done && kv_changed(
            old,
            new,
            old.kv_store.map_view().insert(key@, value@),
            lru_put(old.kv_store.cache_view(), key@, value@, LRU_CAPACITY as nat),
        ),
        Command::Del { key } => r is Done && kv_changed(
            old,
            new,
            old.kv_store.map_view().remove(key@),
            lru_del(old.kv_store.cache_view(), key@),
        ),
        Command::Exists { key } => read_done(old, new, key@) && r == Reply::Flag(
            kv_read(old.kv_store.map_view(), old.kv_store.cache_view(), key@) is Some,
        ),
        Command::DbSize => unchanged(old, new) && r == Reply::Count(
            old.kv_store.map_view().len() as usize,
        ),
        Command::Clear => r is Done && kv_changed(
            old,
            new,
            Map::empty(),
            Entries::empty(),
        ),
        Command::Zadd { key, member, score } => {
            let sets = old.sorted_sets.view_sets();
            let before = if sets.contains_key(key@) {
                sets[key@]
            } else {
                SetEntries::empty()
            };
            let after = new.sorted_sets.view_sets();
            &&& r is Done
            &&& sets_changed(old, new)
            &&& after == sets.insert(key@, after[key@])
            &&& zadd_result(before, after[key@], member@, score)
        },
        Command::Zscore { key, member } => {
            let sets = old.sorted_sets.view_sets();
            &&& unchanged(old, new)
            &&& match (if sets.contains_key(key@) {
                score_of(sets[key@], member@)
            } else {
                None
            }) {
                Some(s) => r == Reply::Score(s),
                None => r is Nil,
            }
        },
        Command::Zrem { key, member } => {
            let sets = old.sorted_sets.view_sets();
            let after = new.sorted_sets.view_sets();
            &&& r is Done
            &&& sets_changed(old, new)
            &&& !sets.contains_key(key@) ==> after == sets
            &&& sets.contains_key(key@) ==> after == (if set_without(sets[key@], member@).len() == 0 {
                sets.remove(key@)
            } else {
                sets.insert(key@, set_without(sets[key@], member@))
            })
        },
        Command::Zrange { key, from, to, with_scores } => {
            let sets = old.sorted_sets.view_sets();
            &&& unchanged(old, new)
            &&& !sets.contains_key(key@) ==> r is Nil
            &&& sets.contains_key(key@) ==> ({
                let l = sets[key@];
                &&& r is Rows
                &&& match zrange_bounds(l.len() as int, from as int, to as int) {
                    None => r->Rows_0@.len() == 0,
                    Some((a, b)) => {
                        &&& r->Rows_0@.len() == b - a + 1
                        &&& forall|i: int|
                            0 <= i < r->Rows_0@.len() ==> (#[trigger] r->Rows_0@[i]).0@ == l[a + i].0
                                && r->Rows_0@[i].1 == (if with_scores {
                                Some(l[a + i].1)
                            } else {
                                None
                            })
                    },
                }
            })
        },
    })
}

/// Applies a request to the database and gives the answer.
pub fn execute(db: &mut Db, cmd: Command) -> (r: Reply)
    requires
        old(db).wf(),
        match cmd {
            Command::Get { key } => read_counts_fit(*old(db), key@),
            Command::Exists { key } => read_counts_fit(*old(db), key@),
            _ => true,
        },
    ensures
        final(db).wf(),
        executed(*old(db), *final(db), cmd, r),
{
    match cmd {
        Command::Get { key } => match db.kv_store.get(&key) {
            Some(value) => Reply::Value(value),
            None => Reply::Nil,
        },
        Command::SetValue { key, value } => {
            db.kv_store.insert(key, value);
            Reply::Done
        },
        Command::Del { key } => {
            db.kv_store.remove(&key);
            Reply::Done
        },
        Command::Exists { key } => Reply::Flag(db.kv_store.contains_key(&key)),
        Command::DbSize => Reply::Count(db.kv_store.len()),
        Command::Clear => {
            db.kv_store.clear();
            Reply::Done
        },
        Command::Zadd { key, member, score } => {
            proof {
                db.sorted_sets.lemma_wf();
            }
            let ghost before = db.sorted_sets.view_sets();
            db.sorted_sets.zadd(&key, member, score);
            proof {
                let b = if before.contains_key(key@) {
                    before[key@]
                } else {
                    SetEntries::empty()
                };
                lemma_zadd_spec(b, db.sorted_sets.view_sets()[key@], member@, score);
            }
            Reply::Done
        },
        Command::Zscore { key, member } => match db.sorted_sets.zscore(&key, &member) {
            Some(s) => Reply::Score(s),
            None => Reply::Nil,
        },
        Command::Zrem { key, member } => {
            db.sorted_sets.zrem(&key, &member);
            Reply::Done
        },
        Command::Zrange { key, from, to, with_scores } => match db.sorted_sets.zrange(&key, from, to, with_scores) {
            Some(rows) => Reply::Rows(rows),
            None => Reply::Nil,
        },
    }
}

/// The step after a request's log write: a write whose record could not be
/// made durable (`logged` false) is not applied and gets no answer (`None`,
/// the database unchanged); any other request is executed.
pub fn complete_request(db: &mut Db, cmd: Command, logged: bool) -> (r: Option<Reply>)
    requires
        old(db).wf(),
        match cmd {
            Command::Get { key } => read_counts_fit(*old(db), key@),
            Command::Exists { key } => read_counts_fit(*old(db), key@),
            _ => true,
        },
    ensures
        final(db).wf(),
        log_cmd(cmd) is Some && !logged ==> r is None && *final(db) == *old(db),
        !(log_cmd(cmd) is Some && !logged) ==> (r matches Some(x) && executed(*old(db), *final(db), cmd, x)),
{
    let is_write = match &cmd {
        Command::SetValue { .. } | Command::Del { .. } | Command::Clear | Command::Zadd { .. } | Command::Zrem {
            ..
        } => true,
        _ => false,
    };
    if is_write && !logged {
        None
    } else {
        Some(execute(db, cmd))
    }
}

/// The line that answers with a value.
pub open spec fn value_line(v: Seq<char>) -> Seq<char> {
    "VALUE "@ + v + "\n"@
}

/// Row `i` of a range answer: its member, and the text of its score when
/// scores were asked for (numbered two lines to a row then).
pub open spec fn row_text(i: nat, member: Seq<char>, score: Option<Seq<char>>) -> Seq<char> {
    match score {
        Some(t) => decimal(2 * i + 1) + ") \""@ + member + "\"\n"@ + decimal(2 * i + 2) + ") \""@ + t + "\"\n"@,
        None => decimal(i + 1) + ") \""@ + member + "\"\n"@,
    }
}

/// The rows of a range answer, one after another.
pub open spec fn rows_text(rows: Seq<(Seq<char>, Option<Seq<char>>)>) -> Seq<char>
    decreases rows.len(),
{
    if rows.len() == 0 {
        Seq::empty()
    } else {
        rows_text(rows.drop_last()) + row_text((rows.len() - 1) as nat, rows.last().0, rows.last().1)
    }
}

/// Rows with the text `texts[i]` standing for the score of row `i`.
pub open spec fn shown_rows(rows: Seq<(String, Option<u64>)>, texts: Seq<String>) -> Seq<(Seq<char>, Option<Seq<char>>)> {
    Seq::new(
        rows.len(),
        |i: int|
            (rows[i].0@, if rows[i].1 is Some {
                Some(texts[i]@)
            } else {
                None
            }),
    )
}

/// The answer put into words.  Scores are put into words by `show_score`,
/// which gets the bit pattern of each.
pub fn reply_text<F: Fn(u64) -> String>(reply: &Reply, show_score: F) -> (r: String)
    requires
        forall|s: u64| call_requires(show_score, (s,)),
        reply matches Reply::Rows(rows) ==> rows@.len() <= usize::MAX / 2,
    ensures
        match reply {
            Reply::Value(v) => r@ == value_line(v@),
            Reply::Nil => r@ == "NIL\n"@,
            Reply::Done => r@ == "OK\n"@,
            Reply::Count(n) => r@ == decimal(*n as nat) + "\n"@,
            Reply::Flag(b) => r@ == (if *b {
                "1\n"@
            } else {
                "0\n"@
            }),
            Reply::Score(s) => exists|t: String| call_ensures(show_score, (*s,), t) && r@ == value_line(t@),
            Reply::Rows(rows) => exists|texts: Seq<String>|
                {
                    &&& texts.len() == rows@.len()
                    &&& forall|i: int|
                        0 <= i < rows@.len() && (#[trigger] rows@[i]).1 is Some ==> call_ensures(
                            show_score,
                            (rows@[i].1->0,),
                            texts[i],
                        )
                    &&& r@ == rows_text(shown_rows(rows@, texts))
                },
        },
{
    match reply {
        Reply::Value(v) => {
            let mut s = lit("VALUE ");
            s.append(v.as_str());
            s.append("\n");
            s
        },
        Reply::Nil => lit("NIL\n"),
        Reply::Done => lit("OK\n"),
        Reply::Count(n) => {
            let mut s = string_from_chars(&decimal_chars(*n));
            s.append("\n");
            s
        },
        Reply::Flag(b) => if *b {
            lit("1\n")
        } else {
            lit("0\n")
        },
        Reply::Score(sc) => {
            let t = show_score(*sc);
            let mut s = lit("VALUE ");
            s.append(t.as_str());
            s.append("\n");
            s
        },
        Reply::Rows(rows) => {
            let mut s = String::new();
            let ghost mut texts: Seq<String> = Seq::empty();
            let mut i: usize = 0;
            while i < rows.len()
                invariant
                    forall|x: u64| call_requires(show_score, (x,)),
                    rows@.len() <= usize::MAX / 2,
                    i <= rows@.len(),
                    texts.len() == i,
                    forall|j: int|
                        0 <= j < i && (#[trigger] rows@[j]).1 is Some ==> call_ensures(
                            show_score,
                            (rows@[j].1->0,),
                            texts[j],
                        ),
                    s@ == rows_text(shown_rows(rows@.take(i as int), texts)),
                decreases rows@.len() - i,
            {
                let member = &rows[i].0;
                let ghost before_s = s@;
                let ghost before_t = texts;
                match rows[i].1 {
                    Some(x) => {
                        let t = show_score(x);
                        let a = string_from_chars(&decimal_chars(2 * i + 1));
                        let b = string_from_chars(&decimal_chars(2 * i + 2));
                        s.append(a.as_str());
                        s.append(") \"");
                        s.append(member.as_str());
                        s.append("\"\n");
                        s.append(b.as_str());
                        s.append(") \"");
                        s.append(t.as_str());
                        s.append("\"\n");
                        proof {
                            texts = texts.push(t);
                        }
                    },
                    None => {
                        let a = string_from_chars(&decimal_chars(i + 1));
                        s.append(a.as_str());
                        s.append(") \"");
                        s.append(member.as_str());
                        s.append("\"\n");
                        proof {
                            texts = texts.push(rows@[i as int].0);
                        }
                    },
                }
                proof {
                    let cur = shown_rows(rows@.take(i + 1), texts);
                    assert(texts.drop_last() =~= before_t);
                    assert(cur.drop_last() =~= shown_rows(rows@.take(i as int), before_t));
                    assert(cur.last() == (rows@[i as int].0@, if rows@[i as int].1 is Some {
                        Some(texts[i as int]@)
                    } else {
                        None
                    }));
                    assert(s@ =~= before_s + row_text(i as nat, cur.last().0, cur.last().1));
                }
                i = i + 1;
            }
            proof {
                assert(rows@.take(rows@.len() as int) =~= rows@);
            }
            s
        },
    }
}

/// The line that answers a request that could not be read.
pub open spec fn error_line(e: PErr) -> Seq<char> {
    match e {
        PErr::Empty => "ERR empty input\n"@,
        PErr::UnknownCommand(c) => "ERR command "@ + c + " not recognized\n"@,
        PErr::UnknownKeyword(k) => "ERR keyword "@ + k + " not recognized\n"@,
        PErr::WrongArity => "ERR wrong number of arguments\n"@,
        PErr::WrongType(t) => "ERR field '"@ + t + "' was wrong type\n"@,
        PErr::InvalidUtf8 => "ERR non-UTF-8 character(s)\n"@,
    }
}

/// The answer to a request that could not be read.
pub fn error_text(e: &ProtocolError) -> (r: String)
    ensures
        r@ == error_line(perr_view(*e)),
{
    match e {
        ProtocolError::Empty => lit("ERR empty input\n"),
        ProtocolError::UnknownCommand(c) => {
            let mut s = lit("ERR command ");
            s.append(c.as_str());
            s.append(" not recognized\n");
            s
        },
        ProtocolError::UnknownKeyword(k) => {
            let mut s = lit("ERR keyword ");
            s.append(k.as_str());
            s.append(" not recognized\n");
            s
        },
        ProtocolError::WrongArity => lit("ERR wrong number of arguments\n"),
        ProtocolError::WrongType(t) => {
            let mut s = lit("ERR field '");
            s.append(t.as_str());
            s.append("' was wrong type\n");
            s
        },
        ProtocolError::InvalidUtf8 => lit("ERR non-UTF-8 character(s)\n"),
    }
}

} // verus!
