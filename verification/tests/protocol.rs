use kv_database::bench::request_string;
use kv_database::dispatch::{complete_request, error_text, execute, reply_text, wal_record, Reply};
use kv_database::protocol::{parse_command, Command, ProtocolError};
use kv_database::store::Db;
use kv_database::text::{parse_isize, split_whitespace, trimmed_len};
use kv_database::wal::encode_record;

fn score(t: &str) -> Option<u64> {
    t.parse::<f64>().ok().map(f64::to_bits)
}

fn parse(line: &str) -> Result<Command, ProtocolError> {
    parse_command(line.as_bytes(), score)
}

fn s(x: &str) -> String {
    x.to_string()
}

fn show(bits: u64) -> String {
    f64::from_bits(bits).to_string()
}

#[test]
fn parses_each_command() {
    assert_eq!(parse("GET foo"), Ok(Command::Get { key: s("foo") }));
    assert_eq!(parse("set foo bar"), Ok(Command::SetValue { key: s("foo"), value: s("bar") }));
    assert_eq!(parse("  Del   foo  "), Ok(Command::Del { key: s("foo") }));
    assert_eq!(parse("EXISTS foo"), Ok(Command::Exists { key: s("foo") }));
    assert_eq!(parse("dbsize"), Ok(Command::DbSize));
    assert_eq!(parse("CLEAR"), Ok(Command::Clear));
    assert_eq!(
        parse("ZADD board alice 1.5"),
        Ok(Command::Zadd { key: s("board"), member: s("alice"), score: 1.5f64.to_bits() })
    );
    assert_eq!(parse("zscore board alice"), Ok(Command::Zscore { key: s("board"), member: s("alice") }));
    assert_eq!(parse("ZREM board alice"), Ok(Command::Zrem { key: s("board"), member: s("alice") }));
    assert_eq!(
        parse("ZRANGE board 0 -1"),
        Ok(Command::Zrange { key: s("board"), from: 0, to: -1, with_scores: false })
    );
    assert_eq!(
        parse("zrange board -2 +3 withScores"),
        Ok(Command::Zrange { key: s("board"), from: -2, to: 3, with_scores: true })
    );
}

#[test]
fn keys_keep_their_case() {
    assert_eq!(parse("get MixedCase"), Ok(Command::Get { key: s("MixedCase") }));
}

#[test]
fn parse_errors() {
    assert_eq!(parse(""), Err(ProtocolError::Empty));
    assert_eq!(parse(" \t "), Err(ProtocolError::Empty));
    assert_eq!(parse("fly away"), Err(ProtocolError::UnknownCommand(s("FLY"))));
    assert_eq!(parse("GET"), Err(ProtocolError::WrongArity));
    assert_eq!(parse("GET a b"), Err(ProtocolError::WrongArity));
    assert_eq!(parse("SET a"), Err(ProtocolError::WrongArity));
    assert_eq!(parse("DBSIZE now"), Err(ProtocolError::WrongArity));
    assert_eq!(parse("ZADD k m"), Err(ProtocolError::WrongArity));
    assert_eq!(parse("ZADD k m abc"), Err(ProtocolError::WrongType(s("score"))));
    assert_eq!(parse("ZRANGE k x 1"), Err(ProtocolError::WrongType(s("from"))));
    assert_eq!(parse("ZRANGE k 0 y"), Err(ProtocolError::WrongType(s("to"))));
    assert_eq!(parse("ZRANGE k 0 1 withnothing"), Err(ProtocolError::UnknownKeyword(s("WITHNOTHING"))));
    assert_eq!(parse("ZRANGE k 0 1 WITHSCORES extra"), Err(ProtocolError::WrongArity));
    assert_eq!(parse_command(&[b'G', b'E', b'T', b' ', 0xff], score), Err(ProtocolError::InvalidUtf8));
}

#[test]
fn integers_for_zrange() {
    let p = |t: &str| parse_isize(&t.chars().collect());
    assert_eq!(p("42"), Some(42));
    assert_eq!(p("-7"), Some(-7));
    assert_eq!(p("+7"), Some(7));
    assert_eq!(p(""), None);
    assert_eq!(p("-"), None);
    assert_eq!(p("1x"), None);
    assert_eq!(p(&isize::MAX.to_string()), Some(isize::MAX));
    assert_eq!(p(&isize::MIN.to_string()), Some(isize::MIN));
    assert_eq!(p("99999999999999999999999"), None);
}

#[test]
fn whitespace_splitting_and_trimming() {
    let w = split_whitespace("  a\tbc \u{3000}d\n");
    let w: Vec<String> = w.into_iter().map(|cs| cs.into_iter().collect()).collect();
    assert_eq!(w, vec![s("a"), s("bc"), s("d")]);
    assert_eq!(trimmed_len(b"GET k \r\n"), 5);
    assert_eq!(trimmed_len(b" \n"), 0);
    assert_eq!(trimmed_len(b"x"), 1);
}

#[test]
fn error_texts() {
    assert_eq!(error_text(&ProtocolError::Empty), "ERR empty input\n");
    assert_eq!(error_text(&ProtocolError::UnknownCommand(s("FLY"))), "ERR command FLY not recognized\n");
    assert_eq!(error_text(&ProtocolError::UnknownKeyword(s("X"))), "ERR keyword X not recognized\n");
    assert_eq!(error_text(&ProtocolError::WrongArity), "ERR wrong number of arguments\n");
    assert_eq!(error_text(&ProtocolError::WrongType(s("score"))), "ERR field 'score' was wrong type\n");
    assert_eq!(error_text(&ProtocolError::InvalidUtf8), "ERR non-UTF-8 character(s)\n");
}

#[test]
fn reply_texts() {
    assert_eq!(reply_text(&Reply::Value(s("bar")), show), "VALUE bar\n");
    assert_eq!(reply_text(&Reply::Nil, show), "NIL\n");
    assert_eq!(reply_text(&Reply::Done, show), "OK\n");
    assert_eq!(reply_text(&Reply::Count(1207), show), "1207\n");
    assert_eq!(reply_text(&Reply::Count(0), show), "0\n");
    assert_eq!(reply_text(&Reply::Flag(true), show), "1\n");
    assert_eq!(reply_text(&Reply::Flag(false), show), "0\n");
    assert_eq!(reply_text(&Reply::Score(1.5f64.to_bits()), show), "VALUE 1.5\n");
    assert_eq!(
        reply_text(&Reply::Rows(vec![(s("a"), None), (s("b"), None)]), show),
        "1) \"a\"\n2) \"b\"\n"
    );
    assert_eq!(
        reply_text(&Reply::Rows(vec![(s("a"), Some(1f64.to_bits())), (s("b"), Some(2.5f64.to_bits()))]), show),
        "1) \"a\"\n2) \"1\"\n3) \"b\"\n4) \"2.5\"\n"
    );
    assert_eq!(reply_text(&Reply::Rows(vec![]), show), "");
}

fn run(db: &mut Db, line: &str) -> String {
    match parse(line) {
        Ok(cmd) => reply_text(&execute(db, cmd), show),
        Err(e) => error_text(&e),
    }
}

#[test]
fn session() {
    let mut db = Db::new();
    assert_eq!(run(&mut db, "GET foo"), "NIL\n");
    assert_eq!(run(&mut db, "SET foo bar"), "OK\n");
    assert_eq!(run(&mut db, "GET foo"), "VALUE bar\n");
    assert_eq!(run(&mut db, "EXISTS foo"), "1\n");
    assert_eq!(run(&mut db, "EXISTS nope"), "0\n");
    assert_eq!(run(&mut db, "SET x y"), "OK\n");
    assert_eq!(run(&mut db, "DBSIZE"), "2\n");
    assert_eq!(run(&mut db, "DEL foo"), "OK\n");
    assert_eq!(run(&mut db, "GET foo"), "NIL\n");
    assert_eq!(run(&mut db, "DBSIZE"), "1\n");
    assert_eq!(run(&mut db, "ZADD myset alice 1.5"), "OK\n");
    assert_eq!(run(&mut db, "ZADD myset bob 0.5"), "OK\n");
    assert_eq!(run(&mut db, "ZSCORE myset alice"), "VALUE 1.5\n");
    assert_eq!(run(&mut db, "ZSCORE myset carol"), "NIL\n");
    assert_eq!(run(&mut db, "ZRANGE myset 0 -1"), "1) \"bob\"\n2) \"alice\"\n");
    assert_eq!(
        run(&mut db, "ZRANGE myset 0 -1 WITHSCORES"),
        "1) \"bob\"\n2) \"0.5\"\n3) \"alice\"\n4) \"1.5\"\n"
    );
    assert_eq!(run(&mut db, "ZRANGE nothing 0 -1"), "NIL\n");
    assert_eq!(run(&mut db, "ZREM myset bob"), "OK\n");
    assert_eq!(run(&mut db, "ZRANGE myset 0 -1"), "1) \"alice\"\n");
    assert_eq!(run(&mut db, "CLEAR"), "OK\n");
    assert_eq!(run(&mut db, "DBSIZE"), "0\n");
    assert_eq!(run(&mut db, "HELLO"), "ERR command HELLO not recognized\n");
}

#[test]
fn every_write_is_logged() {
    for cmd in [
        Command::SetValue { key: s("k"), value: s("v") },
        Command::Del { key: s("k") },
        Command::Clear,
        Command::Zadd { key: s("k"), member: s("m"), score: 2.5f64.to_bits() },
        Command::Zrem { key: s("k"), member: s("m") },
    ] {
        assert_eq!(wal_record(&cmd), Some(encode_record(&cmd)));
    }
    assert_eq!(wal_record(&Command::Get { key: s("k") }), None);
    assert_eq!(wal_record(&Command::DbSize), None);
    assert_eq!(wal_record(&Command::Zrange { key: s("k"), from: 0, to: -1, with_scores: false }), None);
}

#[test]
fn unlogged_write_is_not_applied() {
    let mut db = Db::new();
    let set = Command::SetValue { key: s("k"), value: s("v") };
    assert!(complete_request(&mut db, set.clone(), false).is_none());
    assert_eq!(db.kv_store.len(), 0);
    assert!(matches!(complete_request(&mut db, set, true), Some(Reply::Done)));
    assert_eq!(db.kv_store.len(), 1);
    // Reads need no log record.
    assert!(matches!(complete_request(&mut db, Command::Get { key: s("k") }, false), Some(Reply::Value(_))));
}

#[test]
fn bench_requests() {
    assert_eq!(request_string("GET", 7, &100), "GET key7\n");
    assert_eq!(request_string("SET", 12, &100), "SET key12 value12\n");
    assert_eq!(request_string("GET/SET", 49, &100), "GET key49\n");
    assert_eq!(request_string("GET/SET", 50, &100), "SET key0 value0\n");
    assert_eq!(request_string("PING", 3, &100), "ERROR\n");
    assert_eq!(request_string("GET", 0, &1), "GET key0\n");
}
