//! The commands of the line protocol, and the parser that reads them.
use vstd::prelude::*;
use vstd::slice::slice_to_vec;
use vstd::utf8::{decode_utf8, encode_utf8, valid_utf8};
use crate::text::{
    ascii_upper, lit, parse_isize, parse_isize_spec, split_whitespace, split_words, string_from_chars,
    string_from_utf8, ascii_uppercase, is_white_space, lemma_words_run,
};

verus! {

/// A request to the database (`SetValue` is the `SET` command).  The score of `Zadd` is the bit pattern of an
/// IEEE-754 double.
#[derive(Debug, Clone, PartialEq, Eq)]
pub enum Command {
    Get { key: String },
    SetValue { key: String, value: String },
    Del { key: String },
    Exists { key: String },
    DbSize,
    Clear,
    Zadd { key: String, member: String, score: u64 },
    Zscore { key: String, member: String },
    Zrem { key: String, member: String },
    Zrange { key: String, from: isize, to: isize, with_scores: bool },
}

/// Why a request line could not be read.
#[derive(Debug, Clone, PartialEq, Eq)]
pub enum ProtocolError {
    Empty,
    UnknownCommand(String),
    UnknownKeyword(String),
    WrongArity,
    WrongType(String),
    InvalidUtf8,
}


broadcast use {vstd::string::group_string_axioms, vstd::utf8::encode_utf8_decode_utf8};

/// A protocol error, by the contents of its strings.
pub ghost enum PErr {
    Empty,
    UnknownCommand(Seq<char>),
    UnknownKeyword(Seq<char>),
    WrongArity,
    WrongType(Seq<char>),
    InvalidUtf8,
}

pub open spec fn perr_view(e: ProtocolError) -> PErr {
    match e {
        ProtocolError::Empty => PErr::Empty,
        ProtocolError::UnknownCommand(s) => PErr::UnknownCommand(s@),
        ProtocolError::UnknownKeyword(s) => PErr::UnknownKeyword(s@),
        ProtocolError::WrongArity => PErr::WrongArity,
        ProtocolError::WrongType(s) => PErr::WrongType(s@),
        ProtocolError::InvalidUtf8 => PErr::InvalidUtf8,
    }
}

/// What a request line says, by the contents of its strings; the score of
/// `ZADD` is still its text.
pub ghost enum Parsed {
    Get(Seq<char>),
    SetValue(Seq<char>, Seq<char>),
    Del(Seq<char>),
    Exists(Seq<char>),
    DbSize,
    Clear,
    Zadd(Seq<char>, Seq<char>, Seq<char>),
    Zscore(Seq<char>, Seq<char>),
    Zrem(Seq<char>, Seq<char>),
    Zrange(Seq<char>, isize, isize, bool),
    Fail(PErr),
}

/// A command with exactly `n` words.
pub open spec fn arity(w: Seq<Seq<char>>, n: int, p: Parsed) -> Parsed {
    if w.len() == n {
        p
    } else {
        Parsed::Fail(PErr::WrongArity)
    }
}

/// What the words of a request line say.
pub open spec fn parse_words(w: Seq<Seq<char>>) -> Parsed {
    if w.len() == 0 {
        Parsed::Fail(PErr::Empty)
    } else {
        let c = ascii_upper(w[0]);
        if c == "GET"@ {
            arity(w, 2, Parsed::Get(w[1]))
        } else if c == "SET"@ {
            arity(w, 3, Parsed::SetValue(w[1], w[2]))
        } else if c == "DEL"@ {
            arity(w, 2, Parsed::Del(w[1]))
        } else if c == "EXISTS"@ {
            arity(w, 2, Parsed::Exists(w[1]))
        } else if c == "DBSIZE"@ {
            arity(w, 1, Parsed::DbSize)
        } else if c == "CLEAR"@ {
            arity(w, 1, Parsed::Clear)
        } else if c == "ZADD"@ {
            arity(w, 4, Parsed::Zadd(w[1], w[2], w[3]))
        } else if c == "ZSCORE"@ {
            arity(w, 3, Parsed::Zscore(w[1], w[2]))
        } else if c == "ZREM"@ {
            arity(w, 3, Parsed::Zrem(w[1], w[2]))
        } else if c == "ZRANGE"@ {
            if w.len() < 4 || w.len() > 5 {
                Parsed::Fail(PErr::WrongArity)
            } else {
                match parse_isize_spec(w[2]) {
                    None => Parsed::Fail(PErr::WrongType("from"@)),
                    Some(from) => match parse_isize_spec(w[3]) {
                        None => Parsed::Fail(PErr::WrongType("to"@)),
                        Some(to) => if w.len() == 5 {
                            if ascii_upper(w[4]) == "WITHSCORES"@ {
                                Parsed::Zrange(w[1], from, to, true)
                            } else {
                                Parsed::Fail(PErr::UnknownKeyword(ascii_upper(w[4])))
                            }
                        } else {
                            Parsed::Zrange(w[1], from, to, false)
                        },
                    },
                }
            }
        } else {
            Parsed::Fail(PErr::UnknownCommand(c))
        }
    }
}

/// What a request line, as bytes, says.
pub open spec fn parse_spec(line: Seq<u8>) -> Parsed {
    if !valid_utf8(line) {
        Parsed::Fail(PErr::InvalidUtf8)
    } else {
        parse_words(split_words(decode_utf8(line)))
    }
}

/// A `SET` line of a key and a value, each non-empty and without
/// whitespace, reads as that `SET`.
pub proof fn law_set_line_parses(k: Seq<char>, v: Seq<char>)
    requires
        k.len() > 0,
        v.len() > 0,
        forall|i: int| 0 <= i < k.len() ==> !is_white_space(#[trigger] k[i]),
        forall|i: int| 0 <= i < v.len() ==> !is_white_space(#[trigger] v[i]),
    ensures
        parse_spec(encode_utf8("SET "@ + k + " "@ + v)) == Parsed::SetValue(k, v),
{
    reveal_strlit("SET");
    reveal_strlit("SET ");
    reveal_strlit(" ");
    let sp = " "@;
    let set = "SET"@;
    let line = "SET "@ + k + " "@ + v;
    assert(line =~= set + (sp + (k + (sp + v))));
    assert(!is_white_space(set[0]) && !is_white_space(set[1]) && !is_white_space(set[2]));
    let e = Seq::<char>::empty();
    let none = Seq::<Seq<char>>::empty();
    lemma_words_run(set, sp + (k + (sp + v)), e, none);
    assert(e + set =~= set);
    assert((sp + (k + (sp + v))).drop_first() =~= k + (sp + v));
    lemma_words_run(k, sp + v, e, none.push(set));
    assert(e + k =~= k);
    assert((sp + v).drop_first() =~= v);
    lemma_words_run(v, Seq::<char>::empty(), e, none.push(set).push(k));
    assert(v + Seq::<char>::empty() =~= v);
    assert(e + v =~= v);
    let w = split_words(line);
    assert(w =~= seq![set, k, v]);
    assert(ascii_upper(set) =~= set);
    reveal_strlit("GET");
    assert(set != "GET"@) by {
        assert(set[0] != "GET"@[0]);
    }
    vstd::utf8::encode_utf8_valid_utf8(line);
    assert(decode_utf8(encode_utf8(line)) == line);
    assert(parse_words(w) == Parsed::SetValue(k, v));
}

/// Whether command `c` is what `p` says (for all but `ZADD`).
pub open spec fn command_matches(c: Command, p: Parsed) -> bool {
    match (c, p) {
        (Command::Get { key }, Parsed::Get(k)) => key@ == k,
        (Command::SetValue { key, value }, Parsed::SetValue(k, v)) => key@ == k && value@ == v,
        (Command::Del { key }, Parsed::Del(k)) => key@ == k,
        (Command::Exists { key }, Parsed::Exists(k)) => key@ == k,
        (Command::DbSize, Parsed::DbSize) => true,
        (Command::Clear, Parsed::Clear) => true,
        (Command::Zscore { key, member }, Parsed::Zscore(k, m)) => key@ == k && member@ == m,
        (Command::Zrem { key, member }, Parsed::Zrem(k, m)) => key@ == k && member@ == m,
        (Command::Zrange { key, from, to, with_scores }, Parsed::Zrange(k, f, t, w)) => key@ == k && from == f
            && to == t && with_scores == w,
        _ => false,
    }
}

/// Reads a request line.  The score of `ZADD` is read by `parse_score`,
/// which gives the bit pattern of the number it reads, or `None` if the text
/// is not a number.
pub fn parse_command<F: Fn(&str) -> Option<u64>>(line_bytes: &[u8], parse_score: F) -> (r: Result<Command, ProtocolError>)
    requires
        forall|t: &str| call_requires(parse_score, (t,)),
    ensures
        match parse_spec(line_bytes@) {
            Parsed::Zadd(k, m, t) => match r {
                Ok(Command::Zadd { key, member, score }) => key@ == k && member@ == m && exists|x: &str|
                    x@ == t && call_ensures(parse_score, (x,), Some(score)),
                Err(e) => perr_view(e) == PErr::WrongType("score"@) && exists|x: &str|
                    x@ == t && call_ensures(parse_score, (x,), None::<u64>),
                _ => false,
            },
            Parsed::Fail(e) => r matches Err(e2) && perr_view(e2) == e,
            p => r matches Ok(c) && command_matches(c, p),
        },
{
    let line = match string_from_utf8(slice_to_vec(line_bytes)) {
        Some(s) => s,
        None => {
            return Err(ProtocolError::InvalidUtf8);
        },
    };
    proof {
        assert(line@ == decode_utf8(line_bytes@));
    }
    let words = split_whitespace(line.as_str());
    let ghost w = split_words(line@);
    if words.len() == 0 {
        return Err(ProtocolError::Empty);
    }
    let n = words.len();
    let cmd = ascii_uppercase(&words[0]);
    if cmd == lit("GET") {
        if n != 2 {
            return Err(ProtocolError::WrongArity);
        }
        Ok(Command::Get { key: string_from_chars(&words[1]) })
    } else if cmd == lit("SET") {
        if n != 3 {
            return Err(ProtocolError::WrongArity);
        }
        Ok(Command::SetValue { key: string_from_chars(&words[1]), value: string_from_chars(&words[2]) })
    } else if cmd == lit("DEL") {
        if n != 2 {
            return Err(ProtocolError::WrongArity);
        }
        Ok(Command::Del { key: string_from_chars(&words[1]) })
    } else if cmd == lit("EXISTS") {
        if n != 2 {
            return Err(ProtocolError::WrongArity);
        }
        Ok(Command::Exists { key: string_from_chars(&words[1]) })
    } else if cmd == lit("DBSIZE") {
        if n != 1 {
            return Err(ProtocolError::WrongArity);
        }
        Ok(Command::DbSize)
    } else if cmd == lit("CLEAR") {
        if n != 1 {
            return Err(ProtocolError::WrongArity);
        }
        Ok(Command::Clear)
    } else if cmd == lit("ZADD") {
        if n != 4 {
            return Err(ProtocolError::WrongArity);
        }
        let score_text = string_from_chars(&words[3]);
        match parse_score(score_text.as_str()) {
            Some(score) => Ok(Command::Zadd {
                key: string_from_chars(&words[1]),
                member: string_from_chars(&words[2]),
                score,
            }),
            None => Err(ProtocolError::WrongType(lit("score"))),
        }
    } else if cmd == lit("ZSCORE") {
        if n != 3 {
            return Err(ProtocolError::WrongArity);
        }
        Ok(Command::Zscore { key: string_from_chars(&words[1]), member: string_from_chars(&words[2]) })
    } else if cmd == lit("ZREM") {
        if n != 3 {
            return Err(ProtocolError::WrongArity);
        }
        Ok(Command::Zrem { key: string_from_chars(&words[1]), member: string_from_chars(&words[2]) })
    } else if cmd == lit("ZRANGE") {
        if n < 4 || n > 5 {
            return Err(ProtocolError::WrongArity);
        }
        let from = match parse_isize(&words[2]) {
            Some(x) => x,
            None => {
                return Err(ProtocolError::WrongType(lit("from")));
            },
        };
        let to = match parse_isize(&words[3]) {
            Some(x) => x,
            None => {
                return Err(ProtocolError::WrongType(lit("to")));
            },
        };
        let with_scores = if n == 5 {
            let converted = ascii_uppercase(&words[4]);
            if converted == lit("WITHSCORES") {
                true
            } else {
                return Err(ProtocolError::UnknownKeyword(converted));
            }
        } else {
            false
        };
        Ok(Command::Zrange { key: string_from_chars(&words[1]), from, to, with_scores })
    } else {
        Err(ProtocolError::UnknownCommand(cmd))
    }
}

} // verus!
