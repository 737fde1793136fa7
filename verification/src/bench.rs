//! The requests that the load generator sends.
use vstd::prelude::*;
use crate::text::{decimal, decimal_chars, lit, string_from_chars};

verus! {

/// A `GET` request line for the key numbered `n`.
pub open spec fn get_line(n: nat) -> Seq<char> {
    "GET key"@ + decimal(n) + "\n"@
}

/// A `SET` request line for the key and value numbered `n`.
pub open spec fn set_line(n: nat) -> Seq<char> {
    "SET key"@ + decimal(n) + " value"@ + decimal(n) + "\n"@
}

/// The request numbered `num` of `total` for the request kind `format`:
/// `GET`, `SET`, or `GET/SET` (gets for the first half, then sets), else a
/// line the server rejects.
pub open spec fn request_spec(format: Seq<char>, num: nat, total: nat) -> Seq<char> {
    if format == "GET"@ {
        get_line(num)
    } else if format == "SET"@ {
        set_line(num)
    } else if format == "GET/SET"@ {
        if num < total / 2 {
            get_line(num)
        } else {
            set_line((total / 2 - num) as nat)
        }
    } else {
        "ERROR\n"@
    }
}

/// The request line numbered `num` of `total` requests of kind `format`.
/// In the second half of `GET/SET` the key number is `total / 2 - num`, so
/// only `num == total / 2` is accepted there.
pub fn request_string(format: &str, num: usize, total: &usize) -> (r: String)
    requires
        format@ == "GET/SET"@ && num >= *total / 2 ==> num == *total / 2,
    ensures
        r@ == request_spec(format@, num as nat, *total as nat),
{
    proof {
        reveal_strlit("GET");
        reveal_strlit("SET");
        reveal_strlit("GET/SET");
        assert("GET"@.len() == 3);
        assert("GET/SET"@.len() == 7);
        assert("SET"@[0] == 'S');
        assert("GET"@[0] == 'G');
    }
    let f = lit(format);
    let half = *total / 2;
    let get = f == lit("GET") || (f == lit("GET/SET") && num < half);
    let set = f == lit("SET") || (f == lit("GET/SET") && num >= half);
    if get {
        let mut s = lit("GET key");
        let d = string_from_chars(&decimal_chars(num));
        s.append(d.as_str());
        s.append("\n");
        s
    } else if set {
        let n = if f == lit("SET") {
            num
        } else {
            half - num
        };
        let d = string_from_chars(&decimal_chars(n));
        let mut s = lit("SET key");
        s.append(d.as_str());
        s.append(" value");
        s.append(d.as_str());
        s.append("\n");
        s
    } else {
        lit("ERROR\n")
    }
}

} // verus!
