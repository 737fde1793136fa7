//! Text handling for the line protocol: UTF-8 decoding, splitting a line at
//! Unicode whitespace, ASCII upper-casing, and reading signed integers.
use vstd::prelude::*;
use vstd::std_specs::iter::IteratorSpec;
use vstd::utf8::{encode_utf8, valid_utf8};

verus! {

broadcast use {vstd::string::group_string_axioms, vstd::utf8::encode_utf8_decode_utf8};

/// Calls `String::from_utf8`.  Claimed: it succeeds exactly when the bytes
/// are valid UTF-8, and the string it gives holds exactly those bytes.
#[verifier::external_body]
pub(crate) fn string_from_utf8(bytes: Vec<u8>) -> (r: Option<String>)
    ensures
        r is Some <==> valid_utf8(bytes@),
        r matches Some(s) ==> encode_utf8(s@) == bytes@,
{
    String::from_utf8(bytes).ok()
}

/// Calls `FromIterator<char>` for `String` (by `collect`).  Claimed: the
/// string holds the given characters in order.
#[verifier::external_body]
pub(crate) fn string_from_chars(cs: &Vec<char>) -> (r: String)
    ensures
        r@ == cs@,
{
    cs.iter().collect()
}

/// An owned copy of a string.
pub(crate) fn lit(s: &str) -> (r: String)
    ensures
        r@ == s@,
{
    s.to_owned()
}

/// The decimal digit `d` as a character.
pub open spec fn digit_char(d: nat) -> char {
    (48 + d) as char
}

/// The decimal representation of `n`, without leading zeros.
pub open spec fn decimal(n: nat) -> Seq<char>
    decreases n,
{
    if n < 10 {
        seq![digit_char(n)]
    } else {
        decimal(n / 10).push(digit_char(n % 10))
    }
}

/// The decimal text of `n` reads back as `n`: it is a non-empty string of
/// digits whose value is `n`, with no leading zero.
pub proof fn law_decimal_reads_back(n: nat)
    ensures
        decimal(n).len() > 0,
        forall|i: int| 0 <= i < decimal(n).len() ==> '0' <= #[trigger] decimal(n)[i] <= '9',
        digits_value(decimal(n)) == n,
        n > 0 ==> decimal(n)[0] != '0',
    decreases n,
{
    if n < 10 {
        assert(digit_char(n) as int == 48 + n);
        assert(decimal(n).drop_last() =~= Seq::<char>::empty());
        assert(digit_value(decimal(n).last()) == n);
        assert(digits_value(decimal(n)) == digits_value(Seq::<char>::empty()) * 10 + n);
    } else {
        law_decimal_reads_back(n / 10);
        let d = decimal(n);
        let d0 = decimal(n / 10);
        assert(d.drop_last() =~= d0);
        assert(digit_char(n % 10) as int == 48 + n % 10);
        assert(digit_value(d.last()) == n % 10);
        assert(digits_value(d) == digits_value(d0) * 10 + digit_value(d.last()));
        assert((n / 10) * 10 + n % 10 == n) by (nonlinear_arith);
        assert(d[0] == d0[0]);
        assert forall|i: int| 0 <= i < d.len() implies '0' <= #[trigger] d[i] <= '9' by {
            if i < d0.len() {
                assert(d[i] == d0[i]);
            }
        }
    }
}

/// The decimal digits of `n`.
pub(crate) fn decimal_chars(n: usize) -> (r: Vec<char>)
    ensures
        r@ == decimal(n as nat),
    decreases n,
{
    let d = (n % 10) as u8;
    let c = (48u8 + d) as char;
    if n < 10 {
        let mut v: Vec<char> = Vec::new();
        v.push(c);
        v
    } else {
        let mut v = decimal_chars(n / 10);
        v.push(c);
        v
    }
}

/// The bytes that `u8::is_ascii_whitespace` accepts: space, tab, line
/// feed, form feed and carriage return.
pub open spec fn is_ascii_white(b: u8) -> bool {
    b == 0x20 || b == 0x09 || b == 0x0A || b == 0x0C || b == 0x0D
}

/// The length of `line` without its trailing ASCII whitespace (what
/// `trim_ascii_end` keeps).
pub fn trimmed_len(line: &[u8]) -> (r: usize)
    ensures
        r <= line@.len(),
        forall|i: int| r <= i < line@.len() ==> is_ascii_white(#[trigger] line@[i]),
        r > 0 ==> !is_ascii_white(line@[r - 1]),
{
    let mut n = line.len();
    while n > 0
        invariant
            n <= line@.len(),
            forall|i: int| n <= i < line@.len() ==> is_ascii_white(#[trigger] line@[i]),
        decreases n,
    {
        let b = line[n - 1];
        if !(b == 0x20 || b == 0x09 || b == 0x0A || b == 0x0C || b == 0x0D) {
            return n;
        }
        n = n - 1;
    }
    n
}

/// Upper-cases ASCII letters, leaving every other character as it is.
pub open spec fn upper_char(c: char) -> char {
    if 'a' <= c <= 'z' {
        ((c as u32) - 32) as char
    } else {
        c
    }
}

pub open spec fn ascii_upper(s: Seq<char>) -> Seq<char> {
    s.map_values(|c: char| upper_char(c))
}

/// The characters of `cs` with ASCII letters upper-cased (what
/// `str::to_ascii_uppercase` does).
pub fn ascii_uppercase(cs: &Vec<char>) -> (r: String)
    ensures
        r@ == ascii_upper(cs@),
{
    let mut out: Vec<char> = Vec::new();
    let mut i: usize = 0;
    while i < cs.len()
        invariant
            i <= cs@.len(),
            out@ == ascii_upper(cs@.take(i as int)),
        decreases cs@.len() - i,
    {
        let c = cs[i];
        let u = if 'a' <= c && c <= 'z' {
            let b = (c as u8) - 32;
            let u = b as char;
            assert(u == upper_char(c)) by {
                assert((c as u8) as u32 == c as u32);
            }
            u
        } else {
            c
        };
        out.push(u);
        proof {
            assert(ascii_upper(cs@.take(i + 1)) =~= ascii_upper(cs@.take(i as int)).push(upper_char(c)));
        }
        i = i + 1;
    }
    proof {
        assert(cs@.take(cs@.len() as int) =~= cs@);
    }
    string_from_chars(&out)
}

/// The characters with the Unicode `White_Space` property, which
/// `char::is_whitespace` and `str::split_whitespace` go by.
pub open spec fn is_white_space(c: char) -> bool {
    ||| '\u{09}' <= c <= '\u{0D}'
    ||| c == ' ' || c == '\u{85}' || c == '\u{A0}' || c == '\u{1680}'
    ||| '\u{2000}' <= c <= '\u{200A}'
    ||| c == '\u{2028}' || c == '\u{2029}' || c == '\u{202F}' || c == '\u{205F}' || c == '\u{3000}'
}

pub fn is_whitespace(c: char) -> (r: bool)
    ensures
        r == is_white_space(c),
{
    ('\u{09}' <= c && c <= '\u{0D}') || c == ' ' || c == '\u{85}' || c == '\u{A0}' || c == '\u{1680}'
        || ('\u{2000}' <= c && c <= '\u{200A}') || c == '\u{2028}' || c == '\u{2029}' || c == '\u{202F}'
        || c == '\u{205F}' || c == '\u{3000}'
}

/// The words of `s`, given the word `cur` being read and the words `acc`
/// already read.
pub open spec fn words_from(s: Seq<char>, cur: Seq<char>, acc: Seq<Seq<char>>) -> Seq<Seq<char>>
    decreases s.len(),
{
    if s.len() == 0 {
        if cur.len() > 0 {
            acc.push(cur)
        } else {
            acc
        }
    } else if is_white_space(s[0]) {
        words_from(s.drop_first(), Seq::empty(), if cur.len() > 0 { acc.push(cur) } else { acc })
    } else {
        words_from(s.drop_first(), cur.push(s[0]), acc)
    }
}

/// The maximal runs of non-whitespace characters of `s`, in order.
pub open spec fn split_words(s: Seq<char>) -> Seq<Seq<char>> {
    words_from(s, Seq::empty(), Seq::empty())
}

/// A run of non-whitespace characters is read into the current word.
pub proof fn lemma_words_run(w: Seq<char>, rest: Seq<char>, cur: Seq<char>, acc: Seq<Seq<char>>)
    requires
        forall|i: int| 0 <= i < w.len() ==> !is_white_space(#[trigger] w[i]),
    ensures
        words_from(w + rest, cur, acc) == words_from(rest, cur + w, acc),
    decreases w.len(),
{
    if w.len() == 0 {
        assert(w + rest =~= rest);
        assert(cur + w =~= cur);
    } else {
        assert((w + rest)[0] == w[0]);
        assert((w + rest).drop_first() =~= w.drop_first() + rest);
        lemma_words_run(w.drop_first(), rest, cur.push(w[0]), acc);
        assert(cur.push(w[0]) + w.drop_first() =~= cur + w);
    }
}

/// The words of `s`, each as its characters.
pub fn split_whitespace(s: &str) -> (r: Vec<Vec<char>>)
    ensures
        r@.len() == split_words(s@).len(),
        forall|i: int| 0 <= i < r@.len() ==> (#[trigger] r@[i])@ == split_words(s@)[i],
{
    let mut it = s.chars();
    let mut cur: Vec<char> = Vec::new();
    let mut out: Vec<Vec<char>> = Vec::new();
    let ghost mut acc: Seq<Seq<char>> = Seq::empty();
    let ghost mut k: int = 0;
    proof {
        assert(s@.skip(0) =~= s@);
    }
    loop
        invariant
            it.obeys_prophetic_iter_laws(),
            0 <= k <= s@.len(),
            it.remaining() == s@.skip(k),
            split_words(s@) == words_from(it.remaining(), cur@, acc),
            out@.len() == acc.len(),
            forall|i: int| 0 <= i < out@.len() ==> (#[trigger] out@[i])@ == acc[i],
        ensures
            split_words(s@) == words_from(Seq::empty(), cur@, acc),
            out@.len() == acc.len(),
            forall|i: int| 0 <= i < out@.len() ==> (#[trigger] out@[i])@ == acc[i],
        decreases s@.len() - k,
    {
        let ghost before = it.remaining();
        match it.next() {
            Some(c) => {
                proof {
                    assert(before.len() > 0);
                    assert(it.remaining() == before.drop_first());
                    assert(before.drop_first() =~= s@.skip(k + 1));
                    k = k + 1;
                }
                if is_whitespace(c) {
                    if cur.len() > 0 {
                        let w = cur;
                        out.push(w);
                        cur = Vec::new();
                        proof {
                            acc = acc.push(w@);
                            assert(cur@ =~= Seq::<char>::empty());
                        }
                    } else {
                        proof {
                            assert(cur@ =~= Seq::<char>::empty());
                        }
                    }
                } else {
                    cur.push(c);
                }
            },
            None => {
                proof {
                    assert(before.len() == 0);
                    assert(before =~= Seq::<char>::empty());
                }
                break;
            },
        }
    }
    if cur.len() > 0 {
        out.push(cur);
    }
    out
}

pub open spec fn is_digit(c: char) -> bool {
    '0' <= c <= '9'
}

pub open spec fn digit_value(c: char) -> int {
    (c as int) - ('0' as int)
}

/// The value of a string of decimal digits.
pub open spec fn digits_value(s: Seq<char>) -> int
    decreases s.len(),
{
    if s.len() == 0 {
        0
    } else {
        digits_value(s.drop_last()) * 10 + digit_value(s.last())
    }
}

/// The digits of a signed number: all but a leading sign.
pub open spec fn unsigned_part(s: Seq<char>) -> Seq<char> {
    if s.len() > 0 && (s[0] == '-' || s[0] == '+') {
        s.drop_first()
    } else {
        s
    }
}

pub open spec fn all_digits(d: Seq<char>) -> bool {
    forall|i: int| 0 <= i < d.len() ==> is_digit(#[trigger] d[i])
}

/// What `str::parse::<isize>` gives: an optional `+` or `-` and then one or
/// more decimal digits, whose value must fit in an `isize`.
pub open spec fn parse_isize_spec(s: Seq<char>) -> Option<isize> {
    let digits = unsigned_part(s);
    if digits.len() == 0 || !all_digits(digits) {
        None
    } else {
        let v = if s[0] == '-' {
            -digits_value(digits)
        } else {
            digits_value(digits)
        };
        if isize::MIN <= v <= isize::MAX {
            Some(v as isize)
        } else {
            None
        }
    }
}

/// The text `str::parse::<isize>` reads: `x` in decimal, with a leading `-`
/// when negative.
pub open spec fn signed_decimal(x: int) -> Seq<char> {
    if x < 0 {
        seq!['-'] + decimal((-x) as nat)
    } else {
        decimal(x as nat)
    }
}

/// Reading an integer undoes writing it: every `isize` written in decimal
/// reads back as itself.
pub proof fn law_parse_isize_reads_written(x: isize)
    ensures
        parse_isize_spec(signed_decimal(x as int)) == Some(x),
{
    let m: nat = if x < 0 { (-x) as nat } else { x as nat };
    law_decimal_reads_back(m);
    let d = decimal(m);
    let s = signed_decimal(x as int);
    if x < 0 {
        assert(s[0] == '-');
        assert(s.drop_first() =~= d);
    } else {
        assert(s == d);
        assert(d[0] != '-' && d[0] != '+');
    }
    assert(unsigned_part(s) == d);
    assert forall|i: int| 0 <= i < d.len() implies is_digit(#[trigger] d[i]) by {
        assert('0' <= d[i] <= '9');
    }
}

/// `ascii_upper` upper-cases exactly the ASCII lowercase letters, each to the
/// letter 32 code points below it, as `str::to_ascii_uppercase` does.
pub proof fn law_ascii_upper(s: Seq<char>)
    ensures
        ascii_upper(s).len() == s.len(),
        forall|i: int|
            0 <= i < s.len() ==> if 'a' <= s[i] <= 'z' {
                (#[trigger] ascii_upper(s)[i]) as u32 == (s[i] as u32) - 32
            } else {
                ascii_upper(s)[i] == s[i]
            },
{
    assert forall|i: int| 0 <= i < s.len() implies if 'a' <= s[i] <= 'z' {
        (#[trigger] ascii_upper(s)[i]) as u32 == (s[i] as u32) - 32
    } else {
        ascii_upper(s)[i] == s[i]
    } by {
        assert(ascii_upper(s)[i] == upper_char(s[i]));
    }
}

/// Command names are read without regard to case: any spelling of a word
/// without lowercase letters in which some uppercase letters are written in
/// lowercase is upper-cased back to that word.
pub proof fn law_case_variants_upper(w: Seq<char>, t: Seq<char>)
    requires
        t.len() == w.len(),
        forall|i: int| 0 <= i < w.len() ==> !('a' <= #[trigger] w[i] <= 'z'),
        forall|i: int|
            0 <= i < w.len() ==> #[trigger] t[i] == w[i] || ('A' <= w[i] <= 'Z' && t[i] as u32 == (w[i] as u32) + 32),
    ensures
        ascii_upper(t) == w,
{
    law_ascii_upper(t);
    assert forall|i: int| 0 <= i < w.len() implies #[trigger] ascii_upper(t)[i] == w[i] by {
        if t[i] != w[i] {
            assert((ascii_upper(t)[i] as u32) == (w[i] as u32));
        }
    }
    assert(ascii_upper(t) =~= w);
}

proof fn lemma_digits_value_grows(s: Seq<char>, k: int)
    requires
        0 <= k <= s.len(),
        forall|i: int| 0 <= i < s.len() ==> is_digit(#[trigger] s[i]),
    ensures
        digits_value(s.take(k)) <= digits_value(s),
        0 <= digits_value(s),
    decreases s.len(),
{
    if s.len() > 0 {
        assert forall|i: int| 0 <= i < s.drop_last().len() implies is_digit(#[trigger] s.drop_last()[i]) by {
            assert(s.drop_last()[i] == s[i]);
        }
        if k == s.len() {
            assert(s.take(k) =~= s);
            lemma_digits_value_grows(s.drop_last(), 0);
        } else {
            assert(s.drop_last().take(k) =~= s.take(k));
            lemma_digits_value_grows(s.drop_last(), k);
        }
    } else {
        assert(s.take(k) =~= s);
    }
}

/// Reads a signed decimal integer as `str::parse::<isize>` does.
pub fn parse_isize(s: &Vec<char>) -> (r: Option<isize>)
    ensures
        r == parse_isize_spec(s@),
{
    let n = s.len();
    let mut i: usize = 0;
    let mut neg = false;
    if n > 0 && (s[0] == '-' || s[0] == '+') {
        neg = s[0] == '-';
        i = 1;
    }
    let ghost digits = unsigned_part(s@);
    proof {
        assert(digits =~= s@.skip(i as int));
    }
    if i == n {
        return None;
    }
    let mut acc: i128 = 0;
    let start = i;
    while i < n
        invariant
            start <= i <= n == s@.len(),
            start < n,
            digits =~= s@.skip(start as int),
            neg == (s@.len() > 0 && s@[0] == '-'),
            start == (if s@.len() > 0 && (s@[0] == '-' || s@[0] == '+') { 1int } else { 0int }),
            digits == unsigned_part(s@),
            forall|j: int| 0 <= j < i - start ==> is_digit(#[trigger] digits[j]),
            acc == digits_value(digits.take(i - start)),
            0 <= acc <= isize::MAX + 1,
        decreases n - i,
    {
        let c = s[i];
        if !('0' <= c && c <= '9') {
            proof {
                assert(digits[i - start] == c);
                assert(!is_digit(digits[i - start]));
                assert(digits.len() > 0);
                assert(!all_digits(digits));
                assert(parse_isize_spec(s@) is None);
            }
            return None;
        }
        let d = (c as u32 - '0' as u32) as i128;
        proof {
            assert(digits[i - start] == c);
            assert(digits.take(i - start + 1).drop_last() =~= digits.take(i - start));
            assert(digits.take(i - start + 1).last() == c);
        }
        acc = acc * 10 + d;
        i = i + 1;
        if acc > (isize::MAX as i128) + 1 {
            proof {
                assert forall|j: int| 0 <= j < i - start implies is_digit(#[trigger] digits[j]) by {}
                if all_digits(digits) {
                    lemma_digits_value_grows(digits, i - start);
                    assert(digits_value(digits) > isize::MAX + 1);
                }
                assert(parse_isize_spec(s@) is None);
            }
            return None;
        }
    }
    proof {
        assert(digits.take(n - start) =~= digits);
        assert(digits.len() == n - start);
        assert(all_digits(digits));
        assert(acc == digits_value(digits));
    }
    if neg {
        Some((0 - acc) as isize)
    } else if acc <= isize::MAX as i128 {
        Some(acc as isize)
    } else {
        None
    }
}

} // verus!
