//! Orders used by sorted sets: the total order on scores (IEEE-754 bit
//! patterns, ordered the way `OrderedFloat<f64>` orders them) and the
//! byte-wise lexicographic order on member names.
use vstd::prelude::*;
use vstd::utf8::*;

verus! {

broadcast use vstd::utf8::encode_utf8_decode_utf8;

/// Half of the `u64` range: the sign bit of an IEEE-754 double.
pub const SIGN_BIT: u64 = 0x8000_0000_0000_0000;

/// Bit pattern (without sign) of positive infinity; magnitudes above it are NaNs.
pub const INF_MAGNITUDE: u64 = 0x7ff0_0000_0000_0000;

/// The rank of a score given by its IEEE-754 bit pattern: all NaNs share the
/// greatest rank, both zeros share one rank, and otherwise the rank grows with
/// the value of the float.  Two scores are equal exactly when their ranks are.
pub open spec fn score_rank(bits: u64) -> u64 {
    let mag = bits % SIGN_BIT;
    if mag > INF_MAGNITUDE {
        u64::MAX
    } else if mag == 0 {
        SIGN_BIT
    } else if bits >= SIGN_BIT {
        (SIGN_BIT - mag) as u64
    } else {
        (SIGN_BIT + mag) as u64
    }
}

/// Executable rank of a score.
pub fn rank_of_score(bits: u64) -> (r: u64)
    ensures
        r == score_rank(bits),
{
    let mag = bits % SIGN_BIT;
    if mag > INF_MAGNITUDE {
        u64::MAX
    } else if mag == 0 {
        SIGN_BIT
    } else if bits >= SIGN_BIT {
        SIGN_BIT - mag
    } else {
        SIGN_BIT + mag
    }
}

/// Strict lexicographic order on byte strings.
pub open spec fn bytes_lt(a: Seq<u8>, b: Seq<u8>) -> bool
    decreases a.len(),
{
    if a.len() == 0 {
        b.len() > 0
    } else if b.len() == 0 {
        false
    } else if a[0] != b[0] {
        a[0] < b[0]
    } else {
        bytes_lt(a.drop_first(), b.drop_first())
    }
}

/// Member names are ordered by their UTF-8 bytes, as `String`'s `Ord` does.
pub open spec fn member_lt(a: Seq<char>, b: Seq<char>) -> bool {
    bytes_lt(encode_utf8(a), encode_utf8(b))
}

/// The order of sorted-set entries: by score rank, then by member name.
pub open spec fn entry_lt(a: (Seq<char>, u64), b: (Seq<char>, u64)) -> bool {
    ||| score_rank(a.1) < score_rank(b.1)
    ||| (score_rank(a.1) == score_rank(b.1) && member_lt(a.0, b.0))
}

pub proof fn lemma_bytes_lt_irreflexive(a: Seq<u8>)
    ensures
        !bytes_lt(a, a),
    decreases a.len(),
{
    if a.len() > 0 {
        lemma_bytes_lt_irreflexive(a.drop_first());
    }
}

pub proof fn lemma_bytes_lt_transitive(a: Seq<u8>, b: Seq<u8>, c: Seq<u8>)
    requires
        bytes_lt(a, b),
        bytes_lt(b, c),
    ensures
        bytes_lt(a, c),
    decreases a.len(),
{
    if a.len() > 0 && b.len() > 0 && c.len() > 0 && a[0] == b[0] && b[0] == c[0] {
        lemma_bytes_lt_transitive(a.drop_first(), b.drop_first(), c.drop_first());
    }
}

pub proof fn lemma_bytes_lt_total(a: Seq<u8>, b: Seq<u8>)
    requires
        a != b,
    ensures
        bytes_lt(a, b) || bytes_lt(b, a),
    decreases a.len(),
{
    if a.len() > 0 && b.len() > 0 && a[0] == b[0] {
        if a.drop_first() == b.drop_first() {
            assert(a =~= seq![a[0]] + a.drop_first());
            assert(b =~= seq![b[0]] + b.drop_first());
        }
        lemma_bytes_lt_total(a.drop_first(), b.drop_first());
    } else if a.len() == 0 && b.len() == 0 {
        assert(a =~= b);
    }
}

pub proof fn lemma_member_lt_irreflexive(a: Seq<char>)
    ensures
        !member_lt(a, a),
{
    lemma_bytes_lt_irreflexive(encode_utf8(a));
}

pub proof fn lemma_member_lt_transitive(a: Seq<char>, b: Seq<char>, c: Seq<char>)
    requires
        member_lt(a, b),
        member_lt(b, c),
    ensures
        member_lt(a, c),
{
    lemma_bytes_lt_transitive(encode_utf8(a), encode_utf8(b), encode_utf8(c));
}

pub proof fn lemma_member_lt_total(a: Seq<char>, b: Seq<char>)
    requires
        a != b,
    ensures
        member_lt(a, b) || member_lt(b, a),
{
    if encode_utf8(a) == encode_utf8(b) {
        assert(decode_utf8(encode_utf8(a)) == a);
        assert(decode_utf8(encode_utf8(b)) == b);
    }
    lemma_bytes_lt_total(encode_utf8(a), encode_utf8(b));
}

/// `entry_lt` is a strict total order on entries with distinct members.
pub proof fn lemma_entry_lt_properties()
    ensures
        forall|a: (Seq<char>, u64)| !#[trigger] entry_lt(a, a),
        forall|a: (Seq<char>, u64), b: (Seq<char>, u64), c: (Seq<char>, u64)|
            #[trigger] entry_lt(a, b) && #[trigger] entry_lt(b, c) ==> entry_lt(a, c),
        forall|a: (Seq<char>, u64), b: (Seq<char>, u64)|
            a.0 != b.0 ==> #[trigger] entry_lt(a, b) || #[trigger] entry_lt(b, a),
        forall|a: (Seq<char>, u64), b: (Seq<char>, u64)|
            #[trigger] entry_lt(a, b) ==> !#[trigger] entry_lt(b, a),
{
    assert forall|a: (Seq<char>, u64)| !#[trigger] entry_lt(a, a) by {
        lemma_member_lt_irreflexive(a.0);
    }
    assert forall|a: (Seq<char>, u64), b: (Seq<char>, u64), c: (Seq<char>, u64)|
        #[trigger] entry_lt(a, b) && #[trigger] entry_lt(b, c) implies entry_lt(a, c) by {
        if score_rank(a.1) == score_rank(b.1) && score_rank(b.1) == score_rank(c.1) {
            lemma_member_lt_transitive(a.0, b.0, c.0);
        }
    }
    assert forall|a: (Seq<char>, u64), b: (Seq<char>, u64)|
        a.0 != b.0 implies #[trigger] entry_lt(a, b) || #[trigger] entry_lt(b, a) by {
        lemma_member_lt_total(a.0, b.0);
    }
    assert forall|a: (Seq<char>, u64), b: (Seq<char>, u64)|
        #[trigger] entry_lt(a, b) implies !#[trigger] entry_lt(b, a) by {
        if score_rank(a.1) == score_rank(b.1) && member_lt(a.0, b.0) && member_lt(b.0, a.0) {
            lemma_member_lt_transitive(a.0, b.0, a.0);
            lemma_member_lt_irreflexive(a.0);
        }
    }
}

proof fn lemma_bytes_lt_skip(a: Seq<u8>, b: Seq<u8>, i: int)
    requires
        0 <= i <= a.len(),
        i <= b.len(),
        a.take(i) == b.take(i),
    ensures
        bytes_lt(a, b) == bytes_lt(a.skip(i), b.skip(i)),
    decreases i,
{
    if i > 0 {
        assert(a[0] == a.take(i)[0]);
        assert(b[0] == b.take(i)[0]);
        assert(a.drop_first().take(i - 1) =~= a.take(i).drop_first());
        assert(b.drop_first().take(i - 1) =~= b.take(i).drop_first());
        lemma_bytes_lt_skip(a.drop_first(), b.drop_first(), i - 1);
        assert(a.drop_first().skip(i - 1) =~= a.skip(i));
        assert(b.drop_first().skip(i - 1) =~= b.skip(i));
    } else {
        assert(a.skip(0) =~= a);
        assert(b.skip(0) =~= b);
    }
}

/// Byte-wise comparison of two member names: `a < b` as `String`'s `Ord` has it.
pub fn member_less(a: &str, b: &str) -> (r: bool)
    ensures
        r == member_lt(a@, b@),
{
    let x = a.as_bytes();
    let y = b.as_bytes();
    let mut i: usize = 0;
    while i < x.len() && i < y.len()
        invariant
            x@ == encode_utf8(a@),
            y@ == encode_utf8(b@),
            0 <= i <= x@.len(),
            i <= y@.len(),
            x@.take(i as int) == y@.take(i as int),
        decreases x@.len() - i,
    {
        if x[i] != y[i] {
            proof {
                lemma_bytes_lt_skip(x@, y@, i as int);
                assert(x@.skip(i as int)[0] == x@[i as int]);
                assert(y@.skip(i as int)[0] == y@[i as int]);
            }
            return x[i] < y[i];
        }
        assert(x@.take(i + 1) =~= x@.take(i as int).push(x@[i as int]));
        assert(y@.take(i + 1) =~= y@.take(i as int).push(y@[i as int]));
        i = i + 1;
    }
    proof {
        lemma_bytes_lt_skip(x@, y@, i as int);
    }
    i < y.len()
}

/// Compares two entries by `entry_lt`.
pub fn entry_less(a_member: &str, a_score: u64, b_member: &str, b_score: u64) -> (r: bool)
    ensures
        r == entry_lt((a_member@, a_score), (b_member@, b_score)),
{
    let ra = rank_of_score(a_score);
    let rb = rank_of_score(b_score);
    if ra < rb {
        true
    } else if ra == rb {
        member_less(a_member, b_member)
    } else {
        false
    }
}

} // verus!
