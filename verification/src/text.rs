//! A total order on text, by the bytes of its UTF-8 encoding.
use vstd::prelude::*;
use vstd::utf8::*;

verus! {

/// Outcome of comparing two values of an ordered type.
#[derive(Clone, Copy, Debug, PartialEq, Eq, Structural)]
pub enum Rank {
    Less,
    Equal,
    Greater,
}

/// Lexicographic comparison of `a` and `b` from position `i` on.
pub open spec fn rank_from(a: Seq<u8>, b: Seq<u8>, i: int) -> Rank
    decreases a.len() - i,
{
    if i < 0 || i >= a.len() {
        if i >= b.len() {
            Rank::Equal
        } else {
            Rank::Less
        }
    } else if i >= b.len() {
        Rank::Greater
    } else if a[i] < b[i] {
        Rank::Less
    } else if a[i] > b[i] {
        Rank::Greater
    } else {
        rank_from(a, b, i + 1)
    }
}

/// Lexicographic comparison of two byte strings.
pub open spec fn bytes_rank(a: Seq<u8>, b: Seq<u8>) -> Rank {
    rank_from(a, b, 0)
}

/// Comparison of two texts: that of their UTF-8 encodings.
pub open spec fn text_rank(a: Seq<char>, b: Seq<char>) -> Rank {
    bytes_rank(encode_utf8(a), encode_utf8(b))
}

/// `a` comes strictly before `b`.
pub open spec fn text_lt(a: Seq<char>, b: Seq<char>) -> bool {
    text_rank(a, b) == Rank::Less
}

/// From `i` on the two sequences compare equal exactly when they have the
/// same length and agree at every position from `i`.
pub proof fn lemma_rank_equal(a: Seq<u8>, b: Seq<u8>, i: int)
    requires
        0 <= i,
    ensures
        rank_from(a, b, i) == Rank::Equal <==> ((a.len() <= i && b.len() <= i) || (a.len() == b.len()
            && forall|j: int| i <= j < a.len() ==> a[j] == b[j])),
    decreases a.len() - i,
{
    if i < a.len() && i < b.len() && a[i] == b[i] {
        lemma_rank_equal(a, b, i + 1);
    }
}

/// Swapping the arguments swaps `Less` and `Greater`.
pub proof fn lemma_rank_flip(a: Seq<u8>, b: Seq<u8>, i: int)
    requires
        0 <= i,
    ensures
        rank_from(a, b, i) == Rank::Less <==> rank_from(b, a, i) == Rank::Greater,
        rank_from(a, b, i) == Rank::Greater <==> rank_from(b, a, i) == Rank::Less,
        rank_from(a, b, i) == Rank::Equal <==> rank_from(b, a, i) == Rank::Equal,
    decreases a.len() - i,
{
    if i < a.len() && i < b.len() && a[i] == b[i] {
        lemma_rank_flip(a, b, i + 1);
    }
}

/// `Less` is transitive from any common position.
pub proof fn lemma_rank_trans(a: Seq<u8>, b: Seq<u8>, c: Seq<u8>, i: int)
    requires
        0 <= i,
        rank_from(a, b, i) == Rank::Less,
        rank_from(b, c, i) == Rank::Less,
    ensures
        rank_from(a, c, i) == Rank::Less,
    decreases a.len() - i,
{
    if i < a.len() && i < b.len() && i < c.len() && a[i] == b[i] && b[i] == c[i] {
        lemma_rank_trans(a, b, c, i + 1);
    }
}

/// Two texts compare equal exactly when they are the same text.
pub proof fn lemma_text_equal(a: Seq<char>, b: Seq<char>)
    ensures
        text_rank(a, b) == Rank::Equal <==> a == b,
{
    let x = encode_utf8(a);
    let y = encode_utf8(b);
    lemma_rank_equal(x, y, 0);
    if text_rank(a, b) == Rank::Equal {
        assert(x =~= y);
        encode_utf8_decode_utf8(a);
        encode_utf8_decode_utf8(b);
    }
}

/// The order on texts is strict and total: of `a < b`, `a == b`, `b < a`
/// exactly one holds.
pub proof fn lemma_text_total(a: Seq<char>, b: Seq<char>)
    ensures
        text_lt(a, b) || a == b || text_lt(b, a),
        !(text_lt(a, b) && text_lt(b, a)),
        !(text_lt(a, b) && a == b),
{
    lemma_text_equal(a, b);
    lemma_rank_flip(encode_utf8(a), encode_utf8(b), 0);
}

/// The order on texts is transitive.
pub proof fn lemma_text_trans(a: Seq<char>, b: Seq<char>, c: Seq<char>)
    requires
        text_lt(a, b),
        text_lt(b, c),
    ensures
        text_lt(a, c),
{
    lemma_rank_trans(encode_utf8(a), encode_utf8(b), encode_utf8(c), 0);
}

/// Compares two texts by their UTF-8 bytes.
pub fn rank_text(a: &str, b: &str) -> (r: Rank)
    ensures
        r == text_rank(a@, b@),
        (r == Rank::Equal) == (a@ == b@),
{
    let x = a.as_bytes();
    let y = b.as_bytes();
    let n = x.len();
    let m = y.len();
    let mut i: usize = 0;
    let mut r = Rank::Equal;
    let mut done = false;
    while !done
        invariant
            n == x@.len(),
            m == y@.len(),
            i <= n,
            !done ==> rank_from(x@, y@, i as int) == bytes_rank(x@, y@),
            done ==> r == bytes_rank(x@, y@),
        decreases (if done { 0int } else { 1int }), n - i,
    {
        if i >= n {
            r = if i >= m { Rank::Equal } else { Rank::Less };
            done = true;
        } else if i >= m {
            r = Rank::Greater;
            done = true;
        } else if x[i] < y[i] {
            r = Rank::Less;
            done = true;
        } else if x[i] > y[i] {
            r = Rank::Greater;
            done = true;
        } else {
            i = i + 1;
        }
    }
    proof {
        lemma_text_equal(a@, b@);
    }
    r
}

} // verus!
