//! Text helpers: the order of names, lower-casing, and counting separators.

use vstd::prelude::*;
use vstd::string::StringSliceAdditionalSpecFns;

verus! {

/// Lexicographic order of two character sequences by code point: the order
/// in which `str` compares.
pub open spec fn lex_lt(a: Seq<char>, b: Seq<char>) -> bool
    decreases a.len(),
{
    if b.len() == 0 {
        false
    } else if a.len() == 0 {
        true
    } else if a[0] == b[0] {
        lex_lt(a.drop_first(), b.drop_first())
    } else {
        (a[0] as int) < (b[0] as int)
    }
}

/// No sequence is below itself.
pub proof fn lemma_lex_irreflexive(a: Seq<char>)
    ensures
        !lex_lt(a, a),
    decreases a.len(),
{
    if a.len() > 0 {
        lemma_lex_irreflexive(a.drop_first());
    }
}

/// Two sequences of which neither is below the other are equal.
pub proof fn lemma_lex_total(a: Seq<char>, b: Seq<char>)
    ensures
        lex_lt(a, b) || lex_lt(b, a) || a == b,
    decreases a.len(),
{
    if a.len() == 0 || b.len() == 0 {
        if a.len() == 0 && b.len() == 0 {
            assert(a =~= b);
        }
    } else if a[0] == b[0] {
        lemma_lex_total(a.drop_first(), b.drop_first());
        if a.drop_first() == b.drop_first() {
            assert(a =~= seq![a[0]] + a.drop_first());
            assert(b =~= seq![b[0]] + b.drop_first());
        }
    } else {
        assert(a[0] as int != b[0] as int);
    }
}

/// The order is transitive.
pub proof fn lemma_lex_transitive(a: Seq<char>, b: Seq<char>, c: Seq<char>)
    requires
        lex_lt(a, b),
        lex_lt(b, c),
    ensures
        lex_lt(a, c),
    decreases a.len(),
{
    if a.len() > 0 && a[0] == b[0] && b[0] == c[0] {
        lemma_lex_transitive(a.drop_first(), b.drop_first(), c.drop_first());
    }
}

/// Whether the bytes of `needle` stand in `text` in their order, not
/// necessarily side by side.
pub open spec fn is_subsequence(needle: Seq<u8>, text: Seq<u8>) -> bool
    decreases text.len(),
{
    if needle.len() == 0 {
        true
    } else if text.len() == 0 {
        false
    } else if needle[0] == text[0] {
        is_subsequence(needle.drop_first(), text.drop_first())
    } else {
        is_subsequence(needle, text.drop_first())
    }
}

/// Every sequence is a subsequence of itself.
pub proof fn lemma_subsequence_of_itself(text: Seq<u8>)
    ensures
        is_subsequence(text, text),
    decreases text.len(),
{
    if text.len() > 0 {
        lemma_subsequence_of_itself(text.drop_first());
    }
}

/// Whether a key holds the needle: the bytes of the needle stand among the
/// bytes of the key, in their order.
pub open spec fn holds_needle(key: Seq<char>, needle: Seq<char>) -> bool {
    is_subsequence(vstd::utf8::encode_utf8(needle), vstd::utf8::encode_utf8(key))
}

/// The lower-case form of a string, as `str::to_lowercase` gives it.
pub uninterp spec fn lowercased(s: Seq<char>) -> Seq<char>;

/// Calls `str::to_lowercase`. The contract only names the result: the
/// lower-case form is a function of the characters of `s`.
#[verifier::external_body]
pub(crate) fn to_lowercase(s: &str) -> (r: String)
    ensures
        r@ == lowercased(s@),
{
    s.to_lowercase()
}

/// How many of the bytes of `bytes` are `b`.
pub open spec fn count_byte(bytes: Seq<u8>, b: u8) -> nat
    decreases bytes.len(),
{
    if bytes.len() == 0 {
        0
    } else {
        count_byte(bytes.drop_last(), b) + if bytes.last() == b {
            1nat
        } else {
            0nat
        }
    }
}

/// The byte of a comma.
pub const COMMA: u8 = 44;

/// The first `upto` bytes of `text`, or all of them where it is shorter.
pub open spec fn prefix_bytes(text: Seq<u8>, upto: int) -> Seq<u8> {
    if 0 <= upto < text.len() {
        text.take(upto)
    } else {
        text
    }
}

/// Counts the commas among the first `upto` bytes of `text`.
pub fn count_commas(text: &str, upto: usize) -> (n: usize)
    ensures
        n == count_byte(prefix_bytes(text.spec_bytes(), upto as int), COMMA),
{
    let bytes = text.as_bytes();
    let end: usize = if upto < bytes.len() {
        upto
    } else {
        bytes.len()
    };
    let ghost prefix = prefix_bytes(text.spec_bytes(), upto as int);
    assert(prefix =~= bytes@.take(end as int));
    let mut n: usize = 0;
    let mut i: usize = 0;
    while i < end
        invariant
            i <= end <= bytes@.len(),
            n == count_byte(bytes@.take(i as int), COMMA),
            n <= i,
        decreases end - i,
    {
        assert(bytes@.take(i as int + 1).drop_last() =~= bytes@.take(i as int));
        if bytes[i] == COMMA {
            n = n + 1;
        }
        i = i + 1;
    }
    n
}

} // verus!
