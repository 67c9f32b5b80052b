//! Lexicographic ordering of strings by their UTF-8 bytes.
//!
//! Property keys are kept in this order so that re-encoding a block
//! description is reproducible for identical logical content.

use vstd::prelude::*;
use vstd::string::StringSliceAdditionalSpecFns;
use vstd::utf8::encode_utf8;
use vstd::utf8::encode_utf8_decode_utf8;

verus! {

/// Strict lexicographic order on byte sequences.
pub open spec fn lex_lt_bytes(a: Seq<u8>, b: Seq<u8>) -> bool
    decreases a.len(),
{
    if b.len() == 0 {
        false
    } else if a.len() == 0 {
        true
    } else if a[0] < b[0] {
        true
    } else if a[0] == b[0] {
        lex_lt_bytes(a.drop_first(), b.drop_first())
    } else {
        false
    }
}

/// Strict order on strings: lexicographic over their UTF-8 bytes, which
/// coincides with lexicographic order over their characters.
pub open spec fn str_key_lt(a: Seq<char>, b: Seq<char>) -> bool {
    lex_lt_bytes(encode_utf8(a), encode_utf8(b))
}

/// The three-way outcome of comparing two strings.
#[derive(Clone, Copy, Debug, PartialEq, Eq, Structural)]
pub enum KeyOrder {
    Less,
    Equal,
    Greater,
}

proof fn lemma_lex_lt_at(a: Seq<u8>, b: Seq<u8>, i: int)
    requires
        0 <= i <= a.len(),
        i <= b.len(),
        forall|k: int| 0 <= k < i ==> a[k] == b[k],
        (i == a.len() && i < b.len()) || (i < a.len() && i < b.len() && a[i] < b[i]),
    ensures
        lex_lt_bytes(a, b),
    decreases i,
{
    if i > 0 {
        lemma_lex_lt_at(a.drop_first(), b.drop_first(), i - 1);
    }
}

/// Of two byte sequences, exactly one of `a < b`, `a == b`, `b < a` holds.
pub proof fn lemma_lex_trichotomy(a: Seq<u8>, b: Seq<u8>)
    ensures
        lex_lt_bytes(a, b) ==> !(a =~= b) && !lex_lt_bytes(b, a),
        !lex_lt_bytes(a, b) && !lex_lt_bytes(b, a) ==> a =~= b,
    decreases a.len(),
{
    if a.len() > 0 && b.len() > 0 && a[0] == b[0] {
        lemma_lex_trichotomy(a.drop_first(), b.drop_first());
        if !lex_lt_bytes(a, b) && !lex_lt_bytes(b, a) {
            assert(a.drop_first() =~= b.drop_first());
            assert forall|k: int| 0 <= k < a.len() implies a[k] == b[k] by {
                if k >= 1 {
                    assert(a.drop_first()[k - 1] == b.drop_first()[k - 1]);
                }
            }
            assert(a =~= b);
        }
    }
}

/// `str_key_lt` is a strict order: irreflexive and asymmetric.
pub proof fn lemma_str_key_lt_strict(a: Seq<char>, b: Seq<char>)
    ensures
        str_key_lt(a, b) ==> a != b && !str_key_lt(b, a),
{
    lemma_lex_trichotomy(encode_utf8(a), encode_utf8(b));
}

/// `str_key_lt` is transitive.
pub proof fn lemma_lex_lt_trans(a: Seq<u8>, b: Seq<u8>, c: Seq<u8>)
    requires
        lex_lt_bytes(a, b),
        lex_lt_bytes(b, c),
    ensures
        lex_lt_bytes(a, c),
    decreases a.len(),
{
    if a.len() > 0 && b.len() > 0 && c.len() > 0 && a[0] == b[0] && b[0] == c[0] {
        lemma_lex_lt_trans(a.drop_first(), b.drop_first(), c.drop_first());
    }
}

/// `str_key_lt` is transitive over strings.
pub proof fn lemma_str_key_lt_trans(a: Seq<char>, b: Seq<char>, c: Seq<char>)
    requires
        str_key_lt(a, b),
        str_key_lt(b, c),
    ensures
        str_key_lt(a, c),
{
    lemma_lex_lt_trans(encode_utf8(a), encode_utf8(b), encode_utf8(c));
}

/// Compares two strings in the key order used by property maps.
pub fn str_cmp(a: &str, b: &str) -> (r: KeyOrder)
    ensures
        (r is Less) == str_key_lt(a@, b@),
        (r is Equal) == (a@ == b@),
        (r is Greater) == str_key_lt(b@, a@),
{
    let ab = a.as_bytes();
    let bb = b.as_bytes();
    let mut i: usize = 0;
    while i < ab.len() && i < bb.len()
        invariant
            i <= ab.len(),
            i <= bb.len(),
            ab@ == a.spec_bytes(),
            bb@ == b.spec_bytes(),
            forall|k: int| 0 <= k < i ==> ab@[k] == bb@[k],
        decreases ab.len() - i,
    {
        if ab[i] < bb[i] {
            proof {
                lemma_lex_lt_at(ab@, bb@, i as int);
                lemma_lex_trichotomy(ab@, bb@);
                assert(str_key_lt(a@, b@));
                assert(!str_key_lt(b@, a@));
                assert(a@ != b@);
            }
            return KeyOrder::Less;
        }
        if ab[i] > bb[i] {
            proof {
                lemma_lex_lt_at(bb@, ab@, i as int);
                lemma_lex_trichotomy(bb@, ab@);
                assert(str_key_lt(b@, a@));
                assert(!str_key_lt(a@, b@));
                assert(a@ != b@);
            }
            return KeyOrder::Greater;
        }
        i = i + 1;
    }
    if ab.len() < bb.len() {
        proof {
            lemma_lex_lt_at(ab@, bb@, i as int);
            lemma_lex_trichotomy(ab@, bb@);
        }
        KeyOrder::Less
    } else if bb.len() < ab.len() {
        proof {
            lemma_lex_lt_at(bb@, ab@, i as int);
            lemma_lex_trichotomy(bb@, ab@);
        }
        KeyOrder::Greater
    } else {
        proof {
            assert(ab@ =~= bb@);
            lemma_lex_trichotomy(ab@, bb@);
            encode_utf8_decode_utf8(a@);
            encode_utf8_decode_utf8(b@);
            assert(a@ == b@);
        }
        KeyOrder::Equal
    }
}

} // verus!
