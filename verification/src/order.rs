//! Lexicographic order on byte sequences, and thereby on node identities
//! through their UTF-8 encodings. The network view keeps its entries
//! strictly ascending in this order, as an ordered map would.

use vstd::prelude::*;
use vstd::utf8::{encode_utf8, decode_utf8, encode_utf8_decode_utf8};

verus! {

/// Byte-wise lexicographic order, compared from position `i` on.
pub open spec fn lex_lt_from(a: Seq<u8>, b: Seq<u8>, i: int) -> bool
    decreases b.len() - i,
{
    if i < 0 || i >= b.len() {
        false
    } else if i >= a.len() {
        true
    } else if a[i] < b[i] {
        true
    } else if a[i] > b[i] {
        false
    } else {
        lex_lt_from(a, b, i + 1)
    }
}

/// Strict byte-wise lexicographic order.
pub open spec fn lex_lt(a: Seq<u8>, b: Seq<u8>) -> bool {
    lex_lt_from(a, b, 0)
}

/// Strict lexicographic order on strings, through their UTF-8 bytes. This
/// is the order in which the view keeps its node identities.
pub open spec fn str_lt(a: Seq<char>, b: Seq<char>) -> bool {
    lex_lt(encode_utf8(a), encode_utf8(b))
}

/// No sequence precedes itself.
pub proof fn lemma_lex_irrefl(a: Seq<u8>, i: int)
    ensures
        !lex_lt_from(a, a, i),
    decreases a.len() - i,
{
    if 0 <= i < a.len() {
        lemma_lex_irrefl(a, i + 1);
    }
}

/// Of two distinct sequences, one precedes the other.
pub proof fn lemma_lex_connected(a: Seq<u8>, b: Seq<u8>, i: int)
    requires
        0 <= i <= a.len(),
        0 <= i <= b.len(),
        a.take(i) =~= b.take(i),
        !lex_lt_from(a, b, i),
        !lex_lt_from(b, a, i),
    ensures
        a == b,
    decreases a.len() - i,
{
    if i >= a.len() && i >= b.len() {
        assert(a =~= a.take(i));
        assert(b =~= b.take(i));
    } else if i >= b.len() {
        assert(lex_lt_from(b, a, i));
    } else if i >= a.len() {
        assert(lex_lt_from(a, b, i));
    } else {
        if a[i] < b[i] {
            assert(lex_lt_from(a, b, i));
        } else if a[i] > b[i] {
            assert(lex_lt_from(b, a, i));
        } else {
            assert(a.take(i + 1) =~= b.take(i + 1));
            lemma_lex_connected(a, b, i + 1);
        }
    }
}

/// The order is transitive.
pub proof fn lemma_lex_trans(a: Seq<u8>, b: Seq<u8>, c: Seq<u8>, i: int)
    requires
        lex_lt_from(a, b, i),
        lex_lt_from(b, c, i),
        i >= 0,
    ensures
        lex_lt_from(a, c, i),
    decreases c.len() - i,
{
    if i >= a.len() {
    } else if i >= b.len() {
    } else if i >= c.len() {
    } else {
        if a[i] == b[i] && b[i] == c[i] {
            lemma_lex_trans(a, b, c, i + 1);
        }
    }
}

/// Distinct strings have distinct UTF-8 encodings, so `str_lt` inherits
/// connectedness from the byte order.
pub proof fn lemma_str_lt_connected(a: Seq<char>, b: Seq<char>)
    requires
        !str_lt(a, b),
        !str_lt(b, a),
    ensures
        a == b,
{
    broadcast use encode_utf8_decode_utf8;

    let ea = encode_utf8(a);
    let eb = encode_utf8(b);
    assert(ea.take(0) =~= eb.take(0));
    lemma_lex_connected(ea, eb, 0);
    assert(decode_utf8(ea) == decode_utf8(eb));
}

/// Compares byte slices from position `i` on; returns exactly the spec
/// order.
fn lex_lt_bytes_from(a: &[u8], b: &[u8], i: usize) -> (r: bool)
    ensures
        r == lex_lt_from(a@, b@, i as int),
    decreases b@.len() - i,
{
    if i >= b.len() {
        false
    } else if i >= a.len() {
        true
    } else if a[i] < b[i] {
        true
    } else if a[i] > b[i] {
        false
    } else {
        lex_lt_bytes_from(a, b, i + 1)
    }
}

/// Strict lexicographic comparison of two strings, the view's key order.
pub fn str_lt_exec(a: &str, b: &str) -> (r: bool)
    ensures
        r == str_lt(a@, b@),
{
    lex_lt_bytes_from(a.as_bytes(), b.as_bytes(), 0)
}

/// String equality, decided through the order: two strings are equal
/// exactly when neither precedes the other.
pub fn str_eq(a: &str, b: &str) -> (r: bool)
    ensures
        r == (a@ == b@),
{
    let lt = str_lt_exec(a, b);
    let gt = str_lt_exec(b, a);
    proof {
        if !lt && !gt {
            lemma_str_lt_connected(a@, b@);
        }
        if a@ == b@ {
            lemma_lex_irrefl(encode_utf8(a@), 0);
        }
    }
    !lt && !gt
}

} // verus!
