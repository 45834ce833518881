//! Wire-format primitives: big-endian 64-bit integers, length-prefixed
//! byte fields, and length-prefixed UTF-8 string fields.
//!
//! Every frame and every message on the wire is built from these three
//! shapes. Encoders are specified by spec functions (`be64`, `enc_bytes`,
//! `enc_str`); decoders are specified by total spec-level parsers
//! (`dec_u64`, `dec_bytes`, `dec_str_field`) so that each executable
//! decoder returns exactly what the spec parser denotes, and round trips
//! are proved once at the spec level.

use vstd::prelude::*;
use vstd::utf8::{valid_utf8, decode_utf8, encode_utf8, encode_utf8_decode_utf8};

verus! {

/// The eight bytes of `n`, most significant first.
pub open spec fn be64(n: u64) -> Seq<u8> {
    seq![
        (n >> 56) as u8,
        ((n >> 48) & 0xff) as u8,
        ((n >> 40) & 0xff) as u8,
        ((n >> 32) & 0xff) as u8,
        ((n >> 24) & 0xff) as u8,
        ((n >> 16) & 0xff) as u8,
        ((n >> 8) & 0xff) as u8,
        (n & 0xff) as u8,
    ]
}

/// The value denoted by eight big-endian bytes.
pub open spec fn be64_val(b: Seq<u8>) -> u64
    recommends
        b.len() == 8,
{
    ((b[0] as u64) << 56) | ((b[1] as u64) << 48) | ((b[2] as u64) << 40)
        | ((b[3] as u64) << 32) | ((b[4] as u64) << 24) | ((b[5] as u64) << 16)
        | ((b[6] as u64) << 8) | (b[7] as u64)
}

/// Reading back the eight bytes of `n` yields `n`.
pub proof fn lemma_be64_val(n: u64)
    ensures
        be64_val(be64(n)) == n,
{
    assert((((n >> 56) as u8) as u64) << 56
        | ((((n >> 48) & 0xff) as u8) as u64) << 48
        | ((((n >> 40) & 0xff) as u8) as u64) << 40
        | ((((n >> 32) & 0xff) as u8) as u64) << 32
        | ((((n >> 24) & 0xff) as u8) as u64) << 24
        | ((((n >> 16) & 0xff) as u8) as u64) << 16
        | ((((n >> 8) & 0xff) as u8) as u64) << 8
        | ((n & 0xff) as u8) as u64 == n) by (bit_vector);
}

/// Appends the big-endian bytes of `n`.
pub fn push_be64(out: &mut Vec<u8>, n: u64)
    ensures
        final(out)@ == old(out)@ + be64(n),
{
    out.push((n >> 56) as u8);
    out.push(((n >> 48) & 0xff) as u8);
    out.push(((n >> 40) & 0xff) as u8);
    out.push(((n >> 32) & 0xff) as u8);
    out.push(((n >> 24) & 0xff) as u8);
    out.push(((n >> 16) & 0xff) as u8);
    out.push(((n >> 8) & 0xff) as u8);
    out.push((n & 0xff) as u8);
    assert(out@ =~= old(out)@ + be64(n));
}

/// Appends a copy of `data`.
pub fn push_bytes(out: &mut Vec<u8>, data: &[u8])
    ensures
        final(out)@ == old(out)@ + data@,
{
    let mut i: usize = 0;
    while i < data.len()
        invariant
            i <= data@.len(),
            out@ == old(out)@ + data@.take(i as int),
        decreases data@.len() - i,
    {
        out.push(data[i]);
        i = i + 1;
        assert(out@ =~= old(out)@ + data@.take(i as int));
    }
    assert(out@ =~= old(out)@ + data@);
}

/// Spec-level parse of a big-endian 64-bit integer from the front of `b`.
pub open spec fn dec_u64(b: Seq<u8>) -> Option<(u64, Seq<u8>)> {
    if b.len() >= 8 {
        Some((be64_val(b.take(8)), b.skip(8)))
    } else {
        None
    }
}

/// A length-prefixed byte field.
pub open spec fn enc_bytes(d: Seq<u8>) -> Seq<u8> {
    be64(d.len() as u64) + d
}

/// Spec-level parse of a length-prefixed byte field from the front of `b`.
pub open spec fn dec_bytes(b: Seq<u8>) -> Option<(Seq<u8>, Seq<u8>)> {
    match dec_u64(b) {
        Some((n, r)) => if n <= r.len() {
            Some((r.take(n as int), r.skip(n as int)))
        } else {
            None
        },
        None => None,
    }
}

/// Parsing a length-prefixed field at the front of an encoding yields the
/// encoded bytes and the remainder.
pub proof fn lemma_dec_bytes(d: Seq<u8>, rest: Seq<u8>)
    requires
        d.len() <= u64::MAX,
    ensures
        dec_bytes(enc_bytes(d) + rest) == Some((d, rest)),
{
    let b = enc_bytes(d) + rest;
    assert(b.take(8) =~= be64(d.len() as u64));
    lemma_be64_val(d.len() as u64);
    assert(b.skip(8) =~= d + rest);
    assert((d + rest).take(d.len() as int) =~= d);
    assert((d + rest).skip(d.len() as int) =~= rest);
}

/// A length-prefixed UTF-8 string field.
pub open spec fn enc_str(s: Seq<char>) -> Seq<u8> {
    enc_bytes(encode_utf8(s))
}

/// Spec-level parse of a length-prefixed UTF-8 string field.
pub open spec fn dec_str_field(b: Seq<u8>) -> Option<(Seq<char>, Seq<u8>)> {
    match dec_bytes(b) {
        Some((d, r)) => if valid_utf8(d) {
            Some((decode_utf8(d), r))
        } else {
            None
        },
        None => None,
    }
}

/// Parsing a string field at the front of an encoding yields the encoded
/// string and the remainder.
pub proof fn lemma_dec_str_field(s: Seq<char>, rest: Seq<u8>)
    requires
        encode_utf8(s).len() <= u64::MAX,
    ensures
        dec_str_field(enc_str(s) + rest) == Some((s, rest)),
{
    broadcast use vstd::utf8::encode_utf8_valid_utf8;
    broadcast use encode_utf8_decode_utf8;

    lemma_dec_bytes(encode_utf8(s), rest);
}

/// Reads a big-endian 64-bit integer at `pos`, returning the value and the
/// position just past it; the result is exactly what `dec_u64` denotes on
/// the remaining input.
pub fn read_be64(b: &Vec<u8>, pos: usize) -> (r: Option<(u64, usize)>)
    requires
        pos <= b@.len(),
    ensures
        match r {
            Some((v, p2)) => {
                &&& p2 == pos + 8
                &&& p2 <= b@.len()
                &&& dec_u64(b@.skip(pos as int)) == Some((v, b@.skip(p2 as int)))
            },
            None => dec_u64(b@.skip(pos as int)) is None,
        },
{
    if b.len() - pos < 8 {
        return None;
    }
    let v: u64 = ((b[pos] as u64) << 56) | ((b[pos + 1] as u64) << 48)
        | ((b[pos + 2] as u64) << 40) | ((b[pos + 3] as u64) << 32)
        | ((b[pos + 4] as u64) << 24) | ((b[pos + 5] as u64) << 16)
        | ((b[pos + 6] as u64) << 8) | (b[pos + 7] as u64);
    proof {
        let t = b@.skip(pos as int);
        assert(t.take(8) =~= b@.subrange(pos as int, pos + 8));
        assert(t.skip(8) =~= b@.skip(pos + 8));
        assert(v == be64_val(t.take(8)));
    }
    Some((v, pos + 8))
}

/// Reads a length-prefixed byte field at `pos`; the result is exactly what
/// `dec_bytes` denotes on the remaining input.
pub fn read_bytes(b: &Vec<u8>, pos: usize) -> (r: Option<(Vec<u8>, usize)>)
    requires
        pos <= b@.len(),
    ensures
        match r {
            Some((d, p2)) => {
                &&& p2 <= b@.len()
                &&& dec_bytes(b@.skip(pos as int)) == Some((d@, b@.skip(p2 as int)))
            },
            None => dec_bytes(b@.skip(pos as int)) is None,
        },
{
    let (n, p1) = match read_be64(b, pos) {
        Some(x) => x,
        None => {
            return None;
        },
    };
    if n > (b.len() - p1) as u64 {
        return None;
    }
    let len: usize = n as usize;
    let mut d: Vec<u8> = Vec::new();
    let mut i: usize = 0;
    while i < len
        invariant
            i <= len,
            p1 + len <= b@.len(),
            b@.len() <= usize::MAX,
            d@ == b@.subrange(p1 as int, p1 + i),
        decreases len - i,
    {
        d.push(b[p1 + i]);
        i = i + 1;
        assert(d@ =~= b@.subrange(p1 as int, p1 + i));
    }
    proof {
        let t = b@.skip(p1 as int);
        assert(t.take(n as int) =~= b@.subrange(p1 as int, p1 + n));
        assert(t.skip(n as int) =~= b@.skip(p1 + n));
    }
    Some((d, p1 + len))
}

/// Relies on `String::from_utf8`: succeeds exactly on valid UTF-8 input and
/// decodes it, as `vstd::utf8::decode_utf8` specifies.
#[verifier::external_body]
pub fn string_from_utf8(bytes: Vec<u8>) -> (r: Option<String>)
    ensures
        match r {
            Some(s) => valid_utf8(bytes@) && s@ == decode_utf8(bytes@),
            None => !valid_utf8(bytes@),
        },
{
    String::from_utf8(bytes).ok()
}

/// Reads a length-prefixed UTF-8 string field at `pos`; the result is
/// exactly what `dec_str_field` denotes on the remaining input.
pub fn read_str_field(b: &Vec<u8>, pos: usize) -> (r: Option<(String, usize)>)
    requires
        pos <= b@.len(),
    ensures
        match r {
            Some((s, p2)) => {
                &&& p2 <= b@.len()
                &&& dec_str_field(b@.skip(pos as int)) == Some((s@, b@.skip(p2 as int)))
            },
            None => dec_str_field(b@.skip(pos as int)) is None,
        },
{
    let (d, p2) = match read_bytes(b, pos) {
        Some(x) => x,
        None => {
            return None;
        },
    };
    match string_from_utf8(d) {
        Some(s) => Some((s, p2)),
        None => None,
    }
}

/// Appends a length-prefixed UTF-8 string field.
pub fn push_str_field(out: &mut Vec<u8>, s: &str)
    ensures
        final(out)@ == old(out)@ + enc_str(s@),
        encode_utf8(s@).len() <= u64::MAX,
{
    let bytes = s.as_bytes();
    push_be64(out, bytes.len() as u64);
    push_bytes(out, bytes);
    assert(out@ =~= old(out)@ + enc_str(s@));
}

/// A length-prefixed list of string fields: a count, then each string.
pub open spec fn enc_str_list(items: Seq<Seq<char>>) -> Seq<u8> {
    be64(items.len() as u64) + enc_str_items(items)
}

/// The concatenated string fields of a list.
pub open spec fn enc_str_items(items: Seq<Seq<char>>) -> Seq<u8>
    decreases items.len(),
{
    if items.len() == 0 {
        Seq::empty()
    } else {
        enc_str(items.first()) + enc_str_items(items.drop_first())
    }
}

/// Spec-level parse of `n` consecutive string fields.
pub open spec fn dec_str_items(b: Seq<u8>, n: nat) -> Option<(Seq<Seq<char>>, Seq<u8>)>
    decreases n,
{
    if n == 0 {
        Some((Seq::empty(), b))
    } else {
        match dec_str_field(b) {
            Some((x, r)) => match dec_str_items(r, (n - 1) as nat) {
                Some((items, r2)) => Some((seq![x] + items, r2)),
                None => None,
            },
            None => None,
        }
    }
}

/// Spec-level parse of a whole string list; `Some` exactly on complete,
/// valid encodings.
pub open spec fn dec_str_list(b: Seq<u8>) -> Option<Seq<Seq<char>>> {
    match dec_u64(b) {
        Some((n, r)) => match dec_str_items(r, n as nat) {
            Some((items, r2)) => if r2.len() == 0 {
                Some(items)
            } else {
                None
            },
            None => None,
        },
        None => None,
    }
}

/// Items whose encodings carry 64-bit length prefixes parse back to
/// themselves, with the rest untouched.
pub proof fn lemma_dec_str_items(items: Seq<Seq<char>>, rest: Seq<u8>)
    requires
        forall|i: int| 0 <= i < items.len() ==> #[trigger] encode_utf8(items[i]).len()
            <= u64::MAX,
    ensures
        dec_str_items(enc_str_items(items) + rest, items.len() as nat) == Some((items, rest)),
    decreases items.len(),
{
    if items.len() == 0 {
        assert(enc_str_items(items) + rest =~= rest);
        assert(Seq::<Seq<char>>::empty() =~= items);
    } else {
        assert(encode_utf8(items[0]).len() <= u64::MAX);
        assert(enc_str_items(items) + rest =~= enc_str(items.first()) + (enc_str_items(
            items.drop_first()) + rest));
        lemma_dec_str_field(items.first(), enc_str_items(items.drop_first()) + rest);
        assert forall|i: int| 0 <= i < items.drop_first().len() implies #[trigger] encode_utf8(
            items.drop_first()[i]).len() <= u64::MAX by {
            assert(items.drop_first()[i] == items[i + 1]);
        }
        lemma_dec_str_items(items.drop_first(), rest);
        assert(seq![items.first()] + items.drop_first() =~= items);
    }
}

/// A whole string list decodes back from its own encoding.
pub proof fn lemma_dec_str_list(items: Seq<Seq<char>>)
    requires
        items.len() <= u64::MAX,
        forall|i: int| 0 <= i < items.len() ==> #[trigger] encode_utf8(items[i]).len()
            <= u64::MAX,
    ensures
        dec_str_list(enc_str_list(items)) == Some(items),
{
    let b = enc_str_list(items);
    assert(b.take(8) =~= be64(items.len() as u64));
    lemma_be64_val(items.len() as u64);
    assert(b.skip(8) =~= enc_str_items(items) + Seq::<u8>::empty());
    lemma_dec_str_items(items, Seq::empty());
}

/// The views of a list of strings.
pub open spec fn strs_view(items: Seq<String>) -> Seq<Seq<char>> {
    items.map_values(|s: String| s@)
}

/// Encodes a list of strings; decoding the result yields the same views
/// back.
pub fn encode_str_list(items: &Vec<String>) -> (r: Vec<u8>)
    ensures
        r@ == enc_str_list(strs_view(items@)),
        dec_str_list(r@) == Some(strs_view(items@)),
{
    let n = items.len();
    let mut out: Vec<u8> = Vec::new();
    push_be64(&mut out, n as u64);
    let mut k: usize = 0;
    while k < n
        invariant
            k <= n,
            n == items@.len(),
            out@ == be64(n as u64) + enc_str_items(strs_view(items@).take(k as int)),
            forall|i: int| 0 <= i < k ==> #[trigger] encode_utf8(items@[i]@).len() <= u64::MAX,
        decreases n - k,
    {
        push_str_field(&mut out, items[k].as_str());
        proof {
            let v = strs_view(items@);
            lemma_enc_str_items_snoc(v.take(k as int), v[k as int]);
            assert(v.take(k + 1) =~= v.take(k as int).push(v[k as int]));
        }
        k = k + 1;
    }
    proof {
        let v = strs_view(items@);
        assert(v.take(n as int) =~= v);
        lemma_dec_str_list(v);
    }
    out
}

/// Appending one item to a list extends its encoding by that item's field.
pub proof fn lemma_enc_str_items_snoc(items: Seq<Seq<char>>, x: Seq<char>)
    ensures
        enc_str_items(items.push(x)) == enc_str_items(items) + enc_str(x),
    decreases items.len(),
{
    let p = items.push(x);
    if items.len() == 0 {
        assert(p.first() == x);
        assert(p.drop_first() =~= Seq::<Seq<char>>::empty());
        assert(enc_str_items(p.drop_first()) == Seq::<u8>::empty());
        assert(enc_str_items(p) =~= enc_str(x));
        assert(enc_str_items(items) + enc_str(x) =~= enc_str(x));
    } else {
        assert(p.first() == items.first());
        assert(p.drop_first() =~= items.drop_first().push(x));
        lemma_enc_str_items_snoc(items.drop_first(), x);
        assert(enc_str_items(p) =~= enc_str_items(items) + enc_str(x));
    }
}

/// Decodes a list of strings; succeeds exactly on the complete, valid
/// encodings that `dec_str_list` accepts.
pub fn decode_str_list(b: &Vec<u8>) -> (r: Option<Vec<String>>)
    ensures
        match r {
            Some(items) => dec_str_list(b@) == Some(strs_view(items@)),
            None => dec_str_list(b@) is None,
        },
{
    let (n, p0) = match read_be64(b, 0) {
        Some(x) => x,
        None => {
            assert(b@.skip(0) =~= b@);
            return None;
        },
    };
    assert(b@.skip(0) =~= b@);
    let mut items: Vec<String> = Vec::new();
    let mut pos: usize = p0;
    let mut k: u64 = 0;
    while k < n
        invariant
            k <= n,
            pos <= b@.len(),
            items@.len() == k,
            dec_u64(b@) == Some((n, b@.skip(p0 as int))),
            dec_str_items(b@.skip(p0 as int), n as nat) == match dec_str_items(
                b@.skip(pos as int), (n - k) as nat) {
                Some((rest_items, r2)) => Some((strs_view(items@) + rest_items, r2)),
                None => None::<(Seq<Seq<char>>, Seq<u8>)>,
            },
        decreases n - k,
    {
        let parsed = read_str_field(b, pos);
        proof {
            if parsed is None {
                assert(dec_str_items(b@.skip(pos as int), (n - k) as nat) is None);
            }
        }
        let (x, p2) = match parsed {
            Some(y) => y,
            None => {
                return None;
            },
        };
        let ghost pre = strs_view(items@);
        items.push(x);
        proof {
            assert(strs_view(items@) =~= pre + seq![items@[k as int]@]);
            let step = dec_str_items(b@.skip(p2 as int), (n - k - 1) as nat);
            match step {
                Some((it, rr)) => {
                    assert(pre + (seq![items@[k as int]@] + it) =~= strs_view(items@) + it);
                },
                None => {},
            }
        }
        pos = p2;
        k = k + 1;
    }
    if pos != b.len() {
        proof {
            assert(dec_str_items(b@.skip(pos as int), 0) == Some((Seq::<Seq<char>>::empty(),
                b@.skip(pos as int))));
            assert(strs_view(items@) + Seq::<Seq<char>>::empty() =~= strs_view(items@));
            assert(b@.skip(pos as int).len() != 0);
        }
        return None;
    }
    proof {
        assert(dec_str_items(b@.skip(pos as int), 0) == Some((Seq::<Seq<char>>::empty(),
            b@.skip(pos as int))));
        assert(strs_view(items@) + Seq::<Seq<char>>::empty() =~= strs_view(items@));
        assert(b@.skip(pos as int).len() == 0);
    }
    Some(items)
}

} // verus!
