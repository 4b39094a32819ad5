//! Reading the bytes back out of the rendered text.
//!
//! [`extract_bytes`] scans a text for `0x` markers and decodes the two hex
//! digits after each one; [`lemma_decode_round_trip`] proves that on the
//! rendered text this recovers exactly the bytes that went in, in order,
//! and that the scan meets exactly one marker per input byte.

use crate::convert::body_text;
use crate::convert::byte_token;
use crate::convert::formatted;
use crate::convert::header;
use crate::convert::hex_digit;
use crate::convert::wrap_separator;
use vstd::arithmetic::div_mod::lemma_fundamental_div_mod;
use vstd::prelude::*;

verus! {

/// The value of a lowercase hex digit character; 16 for any other character.
pub open spec fn hex_val(c: char) -> int {
    if c == '0' { 0 }
    else if c == '1' { 1 }
    else if c == '2' { 2 }
    else if c == '3' { 3 }
    else if c == '4' { 4 }
    else if c == '5' { 5 }
    else if c == '6' { 6 }
    else if c == '7' { 7 }
    else if c == '8' { 8 }
    else if c == '9' { 9 }
    else if c == 'a' { 10 }
    else if c == 'b' { 11 }
    else if c == 'c' { 12 }
    else if c == 'd' { 13 }
    else if c == 'e' { 14 }
    else if c == 'f' { 15 }
    else { 16 }
}

/// The bytes spelled in `t`: at each `0x` the two following characters are
/// read as hex digits and the scan continues past them; every other
/// character is stepped over.
pub open spec fn extract_bytes(t: Seq<char>) -> Seq<u8>
    decreases t.len(),
{
    if t.len() < 4 {
        Seq::empty()
    } else if t[0] == '0' && t[1] == 'x' {
        seq![(hex_val(t[2]) * 16 + hex_val(t[3])) as u8] + extract_bytes(t.skip(4))
    } else {
        extract_bytes(t.skip(1))
    }
}

/// How many `0x` markers the same scan meets.
pub open spec fn count_tokens(t: Seq<char>) -> nat
    decreases t.len(),
{
    if t.len() < 4 {
        0
    } else if t[0] == '0' && t[1] == 'x' {
        1 + count_tokens(t.skip(4))
    } else {
        count_tokens(t.skip(1))
    }
}

/// The scan decodes one byte per marker it meets.
proof fn lemma_count_is_len(t: Seq<char>)
    ensures
        count_tokens(t) == extract_bytes(t).len(),
    decreases t.len(),
{
    if t.len() >= 4 {
        if t[0] == '0' && t[1] == 'x' {
            lemma_count_is_len(t.skip(4));
        } else {
            lemma_count_is_len(t.skip(1));
        }
    }
}

/// A hex digit character reads back as the value it was written from.
proof fn lemma_hex_val_digit(n: int)
    requires
        0 <= n < 16,
    ensures
        hex_val(hex_digit(n)) == n,
{
}

/// A prefix free of `'0'` holds no marker: the scan finds the same bytes
/// with or without it.
proof fn lemma_extract_skip_prefix(p: Seq<char>, t: Seq<char>)
    requires
        forall|k: int| 0 <= k < p.len() ==> p[k] != '0',
    ensures
        extract_bytes(p + t) == extract_bytes(t),
    decreases p.len(),
{
    if p.len() == 0 {
        assert(p + t =~= t);
    } else if (p + t).len() < 4 {
        assert(t.len() < 4);
    } else {
        assert((p + t)[0] == p[0]);
        assert((p + t).skip(1) =~= p.drop_first() + t);
        lemma_extract_skip_prefix(p.drop_first(), t);
    }
}

/// At a token, the scan reads back exactly the token's byte.
proof fn lemma_extract_token(b: u8, rest: Seq<char>)
    ensures
        extract_bytes(byte_token(b) + rest) == seq![b] + extract_bytes(rest),
{
    let t = byte_token(b) + rest;
    assert(t[0] == '0' && t[1] == 'x');
    assert(t[2] == hex_digit(b as int / 16));
    assert(t[3] == hex_digit(b as int % 16));
    lemma_hex_val_digit(b as int / 16);
    lemma_hex_val_digit(b as int % 16);
    lemma_fundamental_div_mod(b as int, 16);
    assert(hex_val(t[2]) * 16 + hex_val(t[3]) == b as int);
    assert(t.skip(4) =~= seq![','] + rest);
    lemma_extract_skip_prefix(seq![','], rest);
    assert(seq![(hex_val(t[2]) * 16 + hex_val(t[3])) as u8] =~= seq![b]);
}

/// Through the whole body, from any counter state, the scan reads back the
/// bytes in order, and then whatever follows the body.
proof fn lemma_extract_body(bytes: Seq<u8>, width: int, line_len: int, tail: Seq<char>)
    ensures
        extract_bytes(body_text(bytes, width, line_len) + tail) == bytes + extract_bytes(tail),
    decreases bytes.len(),
{
    if bytes.len() == 0 {
        assert(body_text(bytes, width, line_len) + tail =~= tail);
        assert(bytes + extract_bytes(tail) =~= extract_bytes(tail));
    } else {
        let tok = byte_token(bytes[0]);
        let rest = bytes.drop_first();
        if line_len + 5 >= width {
            let after = body_text(rest, width, 9) + tail;
            assert(body_text(bytes, width, line_len) + tail =~= wrap_separator() + (tok + after));
            assert(forall|k: int|
                0 <= k < wrap_separator().len() ==> wrap_separator()[k] != '0');
            lemma_extract_skip_prefix(wrap_separator(), tok + after);
            lemma_extract_token(bytes[0], after);
            lemma_extract_body(rest, width, 9, tail);
        } else {
            let after = body_text(rest, width, line_len + 6) + tail;
            assert(body_text(bytes, width, line_len) + tail =~= seq![' '] + (tok + after));
            assert(forall|k: int| 0 <= k < seq![' '].len() ==> seq![' '][k] != '0');
            lemma_extract_skip_prefix(seq![' '], tok + after);
            lemma_extract_token(bytes[0], after);
            lemma_extract_body(rest, width, line_len + 6, tail);
        }
        assert(bytes + extract_bytes(tail) =~= seq![bytes[0]] + (rest + extract_bytes(tail)));
    }
}

/// Law: scanning the rendered text recovers exactly the input bytes, in
/// order, and meets exactly one `0x` marker per input byte — whatever the
/// width.
pub proof fn lemma_decode_round_trip(bytes: Seq<u8>, width: int)
    ensures
        extract_bytes(formatted(bytes, width)) == bytes,
        count_tokens(formatted(bytes, width)) == bytes.len(),
{
    let body = body_text(bytes, width, width + 1);
    assert(forall|k: int| 0 <= k < header().len() ==> header()[k] != '0');
    assert(formatted(bytes, width) =~= header() + (body + seq!['}']));
    lemma_extract_skip_prefix(header(), body + seq!['}']);
    lemma_extract_body(bytes, width, width + 1, seq!['}']);
    assert(extract_bytes(seq!['}']) =~= Seq::<u8>::empty());
    assert(bytes + Seq::<u8>::empty() =~= bytes);
    lemma_count_is_len(formatted(bytes, width));
}

} // verus!
