//! The converter: bytes in, array-literal text out.
//!
//! The rendered text is pinned down character for character by the spec
//! functions here ([`formatted`] above all), and [`process_bin_file`] is
//! proved to return exactly that text.

use crate::MIN_LINE_WIDTH;
use vstd::prelude::*;

verus! {

/// The characters of the fixed header that opens every rendered array.
pub open spec fn header() -> Seq<char> {
    seq![
        's', 't', 'a', 't', 'i', 'c', ' ', 'c', 'o', 'n', 's', 't', ' ', 'c', 'h', 'a', 'r',
        '[', ']', ' ', 'B', 'I', 'N', 'A', 'R', 'R', 'A', 'Y', ' ', '=', ' ', '{',
    ]
}

/// Lowercase hex digit character for a value below 16.
pub open spec fn hex_digit(n: int) -> char {
    if n == 0 { '0' }
    else if n == 1 { '1' }
    else if n == 2 { '2' }
    else if n == 3 { '3' }
    else if n == 4 { '4' }
    else if n == 5 { '5' }
    else if n == 6 { '6' }
    else if n == 7 { '7' }
    else if n == 8 { '8' }
    else if n == 9 { '9' }
    else if n == 10 { 'a' }
    else if n == 11 { 'b' }
    else if n == 12 { 'c' }
    else if n == 13 { 'd' }
    else if n == 14 { 'e' }
    else { 'f' }
}

/// One rendered byte: `0x`, two lowercase hex digits, a trailing comma.
/// Always five characters.
pub open spec fn byte_token(b: u8) -> Seq<char> {
    seq!['0', 'x', hex_digit(b as int / 16), hex_digit(b as int % 16), ',']
}

/// What is written when a token starts a fresh line: a newline and four
/// spaces of indentation.
pub open spec fn wrap_separator() -> Seq<char> {
    seq!['\n', ' ', ' ', ' ', ' ']
}

/// The rendered body from `bytes` on, when the current line already holds
/// `line_len` characters. Each token is five characters; when those five
/// would bring the line to the width or past it, the token is placed on a
/// fresh indented line (and the new line holds indent plus token, nine
/// characters), else it follows a single space on the same line.
pub open spec fn body_text(bytes: Seq<u8>, width: int, line_len: int) -> Seq<char>
    decreases bytes.len(),
{
    if bytes.len() == 0 {
        Seq::empty()
    } else {
        let tok = byte_token(bytes[0]);
        if line_len + 5 >= width {
            wrap_separator() + tok + body_text(bytes.drop_first(), width, 9)
        } else {
            seq![' '] + tok + body_text(bytes.drop_first(), width, line_len + 6)
        }
    }
}

/// The whole rendered text for `bytes` at `width`: header, body, closing
/// brace. The line counter is seeded at `width + 1`, so the first byte
/// always starts a fresh line, whatever the width.
pub open spec fn formatted(bytes: Seq<u8>, width: int) -> Seq<char> {
    header() + body_text(bytes, width, width + 1) + seq!['}']
}

/// Law: the rendered text always opens with the header and closes with a
/// brace, whatever the bytes and the width.
pub proof fn lemma_output_frame(bytes: Seq<u8>, width: int)
    ensures
        formatted(bytes, width).len() >= 33,
        formatted(bytes, width).subrange(0, 32) == header(),
        formatted(bytes, width).last() == '}',
{
    assert(formatted(bytes, width).subrange(0, 32) =~= header());
}

/// Law: zero input bytes render as the header immediately closed by the
/// brace, whatever the width.
pub proof fn lemma_empty_input(width: int)
    ensures
        formatted(Seq::<u8>::empty(), width) == "static const char[] BINARRAY = {}"@,
{
    reveal_strlit("static const char[] BINARRAY = {}");
    assert(formatted(Seq::<u8>::empty(), width) =~= "static const char[] BINARRAY = {}"@);
}

/// Lowercase hex digit, as a one-character string, for a value below 16.
fn hex_digit_str(d: u8) -> (r: &'static str)
    requires
        d < 16,
    ensures
        r@ == seq![hex_digit(d as int)],
{
    proof {
        reveal_strlit("0");
        reveal_strlit("1");
        reveal_strlit("2");
        reveal_strlit("3");
        reveal_strlit("4");
        reveal_strlit("5");
        reveal_strlit("6");
        reveal_strlit("7");
        reveal_strlit("8");
        reveal_strlit("9");
        reveal_strlit("a");
        reveal_strlit("b");
        reveal_strlit("c");
        reveal_strlit("d");
        reveal_strlit("e");
        reveal_strlit("f");
    }
    let r: &'static str = if d == 0 { "0" }
    else if d == 1 { "1" }
    else if d == 2 { "2" }
    else if d == 3 { "3" }
    else if d == 4 { "4" }
    else if d == 5 { "5" }
    else if d == 6 { "6" }
    else if d == 7 { "7" }
    else if d == 8 { "8" }
    else if d == 9 { "9" }
    else if d == 10 { "a" }
    else if d == 11 { "b" }
    else if d == 12 { "c" }
    else if d == 13 { "d" }
    else if d == 14 { "e" }
    else { "f" };
    proof {
        assert(r@ =~= seq![hex_digit(d as int)]);
    }
    r
}

/// Render `bytes` as the array-literal text at `line_width`: the header,
/// every byte as a `0xHH,` token in file order with the wrap bookkeeping of
/// [`body_text`], and a closing brace. Returns exactly [`formatted`].
pub fn process_bin_file(bytes: &[u8], line_width: usize) -> (r: String)
    requires
        MIN_LINE_WIDTH <= line_width,
        line_width + 6 <= usize::MAX,
    ensures
        r@ == formatted(bytes@, line_width as int),
{
    let ghost w = line_width as int;
    let mut out: String = String::new();
    out.append("static const char[] BINARRAY = {");
    proof {
        reveal_strlit("static const char[] BINARRAY = {");
        assert(out@ =~= header());
        assert(bytes@.skip(0) =~= bytes@);
    }
    let mut line_len: usize = line_width + 1;
    let mut i: usize = 0;
    while i < bytes.len()
        invariant
            i <= bytes@.len(),
            MIN_LINE_WIDTH <= line_width,
            line_width + 6 <= usize::MAX,
            9 <= line_len,
            line_len <= line_width + 1,
            w == line_width as int,
            out@ + body_text(bytes@.skip(i as int), w, line_len as int) == header()
                + body_text(bytes@, w, w + 1),
        decreases bytes@.len() - i,
    {
        let b: u8 = bytes[i];
        let ghost prev_out = out@;
        let ghost prev_len = line_len as int;
        line_len = line_len + 5;
        if line_len >= line_width {
            out.append("\n    ");
            line_len = 9;
            proof {
                reveal_strlit("\n    ");
                assert(out@ =~= prev_out + wrap_separator());
            }
        } else {
            out.append(" ");
            line_len = line_len + 1;
            proof {
                reveal_strlit(" ");
                assert(out@ =~= prev_out + seq![' ']);
            }
        }
        let ghost sep_out = out@;
        out.append("0x");
        out.append(hex_digit_str(b / 16));
        out.append(hex_digit_str(b % 16));
        out.append(",");
        proof {
            reveal_strlit("0x");
            reveal_strlit(",");
            assert(out@ =~= sep_out + byte_token(b));
            assert(bytes@.skip(i as int).drop_first() =~= bytes@.skip(i as int + 1));
            assert(out@ + body_text(bytes@.skip(i as int + 1), w, line_len as int) =~= prev_out
                + body_text(bytes@.skip(i as int), w, prev_len));
        }
        i = i + 1;
    }
    proof {
        assert(bytes@.skip(i as int) =~= Seq::<u8>::empty());
        assert(out@ =~= header() + body_text(bytes@, w, w + 1));
    }
    out.append("}");
    proof {
        reveal_strlit("}");
        assert(out@ =~= formatted(bytes@, w));
    }
    out
}

} // verus!
