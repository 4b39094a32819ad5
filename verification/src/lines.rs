//! The rendered text, seen as its physical lines.
//!
//! [`output_lines`] splits what [`formatted`] describes at its newlines;
//! [`lemma_formatted_is_render`] proves the two views are the same text, and
//! [`lemma_line_width`] bounds every line's length by the width.

use crate::convert::body_text;
use crate::convert::byte_token;
use crate::convert::formatted;
use crate::convert::header;
use crate::convert::hex_digit;
use crate::MIN_LINE_WIDTH;
use vstd::prelude::*;

verus! {

/// The four spaces that indent every wrapped line.
pub open spec fn indent() -> Seq<char> {
    seq![' ', ' ', ' ', ' ']
}

/// No character of `line` is a newline.
pub open spec fn newline_free(line: Seq<char>) -> bool {
    forall|j: int| 0 <= j < line.len() ==> line[j] != '\n'
}

/// The lines of the body from `bytes` on, when the last open line already
/// holds `cur`: a token whose five characters would bring that line to the
/// width or past it closes it and opens a fresh indented line; otherwise it
/// extends the open line after a single space.
pub open spec fn body_lines(bytes: Seq<u8>, width: int, cur: Seq<char>) -> Seq<Seq<char>>
    decreases bytes.len(),
{
    if bytes.len() == 0 {
        seq![cur]
    } else {
        let tok = byte_token(bytes[0]);
        if cur.len() + 5 >= width {
            seq![cur] + body_lines(bytes.drop_first(), width, indent() + tok)
        } else {
            body_lines(bytes.drop_first(), width, cur + seq![' '] + tok)
        }
    }
}

/// The whole rendered text as lines: the header alone on the first line
/// (the seeded counter makes the first byte wrap, whatever the width), the
/// wrapped body lines after it, and the closing brace at the end of the
/// last line.
pub open spec fn output_lines(bytes: Seq<u8>, width: int) -> Seq<Seq<char>> {
    if bytes.len() == 0 {
        seq![header() + seq!['}']]
    } else {
        let body = body_lines(bytes.drop_first(), width, indent() + byte_token(bytes[0]));
        seq![header()] + body.update(body.len() - 1, body.last() + seq!['}'])
    }
}

/// Lines joined back into one text, a newline between each two.
pub open spec fn render_lines(lines: Seq<Seq<char>>) -> Seq<char>
    decreases lines.len(),
{
    if lines.len() == 0 {
        Seq::empty()
    } else if lines.len() == 1 {
        lines[0]
    } else {
        lines[0] + seq!['\n'] + render_lines(lines.drop_first())
    }
}

/// The body always yields at least the open line.
proof fn lemma_body_lines_nonempty(bytes: Seq<u8>, width: int, cur: Seq<char>)
    ensures
        body_lines(bytes, width, cur).len() >= 1,
    decreases bytes.len(),
{
    if bytes.len() > 0 {
        let tok = byte_token(bytes[0]);
        if cur.len() + 5 >= width {
            lemma_body_lines_nonempty(bytes.drop_first(), width, indent() + tok);
        } else {
            lemma_body_lines_nonempty(bytes.drop_first(), width, cur + seq![' '] + tok);
        }
    }
}

/// Joining the body lines gives the open line followed by the flat body
/// text, whose counter starts at that line's length.
proof fn lemma_body_lines_render(bytes: Seq<u8>, width: int, cur: Seq<char>)
    ensures
        render_lines(body_lines(bytes, width, cur)) == cur + body_text(
            bytes,
            width,
            cur.len() as int,
        ),
    decreases bytes.len(),
{
    if bytes.len() == 0 {
        assert(cur + body_text(bytes, width, cur.len() as int) =~= cur);
    } else {
        let tok = byte_token(bytes[0]);
        if cur.len() + 5 >= width {
            let fresh = indent() + tok;
            lemma_body_lines_render(bytes.drop_first(), width, fresh);
            lemma_body_lines_nonempty(bytes.drop_first(), width, fresh);
            let rest = body_lines(bytes.drop_first(), width, fresh);
            assert((seq![cur] + rest).drop_first() =~= rest);
            assert((seq![cur] + rest)[0] == cur);
            assert(fresh.len() == 9);
            assert(cur + seq!['\n'] + (fresh + body_text(bytes.drop_first(), width, 9)) =~= cur
                + body_text(bytes, width, cur.len() as int));
        } else {
            let ext = cur + seq![' '] + tok;
            lemma_body_lines_render(bytes.drop_first(), width, ext);
            assert(ext.len() == cur.len() + 6);
            assert(ext + body_text(bytes.drop_first(), width, cur.len() as int + 6) =~= cur
                + body_text(
                bytes,
                width,
                cur.len() as int,
            ));
        }
    }
}

/// Appending the brace to the last line appends it to the joined text.
proof fn lemma_render_close_last(lines: Seq<Seq<char>>)
    requires
        lines.len() >= 1,
    ensures
        render_lines(lines.update(lines.len() - 1, lines.last() + seq!['}'])) == render_lines(
            lines,
        ) + seq!['}'],
    decreases lines.len(),
{
    let closed = lines.update(lines.len() - 1, lines.last() + seq!['}']);
    if lines.len() == 1 {
        assert(closed =~= seq![lines[0] + seq!['}']]);
    } else {
        lemma_render_close_last(lines.drop_first());
        let tail = lines.drop_first();
        assert(closed.drop_first() =~= tail.update(tail.len() - 1, tail.last() + seq!['}']));
        assert(closed[0] == lines[0]);
        assert(lines[0] + seq!['\n'] + (render_lines(tail) + seq!['}']) =~= (lines[0] + seq!['\n']
            + render_lines(tail)) + seq!['}']);
    }
}

/// Law: the flat rendered text and the line view are the same text — the
/// output is exactly the output lines joined with newlines.
pub proof fn lemma_formatted_is_render(bytes: Seq<u8>, width: int)
    ensures
        formatted(bytes, width) == render_lines(output_lines(bytes, width)),
{
    if bytes.len() == 0 {
        assert(formatted(bytes, width) =~= header() + seq!['}']);
    } else {
        let first = indent() + byte_token(bytes[0]);
        let body = body_lines(bytes.drop_first(), width, first);
        lemma_body_lines_nonempty(bytes.drop_first(), width, first);
        lemma_body_lines_render(bytes.drop_first(), width, first);
        lemma_render_close_last(body);
        let closed = body.update(body.len() - 1, body.last() + seq!['}']);
        assert((seq![header()] + closed).drop_first() =~= closed);
        assert((seq![header()] + closed)[0] == header());
        assert(closed.len() >= 1);
        assert(first.len() == 9);
        assert(render_lines(closed) == (first + body_text(bytes.drop_first(), width, 9))
            + seq!['}']);
        assert(header() + seq!['\n'] + ((first + body_text(bytes.drop_first(), width, 9))
            + seq!['}']) =~= formatted(bytes, width));
    }
}

/// A token never holds a newline.
proof fn lemma_byte_token_newline_free(b: u8)
    ensures
        newline_free(byte_token(b)),
{
    assert(hex_digit(b as int / 16) != '\n');
    assert(hex_digit(b as int % 16) != '\n');
}

/// Every body line stays within the width and holds no newline, as long as
/// the open line does and a fresh indented line fits.
proof fn lemma_body_lines_bounds(bytes: Seq<u8>, width: int, cur: Seq<char>)
    requires
        9 <= width,
        cur.len() <= width,
        newline_free(cur),
    ensures
        forall|k: int|
            0 <= k < body_lines(bytes, width, cur).len() ==> {
                let line = #[trigger] body_lines(bytes, width, cur)[k];
                line.len() <= width && newline_free(line)
            },
    decreases bytes.len(),
{
    if bytes.len() == 0 {
        assert(body_lines(bytes, width, cur) =~= seq![cur]);
        assert(body_lines(bytes, width, cur)[0] == cur);
    } else {
        let tok = byte_token(bytes[0]);
        lemma_byte_token_newline_free(bytes[0]);
        if cur.len() + 5 >= width {
            let fresh = indent() + tok;
            assert(newline_free(fresh));
            lemma_body_lines_bounds(bytes.drop_first(), width, fresh);
            let rest = body_lines(bytes.drop_first(), width, fresh);
            assert forall|k: int| 0 <= k < (seq![cur] + rest).len() implies {
                let line = #[trigger] (seq![cur] + rest)[k];
                line.len() <= width && newline_free(line)
            } by {
                if k > 0 {
                    assert((seq![cur] + rest)[k] == rest[k - 1]);
                }
            }
        } else {
            let ext = cur + seq![' '] + tok;
            assert(newline_free(ext));
            assert(ext.len() <= width);
            lemma_body_lines_bounds(bytes.drop_first(), width, ext);
            assert(body_lines(bytes, width, cur) == body_lines(bytes.drop_first(), width, ext));
        }
    }
}

/// Law: split at its newlines, the rendered text never overruns the width.
/// Every line is newline-free; every line before the last is at most the
/// width long; the last line carries the closing brace and is at most one
/// character longer.
pub proof fn lemma_line_width(bytes: Seq<u8>, width: int)
    requires
        MIN_LINE_WIDTH <= width,
    ensures
        forall|k: int|
            0 <= k < output_lines(bytes, width).len() ==> newline_free(
                #[trigger] output_lines(bytes, width)[k],
            ),
        forall|k: int|
            0 <= k < output_lines(bytes, width).len() - 1 ==> (#[trigger] output_lines(
                bytes,
                width,
            )[k]).len() <= width,
        output_lines(bytes, width).last().len() <= width + 1,
{
    let ls = output_lines(bytes, width);
    if bytes.len() == 0 {
        assert(ls[0] == header() + seq!['}']);
        assert(newline_free(header() + seq!['}']));
        assert(ls.last().len() == 33);
    } else {
        let first = indent() + byte_token(bytes[0]);
        lemma_byte_token_newline_free(bytes[0]);
        assert(newline_free(first));
        assert(first.len() == 9);
        lemma_body_lines_bounds(bytes.drop_first(), width, first);
        lemma_body_lines_nonempty(bytes.drop_first(), width, first);
        let body = body_lines(bytes.drop_first(), width, first);
        let closed = body.update(body.len() - 1, body.last() + seq!['}']);
        assert(newline_free(header()));
        assert(newline_free(body.last()));
        assert(newline_free(body.last() + seq!['}']));
        assert forall|k: int| 0 <= k < ls.len() implies newline_free(#[trigger] ls[k]) by {
            if k > 0 {
                assert(ls[k] == closed[k - 1]);
                if k - 1 < body.len() - 1 {
                    assert(closed[k - 1] == body[k - 1]);
                } else {
                    assert(closed[k - 1] == body.last() + seq!['}']);
                }
            }
        }
        assert forall|k: int| 0 <= k < ls.len() - 1 implies (#[trigger] ls[k]).len() <= width by {
            if k > 0 {
                assert(ls[k] == closed[k - 1]);
                assert(k - 1 < body.len() - 1);
                assert(closed[k - 1] == body[k - 1]);
            }
        }
        assert(ls.last() == closed.last());
        assert(closed.last() == body.last() + seq!['}']);
        assert(body.last().len() <= width);
    }
}

} // verus!
