//! Which part of a matched line a row shows.
//!
//! Everything here counts bytes of the UTF-8 encoding, and only ever cuts between characters.

use std::ops::Range;

use vstd::prelude::*;
use vstd::utf8::{encode_scalar, encode_utf8, is_char_boundary, valid_utf8};

use crate::text::{is_white, is_whitespace};

verus! {

/// Longest run of a matched line kept for a row. Rows are one line tall and truncate anyway, and
/// a minified file is a single enormous line.
pub const MAX_ROW_TEXT_LEN: usize = 300;

/// How much of a long line to keep before the match when windowing it.
pub const CONTEXT_BEFORE_MATCH: usize = 40;

/// The last character boundary at or before `index`.
pub open spec fn floor_at(bytes: Seq<u8>, index: int) -> int
    decreases index,
{
    if index <= 0 {
        0
    } else if is_char_boundary(bytes, index) {
        index
    } else {
        floor_at(bytes, index - 1)
    }
}

/// The first character boundary at or after `index`.
pub open spec fn ceil_at(bytes: Seq<u8>, index: int) -> int
    decreases bytes.len() - index,
{
    if index >= bytes.len() {
        bytes.len() as int
    } else if is_char_boundary(bytes, index) {
        index
    } else {
        ceil_at(bytes, index + 1)
    }
}

/// The smaller of two numbers.
pub open spec fn least(a: int, b: int) -> int {
    if a < b {
        a
    } else {
        b
    }
}

/// The larger of two numbers.
pub open spec fn greatest(a: int, b: int) -> int {
    if a < b {
        b
    } else {
        a
    }
}

/// The length of `text` in bytes.
pub fn byte_len(text: &str) -> (len: usize)
    ensures
        len == encode_utf8(text@).len(),
{
    text.as_bytes().len()
}

/// The last character boundary of `text` at or before `index`.
pub fn floor_boundary(text: &str, index: usize) -> (boundary: usize)
    ensures
        boundary == floor_at(encode_utf8(text@), least(index as int, encode_utf8(text@).len() as int)),
{
    let len = byte_len(text);
    let mut at: usize = if index < len {
        index
    } else {
        len
    };
    let ghost limit = at as int;
    while at > 0 && !text.is_char_boundary(at)
        invariant
            floor_at(encode_utf8(text@), limit) == floor_at(encode_utf8(text@), at as int),
        decreases at,
    {
        at -= 1;
    }
    at
}

/// The first character boundary of `text` at or after `index`.
pub fn ceil_boundary(text: &str, index: usize) -> (boundary: usize)
    ensures
        boundary == ceil_at(encode_utf8(text@), least(index as int, encode_utf8(text@).len() as int)),
        least(index as int, encode_utf8(text@).len() as int) <= boundary <= encode_utf8(text@).len(),
        is_char_boundary(encode_utf8(text@), boundary as int),
{
    proof {
        vstd::utf8::encode_utf8_valid_utf8(text@);
        lemma_ceil_at(
            encode_utf8(text@),
            least(index as int, encode_utf8(text@).len() as int),
        );
    }
    let len = byte_len(text);
    let mut at: usize = if index < len {
        index
    } else {
        len
    };
    let ghost limit = at as int;
    while at < len && !text.is_char_boundary(at)
        invariant
            len == encode_utf8(text@).len(),
            at <= len,
            ceil_at(encode_utf8(text@), limit) == ceil_at(encode_utf8(text@), at as int),
        decreases len - at,
    {
        at += 1;
    }
    at
}

/// How many characters of whitespace `line` begins with.
pub open spec fn leading_white(line: Seq<char>) -> nat
    decreases line.len(),
{
    if line.len() > 0 && is_white(line[0]) {
        1 + leading_white(line.drop_first())
    } else {
        0
    }
}

/// How many bytes the indentation of `line` takes.
pub open spec fn indentation(line: Seq<char>) -> int {
    encode_utf8(line.take(leading_white(line) as int)).len() as int
}

/// The bytes of one character.
fn utf8_width(c: char) -> (width: usize)
    ensures
        width == encode_scalar(c as u32).len(),
        1 <= width <= 4,
{
    let scalar: u32 = c as u32;
    if scalar <= 0x7f {
        1
    } else if scalar <= 0x7ff {
        2
    } else if scalar <= 0xffff {
        3
    } else {
        4
    }
}

/// Encoding a concatenation concatenates the encodings.
proof fn lemma_encode_concat(a: Seq<char>, b: Seq<char>)
    ensures
        encode_utf8(a + b) == encode_utf8(a) + encode_utf8(b),
    decreases a.len(),
{
    if a.len() == 0 {
        assert(a + b =~= b);
        assert(encode_utf8(a) + encode_utf8(b) =~= encode_utf8(b));
    } else {
        assert((a + b).drop_first() =~= a.drop_first() + b);
        lemma_encode_concat(a.drop_first(), b);
        assert(encode_utf8(a + b) =~= encode_utf8(a) + encode_utf8(b));
    }
}

/// A character boundary lies behind every whole number of characters.
proof fn lemma_boundary_after(line: Seq<char>, count: int)
    requires
        0 <= count <= line.len(),
    ensures
        encode_utf8(line.take(count)).len() <= encode_utf8(line).len(),
        is_char_boundary(encode_utf8(line), encode_utf8(line.take(count)).len() as int),
    decreases count,
{
    vstd::utf8::encode_utf8_valid_utf8(line);
    lemma_encode_concat(line.take(count), line.skip(count));
    assert(line.take(count) + line.skip(count) =~= line);
    if count > 0 {
        vstd::utf8::encode_utf8_first_scalar(line);
        let rest = line.drop_first();
        lemma_boundary_after(rest, count - 1);
        assert(line.take(count).drop_first() =~= rest.take(count - 1));
        assert(line.take(count)[0] == line[0]);
        assert(vstd::utf8::pop_first_scalar(encode_utf8(line)) =~= encode_utf8(rest));
    }
}

/// How many bytes of whitespace `line` begins with.
fn indentation_of(line: &str) -> (bytes: usize)
    ensures
        bytes == indentation(line@),
        bytes <= encode_utf8(line@).len(),
        is_char_boundary(encode_utf8(line@), bytes as int),
{
    let len = byte_len(line);
    let mut rest = line.chars();
    let mut bytes: usize = 0;
    let ghost mut i: int = 0;
    proof {
        assert(line@.skip(0) =~= line@);
        assert(line@.take(0) =~= Seq::<char>::empty());
    }
    loop
        invariant
            0 <= i <= line@.len(),
            len == encode_utf8(line@).len(),
            vstd::std_specs::iter::IteratorSpec::remaining(&rest) == line@.skip(i),
            leading_white(line@) == i + leading_white(line@.skip(i)),
            bytes == encode_utf8(line@.take(i)).len(),
        decreases line@.len() - i,
    {
        let next = rest.next();
        proof {
            lemma_boundary_after(line@, i);
            assert(i < line@.len() ==> line@.skip(i).drop_first() =~= line@.skip(i + 1));
        }
        match next {
            Some(c) => {
                if !is_whitespace(c) {
                    return bytes;
                }
                proof {
                    assert(line@.take(i + 1) =~= line@.take(i) + seq![c]);
                    lemma_encode_concat(line@.take(i), seq![c]);
                    assert(seq![c].drop_first() =~= Seq::<char>::empty());
                    assert(encode_utf8(seq![c]) =~= encode_scalar(c as u32) + encode_utf8(
                        Seq::<char>::empty(),
                    ));
                    lemma_boundary_after(line@, i + 1);
                }
                bytes = bytes + utf8_width(c);
            },
            None => {
                return bytes;
            },
        }
        proof {
            i = i + 1;
        }
    }
}

/// The slice of a line that a row draws, and the match within that slice. All in bytes.
pub struct RowWindow {
    pub start: int,
    pub end: int,
    pub highlight_start: int,
    pub highlight_end: int,
}

/// What a row draws of `line` for the match at `match_start..match_end`.
///
/// The match is cut down to whole characters behind the indentation. Where it ends within reach
/// of the indentation, the window opens at the first visible character; otherwise it opens a
/// little before the match, still behind the indentation. It closes before the character that
/// would overfill it, or where the line ends.
pub open spec fn row_window(line: Seq<char>, match_start: int, match_end: int) -> RowWindow {
    let bytes = encode_utf8(line);
    let len = bytes.len() as int;
    let text_start = indentation(line);
    let shown_start = floor_at(bytes, least(greatest(match_start, text_start), len));
    let shown_end = floor_at(bytes, least(greatest(match_end, shown_start), len));
    let start = if shown_end - text_start > MAX_ROW_TEXT_LEN {
        greatest(text_start, floor_at(bytes, shown_start - CONTEXT_BEFORE_MATCH))
    } else {
        text_start
    };
    let end = floor_at(bytes, least(start + MAX_ROW_TEXT_LEN, len));
    RowWindow {
        start,
        end,
        highlight_start: least(greatest(shown_start - start, 0), end - start),
        highlight_end: least(greatest(shown_end - start, 0), end - start),
    }
}

/// Rounding down stays in bounds, lands on a boundary, and passes over none.
pub proof fn lemma_floor_at(bytes: Seq<u8>, index: int)
    requires
        valid_utf8(bytes),
        index <= bytes.len(),
    ensures
        0 <= floor_at(bytes, index),
        index >= 0 ==> floor_at(bytes, index) <= index,
        floor_at(bytes, index) <= bytes.len(),
        is_char_boundary(bytes, floor_at(bytes, index)),
        forall|k: int|
            floor_at(bytes, index) < k <= index ==> !#[trigger] is_char_boundary(bytes, k),
    decreases index,
{
    if index > 0 && !is_char_boundary(bytes, index) {
        lemma_floor_at(bytes, index - 1);
    }
}

/// Rounding up stays in bounds, lands on a boundary, and passes over none.
pub proof fn lemma_ceil_at(bytes: Seq<u8>, index: int)
    requires
        valid_utf8(bytes),
        0 <= index <= bytes.len(),
    ensures
        index <= ceil_at(bytes, index) <= bytes.len(),
        is_char_boundary(bytes, ceil_at(bytes, index)),
        forall|k: int|
            index <= k < ceil_at(bytes, index) ==> !#[trigger] is_char_boundary(bytes, k),
    decreases bytes.len() - index,
{
    if index >= bytes.len() {
        vstd::utf8::is_char_boundary_start_end_of_seq(bytes);
    } else if !is_char_boundary(bytes, index) {
        lemma_ceil_at(bytes, index + 1);
    }
}

/// Trims indentation and, for very long lines, keeps only a window around the match. Returns the
/// slice of `line` to draw, and the match's byte range within that slice.
pub fn render_window(line: &str, match_range: Range<usize>) -> (drawn: (
    Range<usize>,
    Range<usize>,
))
    ensures
        ({
            let w = row_window(line@, match_range.start as int, match_range.end as int);
            &&& drawn.0.start == w.start
            &&& drawn.0.end == w.end
            &&& drawn.1.start == w.highlight_start
            &&& drawn.1.end == w.highlight_end
        }),
        indentation(line@) <= drawn.0.start <= drawn.0.end <= encode_utf8(line@).len(),
        drawn.0.end - drawn.0.start <= MAX_ROW_TEXT_LEN,
        drawn.1.start <= drawn.1.end <= drawn.0.end - drawn.0.start,
        drawn.0.end == encode_utf8(line@).len() || forall|k: int|
            drawn.0.end < k <= drawn.0.start + MAX_ROW_TEXT_LEN ==> !#[trigger] is_char_boundary(
                encode_utf8(line@),
                k,
            ),
        is_char_boundary(encode_utf8(line@), drawn.0.start as int),
        is_char_boundary(encode_utf8(line@), drawn.0.end as int),
{
    let len = byte_len(line);
    let text_start = indentation_of(line);
    proof {
        vstd::utf8::encode_utf8_valid_utf8(line@);
    }
    let from: usize = if match_range.start < text_start {
        text_start
    } else {
        match_range.start
    };
    let start = floor_boundary(line, from);
    proof {
        lemma_floor_at(encode_utf8(line@), least(from as int, len as int));
    }
    let to: usize = if match_range.end < start {
        start
    } else {
        match_range.end
    };
    let end = floor_boundary(line, to);
    proof {
        lemma_floor_at(encode_utf8(line@), least(to as int, len as int));
    }

    // Keep some context before the match when the line is too long to show whole.
    let window_start: usize = if end.saturating_sub(text_start) > MAX_ROW_TEXT_LEN {
        let context = floor_boundary(line, start.saturating_sub(CONTEXT_BEFORE_MATCH));
        if context < text_start {
            text_start
        } else {
            context
        }
    } else {
        text_start
    };
    proof {
        lemma_floor_at(encode_utf8(line@), start - CONTEXT_BEFORE_MATCH);
        lemma_floor_at(encode_utf8(line@), 0);
    }
    let full: usize = if len - window_start < MAX_ROW_TEXT_LEN {
        len
    } else {
        window_start + MAX_ROW_TEXT_LEN
    };
    let window_end = floor_boundary(line, full);
    proof {
        lemma_floor_at(encode_utf8(line@), full as int);
        if window_end < window_start {
            assert(!is_char_boundary(encode_utf8(line@), window_start as int));
        }
        if end < start {
            assert(!is_char_boundary(encode_utf8(line@), start as int));
        }
    }
    let window_len = window_end - window_start;
    let highlight_start: usize = start.saturating_sub(window_start);
    let highlight_end: usize = end.saturating_sub(window_start);
    let highlight = Range {
        start: if highlight_start < window_len {
            highlight_start
        } else {
            window_len
        },
        end: if highlight_end < window_len {
            highlight_end
        } else {
            window_len
        },
    };
    (Range { start: window_start, end: window_end }, highlight)
}

/// A boundary of the whole is one of a front part that contains it.
proof fn lemma_boundary_of_front(bytes: Seq<u8>, at: int, end: int)
    requires
        valid_utf8(bytes),
        0 <= at <= end <= bytes.len(),
        is_char_boundary(bytes, at),
        is_char_boundary(bytes, end),
    ensures
        valid_utf8(bytes.subrange(0, end)),
        is_char_boundary(bytes.subrange(0, end), at),
{
    let front = bytes.subrange(0, end);
    vstd::utf8::valid_utf8_split(bytes, end);
    if at == end {
        vstd::utf8::is_char_boundary_start_end_of_seq(front);
    } else {
        vstd::utf8::is_char_boundary_iff_not_is_continuation_byte(bytes, at);
        vstd::utf8::is_char_boundary_iff_not_is_continuation_byte(front, at);
        assert(front[at] == bytes[at]);
    }
}

/// A boundary of the whole is one of a back part that contains it, counted from its start.
proof fn lemma_boundary_of_back(bytes: Seq<u8>, start: int, at: int)
    requires
        valid_utf8(bytes),
        0 <= start <= at <= bytes.len(),
        is_char_boundary(bytes, start),
        is_char_boundary(bytes, at),
    ensures
        valid_utf8(bytes.subrange(start, bytes.len() as int)),
        is_char_boundary(bytes.subrange(start, bytes.len() as int), at - start),
{
    let back = bytes.subrange(start, bytes.len() as int);
    vstd::utf8::valid_utf8_split(bytes, start);
    if at == bytes.len() {
        vstd::utf8::is_char_boundary_start_end_of_seq(back);
    } else {
        vstd::utf8::is_char_boundary_iff_not_is_continuation_byte(bytes, at);
        vstd::utf8::is_char_boundary_iff_not_is_continuation_byte(back, at - start);
        assert(back[at - start] == bytes[at]);
    }
}

/// The text between two byte positions of `text`.
pub fn byte_slice(text: &str, range: Range<usize>) -> (slice: String)
    requires
        range.start <= range.end <= encode_utf8(text@).len(),
        is_char_boundary(encode_utf8(text@), range.start as int),
        is_char_boundary(encode_utf8(text@), range.end as int),
    ensures
        encode_utf8(slice@) == encode_utf8(text@).subrange(range.start as int, range.end as int),
{
    proof {
        vstd::utf8::encode_utf8_valid_utf8(text@);
        lemma_boundary_of_front(encode_utf8(text@), range.start as int, range.end as int);
    }
    let (front, _) = text.split_at(range.end);
    let (_, slice) = front.split_at(range.start);
    proof {
        assert(encode_utf8(text@).subrange(0, range.end as int).subrange(
            range.start as int,
            range.end as int,
        ) =~= encode_utf8(text@).subrange(range.start as int, range.end as int));
    }
    slice.to_owned()
}

/// No character takes more than four bytes, so a boundary is never far ahead.
proof fn lemma_boundary_near(bytes: Seq<u8>, index: int) -> (boundary: int)
    requires
        valid_utf8(bytes),
        0 <= index <= bytes.len(),
    ensures
        index <= boundary <= index + 3,
        boundary <= bytes.len(),
        is_char_boundary(bytes, boundary),
    decreases bytes.len(),
{
    if index == 0 {
        0
    } else {
        let first = vstd::utf8::length_of_first_scalar(bytes);
        let rest = vstd::utf8::pop_first_scalar(bytes);
        if index < first {
            assert(is_char_boundary(rest, 0));
            first
        } else {
            lemma_boundary_near(rest, index - first) + first
        }
    }
}

/// Facts about the pieces that a window is computed from.
proof fn lemma_row_window(line: Seq<char>, match_start: int, match_end: int)
    requires
        0 <= match_start,
        0 <= match_end,
    ensures
        ({
            let bytes = encode_utf8(line);
            let w = row_window(line, match_start, match_end);
            &&& valid_utf8(bytes)
            &&& 0 <= indentation(line) <= bytes.len()
            &&& is_char_boundary(bytes, indentation(line))
            &&& indentation(line) <= w.start <= w.end <= bytes.len()
            &&& w.end - w.start <= MAX_ROW_TEXT_LEN
            &&& is_char_boundary(bytes, w.start)
            &&& is_char_boundary(bytes, w.end)
        }),
{
    let bytes = encode_utf8(line);
    let len = bytes.len() as int;
    let text_start = indentation(line);
    lemma_leading_white(line);
    lemma_boundary_after(line, leading_white(line) as int);
    vstd::utf8::encode_utf8_valid_utf8(line);
    lemma_floor_at(bytes, least(greatest(match_start, text_start), len));
    let shown_start = floor_at(bytes, least(greatest(match_start, text_start), len));
    lemma_floor_at(bytes, least(greatest(match_end, shown_start), len));
    lemma_floor_at(bytes, shown_start - CONTEXT_BEFORE_MATCH);
    let w = row_window(line, match_start, match_end);
    lemma_floor_at(bytes, least(w.start + MAX_ROW_TEXT_LEN, len));
    if w.end < w.start {
        assert(!is_char_boundary(bytes, w.start));
    }
}

/// The indentation is a front part of the line that holds whitespace only, and the longest such.
pub proof fn lemma_leading_white(line: Seq<char>)
    ensures
        leading_white(line) <= line.len(),
        forall|i: int| 0 <= i < leading_white(line) ==> is_white(#[trigger] line[i]),
        leading_white(line) < line.len() ==> !is_white(line[leading_white(line) as int]),
    decreases line.len(),
{
    if line.len() > 0 && is_white(line[0]) {
        let rest = line.drop_first();
        lemma_leading_white(rest);
        assert forall|i: int| 0 <= i < leading_white(line) implies is_white(#[trigger] line[i]) by {
            if i > 0 {
                assert(rest[i - 1] == line[i]);
            }
        }
        if leading_white(line) < line.len() {
            assert(rest[leading_white(rest) as int] == line[leading_white(line) as int]);
        }
    }
}

/// Whatever is asked for, the highlight can be drawn: it lies inside the row's text, does not run
/// backwards, and starts and ends between characters.
pub proof fn law_highlight_is_usable(line: Seq<char>, match_start: int, match_end: int)
    requires
        0 <= match_start,
        0 <= match_end,
    ensures
        ({
            let w = row_window(line, match_start, match_end);
            let text = encode_utf8(line).subrange(w.start, w.end);
            &&& 0 <= w.start <= w.end <= encode_utf8(line).len()
            &&& 0 <= w.highlight_start <= w.highlight_end <= text.len()
            &&& valid_utf8(text)
            &&& is_char_boundary(text, w.highlight_start)
            &&& is_char_boundary(text, w.highlight_end)
        }),
{
    let bytes = encode_utf8(line);
    let len = bytes.len() as int;
    let text_start = indentation(line);
    let w = row_window(line, match_start, match_end);
    lemma_row_window(line, match_start, match_end);
    lemma_floor_at(bytes, least(greatest(match_start, text_start), len));
    let shown_start = floor_at(bytes, least(greatest(match_start, text_start), len));
    lemma_floor_at(bytes, least(greatest(match_end, shown_start), len));
    let shown_end = floor_at(bytes, least(greatest(match_end, shown_start), len));
    assert(shown_start <= shown_end) by {
        if shown_end < shown_start {
            assert(is_char_boundary(bytes, shown_start));
        }
    }
    lemma_window_boundary(bytes, w.start, w.end, shown_start);
    lemma_window_boundary(bytes, w.start, w.end, shown_end);
}

/// A boundary of the line, moved into the window, is a boundary of the window's text.
proof fn lemma_window_boundary(bytes: Seq<u8>, start: int, end: int, at: int)
    requires
        valid_utf8(bytes),
        0 <= start <= end <= bytes.len(),
        0 <= at <= bytes.len(),
        is_char_boundary(bytes, start),
        is_char_boundary(bytes, end),
        is_char_boundary(bytes, at),
    ensures
        valid_utf8(bytes.subrange(start, end)),
        is_char_boundary(
            bytes.subrange(start, end),
            least(greatest(at - start, 0), end - start),
        ),
{
    let front = bytes.subrange(0, end);
    let inside = if at < start {
        start
    } else if at < end {
        at
    } else {
        end
    };
    lemma_boundary_of_front(bytes, start, end);
    lemma_boundary_of_front(bytes, inside, end);
    lemma_boundary_of_back(front, start, inside);
    assert(front.subrange(start, front.len() as int) =~= bytes.subrange(start, end));
}

/// A row never keeps more than the limit, whatever the line is written in.
pub proof fn law_row_text_is_short(line: Seq<char>, match_start: int, match_end: int)
    requires
        0 <= match_start,
        0 <= match_end,
    ensures
        ({
            let w = row_window(line, match_start, match_end);
            w.end - w.start <= MAX_ROW_TEXT_LEN
        }),
{
    lemma_row_window(line, match_start, match_end);
}

/// Indentation is always trimmed: a row's text begins no earlier than the line's first visible
/// character.
pub proof fn law_indentation_is_trimmed(line: Seq<char>, match_start: int, match_end: int)
    requires
        0 <= match_start,
        0 <= match_end,
    ensures
        row_window(line, match_start, match_end).start >= indentation(line),
        forall|i: int| 0 <= i < leading_white(line) ==> is_white(#[trigger] line[i]),
        leading_white(line) < line.len() ==> !is_white(line[leading_white(line) as int]),
{
    lemma_row_window(line, match_start, match_end);
    lemma_leading_white(line);
}

/// A match behind the indentation is shown whole and highlighted exactly, provided that it ends
/// near enough to the indentation or is itself short enough to fit behind its context.
pub proof fn law_match_is_shown(line: Seq<char>, match_start: int, match_end: int)
    requires
        indentation(line) <= match_start <= match_end <= encode_utf8(line).len(),
        is_char_boundary(encode_utf8(line), match_start),
        is_char_boundary(encode_utf8(line), match_end),
        match_end - indentation(line) <= MAX_ROW_TEXT_LEN || match_end - match_start
            <= MAX_ROW_TEXT_LEN - CONTEXT_BEFORE_MATCH - 3,
    ensures
        ({
            let w = row_window(line, match_start, match_end);
            &&& w.start + w.highlight_start == match_start
            &&& w.start + w.highlight_end == match_end
            &&& match_end <= w.end
        }),
{
    let bytes = encode_utf8(line);
    let len = bytes.len() as int;
    let text_start = indentation(line);
    let w = row_window(line, match_start, match_end);
    lemma_row_window(line, match_start, match_end);
    lemma_floor_at(bytes, match_start);
    lemma_floor_at(bytes, match_end);
    assert(floor_at(bytes, match_start) == match_start);
    assert(floor_at(bytes, match_end) == match_end);
    let context = match_start - CONTEXT_BEFORE_MATCH;
    lemma_floor_at(bytes, context);
    if context > 3 {
        let near = lemma_boundary_near(bytes, context - 3);
        assert(!(floor_at(bytes, context) < near <= context));
    }
    let full = least(w.start + MAX_ROW_TEXT_LEN, len);
    lemma_floor_at(bytes, full);
    assert(match_end <= full);
    assert(!(w.end < match_end));
}

/// A line that fits behind its indentation is drawn from its first visible character to its end.
pub proof fn law_short_line_is_shown_whole(line: Seq<char>, match_start: int, match_end: int)
    requires
        0 <= match_start,
        0 <= match_end,
        encode_utf8(line).len() - indentation(line) <= MAX_ROW_TEXT_LEN,
    ensures
        ({
            let w = row_window(line, match_start, match_end);
            &&& w.start == indentation(line)
            &&& w.end == encode_utf8(line).len()
        }),
{
    let bytes = encode_utf8(line);
    let len = bytes.len() as int;
    let text_start = indentation(line);
    lemma_row_window(line, match_start, match_end);
    lemma_floor_at(bytes, least(greatest(match_start, text_start), len));
    let shown_start = floor_at(bytes, least(greatest(match_start, text_start), len));
    lemma_floor_at(bytes, least(greatest(match_end, shown_start), len));
    vstd::utf8::is_char_boundary_start_end_of_seq(bytes);
    assert(floor_at(bytes, len) == len);
}

/// Whether `at` is the last place up to `limit` where `bytes` can be cut between characters.
pub open spec fn last_cut(bytes: Seq<u8>, at: int, limit: int) -> bool {
    &&& 0 <= at <= limit
    &&& is_char_boundary(bytes, at)
    &&& forall|k: int| at < k <= limit ==> !#[trigger] is_char_boundary(bytes, k)
}

/// A row's text is as full as it can be: it runs to the end of the line, or the next character
/// would take it past the limit, so that it falls short by less than one character.
pub proof fn law_row_text_is_full(line: Seq<char>, match_start: int, match_end: int)
    requires
        0 <= match_start,
        0 <= match_end,
    ensures
        ({
            let bytes = encode_utf8(line);
            let w = row_window(line, match_start, match_end);
            &&& w.start <= w.end <= bytes.len()
            &&& w.end == bytes.len() || forall|k: int|
                w.end < k <= w.start + MAX_ROW_TEXT_LEN ==> !#[trigger] is_char_boundary(bytes, k)
            &&& w.end == bytes.len() || w.end - w.start > MAX_ROW_TEXT_LEN - 4
        }),
{
    let bytes = encode_utf8(line);
    let w = row_window(line, match_start, match_end);
    let full = least(w.start + MAX_ROW_TEXT_LEN, bytes.len() as int);
    lemma_row_window(line, match_start, match_end);
    vstd::utf8::encode_utf8_valid_utf8(line);
    lemma_floor_at(bytes, full);
    vstd::utf8::is_char_boundary_start_end_of_seq(bytes);
    if full == w.start + MAX_ROW_TEXT_LEN && full > 3 && w.end != bytes.len() {
        let near = lemma_boundary_near(bytes, full - 3);
        assert(!(w.end < near <= full));
    }
}

/// Where a row's text begins, and what it highlights, for any match. The match is cut down to
/// whole characters behind the indentation, from `from` to `to`. Where it ends within the limit of
/// the indentation, the text begins right behind the indentation. Otherwise it begins at the last
/// cut that leaves the context before the match, but never inside the indentation. What is
/// highlighted is the match, as far as the text shows it.
pub proof fn law_row_text_begins_near_the_match(
    line: Seq<char>,
    match_start: int,
    match_end: int,
    from: int,
    to: int,
)
    requires
        0 <= match_start,
        0 <= match_end,
        last_cut(
            encode_utf8(line),
            from,
            if match_start < indentation(line) {
                indentation(line)
            } else if match_start < encode_utf8(line).len() {
                match_start
            } else {
                encode_utf8(line).len() as int
            },
        ),
        last_cut(
            encode_utf8(line),
            to,
            if match_end < from {
                from
            } else if match_end < encode_utf8(line).len() {
                match_end
            } else {
                encode_utf8(line).len() as int
            },
        ),
    ensures
        ({
            let bytes = encode_utf8(line);
            let w = row_window(line, match_start, match_end);
            &&& to - indentation(line) <= MAX_ROW_TEXT_LEN ==> w.start == indentation(line)
            &&& to - indentation(line) > MAX_ROW_TEXT_LEN ==> {
                ||| w.start == indentation(line) && forall|k: int|
                    w.start < k <= from - CONTEXT_BEFORE_MATCH
                        ==> !#[trigger] is_char_boundary(bytes, k)
                ||| w.start > indentation(line) && last_cut(
                    bytes,
                    w.start,
                    from - CONTEXT_BEFORE_MATCH,
                )
            }
            &&& w.start <= from
            &&& w.start + w.highlight_start == if from < w.end {
                from
            } else {
                w.end
            }
            &&& w.start + w.highlight_end == if to < w.end {
                to
            } else {
                w.end
            }
        }),
{
    let bytes = encode_utf8(line);
    let len = bytes.len() as int;
    let text_start = indentation(line);
    vstd::utf8::encode_utf8_valid_utf8(line);
    lemma_leading_white(line);
    lemma_boundary_after(line, leading_white(line) as int);
    lemma_row_window(line, match_start, match_end);
    let first = least(greatest(match_start, text_start), len);
    lemma_floor_at(bytes, first);
    assert(from == floor_at(bytes, first)) by {
        lemma_same_cut(bytes, from, floor_at(bytes, first), first);
    }
    let last = least(greatest(match_end, from), len);
    lemma_floor_at(bytes, last);
    assert(to == floor_at(bytes, last)) by {
        lemma_same_cut(bytes, to, floor_at(bytes, last), last);
    }
    assert(text_start <= from) by {
        assert(is_char_boundary(bytes, text_start));
    }
    assert(from <= to) by {
        assert(is_char_boundary(bytes, from));
    }
    lemma_floor_at(bytes, from - CONTEXT_BEFORE_MATCH);
}

proof fn lemma_same_cut(bytes: Seq<u8>, a: int, b: int, limit: int)
    requires
        last_cut(bytes, a, limit),
        last_cut(bytes, b, limit),
    ensures
        a == b,
{
    if a < b {
        assert(!is_char_boundary(bytes, b));
    } else if b < a {
        assert(!is_char_boundary(bytes, a));
    }
}

/// The indentation is what the leading whitespace of a line takes up, all of it.
pub proof fn law_indentation_is_leading_whitespace(line: Seq<char>, count: int)
    requires
        0 <= count <= line.len(),
        forall|i: int| 0 <= i < count ==> is_white(#[trigger] line[i]),
        count < line.len() ==> !is_white(line[count]),
    ensures
        indentation(line) == encode_utf8(line.take(count)).len(),
{
    lemma_leading_white(line);
    let white = leading_white(line) as int;
    if white < count {
        assert(is_white(line[white]));
    } else if count < white {
        assert(is_white(line[count]));
    }
}

} // verus!
