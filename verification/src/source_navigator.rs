//! Finding lines and columns in a source, for diagnostics.
//!
//! Offsets count bytes. A line begins at the start of the source and after
//! every line feed.
use vstd::prelude::*;
use vstd::string::{StringExecFns, StringSliceAdditionalSpecFns, StrSliceExecFns};
use vstd::utf8::{encode_utf8, is_char_boundary, valid_utf8};
use crate::lexer::span::Span;
use crate::text::{decimal, render_decimal, slice, span_fits, span_text};

verus! {

/// Whether `char::is_whitespace` holds of a character.
pub uninterp spec fn whitespace(c: char) -> bool;

/// Whether a character is white space: below `0x80` the space and the
/// characters from the tab to the carriage return (`\t`, `\n`, `\x0B`,
/// `\x0C`, `\r`), and from there on what `char::is_whitespace` holds of.
pub open spec fn is_space(c: char) -> bool {
    if (c as u32) < 0x80 {
        c == ' ' || ('\t' <= c && c <= '\r')
    } else {
        whitespace(c)
    }
}

/// How many characters of white space a text begins with.
pub open spec fn leading_whitespace(text: Seq<char>) -> nat
    decreases text.len(),
{
    if text.len() > 0 && is_space(text.first()) {
        1 + leading_whitespace(text.drop_first())
    } else {
        0
    }
}

/// How many characters of white space a text ends with.
pub open spec fn trailing_whitespace(text: Seq<char>) -> nat
    decreases text.len(),
{
    if text.len() > 0 && is_space(text.last()) {
        1 + trailing_whitespace(text.drop_last())
    } else {
        0
    }
}

/// A text without the white space at its start and at its end.
pub open spec fn trimmed(text: Seq<char>) -> Seq<char> {
    if leading_whitespace(text) >= text.len() {
        Seq::empty()
    } else {
        text.subrange(leading_whitespace(text) as int, text.len() - trailing_whitespace(text))
    }
}

/// Calls `str::trim`, which returns the string without the white space at
/// its start and at its end, white space being what `char::is_whitespace`
/// holds of: what is left neither begins nor ends with white space. The
/// contract also says which characters below `0x80` are white space: the
/// space, `\t`, `\n`, `\x0B`, `\x0C` and `\r`.
#[verifier::external_body]
fn trim<'a>(line: &'a str) -> (rest: &'a str)
    ensures
        rest@ == trimmed(line@),
        rest@.len() > 0 ==> !whitespace(rest@.first()) && !whitespace(rest@.last()),
{
    line.trim()
}

/// The offsets at which the lines of a text begin: zero, and the offset
/// after each line feed.
pub open spec fn line_starts(bytes: Seq<u8>) -> Seq<int>
    decreases bytes.len(),
{
    if bytes.len() == 0 {
        seq![0int]
    } else if bytes.last() == 10 {
        line_starts(bytes.drop_last()).push(bytes.len() as int)
    } else {
        line_starts(bytes.drop_last())
    }
}

/// The first line begins at zero, each of the others after a line feed,
/// and every line begins after the one before it.
pub proof fn lemma_line_starts(bytes: Seq<u8>)
    ensures
        line_starts(bytes).len() > 0,
        line_starts(bytes)[0] == 0,
        forall|i: int|
            0 < i < line_starts(bytes).len() ==> 0 < (#[trigger] line_starts(bytes)[i])
                <= bytes.len() && bytes[line_starts(bytes)[i] - 1] == 10,
        forall|i: int, j: int|
            0 <= i < j < line_starts(bytes).len() ==> (#[trigger] line_starts(bytes)[i]) < (
            #[trigger] line_starts(bytes)[j]),
    decreases bytes.len(),
{
    if bytes.len() > 0 {
        let front = bytes.drop_last();
        lemma_line_starts(front);
        let before = line_starts(front);
        let all = line_starts(bytes);
        assert forall|i: int| 0 < i < before.len() implies bytes[#[trigger] before[i] - 1]
            == 10 by {
            assert(front[before[i] - 1] == bytes[before[i] - 1]);
        }
        if bytes.last() == 10 {
            assert forall|i: int| 0 <= i < all.len() - 1 implies #[trigger] all[i] == before[i] by {}
        }
    }
}

/// A line and a column, both counted from zero.
#[derive(Copy, Clone, Debug)]
pub struct FilePos2d {
    pub row: usize,
    pub col: usize,
}

/// The span of a line: from its start to the line feed that ends it, or to
/// the end of the text where it is the last line.
pub open spec fn line_span(bytes: Seq<u8>, row: int) -> Span {
    let starts = line_starts(bytes);
    Span(
        starts[row] as usize,
        if row + 1 < starts.len() {
            (starts[row + 1] - 1) as usize
        } else {
            bytes.len() as usize
        },
    )
}

/// A character boundary lies after every byte that is a character by
/// itself.
proof fn lemma_boundary_after_ascii(bytes: Seq<u8>, index: int)
    requires
        valid_utf8(bytes),
        0 <= index < bytes.len(),
        is_char_boundary(bytes, index),
        bytes[index] < 0x80,
    ensures
        is_char_boundary(bytes, index + 1),
    decreases bytes.len(),
{
    reveal_with_fuel(is_char_boundary, 2);
    reveal_with_fuel(valid_utf8, 2);
    if index > 0 {
        let rest = vstd::utf8::pop_first_scalar(bytes);
        let length = vstd::utf8::length_of_first_scalar(bytes);
        assert(rest[index - length] == bytes[index]);
        lemma_boundary_after_ascii(rest, index - length);
    }
}

/// The span of a line fits the text.
pub proof fn lemma_line_span_fits(text: Seq<char>, row: int)
    requires
        0 <= row < line_starts(encode_utf8(text)).len(),
        encode_utf8(text).len() <= usize::MAX,
    ensures
        span_fits(text, line_span(encode_utf8(text), row)),
        line_span(encode_utf8(text), row).0 == line_starts(encode_utf8(text))[row],
{
    broadcast use vstd::utf8::encode_utf8_valid_utf8;

    let bytes = encode_utf8(text);
    let starts = line_starts(bytes);
    lemma_line_starts(bytes);
    vstd::utf8::is_char_boundary_start_end_of_seq(bytes);
    let start = starts[row];
    if row > 0 {
        assert(bytes[start - 1] == 10);
        vstd::utf8::is_char_boundary_iff_not_is_continuation_byte(bytes, start - 1);
        lemma_boundary_after_ascii(bytes, start - 1);
    }
    if row + 1 < starts.len() {
        let end = starts[row + 1] - 1;
        assert(bytes[end] == 10);
        vstd::utf8::is_char_boundary_iff_not_is_continuation_byte(bytes, end);
        assert(starts[row] < starts[row + 1]);
    }
}

/// The line that holds an offset: the last one that begins at or before
/// the offset.
pub open spec fn row_of(starts: Seq<int>, offset: int) -> int
    decreases starts.len(),
{
    if starts.len() <= 1 {
        0
    } else if starts.last() <= offset {
        starts.len() - 1
    } else {
        row_of(starts.drop_last(), offset)
    }
}

/// The line that holds an offset is the one that begins at or before the
/// offset and is followed by none that does.
pub proof fn lemma_row_of(starts: Seq<int>, offset: int, row: int)
    requires
        forall|i: int, j: int|
            0 <= i < j < starts.len() ==> (#[trigger] starts[i]) < (#[trigger] starts[j]),
        0 <= row < starts.len(),
        starts[row] <= offset,
        row + 1 < starts.len() ==> offset < starts[row + 1],
    ensures
        row_of(starts, offset) == row,
    decreases starts.len(),
{
    if starts.len() > 1 {
        if starts.last() <= offset {
            if row < starts.len() - 1 {
                assert(starts[row + 1] <= starts[starts.len() - 1]);
            }
        } else {
            let front = starts.drop_last();
            assert forall|i: int, j: int| 0 <= i < j < front.len() implies (#[trigger] front[i])
                < (#[trigger] front[j]) by {
                assert(front[i] == starts[i] && front[j] == starts[j]);
            }
            assert(front[row] == starts[row]);
            if row + 1 < front.len() {
                assert(front[row + 1] == starts[row + 1]);
            }
            lemma_row_of(front, offset, row);
        }
    }
}

/// A character, a number of times.
pub open spec fn repeated(c: char, count: nat) -> Seq<char> {
    Seq::new(count, |i: int| c)
}

/// The line that holds a span, and below it a line that underlines the
/// span: the line is shown after its number and a bar, without the white
/// space at its ends, and the underline stands as many columns from the
/// bar as the span from the start of the line.
pub open spec fn annotated(source: Seq<char>, span: Span) -> Seq<char> {
    let bytes = encode_utf8(source);
    let starts = line_starts(bytes);
    let row = row_of(starts, span.0 as int);
    let line = trimmed(span_text(source, line_span(bytes, row)));
    let marker = decimal((row + 1) as nat) + " | "@;
    let line_end = starts[row] + encode_utf8(line).len();
    marker + line + "\n"@ + repeated(' ', (span.0 - starts[row] + marker.len()) as nat) + repeated(
        '-',
        (span.1 - span.0) as nat,
    ) + repeated(
        ' ',
        if line_end <= span.1 {
            0
        } else {
            (line_end - span.1) as nat
        },
    )
}

/// Finds positions in a source by line and column, for code that reports
/// errors.
pub struct SourceNavigator<'a> {
    source: &'a str,
    line_heads: Vec<usize>,
}

impl<'a> SourceNavigator<'a> {
    /// The source.
    pub closed spec fn source(&self) -> Seq<char> {
        self.source@
    }

    /// The offsets at which the lines of the source begin.
    pub open spec fn lines(&self) -> Seq<int> {
        line_starts(encode_utf8(self.source()))
    }

    #[verifier::type_invariant]
    spec fn well_formed(&self) -> bool {
        &&& self.line_heads@.len() == line_starts(self.source.spec_bytes()).len()
        &&& forall|i: int|
            0 <= i < self.line_heads@.len() ==> #[trigger] self.line_heads@[i] == line_starts(
                self.source.spec_bytes(),
            )[i]
    }

    /// Finds where the lines of a source begin.
    pub fn new(source: &'a str) -> (navigator: Self)
        ensures
            navigator.source() == source@,
    {
        let bytes = source.as_bytes();
        let mut line_heads: Vec<usize> = Vec::new();
        line_heads.push(0);
        let mut i: usize = 0;
        while i < bytes.len()
            invariant
                i <= bytes.len(),
                bytes@ == source.spec_bytes(),
                line_heads@.len() == line_starts(bytes@.take(i as int)).len(),
                forall|k: int|
                    0 <= k < line_heads@.len() ==> #[trigger] line_heads@[k] == line_starts(
                        bytes@.take(i as int),
                    )[k],
            decreases bytes.len() - i,
        {
            proof {
                assert(bytes@.take(i + 1).drop_last() =~= bytes@.take(i as int));
                assert(bytes@.take(i + 1).last() == bytes@[i as int]);
            }
            if bytes[i] == 10 {
                line_heads.push(i + 1);
            }
            i += 1;
        }
        proof {
            assert(bytes@.take(i as int) =~= bytes@);
        }
        SourceNavigator { source, line_heads }
    }

    /// Gives the line and the column of an offset: the line is the last one
    /// that begins at or before the offset, the column is the distance from
    /// where that line begins.
    pub fn get_position(&self, index: usize) -> (position: FilePos2d)
        ensures
            position.row < self.lines().len(),
            self.lines()[position.row as int] <= index,
            position.row + 1 < self.lines().len() ==> index < self.lines()[position.row + 1],
            position.col == index - self.lines()[position.row as int],
            position.row == row_of(self.lines(), index as int),
    {
        proof {
            use_type_invariant(self);
            lemma_line_starts(self.source.spec_bytes());
        }
        let mut row: usize = 0;
        while row < self.line_heads.len() - 1 && self.line_heads[row + 1] <= index
            invariant
                row < self.line_heads@.len(),
                self.line_heads@[row as int] <= index,
            decreases self.line_heads.len() - row,
        {
            row += 1;
        }
        proof {
            lemma_row_of(self.lines(), index as int, row as int);
        }
        FilePos2d { row, col: index - self.line_heads[row] }
    }

    /// The text of a line, without the line feed that ends it and without
    /// the white space at its start and at its end.
    pub fn get_line(&self, line_index: usize) -> (line: &'a str)
        requires
            line_index < self.lines().len(),
        ensures
            line@ == trimmed(
                span_text(self.source(), line_span(encode_utf8(self.source()), line_index as int)),
            ),
    {
        let length = self.source.as_bytes().len();
        proof {
            use_type_invariant(self);
            lemma_line_starts(self.source.spec_bytes());
            lemma_line_span_fits(self.source@, line_index as int);
        }
        let this_line_start = self.line_heads[line_index];
        let next_line_start = if line_index < self.line_heads.len() - 1 {
            self.line_heads[line_index + 1] - 1
        } else {
            length
        };
        trim(slice(self.source, Span(this_line_start, next_line_start)).unwrap())
    }

    /// Renders the line that holds a span, with the span underlined on a
    /// second line. The span must lie within one line.
    pub fn get_annotated_span(&self, span: Span) -> (text: String)
        requires
            span.0 <= span.1,
            row_of(self.lines(), span.0 as int) == row_of(self.lines(), span.1 as int),
        ensures
            text@ == annotated(self.source(), span),
    {
        let Span(a, b) = span;
        let first = self.get_position(a);
        let second = self.get_position(b);
        proof {
            use_type_invariant(self);
            lemma_line_starts(self.source.spec_bytes());
        }
        let line_content = self.get_line(first.row);
        let line_start = self.line_heads[first.row];
        let start_to_span = a - line_start;
        let width = line_content.as_bytes().len();
        let span_to_end: usize = if line_start as u128 + width as u128 <= b as u128 {
            0
        } else {
            (line_start as u128 + width as u128 - b as u128) as usize
        };
        assert(first.row < self.line_heads.len());
        let mut line_marker = render_decimal((first.row + 1) as u64);
        line_marker.append(" | ");
        let marker_width = line_marker.as_str().unicode_len();
        let mut text = line_marker;
        text.append(line_content);
        text.append("\n");
        proof {
            reveal_strlit(" ");
            reveal_strlit("-");
        }
        let ghost before = text@;
        repeat(&mut text, " ", start_to_span);
        repeat(&mut text, " ", marker_width);
        assert(text@ =~= before + repeated(' ', (start_to_span + marker_width) as nat));
        repeat(&mut text, "-", second.col - first.col);
        repeat(&mut text, " ", span_to_end);
        text
    }
}

/// Appends a piece of one character a number of times.
fn repeat(text: &mut String, piece: &str, count: usize)
    requires
        piece@.len() == 1,
    ensures
        final(text)@ == old(text)@ + repeated(piece@[0], count as nat),
{
    let mut i: usize = 0;
    while i < count
        invariant
            i <= count,
            piece@.len() == 1,
            text@ == old(text)@ + repeated(piece@[0], i as nat),
        decreases count - i,
    {
        text.append(piece);
        i += 1;
        assert(text@ =~= old(text)@ + repeated(piece@[0], i as nat));
    }
    assert(text@ =~= old(text)@ + repeated(piece@[0], count as nat));
}

} // verus!
