//! Text and its bytes.
//!
//! A text is a sequence of characters; its bytes are its UTF-8 encoding,
//! and offsets and spans count those bytes. This module finds the offset of
//! a character, cuts the part of a text that a span marks, reads and writes
//! integers in base ten, and compares and orders names. Names are ordered
//! as Rust orders strings, byte by byte.
use vstd::prelude::*;
use vstd::std_specs::iter::IteratorSpec;
use vstd::string::{StringExecFns, StringSliceAdditionalSpecFns};
use vstd::utf8::{decode_utf8, encode_scalar, encode_utf8, is_char_boundary};
use crate::lexer::span::Span;

verus! {

/// The number of bytes that encode a character.
pub open spec fn char_width(c: char) -> nat {
    encode_scalar(c as u32).len()
}

/// The byte offset at which the character with the given index begins: the
/// number of bytes that encode the characters before it.
pub open spec fn byte_offset(s: Seq<char>, index: int) -> nat {
    encode_utf8(s.take(index)).len()
}

/// The encoding of a text is the encoding of its parts, one after the other.
pub proof fn lemma_encode_concat(a: Seq<char>, b: Seq<char>)
    ensures
        encode_utf8(a + b) == encode_utf8(a) + encode_utf8(b),
    decreases a.len(),
{
    if a.len() == 0 {
        assert(a + b =~= b);
        assert(encode_utf8(a) + encode_utf8(b) =~= encode_utf8(b));
    } else {
        assert((a + b).drop_first() =~= a.drop_first() + b);
        lemma_encode_concat(a.drop_first(), b);
        assert(encode_utf8(a + b) =~= encode_utf8(a) + encode_utf8(b));
    }
}

/// Every character takes between one and four bytes.
pub proof fn lemma_char_width(c: char)
    ensures
        1 <= char_width(c) <= 4,
{
}

/// The offset of the next character lies one character's width further.
pub proof fn lemma_byte_offset_step(s: Seq<char>, index: int)
    requires
        0 <= index < s.len(),
    ensures
        byte_offset(s, index + 1) == byte_offset(s, index) + char_width(s[index]),
{
    assert(s.take(index + 1) =~= s.take(index) + seq![s[index]]);
    lemma_encode_concat(s.take(index), seq![s[index]]);
    assert(seq![s[index]].drop_first() =~= Seq::<char>::empty());
    assert(encode_utf8(seq![s[index]]) =~= encode_scalar(s[index] as u32)) by {
        reveal_with_fuel(encode_utf8, 2);
    }
}

/// Offsets grow with the index, and the last one is the length of the
/// encoding.
pub proof fn lemma_byte_offset_monotone(s: Seq<char>, i: int, j: int)
    requires
        0 <= i <= j <= s.len(),
    ensures
        byte_offset(s, i) <= byte_offset(s, j),
        i < j ==> byte_offset(s, i) < byte_offset(s, j),
        byte_offset(s, s.len() as int) == encode_utf8(s).len(),
        byte_offset(s, 0) == 0,
    decreases j - i,
{
    assert(s.take(s.len() as int) =~= s);
    assert(s.take(0) =~= Seq::<char>::empty());
    if i < j {
        lemma_byte_offset_monotone(s, i, j - 1);
        lemma_byte_offset_step(s, j - 1);
        lemma_char_width(s[j - 1]);
    }
}

/// Characters below `0x80` take one byte each: over a stretch of them the
/// offsets grow as the indices do.
pub proof fn lemma_byte_offset_ascii(s: Seq<char>, i: int, j: int)
    requires
        0 <= i <= j <= s.len(),
        forall|k: int| i <= k < j ==> (#[trigger] s[k] as u32) < 0x80,
    ensures
        byte_offset(s, j) == byte_offset(s, i) + (j - i),
    decreases j - i,
{
    if i < j {
        lemma_byte_offset_ascii(s, i, j - 1);
        lemma_byte_offset_step(s, j - 1);
        assert((s[j - 1] as u32) < 0x80);
    }
}

/// The number of bytes that encode a character.
pub fn width(c: char) -> (w: usize)
    ensures
        w == char_width(c),
{
    let code: u32 = c as u32;
    if code < 0x80 {
        1
    } else if code < 0x800 {
        2
    } else if code < 0x10000 {
        3
    } else {
        4
    }
}

/// The characters of a string.
pub fn characters(s: &str) -> (chars: Vec<char>)
    ensures
        chars@ == s@,
{
    broadcast use vstd::string::group_string_axioms;

    let mut chars: Vec<char> = Vec::new();
    for c in it: s.chars()
        invariant
            chars@ == it.seq().take(it.index() as int),
            it.seq() == s@,
    {
        assert(c == it.seq()[it.index() as int]);
        chars.push(c);
        assert(chars@ =~= it.seq().take(it.index() + 1));
    }
    assert(chars@ =~= s@);
    chars
}

/// Whether a span marks a part of a text: its offsets are in order, lie
/// within the encoding of the text and fall between characters.
pub open spec fn span_fits(text: Seq<char>, span: Span) -> bool {
    &&& span.0 <= span.1 <= encode_utf8(text).len()
    &&& is_char_boundary(encode_utf8(text), span.0 as int)
    &&& is_char_boundary(encode_utf8(text), span.1 as int)
}

/// The part of a text that a span marks.
pub open spec fn span_text(text: Seq<char>, span: Span) -> Seq<char> {
    decode_utf8(encode_utf8(text).subrange(span.0 as int, span.1 as int))
}

/// The part of a string that a span marks, or `None` where the span does
/// not fit the string.
pub fn slice<'a>(source: &'a str, span: Span) -> (part: Option<&'a str>)
    ensures
        part is Some == span_fits(source@, span),
        part is Some ==> part->0@ == span_text(source@, span),
{
    broadcast use vstd::utf8::encode_utf8_valid_utf8, vstd::utf8::encode_utf8_decode_utf8;

    let length = source.as_bytes().len();
    if span.0 <= span.1 && span.1 <= length && source.is_char_boundary(span.0)
        && source.is_char_boundary(span.1) {
        let (head, _) = source.split_at(span.1);
        proof {
            let bytes = source.spec_bytes();
            let front = head.spec_bytes();
            assert(front =~= bytes.subrange(0, span.1 as int));
            if span.0 == front.len() {
                vstd::utf8::is_char_boundary_start_end_of_seq(front);
            } else {
                vstd::utf8::is_char_boundary_iff_not_is_continuation_byte(bytes, span.0 as int);
                vstd::utf8::is_char_boundary_iff_not_is_continuation_byte(front, span.0 as int);
            }
        }
        let (_, part) = head.split_at(span.0);
        proof {
            assert(part.spec_bytes() =~= source.spec_bytes().subrange(
                span.0 as int,
                span.1 as int,
            ));
        }
        Some(part)
    } else {
        None
    }
}

/// The offset of every character is a character boundary of the encoding.
pub proof fn lemma_byte_offset_is_boundary(s: Seq<char>, index: int)
    requires
        0 <= index <= s.len(),
    ensures
        is_char_boundary(encode_utf8(s), byte_offset(s, index) as int),
    decreases index,
{
    broadcast use vstd::utf8::encode_utf8_valid_utf8;

    let bytes = encode_utf8(s);
    if index == 0 {
        assert(s.take(0) =~= Seq::<char>::empty());
    } else {
        let rest = s.drop_first();
        vstd::utf8::encode_utf8_first_scalar(s);
        assert(vstd::utf8::pop_first_scalar(bytes) =~= encode_utf8(rest));
        lemma_byte_offset_is_boundary(rest, index - 1);
        assert(s.take(index) =~= seq![s[0]] + rest.take(index - 1));
        lemma_encode_concat(seq![s[0]], rest.take(index - 1));
        assert(seq![s[0]].drop_first() =~= Seq::<char>::empty());
        assert(encode_utf8(seq![s[0]]) =~= encode_scalar(s[0] as u32)) by {
            reveal_with_fuel(encode_utf8, 2);
        }
        lemma_byte_offset_monotone(s, index, s.len() as int);
        lemma_char_width(s[0]);
    }
}

/// The span between the offsets of two characters fits the text, and marks
/// the characters from the first up to the second.
pub proof fn lemma_span_text(s: Seq<char>, start: int, end: int)
    requires
        0 <= start <= end <= s.len(),
        encode_utf8(s).len() <= usize::MAX,
    ensures
        span_fits(s, Span(byte_offset(s, start) as usize, byte_offset(s, end) as usize)),
        span_text(s, Span(byte_offset(s, start) as usize, byte_offset(s, end) as usize))
            == s.subrange(start, end),
{
    lemma_byte_offset_monotone(s, start, end);
    lemma_byte_offset_monotone(s, end, s.len() as int);
    lemma_byte_offset_is_boundary(s, start);
    lemma_byte_offset_is_boundary(s, end);
    let head = s.take(start);
    let middle = s.subrange(start, end);
    let tail = s.skip(end);
    assert(s.take(end) =~= head + middle);
    assert(s =~= s.take(end) + tail);
    lemma_encode_concat(head, middle);
    lemma_encode_concat(s.take(end), tail);
    assert(encode_utf8(s).subrange(byte_offset(s, start) as int, byte_offset(s, end) as int)
        =~= encode_utf8(middle));
    vstd::utf8::encode_utf8_decode_utf8(middle);
}

/// Whether a character is a digit from `0` to `9`.
pub open spec fn is_digit(c: char) -> bool {
    '0' <= c && c <= '9'
}

/// The number that a sequence of digits writes in base ten.
pub open spec fn digits_value(digits: Seq<char>) -> int
    decreases digits.len(),
{
    if digits.len() == 0 {
        0
    } else {
        digits_value(digits.drop_last()) * 10 + (digits.last() as int - '0' as int)
    }
}

/// The digits of a numeral: what follows its sign, if it has one.
pub open spec fn numeral_digits(text: Seq<char>) -> Seq<char> {
    if text.len() > 0 && (text[0] == '-' || text[0] == '+') {
        text.drop_first()
    } else {
        text
    }
}

/// The number that a numeral writes: an optional sign, `+` or `-`, and the
/// digits after it.
pub open spec fn numeral_value(text: Seq<char>) -> int {
    if text.len() > 0 && text[0] == '-' {
        -digits_value(numeral_digits(text))
    } else {
        digits_value(numeral_digits(text))
    }
}

/// The 32-bit integer that a text writes: it is a numeral with at least one
/// digit and nothing but digits after the sign, and its number fits. Any
/// other text writes none.
pub open spec fn integer_value(text: Seq<char>) -> Option<i32> {
    let digits = numeral_digits(text);
    if digits.len() > 0 && (forall|i: int| 0 <= i < digits.len() ==> is_digit(#[trigger] digits[i]))
        && i32::MIN <= numeral_value(text) <= i32::MAX {
        Some(numeral_value(text) as i32)
    } else {
        None
    }
}

/// More digits never write a smaller number.
pub proof fn lemma_digits_value_grows(digits: Seq<char>, n: int)
    requires
        0 <= n <= digits.len(),
        forall|i: int| 0 <= i < digits.len() ==> is_digit(#[trigger] digits[i]),
    ensures
        0 <= digits_value(digits.take(n)) <= digits_value(digits),
    decreases digits.len() - n,
{
    if n == digits.len() {
        assert(digits.take(n) =~= digits);
        lemma_digits_value_nonnegative(digits);
    } else {
        lemma_digits_value_grows(digits, n + 1);
        assert(digits.take(n + 1).drop_last() =~= digits.take(n));
        assert(is_digit(digits[n]));
        assert(digits.take(n + 1).last() == digits[n]);
        lemma_digits_value_nonnegative(digits.take(n));
    }
}

/// Digits write no negative number.
pub proof fn lemma_digits_value_nonnegative(digits: Seq<char>)
    requires
        forall|i: int| 0 <= i < digits.len() ==> is_digit(#[trigger] digits[i]),
    ensures
        0 <= digits_value(digits),
    decreases digits.len(),
{
    if digits.len() > 0 {
        assert forall|i: int| 0 <= i < digits.drop_last().len() implies is_digit(
            #[trigger] digits.drop_last()[i],
        ) by {
            assert(digits.drop_last()[i] == digits[i]);
        }
        lemma_digits_value_nonnegative(digits.drop_last());
        assert(is_digit(digits.last()));
    }
}

/// Reads a 32-bit integer from a text.
pub fn parse_integer(text: &str) -> (value: Option<i32>)
    ensures
        value == integer_value(text@),
{
    let chars = characters(text);
    let negative = chars.len() > 0 && chars[0] == '-';
    let first: usize = if chars.len() > 0 && (chars[0] == '-' || chars[0] == '+') {
        1
    } else {
        0
    };
    let ghost digits = numeral_digits(text@);
    proof {
        assert(digits =~= chars@.skip(first as int));
    }
    if first == chars.len() {
        return None;
    }
    let limit: i64 = 2147483648;
    let mut total: i64 = 0;
    let mut i: usize = first;
    while i < chars.len()
        invariant
            first <= i <= chars.len(),
            digits == chars@.skip(first as int),
            digits == numeral_digits(text@),
            chars@ == text@,
            limit == 2147483648,
            0 <= total <= limit,
            total == digits_value(digits.take(i - first)),
            forall|k: int| 0 <= k < i - first ==> is_digit(#[trigger] digits[k]),
        decreases chars.len() - i,
    {
        let c = chars[i];
        assert(digits[i - first] == c);
        if !('0' <= c && c <= '9') {
            return None;
        }
        let digit: i64 = (c as u32 - '0' as u32) as i64;
        proof {
            assert(digits.take(i - first + 1).drop_last() =~= digits.take(i - first));
            assert(digits.take(i - first + 1).last() == c);
        }
        total = total * 10 + digit;
        assert(total == digits_value(digits.take(i - first + 1)));
        if total > limit {
            proof {
                if forall|k: int| 0 <= k < digits.len() ==> is_digit(#[trigger] digits[k]) {
                    lemma_digits_value_grows(digits, i - first + 1);
                }
            }
            return None;
        }
        i += 1;
    }
    proof {
        assert(digits.take(i - first) =~= digits);
    }
    if negative {
        Some((-total) as i32)
    } else if total == limit {
        None
    } else {
        Some(total as i32)
    }
}

/// The digit that writes a number below ten.
pub open spec fn digit_char(digit: int) -> char {
    if digit == 0 {
        '0'
    } else if digit == 1 {
        '1'
    } else if digit == 2 {
        '2'
    } else if digit == 3 {
        '3'
    } else if digit == 4 {
        '4'
    } else if digit == 5 {
        '5'
    } else if digit == 6 {
        '6'
    } else if digit == 7 {
        '7'
    } else if digit == 8 {
        '8'
    } else {
        '9'
    }
}

/// A natural number written in base ten, without leading zeros.
pub open spec fn decimal(n: nat) -> Seq<char>
    decreases n,
{
    if n < 10 {
        seq![digit_char(n as int)]
    } else {
        decimal(n / 10).push(digit_char((n % 10) as int))
    }
}

/// An integer written in base ten, with `-` before a negative one.
pub open spec fn integer_text(n: int) -> Seq<char> {
    if n < 0 {
        seq!['-'] + decimal((-n) as nat)
    } else {
        decimal(n as nat)
    }
}

/// What is written is read back: the decimal writing of a natural number
/// is made of digits, and they write that number.
pub proof fn lemma_decimal_round_trip(n: nat)
    ensures
        decimal(n).len() > 0,
        forall|i: int| 0 <= i < decimal(n).len() ==> is_digit(#[trigger] decimal(n)[i]),
        digits_value(decimal(n)) == n,
        n <= i32::MAX ==> integer_value(decimal(n)) == Some(n as i32),
    decreases n,
{
    let text = decimal(n);
    if n < 10 {
        assert(text.drop_last() =~= Seq::<char>::empty());
        assert(digits_value(text.drop_last()) == 0);
        assert(text.last() == digit_char(n as int));
    } else {
        lemma_decimal_round_trip(n / 10);
        let front = decimal(n / 10);
        assert(text.drop_last() =~= front);
        assert(text.last() == digit_char((n % 10) as int));
        assert forall|i: int| 0 <= i < text.len() implies is_digit(#[trigger] text[i]) by {
            if i < front.len() {
                assert(text[i] == front[i]);
            }
        }
    }
    assert(is_digit(text[0]));
    assert(numeral_digits(text) == text);
    assert(numeral_value(text) == n);
}

/// The digit that writes a number below ten, as a string.
fn digit_text(digit: u64) -> (text: &'static str)
    requires
        digit < 10,
    ensures
        text@ == seq![digit_char(digit as int)],
{
    proof {
        reveal_strlit("0");
        reveal_strlit("1");
        reveal_strlit("2");
        reveal_strlit("3");
        reveal_strlit("4");
        reveal_strlit("5");
        reveal_strlit("6");
        reveal_strlit("7");
        reveal_strlit("8");
        reveal_strlit("9");
    }
    let text = if digit == 0 {
        "0"
    } else if digit == 1 {
        "1"
    } else if digit == 2 {
        "2"
    } else if digit == 3 {
        "3"
    } else if digit == 4 {
        "4"
    } else if digit == 5 {
        "5"
    } else if digit == 6 {
        "6"
    } else if digit == 7 {
        "7"
    } else if digit == 8 {
        "8"
    } else {
        "9"
    };
    assert(text@ =~= seq![digit_char(digit as int)]);
    text
}

/// Writes a natural number in base ten.
pub fn render_decimal(n: u64) -> (text: String)
    ensures
        text@ == decimal(n as nat),
    decreases n,
{
    if n < 10 {
        String::from_str(digit_text(n))
    } else {
        let mut text = render_decimal(n / 10);
        text.append(digit_text(n % 10));
        assert(text@ =~= decimal(n as nat));
        text
    }
}

/// Writes an integer in base ten.
pub fn render_integer(n: i32) -> (text: String)
    ensures
        text@ == integer_text(n as int),
{
    if n < 0 {
        proof {
            reveal_strlit("-");
        }
        let mut text = String::from_str("-");
        let magnitude: u64 = (-(n as i64)) as u64;
        text.append(render_decimal(magnitude).as_str());
        assert(text@ =~= integer_text(n as int));
        text
    } else {
        render_decimal(n as u64)
    }
}

/// Strict lexicographic order on byte sequences: a proper prefix comes
/// first, otherwise the first differing byte decides.
pub open spec fn bytes_precede(a: Seq<u8>, b: Seq<u8>) -> bool
    decreases a.len(),
{
    if b.len() == 0 {
        false
    } else if a.len() == 0 {
        true
    } else if a[0] != b[0] {
        a[0] < b[0]
    } else {
        bytes_precede(a.drop_first(), b.drop_first())
    }
}

/// Strict order on names: the order of their UTF-8 encodings.
pub open spec fn name_precedes(a: Seq<char>, b: Seq<char>) -> bool {
    bytes_precede(encode_utf8(a), encode_utf8(b))
}

/// No byte sequence precedes itself.
pub proof fn lemma_bytes_precede_irreflexive(a: Seq<u8>)
    ensures
        !bytes_precede(a, a),
    decreases a.len(),
{
    if a.len() > 0 {
        lemma_bytes_precede_irreflexive(a.drop_first());
    }
}

/// The order is transitive.
pub proof fn lemma_bytes_precede_transitive(a: Seq<u8>, b: Seq<u8>, c: Seq<u8>)
    requires
        bytes_precede(a, b),
        bytes_precede(b, c),
    ensures
        bytes_precede(a, c),
    decreases a.len(),
{
    if a.len() > 0 && b.len() > 0 && c.len() > 0 && a[0] == b[0] && b[0] == c[0] {
        lemma_bytes_precede_transitive(a.drop_first(), b.drop_first(), c.drop_first());
    }
}

/// Of two different byte sequences one precedes the other.
pub proof fn lemma_bytes_precede_total(a: Seq<u8>, b: Seq<u8>)
    ensures
        a == b || bytes_precede(a, b) || bytes_precede(b, a),
    decreases a.len(),
{
    if a.len() == 0 || b.len() == 0 {
        if a.len() == 0 && b.len() == 0 {
            assert(a =~= b);
        }
    } else if a[0] == b[0] {
        lemma_bytes_precede_total(a.drop_first(), b.drop_first());
        if a.drop_first() == b.drop_first() {
            assert(a =~= seq![a[0]] + a.drop_first());
            assert(b =~= seq![b[0]] + b.drop_first());
        }
    }
}

/// Dropping a common prefix does not change the order.
pub proof fn lemma_bytes_precede_skip(a: Seq<u8>, b: Seq<u8>, n: int)
    requires
        0 <= n <= a.len(),
        n <= b.len(),
        a.take(n) == b.take(n),
    ensures
        bytes_precede(a, b) == bytes_precede(a.skip(n), b.skip(n)),
    decreases n,
{
    if n == 0 {
        assert(a.skip(0) =~= a);
        assert(b.skip(0) =~= b);
    } else {
        assert(a[0] == a.take(n)[0]);
        assert(b[0] == b.take(n)[0]);
        assert(a.drop_first().take(n - 1) =~= a.take(n).drop_first());
        assert(b.drop_first().take(n - 1) =~= b.take(n).drop_first());
        lemma_bytes_precede_skip(a.drop_first(), b.drop_first(), n - 1);
        assert(a.drop_first().skip(n - 1) =~= a.skip(n));
        assert(b.drop_first().skip(n - 1) =~= b.skip(n));
    }
}

/// Names with the same encoding are the same name.
pub proof fn lemma_encoding_injective(a: Seq<char>, b: Seq<char>)
    requires
        encode_utf8(a) == encode_utf8(b),
    ensures
        a == b,
{
    vstd::utf8::encode_utf8_decode_utf8(a);
    vstd::utf8::encode_utf8_decode_utf8(b);
}

/// Of two different names one precedes the other, and never both.
pub proof fn lemma_name_order(a: Seq<char>, b: Seq<char>)
    ensures
        a == b || name_precedes(a, b) || name_precedes(b, a),
        !(name_precedes(a, b) && name_precedes(b, a)),
        !name_precedes(a, a),
{
    let x = encode_utf8(a);
    let y = encode_utf8(b);
    lemma_bytes_precede_total(x, y);
    if x == y {
        lemma_encoding_injective(a, b);
    }
    lemma_bytes_precede_irreflexive(x);
    if bytes_precede(x, y) && bytes_precede(y, x) {
        lemma_bytes_precede_transitive(x, y, x);
    }
}

/// Whether two strings hold the same text.
pub fn same_text(a: &str, b: &str) -> (same: bool)
    ensures
        same == (a@ == b@),
{
    let x = a.as_bytes();
    let y = b.as_bytes();
    if x.len() != y.len() {
        return false;
    }
    let mut i: usize = 0;
    while i < x.len()
        invariant
            x.len() == y.len(),
            i <= x.len(),
            x@ == a.spec_bytes(),
            y@ == b.spec_bytes(),
            forall|j: int| 0 <= j < i ==> x@[j] == y@[j],
        decreases x.len() - i,
    {
        if x[i] != y[i] {
            return false;
        }
        i += 1;
    }
    proof {
        assert(x@ =~= y@);
        lemma_encoding_injective(a@, b@);
    }
    true
}

/// Whether the first string comes strictly before the second.
pub fn precedes(a: &str, b: &str) -> (before: bool)
    ensures
        before == name_precedes(a@, b@),
{
    let x = a.as_bytes();
    let y = b.as_bytes();
    let mut i: usize = 0;
    while i < x.len() && i < y.len()
        invariant
            i <= x.len(),
            i <= y.len(),
            x@ == a.spec_bytes(),
            y@ == b.spec_bytes(),
            x@.take(i as int) == y@.take(i as int),
        decreases x.len() - i,
    {
        proof {
            lemma_bytes_precede_skip(x@, y@, i as int);
        }
        if x[i] != y[i] {
            return x[i] < y[i];
        }
        assert(x@.take(i + 1) =~= x@.take(i as int).push(x@[i as int]));
        assert(y@.take(i + 1) =~= y@.take(i as int).push(y@[i as int]));
        i += 1;
    }
    proof {
        lemma_bytes_precede_skip(x@, y@, i as int);
    }
    i < y.len()
}

} // verus!
