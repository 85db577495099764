//! Rewrites the quotes of string literals.
use vstd::prelude::*;
use vstd::string::StringSliceAdditionalSpecFns;
use vstd::utf8::{
    encode_utf8, encode_utf8_valid_utf8, is_ascii_chars, is_ascii_chars_encode_utf8,
    is_char_boundary, is_char_boundary_iff_not_is_continuation_byte,
    is_char_boundary_start_end_of_seq,
};

use crate::text::has_bytes_at;

verus! {

/// Which quotes string literals should have.
#[derive(Clone, Copy, Debug, PartialEq, Eq, Structural)]
pub enum QuoteStyle {
    /// The quotes that they have.
    Preserve,
    Single,
    Double,
}

/// The byte of the single quote.
pub const SINGLE_QUOTE: u8 = 39;

/// The byte of the double quote.
pub const DOUBLE_QUOTE: u8 = 34;

/// The byte in front of a string name.
pub const AMPERSAND: u8 = 38;

/// The byte in front of a node path.
pub const CARET: u8 = 94;

/// The byte in front of a node path in older scripts.
pub const AT_SIGN: u8 = 64;

/// The byte in front of a raw string, an `r`.
pub const RAW: u8 = 114;

/// True of the bytes that stand in front of the first quote of some literals.
pub open spec fn is_prefix_byte(byte: u8) -> bool {
    byte == AMPERSAND || byte == CARET || byte == AT_SIGN || byte == RAW
}

/// The number of bytes in front of the first quote: one for string names, node
/// paths and raw strings.
pub open spec fn literal_prefix_length(literal: Seq<u8>) -> int {
    if literal.len() > 0 && is_prefix_byte(literal[0]) {
        1
    } else {
        0
    }
}

/// `count` times the byte `byte`.
pub open spec fn repeated(byte: u8, count: int) -> Seq<u8> {
    Seq::new(count as nat, |i: int| byte)
}

/// True where `part` stands in `whole` at offset `start`.
pub open spec fn stands_at(whole: Seq<u8>, start: int, part: Seq<u8>) -> bool {
    0 <= start && start + part.len() <= whole.len() && whole.subrange(start, start + part.len())
        == part
}

/// True where `part` stands in `whole`.
pub open spec fn contains_bytes(whole: Seq<u8>, part: Seq<u8>) -> bool {
    exists|start: int| #[trigger] stands_at(whole, start, part)
}

/// The number of quotes on each side: three for multiline strings.
pub open spec fn literal_delimiter_length(literal: Seq<u8>) -> int {
    let start = literal_prefix_length(literal);
    if stands_at(literal, start, repeated(DOUBLE_QUOTE, 3)) || stands_at(
        literal,
        start,
        repeated(SINGLE_QUOTE, 3),
    ) {
        3
    } else {
        1
    }
}

/// The text between the quotes.
pub open spec fn literal_content(literal: Seq<u8>) -> Seq<u8> {
    let delimiter_length = literal_delimiter_length(literal);
    literal.subrange(
        literal_prefix_length(literal) + delimiter_length,
        literal.len() - delimiter_length,
    )
}

/// The quote of a style, if it asks for one.
pub open spec fn preferred_quote(style: QuoteStyle) -> Option<u8> {
    match style {
        QuoteStyle::Preserve => None,
        QuoteStyle::Single => Some(SINGLE_QUOTE),
        QuoteStyle::Double => Some(DOUBLE_QUOTE),
    }
}

/// True where a literal has a byte behind its prefix, which is taken for its
/// quote, and, unless that is the preferred one already, room for delimiters on
/// both sides. Whether the byte is a quote is left to the parser.
pub open spec fn has_room_for_delimiters(literal: Seq<u8>, style: QuoteStyle) -> bool {
    let prefix_length = literal_prefix_length(literal);
    let delimiter_length = literal_delimiter_length(literal);
    preferred_quote(style) matches Some(quote) ==> {
        &&& prefix_length < literal.len()
        &&& literal[prefix_length] == quote || {
            &&& prefix_length + delimiter_length <= literal.len() - delimiter_length
            &&& is_char_boundary(literal, prefix_length + delimiter_length)
            &&& is_char_boundary(literal, literal.len() - delimiter_length)
        }
    }
}

/// True where content cannot stand between the given delimiters: it contains
/// them, or its last quote would be a part of the closing delimiter.
pub open spec fn conflicts_with(content: Seq<u8>, quote: u8, delimiter_length: int) -> bool {
    ||| contains_bytes(content, repeated(quote, delimiter_length))
    ||| content.len() > 0 && content.last() == quote
}

/// The literal with the preferred quotes. Nothing if the style asks for none,
/// if the literal has them already, or if its content cannot stand between
/// them.
pub open spec fn requoted(literal: Seq<u8>, style: QuoteStyle) -> Option<Seq<u8>> {
    let prefix_length = literal_prefix_length(literal);
    match preferred_quote(style) {
        None => None,
        Some(quote) => {
            let delimiter = repeated(quote, literal_delimiter_length(literal));
            let content = literal_content(literal);
            if literal[prefix_length] == quote || conflicts_with(
                content,
                quote,
                literal_delimiter_length(literal),
            ) {
                None
            } else {
                Some(literal.subrange(0, prefix_length) + delimiter + content + delimiter)
            }
        },
    }
}

/// A literal that got the preferred quotes keeps them.
pub proof fn requoting_is_idempotent(literal: Seq<u8>, style: QuoteStyle)
    requires
        has_room_for_delimiters(literal, style),
    ensures
        requoted(literal, style) matches Some(result) ==> requoted(result, style) is None
            && has_room_for_delimiters(result, style),
{
    if let Some(result) = requoted(literal, style) {
        let quote = preferred_quote(style)->0;
        let prefix_length = literal_prefix_length(literal);
        assert(result[prefix_length] == quote);
        if prefix_length == 1 {
            assert(result[0] == literal[0]);
        }
        assert(literal_prefix_length(result) == prefix_length);
    }
}

/// Requoting changes the delimiters of a literal and no other byte.
pub proof fn requoting_keeps_prefix_and_content(literal: Seq<u8>, style: QuoteStyle)
    requires
        has_room_for_delimiters(literal, style),
    ensures
        requoted(literal, style) matches Some(result) ==> {
            &&& result.len() == literal.len()
            &&& forall|i: int|
                0 <= i < literal_prefix_length(literal) || literal_prefix_length(literal)
                    + literal_delimiter_length(literal) <= i < literal.len()
                    - literal_delimiter_length(literal) ==> #[trigger] result[i] == literal[i]
            &&& forall|i: int|
                literal_prefix_length(literal) <= i < literal_prefix_length(literal)
                    + literal_delimiter_length(literal) || literal.len() - literal_delimiter_length(
                    literal,
                ) <= i < literal.len() ==> #[trigger] result[i] == preferred_quote(style)->0
        },
{
}

/// True where the bytes from `start` on are `length` times the byte `byte`.
pub open spec fn has_run_at(bytes: Seq<u8>, start: int, byte: u8, length: int) -> bool {
    &&& 0 <= start && start + length <= bytes.len()
    &&& forall|i: int| start <= i < start + length ==> #[trigger] bytes[i] == byte
}

/// True where `length` times the byte `byte` stand somewhere in the bytes.
pub open spec fn has_run(bytes: Seq<u8>, byte: u8, length: int) -> bool {
    exists|start: int| #[trigger] has_run_at(bytes, start, byte, length)
}

/// A repeated byte stands where there is a run of it.
proof fn lemma_run_at(bytes: Seq<u8>, start: int, byte: u8, length: int)
    requires
        0 <= length,
    ensures
        stands_at(bytes, start, repeated(byte, length)) == has_run_at(bytes, start, byte, length),
{
    if 0 <= start && start + length <= bytes.len() {
        let part = bytes.subrange(start, start + length);
        if stands_at(bytes, start, repeated(byte, length)) {
            assert forall|i: int| start <= i < start + length implies #[trigger] bytes[i]
                == byte by {
                assert(part[i - start] == bytes[i]);
            }
        }
        if has_run_at(bytes, start, byte, length) {
            assert(part =~= repeated(byte, length));
        }
    }
}

/// Bytes contain a repeated byte where they hold a run of it.
proof fn lemma_run(bytes: Seq<u8>, byte: u8, length: int)
    requires
        0 <= length,
    ensures
        contains_bytes(bytes, repeated(byte, length)) == has_run(bytes, byte, length),
{
    if contains_bytes(bytes, repeated(byte, length)) {
        let start = choose|start: int|
            #[trigger] stands_at(bytes, start, repeated(byte, length));
        lemma_run_at(bytes, start, byte, length);
    }
    if has_run(bytes, byte, length) {
        let start = choose|start: int| #[trigger] has_run_at(bytes, start, byte, length);
        lemma_run_at(bytes, start, byte, length);
    }
}

/// Requoting never lets a literal end early: between the delimiters of the
/// result, of one or of three quotes, the delimiter stands nowhere, and the last
/// byte is not the quote, which would make the literal end one byte earlier.
pub proof fn requoted_literals_do_not_end_early(literal: Seq<u8>, style: QuoteStyle)
    requires
        has_room_for_delimiters(literal, style),
    ensures
        requoted(literal, style) matches Some(result) ==> {
            let quote: u8 = if style == QuoteStyle::Single {
                39
            } else {
                34
            };
            let start: int = if literal[0] == 38u8 || literal[0] == 94u8 || literal[0] == 64u8
                || literal[0] == 114u8 {
                1
            } else {
                0
            };
            let length: int = if has_run_at(literal, start, 34, 3) || has_run_at(
                literal,
                start,
                39,
                3,
            ) {
                3
            } else {
                1
            };
            &&& style != QuoteStyle::Preserve
            &&& has_run_at(result, start, quote, length)
            &&& has_run_at(result, result.len() - length, quote, length)
            &&& forall|offset: int|
                start + length <= offset && offset + length <= result.len() - length
                    ==> !#[trigger] has_run_at(result, offset, quote, length)
            &&& start + length < result.len() - length ==> result[result.len() - length - 1]
                != quote
        },
{
    if let Some(result) = requoted(literal, style) {
        let quote = preferred_quote(style)->0;
        let start = literal_prefix_length(literal);
        let length = literal_delimiter_length(literal);
        let content = literal_content(literal);
        lemma_run_at(literal, start, 34, 3);
        lemma_run_at(literal, start, 39, 3);
        lemma_run(content, quote, length);
        assert forall|offset: int|
            start + length <= offset && offset + length <= result.len() - length
                implies !#[trigger] has_run_at(result, offset, quote, length) by {
            if has_run_at(result, offset, quote, length) {
                let inner = offset - start - length;
                assert forall|i: int| inner <= i < inner + length implies #[trigger] content[i]
                    == quote by {
                    assert(result[i + start + length] == content[i]);
                }
                assert(has_run_at(content, inner, quote, length));
            }
        }
    }
}

/// What becomes of a literal, by its parts: a prefix, or none, delimiters of one
/// or three quotes, and the content between them. With the quote that the style
/// asks for it stays as it is, and so it does where the delimiter of the other
/// quote stands in the content, or that quote at its end. All others get the
/// delimiters that the style asks for, and keep the rest.
pub proof fn requoting_by_parts(
    prefix: Seq<u8>,
    quote: u8,
    length: nat,
    content: Seq<u8>,
    style: QuoteStyle,
)
    requires
        prefix.len() == 0 || prefix == seq![38u8] || prefix == seq![94u8] || prefix == seq![64u8]
            || prefix == seq![114u8],
        quote == 34 || quote == 39,
        length == 3 || length == 1 && (content.len() > 0 ==> content[0] != quote),
    ensures
        ({
            let delimiter = Seq::new(length, |i: int| quote);
            let literal = prefix + delimiter + content + delimiter;
            let preferred: u8 = if style == QuoteStyle::Single {
                39
            } else {
                34
            };
            let other = Seq::new(length, |i: int| preferred);
            requoted(literal, style) == if style == QuoteStyle::Preserve || quote == preferred
                || has_run(content, preferred, length as int) || content.len() > 0
                && content.last() == preferred {
                None
            } else {
                Some(prefix + other + content + other)
            }
        }),
{
    let delimiter = Seq::new(length, |i: int| quote);
    let literal = prefix + delimiter + content + delimiter;
    let start = prefix.len() as int;
    assert(literal.len() > start);
    assert(literal[start] == quote);
    if start == 1 {
        assert(literal[0] == prefix[0]);
    }
    assert(literal_prefix_length(literal) == start);
    lemma_run_at(literal, start, 34, 3);
    lemma_run_at(literal, start, 39, 3);
    if length == 3 {
        assert(has_run_at(literal, start, quote, 3));
    } else if content.len() > 0 {
        assert(literal[start + 1] == content[0]);
    } else {
        assert(literal.len() == start + 2);
    }
    assert(literal_delimiter_length(literal) == length);
    assert(literal_content(literal) =~= content);
    assert(literal.subrange(0, start) =~= prefix);
    if style != QuoteStyle::Preserve {
        let preferred = preferred_quote(style)->0;
        lemma_run(content, preferred, length as int);
        let other = Seq::new(length, |i: int| preferred);
        assert(repeated(preferred, length as int) =~= other);
    }
}

/// The bytes of two texts in a row.
pub proof fn lemma_encode_concat(left: Seq<char>, right: Seq<char>)
    ensures
        encode_utf8(left + right) == encode_utf8(left) + encode_utf8(right),
    decreases left.len(),
{
    if left.len() == 0 {
        assert(left + right =~= right);
        assert(encode_utf8(left) + encode_utf8(right) =~= encode_utf8(right));
    } else {
        lemma_encode_concat(left.drop_first(), right);
        assert((left + right).drop_first() =~= left.drop_first() + right);
        assert(encode_utf8(left + right) =~= encode_utf8(left) + encode_utf8(right));
    }
}

/// The part of a text between two offsets.
pub fn slice_text(source: &str, start: usize, end: usize) -> (part: &str)
    requires
        start <= end <= source.spec_bytes().len(),
        is_char_boundary(source.spec_bytes(), start as int),
        is_char_boundary(source.spec_bytes(), end as int),
    ensures
        part.spec_bytes() == source.spec_bytes().subrange(start as int, end as int),
{
    let halves = source.split_at(end);
    let ghost bytes = source.spec_bytes();
    let ghost head = halves.0.spec_bytes();
    proof {
        encode_utf8_valid_utf8(source@);
        encode_utf8_valid_utf8(halves.0@);
        assert(head =~= bytes.subrange(0, end as int));
        if start < end {
            is_char_boundary_iff_not_is_continuation_byte(bytes, start as int);
            is_char_boundary_iff_not_is_continuation_byte(head, start as int);
        } else {
            is_char_boundary_start_end_of_seq(head);
        }
    }
    let parts = halves.0.split_at(start);
    assert(parts.1.spec_bytes() =~= bytes.subrange(start as int, end as int));
    parts.1
}

/// Tells whether `part` stands in `whole` at an offset from `start` on, and
/// ends by `end`.
fn range_contains(whole: &[u8], start: usize, end: usize, part: &[u8]) -> (found: bool)
    requires
        start <= end <= whole@.len(),
        part@.len() > 0,
    ensures
        found == contains_bytes(whole@.subrange(start as int, end as int), part@),
{
    let ghost content = whole@.subrange(start as int, end as int);
    if part.len() > end - start {
        return false;
    }
    let last: usize = end - part.len();
    let mut index: usize = start;
    while index <= last
        invariant
            start <= index <= last + 1,
            last + part@.len() == end <= whole@.len(),
            0 < part@.len(),
            content == whole@.subrange(start as int, end as int),
            forall|i: int| 0 <= i < index - start ==> !#[trigger] stands_at(content, i, part@),
        decreases last + 1 - index,
    {
        let ghost offset = index - start;
        assert(content.subrange(offset, offset + part@.len()) =~= whole@.subrange(
            index as int,
            index + part@.len(),
        ));
        if has_bytes_at(whole, index, part) {
            assert(stands_at(content, offset, part@));
            return true;
        }
        index = index + 1;
    }
    assert forall|i: int| !#[trigger] stands_at(content, i, part@) by {
        if stands_at(content, i, part@) {
            assert(i < index - start);
        }
    }
    false
}

/// The delimiter made of a number of quotes.
fn delimiter_text(quote: u8, length: usize) -> (delimiter: &'static str)
    requires
        quote == SINGLE_QUOTE || quote == DOUBLE_QUOTE,
        length == 1 || length == 3,
    ensures
        delimiter.spec_bytes() == repeated(quote, length as int),
{
    proof {
        reveal_strlit("'");
        reveal_strlit("'''");
        reveal_strlit("\"");
        reveal_strlit("\"\"\"");
    }
    let delimiter = if quote == SINGLE_QUOTE {
        if length == 1 {
            "'"
        } else {
            "'''"
        }
    } else {
        if length == 1 {
            "\""
        } else {
            "\"\"\""
        }
    };
    proof {
        assert(is_ascii_chars(delimiter@));
        is_ascii_chars_encode_utf8(delimiter@);
        assert(delimiter.spec_bytes() =~= repeated(quote, length as int));
    }
    delimiter
}

/// The number of bytes in front of the first quote.
fn prefix_length_of(bytes: &[u8]) -> (length: usize)
    ensures
        length == literal_prefix_length(bytes@),
{
    if bytes.len() > 0 && (bytes[0] == AMPERSAND || bytes[0] == CARET || bytes[0] == AT_SIGN
        || bytes[0] == RAW) {
        1
    } else {
        0
    }
}

/// The number of quotes on each side.
fn delimiter_length_of(bytes: &[u8]) -> (length: usize)
    requires
        literal_prefix_length(bytes@) <= bytes@.len(),
    ensures
        length == literal_delimiter_length(bytes@),
{
    let prefix_length: usize = prefix_length_of(bytes);
    if has_bytes_at(bytes, prefix_length, delimiter_text(DOUBLE_QUOTE, 3).as_bytes())
        || has_bytes_at(bytes, prefix_length, delimiter_text(SINGLE_QUOTE, 3).as_bytes()) {
        3
    } else {
        1
    }
}

/// Tells whether a literal has room for delimiters.
pub fn delimiters_fit(source: &str, quote_style: QuoteStyle) -> (quoted: bool)
    ensures
        quoted == has_room_for_delimiters(source.spec_bytes(), quote_style),
{
    let preferred: u8 = match quote_style {
        QuoteStyle::Single => SINGLE_QUOTE,
        QuoteStyle::Double => DOUBLE_QUOTE,
        QuoteStyle::Preserve => return true,
    };
    let bytes = source.as_bytes();
    let length: usize = bytes.len();
    let prefix_length: usize = prefix_length_of(bytes);
    if prefix_length >= length {
        return false;
    }
    if bytes[prefix_length] == preferred {
        return true;
    }
    let delimiter_length: usize = delimiter_length_of(bytes);
    length >= delimiter_length && prefix_length + delimiter_length <= length - delimiter_length
        && source.is_char_boundary(prefix_length + delimiter_length) && source.is_char_boundary(
        length - delimiter_length,
    )
}

/// Returns the string with the preferred string delimiters if the user used the
/// option to prefer a specific quote style (' or "). Returns `None` when the
/// string already uses the preferred quote style, or when the preferred quotes
/// stand in its content, or at its end, which would take rewriting escapes.
pub fn format_string_literal(source: &str, quote_style: QuoteStyle) -> (formatted: Option<String>)
    requires
        has_room_for_delimiters(source.spec_bytes(), quote_style),
    ensures
        match formatted {
            Some(text) => requoted(source.spec_bytes(), quote_style) == Some(encode_utf8(text@)),
            None => requoted(source.spec_bytes(), quote_style) is None,
        },
{
    let preferred: u8 = match quote_style {
        QuoteStyle::Single => SINGLE_QUOTE,
        QuoteStyle::Double => DOUBLE_QUOTE,
        QuoteStyle::Preserve => return None,
    };
    let bytes = source.as_bytes();
    let ghost literal = bytes@;
    let prefix_length: usize = prefix_length_of(bytes);
    if bytes[prefix_length] == preferred {
        return None;
    }
    let delimiter_length: usize = delimiter_length_of(bytes);
    let delimiter = delimiter_text(preferred, delimiter_length);
    let content_start: usize = prefix_length + delimiter_length;
    let content_end: usize = bytes.len() - delimiter_length;
    if range_contains(bytes, content_start, content_end, delimiter.as_bytes()) {
        return None;
    }
    // The last quote of the content would be a part of the closing delimiter.
    if content_start < content_end && bytes[content_end - 1] == preferred {
        return None;
    }
    proof {
        encode_utf8_valid_utf8(source@);
        is_char_boundary_start_end_of_seq(literal);
        if prefix_length == 1 {
            is_char_boundary_iff_not_is_continuation_byte(literal, 1);
            lemma_boundary_after_ascii(literal);
        }
    }
    let prefix = slice_text(source, 0, prefix_length);
    let content = slice_text(source, content_start, content_end);
    let mut output = String::new();
    output.append(prefix);
    output.append(delimiter);
    output.append(content);
    output.append(delimiter);
    proof {
        lemma_encode_concat(Seq::empty(), prefix@);
        lemma_encode_concat(prefix@, delimiter@);
        lemma_encode_concat(prefix@ + delimiter@, content@);
        lemma_encode_concat(prefix@ + delimiter@ + content@, delimiter@);
        assert(Seq::<char>::empty() + prefix@ =~= prefix@);
        assert(output@ == prefix@ + delimiter@ + content@ + delimiter@);
    }
    Some(output)
}

/// The offset behind a leading ASCII byte is a character boundary.
proof fn lemma_boundary_after_ascii(bytes: Seq<u8>)
    requires
        vstd::utf8::valid_utf8(bytes),
        bytes.len() > 0,
        bytes[0] < 128,
    ensures
        is_char_boundary(bytes, 1),
{
    reveal_with_fuel(is_char_boundary, 2);
}

} // verus!
