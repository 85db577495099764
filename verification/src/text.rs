//! Source text as bytes: newlines, comparisons and searches.
use vstd::prelude::*;
use vstd::string::StringSliceAdditionalSpecFns;
use vstd::utf8::{encode_utf8, encode_utf8_decode_utf8};

verus! {

/// The line feed byte.
pub const NEWLINE: u8 = 10;

/// The number of line feeds at the offsets from `from` up to and including
/// `to`. There are none behind the last byte.
pub open spec fn newline_count(bytes: Seq<u8>, from: int, to: int) -> nat
    decreases to - from + 1,
{
    if from > to {
        0
    } else {
        newline_count(bytes, from, to - 1) + if to < bytes.len() && bytes[to] == NEWLINE {
            1nat
        } else {
            0nat
        }
    }
}

/// True where a line feed stands at an offset from `from` up to, not including,
/// `to`.
pub open spec fn contains_newline(bytes: Seq<u8>, from: int, to: int) -> bool {
    exists|i: int| from <= i < to && #[trigger] bytes[i] == NEWLINE
}

/// There is a newline from one offset up to and including another exactly where
/// the number of newlines there is not zero.
pub proof fn newline_count_is_zero_without_newlines(bytes: Seq<u8>, from: int, to: int)
    requires
        to < bytes.len(),
    ensures
        contains_newline(bytes, from, to + 1) <==> newline_count(bytes, from, to) > 0,
    decreases to - from + 1,
{
    if from <= to {
        newline_count_is_zero_without_newlines(bytes, from, to - 1);
        if contains_newline(bytes, from, to + 1) && bytes[to] != NEWLINE {
            let i = choose|i: int| from <= i < to + 1 && #[trigger] bytes[i] == NEWLINE;
            assert(i < to);
        }
        if contains_newline(bytes, from, to) {
            let i = choose|i: int| from <= i < to && #[trigger] bytes[i] == NEWLINE;
            assert(from <= i < to + 1 && bytes[i] == NEWLINE);
        }
    }
}

/// The newlines up to and including an offset and those behind it add up.
pub proof fn newline_count_adds_up(bytes: Seq<u8>, from: int, middle: int, to: int)
    requires
        from <= middle + 1,
        middle <= to,
    ensures
        newline_count(bytes, from, to) == newline_count(bytes, from, middle) + newline_count(
            bytes,
            middle + 1,
            to,
        ),
    decreases to - middle,
{
    if middle < to {
        newline_count_adds_up(bytes, from, middle, to - 1);
    }
}

/// A single offset counts where a newline stands there, and not otherwise.
pub proof fn newline_count_of_one_offset(bytes: Seq<u8>, at: int)
    requires
        0 <= at < bytes.len(),
    ensures
        newline_count(bytes, at, at) == if bytes[at] == 10 {
            1nat
        } else {
            0nat
        },
{
    reveal_with_fuel(newline_count, 2);
}

/// A longer range does not hold fewer newlines.
pub proof fn newline_count_grows(bytes: Seq<u8>, from: int, to: int, further: int)
    requires
        to <= further,
    ensures
        newline_count(bytes, from, to) <= newline_count(bytes, from, further),
    decreases further - to,
{
    if to < further {
        newline_count_grows(bytes, from, to, further - 1);
    }
}

/// Counts the newlines in the source at the offsets from `from` up to and
/// including `to`.
pub fn count_newlines(source: &str, from: usize, to: usize) -> (count: usize)
    requires
        from <= to <= source.spec_bytes().len(),
    ensures
        count == newline_count(source.spec_bytes(), from as int, to as int),
{
    let bytes = source.as_bytes();
    let end: usize = if to < bytes.len() {
        to + 1
    } else {
        to
    };
    let mut count: usize = 0;
    let mut byte_index: usize = from;
    while byte_index < end
        invariant
            from <= byte_index <= end <= bytes@.len(),
            bytes@ == source.spec_bytes(),
            count == newline_count(bytes@, from as int, byte_index - 1),
            count <= byte_index - from,
        decreases end - byte_index,
    {
        if bytes[byte_index] == NEWLINE {
            count = count + 1;
        }
        byte_index = byte_index + 1;
    }
    count
}

/// Tells whether the source has a newline at an offset from `from` up to, not
/// including, `to`.
pub fn has_newline(source: &str, from: usize, to: usize) -> (found: bool)
    requires
        from <= to <= source.spec_bytes().len(),
    ensures
        found == contains_newline(source.spec_bytes(), from as int, to as int),
{
    let bytes = source.as_bytes();
    let mut current_index: usize = from;
    while current_index < to
        invariant
            from <= current_index <= to <= bytes@.len(),
            bytes@ == source.spec_bytes(),
            forall|i: int| from <= i < current_index ==> #[trigger] bytes@[i] != NEWLINE,
        decreases to - current_index,
    {
        if bytes[current_index] == NEWLINE {
            return true;
        }
        current_index = current_index + 1;
    }
    false
}

/// Tells whether the bytes from `start` on begin with `pattern`.
pub fn has_bytes_at(bytes: &[u8], start: usize, pattern: &[u8]) -> (found: bool)
    requires
        start <= bytes@.len(),
    ensures
        found == (start + pattern@.len() <= bytes@.len() && bytes@.subrange(
            start as int,
            start + pattern@.len(),
        ) == pattern@),
{
    let length: usize = bytes.len();
    if length - start < pattern.len() {
        return false;
    }
    let mut index: usize = 0;
    while index < pattern.len()
        invariant
            index <= pattern@.len(),
            start + pattern@.len() <= length == bytes@.len(),
            forall|i: int| 0 <= i < index ==> bytes@[start + i] == #[trigger] pattern@[i],
        decreases pattern@.len() - index,
    {
        if bytes[start + index] != pattern[index] {
            assert(bytes@.subrange(start as int, start + pattern@.len())[index as int]
                != pattern@[index as int]);
            return false;
        }
        index = index + 1;
    }
    assert(bytes@.subrange(start as int, start + pattern@.len()) =~= pattern@);
    true
}

/// Tells whether the bytes from `start` up to, not including, `end` are
/// exactly `expected`.
pub fn range_is(bytes: &[u8], start: usize, end: usize, expected: &[u8]) -> (same: bool)
    requires
        start <= end <= bytes@.len(),
    ensures
        same == (bytes@.subrange(start as int, end as int) == expected@),
{
    if end - start != expected.len() {
        return false;
    }
    has_bytes_at(bytes, start, expected)
}

/// Tells whether the bytes from `start` up to, not including, `end` begin with
/// `prefix`.
pub fn range_starts_with(bytes: &[u8], start: usize, end: usize, prefix: &[u8]) -> (found: bool)
    requires
        start <= end <= bytes@.len(),
    ensures
        found == prefix@.is_prefix_of(bytes@.subrange(start as int, end as int)),
{
    if end - start < prefix.len() {
        return false;
    }
    assert(bytes@.subrange(start as int, end as int).subrange(0, prefix@.len() as int)
        =~= bytes@.subrange(start as int, start + prefix@.len()));
    has_bytes_at(bytes, start, prefix)
}

/// Tells whether two ranges of bytes are the same.
pub fn same_range(
    bytes: &[u8],
    first_start: usize,
    first_end: usize,
    second_start: usize,
    second_end: usize,
) -> (same: bool)
    requires
        first_start <= first_end <= bytes@.len(),
        second_start <= second_end <= bytes@.len(),
    ensures
        same == (bytes@.subrange(first_start as int, first_end as int) == bytes@.subrange(
            second_start as int,
            second_end as int,
        )),
{
    let length: usize = first_end - first_start;
    let ghost first = bytes@.subrange(first_start as int, first_end as int);
    let ghost second = bytes@.subrange(second_start as int, second_end as int);
    if second_end - second_start != length {
        assert(first.len() != second.len());
        return false;
    }
    let mut index: usize = 0;
    while index < length
        invariant
            index <= length,
            first_start + length == first_end <= bytes@.len(),
            second_start + length == second_end <= bytes@.len(),
            first == bytes@.subrange(first_start as int, first_end as int),
            second == bytes@.subrange(second_start as int, second_end as int),
            forall|i: int| 0 <= i < index ==> first[i] == second[i],
        decreases length - index,
    {
        if bytes[first_start + index] != bytes[second_start + index] {
            assert(first[index as int] != second[index as int]);
            return false;
        }
        index = index + 1;
    }
    assert(first =~= second);
    true
}

/// Two texts are the same exactly where their bytes are.
pub proof fn lemma_same_bytes(left: Seq<char>, right: Seq<char>)
    ensures
        encode_utf8(left) == encode_utf8(right) <==> left == right,
{
    encode_utf8_decode_utf8(left);
    encode_utf8_decode_utf8(right);
}

/// Tells whether two texts are the same.
pub fn same_text(left: &str, right: &str) -> (same: bool)
    ensures
        same == (left@ == right@),
{
    proof {
        lemma_same_bytes(left@, right@);
    }
    let bytes = left.as_bytes();
    let same = range_is(bytes, 0, bytes.len(), right.as_bytes());
    assert(bytes@.subrange(0, bytes@.len() as int) =~= bytes@);
    same
}

} // verus!
