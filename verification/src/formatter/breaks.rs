//! Where a layout can break its lines, relative to the delimiters in it.
use vstd::prelude::*;

use crate::document::{
    balanced, balanced_line, blank_line, fixed, force_break, grouped,
    grouped_until_first_line_break, hard_and_blank_line, hard_line, if_multiline, indented, nothing,
    produced, soft_line, source_text, space, space_single_line_only, unformatted, Doc,
};
use crate::parser::ParseInput;
use crate::renderer::Element;

verus! {

/// By how much a byte changes the number of open delimiters.
pub open spec fn bracket_delta(byte: u8) -> int {
    if byte == 40 || byte == 91 || byte == 123 {
        1
    } else if byte == 41 || byte == 93 || byte == 125 {
        -1
    } else {
        0
    }
}

/// By how much a range of the source changes the number of open delimiters: a
/// token that is a single bracket does, and no other.
pub open spec fn text_delta(input: ParseInput, start: int, end: int) -> int {
    if end == start + 1 && 0 <= start < input.bytes().len() {
        bracket_delta(input.bytes()[start])
    } else {
        0
    }
}

/// By how much fixed text changes the number of open delimiters.
pub open spec fn fixed_delta(text: Seq<char>) -> int {
    if text == seq!['('] {
        1
    } else if text == seq![')'] {
        -1
    } else {
        0
    }
}

/// By how much a document changes the number of open delimiters, where all
/// groups break.
pub open spec fn doc_delta(input: ParseInput, doc: Doc) -> int
    decreases doc,
{
    match doc {
        Doc::Leaf(Element::Text { start, end }) => text_delta(input, start, end),
        Doc::Leaf(Element::Static { text }) => fixed_delta(text),
        Doc::Leaf(_) => 0,
        Doc::Indent { body, .. } => delta(input, body),
        Doc::Group { body, .. } => delta(input, body),
        Doc::Balanced { body } => delta(input, body),
        Doc::IfMultiline { body } => delta(input, body),
        Doc::IfSingleLine { .. } => 0,
    }
}

/// By how much documents change the number of open delimiters, where all groups
/// break.
pub open spec fn delta(input: ParseInput, docs: Seq<Doc>) -> int
    decreases docs,
{
    if docs.len() == 0 {
        0
    } else {
        delta(input, docs.drop_last()) + doc_delta(input, docs[docs.len() - 1])
    }
}

/// True of documents that end with a backslash where the line breaks.
pub open spec fn ends_with_backslash(docs: Seq<Doc>) -> bool {
    docs.len() > 0 && (docs[docs.len() - 1] matches Doc::IfMultiline { body } && body.len() > 0
        && body.last() == Doc::Leaf(Element::Static { text: seq!['\\'] }))
}

/// True of a document all line breaks of which stand between delimiters or
/// behind a backslash, where all groups break. `depth` delimiters are open in
/// front of it, and `is_continued` is true where a backslash is.
pub open spec fn doc_holds(input: ParseInput, doc: Doc, depth: int, is_continued: bool) -> bool
    decreases doc,
{
    match doc {
        Doc::Leaf(Element::SoftLine) => depth > 0 || is_continued,
        Doc::Leaf(Element::HardLine) => depth > 0 || is_continued,
        Doc::Leaf(Element::BlankLine) => depth > 0 || is_continued,
        Doc::Leaf(Element::BalancedLine) => depth > 0 || is_continued,
        Doc::Leaf(_) => true,
        Doc::Indent { body, .. } => holds_together(input, body, depth),
        Doc::Group { body, .. } => holds_together(input, body, depth),
        Doc::Balanced { body } => holds_together(input, body, depth),
        Doc::IfMultiline { body } => holds_together(input, body, depth),
        Doc::IfSingleLine { .. } => true,
    }
}

/// True of documents all line breaks of which stand between delimiters or behind
/// a backslash, where all groups break and `depth` delimiters are open in front
/// of them. The parser takes what they become for one statement.
pub open spec fn holds_together(input: ParseInput, docs: Seq<Doc>, depth: int) -> bool
    decreases docs,
{
    docs.len() > 0 ==> {
        &&& holds_together(input, docs.drop_last(), depth)
        &&& doc_holds(
            input,
            docs[docs.len() - 1],
            depth + delta(input, docs.drop_last()),
            ends_with_backslash(docs.drop_last()),
        )
    }
}

/// True of documents that hold together and leave no delimiter open.
pub open spec fn is_sound(input: ParseInput, docs: Seq<Doc>, depth: int) -> bool {
    delta(input, docs) == 0 && holds_together(input, docs, depth)
}

/// A single document.
pub proof fn lemma_single(input: ParseInput, doc: Doc, depth: int)
    ensures
        delta(input, seq![doc]) == doc_delta(input, doc),
        holds_together(input, seq![doc], depth) == doc_holds(input, doc, depth, false),
{
    assert(seq![doc].drop_last() =~= Seq::<Doc>::empty());
    assert(delta(input, Seq::<Doc>::empty()) == 0);
    assert(holds_together(input, Seq::<Doc>::empty(), depth));
    assert(!ends_with_backslash(Seq::<Doc>::empty()));
    assert(seq![doc][0] == doc);
}

/// The changes of documents add up.
pub broadcast proof fn lemma_delta_concat(input: ParseInput, first: Seq<Doc>, second: Seq<Doc>)
    ensures
        #[trigger] delta(input, first + second) == delta(input, first) + delta(input, second),
    decreases second.len(),
{
    let all = first + second;
    if second.len() == 0 {
        assert(all =~= first);
    } else {
        assert(all.drop_last() =~= first + second.drop_last());
        assert(all[all.len() - 1] == second[second.len() - 1]);
        lemma_delta_concat(input, first, second.drop_last());
    }
}

/// What stands behind a backslash may do what it may do anywhere.
proof fn lemma_continued(input: ParseInput, doc: Doc, depth: int)
    requires
        doc_holds(input, doc, depth, false),
    ensures
        doc_holds(input, doc, depth, true),
{
}

/// Documents hold together where two parts of them do.
pub broadcast proof fn lemma_holds_concat(
    input: ParseInput,
    first: Seq<Doc>,
    second: Seq<Doc>,
    depth: int,
)
    requires
        holds_together(input, first, depth),
        holds_together(input, second, depth + delta(input, first)),
    ensures
        #[trigger] holds_together(input, first + second, depth),
    decreases second.len(),
{
    let all = first + second;
    if second.len() == 0 {
        assert(all =~= first);
    } else {
        let rest = second.drop_last();
        let last = second[second.len() - 1];
        assert(all.drop_last() =~= first + rest);
        assert(all[all.len() - 1] == last);
        lemma_holds_concat(input, first, rest, depth);
        lemma_delta_concat(input, first, rest);
        let at = depth + delta(input, first) + delta(input, rest);
        assert(doc_holds(input, last, at, ends_with_backslash(rest)));
        if rest.len() > 0 {
            assert((first + rest)[(first + rest).len() - 1] == rest[rest.len() - 1]);
            assert(ends_with_backslash(first + rest) == ends_with_backslash(rest));
        } else if ends_with_backslash(first + rest) {
            lemma_continued(input, last, at);
        }
    }
}

/// Spaces hold together anywhere, and line breaks between delimiters.
pub broadcast proof fn lemma_break_blanks(input: ParseInput, depth: int)
    ensures
        #![trigger holds_together(input, nothing(), depth)]
        #![trigger holds_together(input, space(), depth)]
        #![trigger holds_together(input, space_single_line_only(), depth)]
        #![trigger holds_together(input, soft_line(), depth)]
        #![trigger holds_together(input, hard_line(), depth)]
        #![trigger holds_together(input, blank_line(), depth)]
        #![trigger holds_together(input, hard_and_blank_line(), depth)]
        #![trigger holds_together(input, balanced_line(), depth)]
        #![trigger holds_together(input, force_break(), depth)]
        holds_together(input, nothing(), depth),
        holds_together(input, space(), depth),
        holds_together(input, space_single_line_only(), depth),
        holds_together(input, force_break(), depth),
        depth > 0 ==> holds_together(input, soft_line(), depth),
        depth > 0 ==> holds_together(input, hard_line(), depth),
        depth > 0 ==> holds_together(input, blank_line(), depth),
        depth > 0 ==> holds_together(input, hard_and_blank_line(), depth),
        depth > 0 ==> holds_together(input, balanced_line(), depth),
{
    lemma_single(input, Doc::Leaf(Element::Space), depth);
    lemma_single(input, Doc::Leaf(Element::SpaceSingleLineOnly), depth);
    lemma_single(input, Doc::Leaf(Element::SoftLine), depth);
    lemma_single(input, Doc::Leaf(Element::HardLine), depth);
    lemma_single(input, Doc::Leaf(Element::BlankLine), depth);
    lemma_single(input, Doc::Leaf(Element::BalancedLine), depth);
    lemma_single(input, Doc::Leaf(Element::ForceBreakingParent), depth);
    if depth > 0 {
        lemma_holds_concat(input, hard_line(), blank_line(), depth);
    }
}

/// Spaces and line breaks change nothing.
pub broadcast proof fn lemma_blank_deltas(input: ParseInput)
    ensures
        #![trigger delta(input, nothing())]
        #![trigger delta(input, space())]
        #![trigger delta(input, space_single_line_only())]
        #![trigger delta(input, soft_line())]
        #![trigger delta(input, hard_line())]
        #![trigger delta(input, blank_line())]
        #![trigger delta(input, hard_and_blank_line())]
        #![trigger delta(input, balanced_line())]
        #![trigger delta(input, force_break())]
        delta(input, nothing()) == 0,
        delta(input, space()) == 0,
        delta(input, space_single_line_only()) == 0,
        delta(input, soft_line()) == 0,
        delta(input, hard_line()) == 0,
        delta(input, blank_line()) == 0,
        delta(input, hard_and_blank_line()) == 0,
        delta(input, balanced_line()) == 0,
        delta(input, force_break()) == 0,
{
    lemma_single(input, Doc::Leaf(Element::Space), 0);
    lemma_single(input, Doc::Leaf(Element::SpaceSingleLineOnly), 0);
    lemma_single(input, Doc::Leaf(Element::SoftLine), 0);
    lemma_single(input, Doc::Leaf(Element::HardLine), 0);
    lemma_single(input, Doc::Leaf(Element::BlankLine), 0);
    lemma_single(input, Doc::Leaf(Element::BalancedLine), 0);
    lemma_single(input, Doc::Leaf(Element::ForceBreakingParent), 0);
    lemma_delta_concat(input, hard_line(), blank_line());
}

/// Text holds together.
pub broadcast proof fn lemma_break_text(input: ParseInput, start: int, end: int, depth: int)
    ensures
        #[trigger] holds_together(input, source_text(start, end), depth),
        delta(input, source_text(start, end)) == text_delta(input, start, end),
{
    lemma_single(input, Doc::Leaf(Element::Text { start, end }), depth);
}

/// Text that is copied as it is holds together.
pub broadcast proof fn lemma_break_unformatted(
    input: ParseInput,
    start: int,
    end: int,
    depth: int,
)
    ensures
        #[trigger] holds_together(input, unformatted(start, end), depth),
        delta(input, unformatted(start, end)) == 0,
{
    lemma_single(input, Doc::Leaf(Element::Unformatted { start, end }), depth);
}

/// Text with other quotes holds together.
pub broadcast proof fn lemma_break_produced(input: ParseInput, bytes: Seq<u8>, depth: int)
    ensures
        #[trigger] holds_together(input, produced(bytes), depth),
        delta(input, produced(bytes)) == 0,
{
    lemma_single(input, Doc::Leaf(Element::Produced { bytes }), depth);
}

/// Fixed text holds together.
pub broadcast proof fn lemma_break_fixed(input: ParseInput, text: Seq<char>, depth: int)
    ensures
        #[trigger] holds_together(input, fixed(text), depth),
        delta(input, fixed(text)) == fixed_delta(text),
{
    lemma_single(input, Doc::Leaf(Element::Static { text }), depth);
}

/// An indent holds together where what is in it does.
pub broadcast proof fn lemma_break_indented(
    input: ParseInput,
    level: int,
    body: Seq<Doc>,
    depth: int,
)
    ensures
        #[trigger] holds_together(input, indented(level, body), depth) == holds_together(
            input,
            body,
            depth,
        ),
        delta(input, indented(level, body)) == delta(input, body),
{
    lemma_single(input, Doc::Indent { level, body }, depth);
}

/// A group holds together where what is in it does.
pub broadcast proof fn lemma_break_grouped(input: ParseInput, body: Seq<Doc>, depth: int)
    ensures
        #[trigger] holds_together(input, grouped(body), depth) == holds_together(
            input,
            body,
            depth,
        ),
        delta(input, grouped(body)) == delta(input, body),
{
    lemma_single(input, grouped(body)[0], depth);
    assert(grouped(body) =~= seq![grouped(body)[0]]);
}

/// A group holds together where what is in it does.
pub broadcast proof fn lemma_break_grouped_until_first_line_break(
    input: ParseInput,
    body: Seq<Doc>,
    depth: int,
)
    ensures
        #[trigger] holds_together(input, grouped_until_first_line_break(body), depth)
            == holds_together(input, body, depth),
        delta(input, grouped_until_first_line_break(body)) == delta(input, body),
{
    lemma_single(input, grouped_until_first_line_break(body)[0], depth);
    assert(grouped_until_first_line_break(body) =~= seq![grouped_until_first_line_break(body)[0]]);
}

/// A balanced group holds together where what is in it does.
pub broadcast proof fn lemma_break_balanced(input: ParseInput, body: Seq<Doc>, depth: int)
    ensures
        #[trigger] holds_together(input, balanced(body), depth) == holds_together(
            input,
            body,
            depth,
        ),
        delta(input, balanced(body)) == delta(input, body),
{
    lemma_single(input, Doc::Balanced { body }, depth);
}

/// A branch holds together where what is in it does.
pub broadcast proof fn lemma_break_if_multiline(input: ParseInput, body: Seq<Doc>, depth: int)
    ensures
        #[trigger] holds_together(input, if_multiline(body), depth) == holds_together(
            input,
            body,
            depth,
        ),
        delta(input, if_multiline(body)) == delta(input, body),
{
    lemma_single(input, Doc::IfMultiline { body }, depth);
}

/// What documents of each form change.
pub broadcast proof fn lemma_delta_text(input: ParseInput, start: int, end: int)
    ensures
        #[trigger] delta(input, source_text(start, end)) == text_delta(input, start, end),
{
    lemma_break_text(input, start, end, 0);
}

/// Text that is copied as it is changes nothing.
pub broadcast proof fn lemma_delta_unformatted(input: ParseInput, start: int, end: int)
    ensures
        #[trigger] delta(input, unformatted(start, end)) == 0,
{
    lemma_break_unformatted(input, start, end, 0);
}

/// Text with other quotes changes nothing.
pub broadcast proof fn lemma_delta_produced(input: ParseInput, bytes: Seq<u8>)
    ensures
        #[trigger] delta(input, produced(bytes)) == 0,
{
    lemma_break_produced(input, bytes, 0);
}

/// What fixed text changes.
pub broadcast proof fn lemma_delta_fixed(input: ParseInput, text: Seq<char>)
    ensures
        #[trigger] delta(input, fixed(text)) == fixed_delta(text),
{
    lemma_break_fixed(input, text, 0);
}

/// What an indent changes.
pub broadcast proof fn lemma_delta_indented(input: ParseInput, level: int, body: Seq<Doc>)
    ensures
        #[trigger] delta(input, indented(level, body)) == delta(input, body),
{
    lemma_break_indented(input, level, body, 0);
}

/// What a group changes.
pub broadcast proof fn lemma_delta_grouped(input: ParseInput, body: Seq<Doc>)
    ensures
        #[trigger] delta(input, grouped(body)) == delta(input, body),
{
    lemma_break_grouped(input, body, 0);
}

/// What a group changes.
pub broadcast proof fn lemma_delta_grouped_until_first_line_break(
    input: ParseInput,
    body: Seq<Doc>,
)
    ensures
        #[trigger] delta(input, grouped_until_first_line_break(body)) == delta(input, body),
{
    lemma_break_grouped_until_first_line_break(input, body, 0);
}

/// What a balanced group changes.
pub broadcast proof fn lemma_delta_balanced(input: ParseInput, body: Seq<Doc>)
    ensures
        #[trigger] delta(input, balanced(body)) == delta(input, body),
{
    lemma_break_balanced(input, body, 0);
}

/// What a branch changes.
pub broadcast proof fn lemma_delta_if_multiline(input: ParseInput, body: Seq<Doc>)
    ensures
        #[trigger] delta(input, if_multiline(body)) == delta(input, body),
{
    lemma_break_if_multiline(input, body, 0);
}

/// A line may break behind a backslash.
pub proof fn lemma_backslash(input: ParseInput, depth: int)
    ensures
        is_sound(input, if_multiline(space() + fixed("\\"@)) + soft_line(), depth),
{
    reveal_strlit("\\");
    let text = "\\"@;
    assert(text =~= seq!['\\']);
    assert(seq!['\\'][0] == '\\' && seq!['('][0] == '(' && seq![')'][0] == ')');
    let body = space() + fixed(text);
    let first = if_multiline(body);
    let all = first + soft_line();
    lemma_single(input, Doc::Leaf(Element::Space), depth);
    lemma_single(input, Doc::Leaf(Element::Static { text }), depth);
    lemma_holds_concat(input, space(), fixed(text), depth);
    lemma_delta_concat(input, space(), fixed(text));
    lemma_single(input, Doc::IfMultiline { body }, depth);
    lemma_single(input, Doc::Leaf(Element::SoftLine), depth);
    lemma_delta_concat(input, first, soft_line());
    assert(body.last() == Doc::Leaf(Element::Static { text: seq!['\\'] }));
    assert(all.drop_last() =~= first);
    assert(first[first.len() - 1] == Doc::IfMultiline { body });
    assert(ends_with_backslash(first));
    assert(all[all.len() - 1] == Doc::Leaf(Element::SoftLine));
    assert(doc_holds(input, all[all.len() - 1], depth + delta(input, first), true));
    assert(fixed_delta(text) == 0);
    assert(delta(input, all) == 0);
    assert(holds_together(input, all, depth));
}

/// Parentheses and commas as fixed text.
pub proof fn lemma_fixed_deltas()
    ensures
        fixed_delta("("@) == 1,
        fixed_delta(")"@) == -1,
        fixed_delta(","@) == 0,
{
    reveal_strlit("(");
    reveal_strlit(")");
    reveal_strlit(",");
    assert("("@ =~= seq!['(']);
    assert(")"@ =~= seq![')']);
    assert(")"@[0] == ')' && seq!['('][0] == '(');
    assert(","@[0] == ',' && seq![')'][0] == ')');
}

pub broadcast group group_breaks {
    lemma_delta_concat,
    lemma_holds_concat,
    lemma_break_blanks,
    lemma_blank_deltas,
    lemma_break_text,
    lemma_break_unformatted,
    lemma_break_produced,
    lemma_break_fixed,
    lemma_break_indented,
    lemma_break_grouped,
    lemma_break_grouped_until_first_line_break,
    lemma_break_balanced,
    lemma_break_if_multiline,
    lemma_delta_text,
    lemma_delta_unformatted,
    lemma_delta_produced,
    lemma_delta_fixed,
    lemma_delta_indented,
    lemma_delta_grouped,
    lemma_delta_grouped_until_first_line_break,
    lemma_delta_balanced,
    lemma_delta_if_multiline,
}

} // verus!
