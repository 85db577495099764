//! What the formatter promises of every layout.
use vstd::prelude::*;

use crate::document::{
    blank_line, blank_lines, force_break, grouped, hard_and_blank_line, hard_line, indented,
    nothing, produced, soft_line, source_text, space, space_single_line_only, unformatted, Doc,
};
use crate::formatter::bodies::{body_comma_docs, body_from, body_gap_docs, lambda_docs, lambda_from};
use crate::formatter::containers::{
    after_elements_docs, container_contents, container_docs, elements_from, has_inner_space,
};
use crate::formatter::nodes::{
    below_docs, child_docs, children_docs, children_from, continued_docs, node_docs,
    separator_before,
};
use crate::formatter::queries::{
    any_child_contains_lambda, first_child_of_kind, has_child_of_kind, is_type_subscript,
    newlines_before_child, parent_is,
};
use crate::formatter::regions::{overlap, Overlap};
use crate::formatter::rules::is_verbatim;
use crate::formatter::separators::{newlines_docs, separator_docs};
use crate::formatter::source::{
    attached_end, declaration_gap_docs, definition_gap_docs, leading_start, newlines_to_declaration,
    paragraph_gap_docs, pending_docs, source_docs, source_from, wants_two_blank_lines,
    writes_annotation_inline, Pending,
};
use crate::node_kind::GDScriptNodeKind;
use crate::parser::{ParseInput, RegionWithDisabledFormatting};
use crate::renderer::Element;
use crate::string_literal::{requoted, QuoteStyle};
use crate::syntax_tree::SyntaxTree;

verus! {

/// Between two siblings stands nothing, a space, a line break, or a line break
/// and a single empty line.
pub proof fn separators_keep_at_most_one_blank_line(
    input: ParseInput,
    parent: GDScriptNodeKind,
    previous: int,
    current: int,
)
    ensures
        ({
            let docs = separator_docs(input, parent, previous, current);
            docs == nothing() || docs == space() || docs == hard_line() || docs
                == hard_and_blank_line()
        }),
{
    reveal(separator_docs);
}

/// Between two children of a body stands at most a single empty line, but for
/// the blank lines around definitions and the two behind a semicolon, whose
/// line has ended already.
pub proof fn bodies_keep_at_most_one_blank_line(
    input: ParseInput,
    node: int,
    index: int,
    follows_inline_comment: bool,
)
    ensures
        ({
            let docs = body_gap_docs(input, node, index, follows_inline_comment);
            ||| docs == nothing() || docs == space() || docs == hard_line() || docs
                == hard_and_blank_line()
            ||| docs == blank_lines(input.blank_lines_around_definitions as int)
            ||| docs == blank_line() + blank_line() && input.tree.child_kind_of(node, index - 1)
                == GDScriptNodeKind::SemiColon
        }),
{
    reveal(body_gap_docs);
}

/// True of documents that make the group around them break.
pub open spec fn forces_break(docs: Seq<Doc>) -> bool
    decreases docs,
{
    exists|i: int|
        0 <= i < docs.len() && match #[trigger] docs[i] {
            Doc::Leaf(element) => element == Element::ForceBreakingParent,
            Doc::Indent { body, .. } => forces_break(body),
            _ => false,
        }
}

/// What makes a group break does so wherever it stands.
proof fn lemma_forces_break(before: Seq<Doc>, forcing: Seq<Doc>, after: Seq<Doc>)
    requires
        forces_break(forcing),
    ensures
        forces_break(before + forcing + after),
{
    let all = before + forcing + after;
    let i = choose|i: int|
        0 <= i < forcing.len() && match #[trigger] forcing[i] {
            Doc::Leaf(element) => element == Element::ForceBreakingParent,
            Doc::Indent { body, .. } => forces_break(body),
            _ => false,
        };
    assert(all[before.len() + i] == forcing[i]);
}

/// A container breaks where something in it says so.
proof fn lemma_container_breaks(input: ParseInput, node: int)
    requires
        after_elements_docs(input, node).len() > 0,
        after_elements_docs(input, node).last() == Doc::Leaf(Element::ForceBreakingParent),
    ensures
        forces_break(container_contents(input, node)),
{
    let inner = elements_from(input, node, 1) + after_elements_docs(input, node);
    assert(inner[inner.len() - 1] == Doc::Leaf(Element::ForceBreakingParent));
    assert(forces_break(inner));
    let span = indented(1, inner);
    assert(span[0] == Doc::Indent { level: 1, body: inner });
    assert(forces_break(span));
    let inner_space = if has_inner_space(input.tree.kind_of(node)) {
        space_single_line_only()
    } else {
        nothing()
    };
    let line = if first_child_of_kind(
        *input.tree,
        node,
        1,
        input.tree.child_count_of(node) - 1,
        GDScriptNodeKind::Comment,
    ) is Some {
        hard_line()
    } else {
        soft_line()
    };
    let before = child_docs(input, node, 0) + inner_space + soft_line();
    let after = line + inner_space + child_docs(input, node, input.tree.child_count_of(node) - 1);
    assert(container_contents(input, node) =~= before + span + after);
    lemma_forces_break(before, span, after);
}

/// Enums always break: their layout is a group that something in it makes
/// break.
pub proof fn enums_always_break(input: ParseInput, node: int)
    requires
        input.tree.kind_of(node) == GDScriptNodeKind::EnumeratorList,
        input.tree.child_count_of(node) >= 3,
    ensures
        node_docs(input, node) == grouped(container_contents(input, node)),
        forces_break(container_contents(input, node)),
{
    reveal(after_elements_docs);
    assert(after_elements_docs(input, node).last() == force_break()[0]);
    lemma_container_breaks(input, node);
    assert(node_docs(input, node) == container_docs(input, node));
}

/// True of the containers that are laid out as groups, other than the
/// parameters of functions, which belong to the group of the header.
pub open spec fn is_grouped_container(input: ParseInput, node: int) -> bool {
    &&& input.tree.child_count_of(node) >= 3
    &&& match input.tree.kind_of(node) {
        GDScriptNodeKind::Array
        | GDScriptNodeKind::Dictionary
        | GDScriptNodeKind::EnumeratorList
        | GDScriptNodeKind::Arguments => true,
        GDScriptNodeKind::Parameters => !parent_is(*input.tree, node, GDScriptNodeKind::Function),
        GDScriptNodeKind::SubscriptArguments => !is_type_subscript(*input.tree, node),
        _ => false,
    }
}

/// A container around a lambda breaks.
pub proof fn containers_break_around_lambdas(input: ParseInput, node: int)
    requires
        is_grouped_container(input, node),
        any_child_contains_lambda(*input.tree, node, 1, input.tree.child_count_of(node) - 1),
    ensures
        node_docs(input, node) == grouped(container_contents(input, node)),
        forces_break(container_contents(input, node)),
{
    reveal(after_elements_docs);
    assert(after_elements_docs(input, node).last() == force_break()[0]);
    lemma_container_breaks(input, node);
    assert(node_docs(input, node) == container_docs(input, node));
}

/// A lambda with a body breaks: its layout is a group that something in it makes
/// break.
pub proof fn lambdas_with_a_body_break(input: ParseInput, node: int)
    requires
        input.tree.kind_of(node) == GDScriptNodeKind::Lambda,
        has_child_of_kind(*input.tree, node, GDScriptNodeKind::Body),
    ensures
        exists|body: Seq<Doc>|
            node_docs(input, node) == #[trigger] grouped(body) && forces_break(body),
{
    assert(input.tree.child_count_of(node) > 0);
    let line = if parent_is(*input.tree, node, GDScriptNodeKind::ParenthesizedExpression) {
        hard_line()
    } else {
        nothing()
    };
    let body = lambda_from(input, node, 0) + force_break() + line;
    assert(force_break()[0] == Doc::Leaf(Element::ForceBreakingParent));
    assert(forces_break(force_break()));
    lemma_forces_break(lambda_from(input, node, 0), force_break(), line);
    assert(node_docs(input, node) == lambda_docs(input, node));
    assert(lambda_docs(input, node) == grouped(body));
}

/// Strings keep their quotes where the options do not ask for others.
pub proof fn preserved_strings_are_copied(input: ParseInput, node: int)
    requires
        input.quote_style == QuoteStyle::Preserve,
        is_verbatim(input.tree.kind_of(node)),
        input.tree.child_count_of(node) > 0,
    ensures
        node_docs(input, node) == unformatted(
            input.tree.start_of(node),
            input.tree.end_of(node),
        ),
{
}

/// Where a disabled region starts with a child, the source of the region takes
/// the place of all children that it covers, in any kind of node and on the top
/// level of a script.
pub proof fn disabled_regions_are_copied(
    input: ParseInput,
    node: int,
    index: int,
    region: RegionWithDisabledFormatting,
    following: nat,
    previous: Option<int>,
    pending: Seq<Pending>,
)
    requires
        index < input.tree.child_count_of(node),
        overlap(input, node, index) == (Overlap::Covered { region, following }),
        input.tree.start_of(input.tree.child_of(node, index)) == region.start,
    ensures
        children_from(input, node, index) == separator_before(input, node, index) + unformatted(
            region.start as int,
            region.end as int,
        ) + children_from(input, node, index + following + 1),
        forall|inline: bool, adds_comma: bool| #[trigger]
            body_from(input, node, index, inline, adds_comma) == body_comma_docs(
                input,
                node,
                index,
                adds_comma,
            ) + (if index > 0 {
                newlines_docs(newlines_before_child(input, node, index))
            } else {
                nothing()
            }) + unformatted(region.start as int, region.end as int) + body_from(
                input,
                node,
                index + following + 1,
                false,
                adds_comma,
            ),
        node == 0 ==> source_from(input, index, previous, pending) == declaration_gap_docs(
            input,
            pending,
            previous,
            input.tree.child_of(0, index),
        ) + unformatted(region.start as int, region.end as int) + source_from(
            input,
            index + following + 1,
            Some(input.tree.child_of(0, index + following)),
            Seq::empty(),
        ),
{
    reveal(source_from);
    assert forall|inline: bool, adds_comma: bool| #[trigger]
        body_from(input, node, index, inline, adds_comma) == body_comma_docs(
            input,
            node,
            index,
            adds_comma,
        ) + (if index > 0 {
            newlines_docs(newlines_before_child(input, node, index))
        } else {
            nothing()
        }) + unformatted(region.start as int, region.end as int) + body_from(
            input,
            node,
            index + following + 1,
            false,
            adds_comma,
        ) by {}
}

/// Where formatting is disabled somewhere, declarations stay in the order of the
/// source, whatever the options ask for.
pub proof fn disabled_regions_keep_the_order(input: ParseInput)
    requires
        input.disabled_regions@.len() > 0,
    ensures
        source_docs(input) == source_from(input, 0, None, Seq::empty()),
{
}

/// Comments and annotations right above a definition stay right above it: they
/// are the last thing in front of it, and a line break follows.
pub proof fn leading_blocks_stay_with_their_definition(
    input: ParseInput,
    pending: Seq<Pending>,
    previous: Option<int>,
    declaration: int,
)
    requires
        leading_start(input, pending, previous, declaration) < pending.len(),
    ensures
        exists|before: Seq<Doc>| #[trigger]
            declaration_gap_docs(input, pending, previous, declaration) == before + pending_docs(
                input,
                pending,
                leading_start(input, pending, previous, declaration),
                pending.len() as int,
                false,
            ) + hard_line(),
{
    reveal(declaration_gap_docs);
    let leading = leading_start(input, pending, previous, declaration);
    let attached = attached_end(pending, 0, leading, previous is Some);
    let block = pending_docs(input, pending, leading, pending.len() as int, false);
    let follows_paragraph = attached != leading;
    let line = if wants_two_blank_lines(input, previous, declaration) {
        definition_gap_docs(input, previous, declaration)
    } else if follows_paragraph || newlines_to_declaration(input, pending, previous, declaration)
        <= 1 {
        hard_line()
    } else {
        hard_and_blank_line()
    };
    let blank = if follows_paragraph {
        blank_line()
    } else {
        nothing()
    };
    let attached_part = pending_docs(input, pending, 0, attached, previous is Some);
    let paragraph = if !follows_paragraph {
        nothing()
    } else {
        (if previous is Some || attached > 0 {
            paragraph_gap_docs(input, pending, previous, declaration, attached)
        } else {
            nothing()
        }) + pending_docs(input, pending, attached, leading, false)
    };
    let before = attached_part + paragraph + line + blank;
    assert(declaration_gap_docs(input, pending, previous, declaration) =~= before + block
        + hard_line());
}

/// An annotation that belongs on the line of the variable below it ends up
/// there: a space is the last thing in front of the variable.
pub proof fn variable_annotations_end_up_on_the_line(
    input: ParseInput,
    pending: Seq<Pending>,
    previous: Option<int>,
    declaration: int,
)
    requires
        pending.len() > 0,
        writes_annotation_inline(input, pending, declaration),
    ensures
        exists|before: Seq<Doc>| #[trigger]
            declaration_gap_docs(input, pending, previous, declaration) == before + space(),
{
    reveal(declaration_gap_docs);
    let leading = leading_start(input, pending, previous, declaration);
    let attached = attached_end(pending, 0, leading, previous is Some);
    let attached_part = pending_docs(input, pending, 0, attached, previous is Some);
    let paragraph = if attached == leading {
        nothing()
    } else {
        (if previous is Some || attached > 0 {
            paragraph_gap_docs(input, pending, previous, declaration, attached)
        } else {
            nothing()
        }) + pending_docs(input, pending, attached, leading, false)
    };
    assert(leading == pending.len());
    assert(declaration_gap_docs(input, pending, previous, declaration) =~= (attached_part
        + paragraph) + space());
}

/// A comment on the line above a statement or a declaration of a body stays on
/// the line above.
pub proof fn comments_stay_on_the_line_above(
    input: ParseInput,
    node: int,
    index: int,
    follows_inline_comment: bool,
)
    requires
        input.tree.child_kind_of(node, index - 1) == GDScriptNodeKind::Comment,
        input.tree.child_kind_of(node, index) != GDScriptNodeKind::Comment,
        newlines_before_child(input, node, index) == 1,
    ensures
        body_gap_docs(input, node, index, follows_inline_comment) == hard_line(),
{
    reveal(body_gap_docs);
}

/// True of the kinds that type parameters consist of.
pub open spec fn kind_is_type_syntax(kind: GDScriptNodeKind) -> bool {
    matches!(
        kind,
        GDScriptNodeKind::Identifier
            | GDScriptNodeKind::TokenBracket
            | GDScriptNodeKind::TokenComma
            | GDScriptNodeKind::TokenDot
            | GDScriptNodeKind::Type
            | GDScriptNodeKind::Subscript
            | GDScriptNodeKind::SubscriptArguments
            | GDScriptNodeKind::Other
    )
}

/// True of a node in a type: directly, or in a subscript in it, or in a subscript
/// that is an operand of `as`.
pub open spec fn belongs_to_type(tree: SyntaxTree, node: int) -> bool
    decreases node,
{
    tree.parent_of(node) matches Some(parent) && parent < node && match tree.kind_of(
        parent as int,
    ) {
        GDScriptNodeKind::Type => true,
        GDScriptNodeKind::BinaryOperator => exists|index: int|
            #![trigger tree.child_of(parent as int, index)]
            0 <= index < tree.child_count_of(parent as int) && tree.name_of(
                tree.child_of(parent as int, index),
            ) == "as"@,
        GDScriptNodeKind::Subscript | GDScriptNodeKind::Other => belongs_to_type(
            tree,
            parent as int,
        ),
        _ => false,
    }
}

/// The arguments of a subscript in a type are told from others.
proof fn lemma_type_subscript(tree: SyntaxTree, node: int)
    ensures
        is_type_subscript(tree, node) == belongs_to_type(tree, node),
    decreases node,
{
    match tree.parent_of(node) {
        Some(parent) => {
            if parent < node {
                lemma_type_subscript(tree, parent as int);
            }
        },
        None => {},
    }
}

/// True of a node that spells a type.
pub open spec fn is_type_syntax(input: ParseInput, node: int) -> bool
    decreases input.tree.size() - node,
{
    let kind = input.tree.kind_of(node);
    &&& kind_is_type_syntax(kind)
    &&& kind == GDScriptNodeKind::SubscriptArguments ==> belongs_to_type(*input.tree, node)
    &&& forall|index: int|
        #![trigger input.tree.child_of(node, index)]
        0 <= index < input.tree.child_count_of(node) ==> node < input.tree.child_of(node, index)
            < input.tree.size() && is_type_syntax(input, input.tree.child_of(node, index))
}

/// True of documents that stay on one line, whatever the renderer decides.
pub open spec fn stays_on_line(docs: Seq<Doc>) -> bool {
    forall|i: int|
        0 <= i < docs.len() ==> match #[trigger] docs[i] {
            Doc::Leaf(Element::Text { .. }) => true,
            Doc::Leaf(Element::Space) => true,
            _ => false,
        }
}

/// Documents that stay on one line do so one after the other.
proof fn lemma_line_concat(first: Seq<Doc>, second: Seq<Doc>)
    requires
        stays_on_line(first),
        stays_on_line(second),
    ensures
        stays_on_line(first + second),
{
    let all = first + second;
    assert forall|i: int| 0 <= i < all.len() implies match #[trigger] all[i] {
        Doc::Leaf(Element::Text { .. }) => true,
        Doc::Leaf(Element::Space) => true,
        _ => false,
    } by {
        if i < first.len() {
            assert(all[i] == first[i]);
        } else {
            assert(all[i] == second[i - first.len()]);
        }
    }
}

/// A type never breaks: its layout holds tokens and spaces only. Breaking it, as
/// between the brackets of `Dictionary[String, String]`, would not parse.
pub proof fn type_parameters_never_break(input: ParseInput, node: int)
    requires
        input.tree.is_linked(),
        input.tree.has(node),
        input.disabled_regions@.len() == 0,
        is_type_syntax(input, node),
    ensures
        stays_on_line(node_docs(input, node)),
    decreases input.tree.size() - node, 20int, 0int,
{
    lemma_type_subscript(*input.tree, node);
    if input.tree.child_count_of(node) > 0 {
        lemma_type_children_stay_on_line(input, node, 0);
        assert(children_docs(input, node) == children_from(input, node, 0));
        assert(node_docs(input, node) == children_docs(input, node));
    }
}

/// The children of a type stay on one line.
proof fn lemma_type_children_stay_on_line(input: ParseInput, node: int, index: int)
    requires
        input.tree.is_linked(),
        input.tree.has(node),
        input.disabled_regions@.len() == 0,
        is_type_syntax(input, node),
        0 <= index,
    ensures
        stays_on_line(children_from(input, node, index)),
    decreases input.tree.size() - node, 10int, input.tree.children_left(node, index),
{
    if index < input.tree.child_count_of(node) {
        let child = input.tree.child_of(node, index);
        assert(is_type_syntax(input, child));
        type_parameters_never_break(input, child);
        assert(child_docs(input, node, index) == below_docs(input, node, child));
        assert(overlap(input, node, index) is Clear);
        if index > 0 {
            assert(is_type_syntax(input, input.tree.child_of(node, index - 1)));
            reveal(separator_docs);
        }
        assert(stays_on_line(separator_before(input, node, index)));
        assert(continued_docs(input, node, index) == child_docs(input, node, index));
        lemma_type_children_stay_on_line(input, node, index + 1);
        lemma_line_concat(
            separator_before(input, node, index),
            continued_docs(input, node, index),
        );
        lemma_line_concat(
            separator_before(input, node, index) + continued_docs(input, node, index),
            children_from(input, node, index + 1),
        );
    }
}

/// Strings, string names and node paths get the quotes that the options ask for,
/// and are copied where that is not possible. Everything else whose source is not
/// broken up is always copied.
pub proof fn strings_get_their_quotes(input: ParseInput, node: int)
    requires
        input.tree.child_count_of(node) > 0,
        matches!(
            input.tree.kind_of(node),
            GDScriptNodeKind::String
                | GDScriptNodeKind::StringName
                | GDScriptNodeKind::NodePath
                | GDScriptNodeKind::GetNode
                | GDScriptNodeKind::RegionStart
                | GDScriptNodeKind::RegionEnd
                | GDScriptNodeKind::Error
        ),
    ensures
        ({
            let kind = input.tree.kind_of(node);
            let is_string = kind == GDScriptNodeKind::String || kind == GDScriptNodeKind::StringName
                || kind == GDScriptNodeKind::NodePath;
            let source = input.bytes().subrange(
                input.tree.start_of(node),
                input.tree.end_of(node),
            );
            node_docs(input, node) == if is_string && requoted(source, input.quote_style) is Some {
                produced(requoted(source, input.quote_style)->0)
            } else {
                unformatted(input.tree.start_of(node), input.tree.end_of(node))
            }
        }),
{
}

/// A token stands for its source.
pub proof fn tokens_are_copied(input: ParseInput, node: int)
    requires
        input.tree.child_count_of(node) == 0,
    ensures
        node_docs(input, node) == if input.tree.start_of(node) < input.tree.end_of(node) {
            source_text(input.tree.start_of(node), input.tree.end_of(node))
        } else {
            nothing()
        },
{
}

} // verus!
