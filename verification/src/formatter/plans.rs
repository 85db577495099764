//! What reordering by a plan keeps.
use vstd::prelude::*;

use crate::document::{blank_lines, hard_and_blank_line, hard_line, nothing, space, Doc};
use crate::formatter::completeness::{lemma_children, lemma_node};
use crate::formatter::nodes::{children_docs, children_from, node_docs};
use crate::formatter::regions::overlap;
use crate::formatter::reordering::{
    attached_after_docs, attached_before_docs, docstring_docs, item_declaration_docs, item_docs,
    item_gap_docs, items_from, line_or_space_docs, without_extends_docs,
};
use crate::formatter::rows::{has_line_break, in_a_row, is_blank, lemma_row, lemma_row_inside};
use crate::formatter::separators::separator_docs;
use crate::formatter::source::source_docs;
use crate::formatter::spacing::{is_part_gap, separators_keep_words_apart};
use crate::formatter::tokens::{group_tokens, has_token, is_kept, is_reached, may_leave_out};
use crate::node_kind::GDScriptNodeKind;
use crate::parser::ParseInput;
use crate::renderer::Element;
use crate::reorder::{DeclarationKind, ReorderItem};

verus! {

broadcast use group_tokens;

/// True of an item that moves a child of the root along with its declaration.
pub open spec fn is_attached(item: ReorderItem, index: int) -> bool {
    ||| exists|i: int|
        0 <= i < item.child_indices_attached_before_declaration@.len()
            && #[trigger] item.child_indices_attached_before_declaration@[i] == index
    ||| exists|i: int|
        0 <= i < item.child_indices_attached_after_declaration@.len()
            && #[trigger] item.child_indices_attached_after_declaration@[i] == index
}

/// True of an item with a token in its declaration: in all of it, in the only
/// part of it that is written, or in a part other than `extends` where that part
/// has an item of its own. A docstring has no declaration.
pub open spec fn declares(input: ParseInput, item: ReorderItem, index: int, token: int) -> bool {
    let child = input.tree.child_of(0, index);
    &&& item.classification != DeclarationKind::Docstring
    &&& item.child_index == index
    &&& match item.sub_child {
        Some(part) => part < input.tree.child_count_of(child) && is_kept(
            input,
            input.tree.child_of(child, part as int),
            token,
        ),
        None => if item.split_extends {
            exists|part: int|
                #![trigger input.tree.child_of(child, part)]
                0 <= part < input.tree.child_count_of(child) && input.tree.child_kind_of(
                    child,
                    part,
                ) != GDScriptNodeKind::Extends && is_kept(
                    input,
                    input.tree.child_of(child, part),
                    token,
                )
        } else {
            is_kept(input, child, token)
        },
    }
}

/// True of a child of the root that an item names, with a token in what the item
/// is to write of it.
pub open spec fn names(input: ParseInput, item: ReorderItem, index: int, token: int) -> bool {
    is_attached(item, index) && is_kept(input, input.tree.child_of(0, index), token) || declares(
        input,
        item,
        index,
        token,
    )
}

proof fn lemma_attached_before(
    input: ParseInput,
    item: ReorderItem,
    from: int,
    at: int,
    token: int,
)
    requires
        input.tree_fits(),
        0 <= from <= at < item.child_indices_attached_before_declaration@.len(),
        item.child_indices_attached_before_declaration@[at] < input.tree.child_count_of(0),
        is_kept(
            input,
            input.tree.child_of(0, item.child_indices_attached_before_declaration@[at] as int),
            token,
        ),
    ensures
        has_token(input, attached_before_docs(input, item, from), token),
        has_token(input, docstring_docs(input, item, from), token),
    decreases at - from,
{
    if from == at {
        let index = item.child_indices_attached_before_declaration@[at] as int;
        input.tree.lemma_child(0, index);
        lemma_node(input, input.tree.child_of(0, index), token);
    } else {
        lemma_attached_before(input, item, from + 1, at, token);
    }
}

proof fn lemma_attached_after(
    input: ParseInput,
    item: ReorderItem,
    from: int,
    at: int,
    token: int,
)
    requires
        input.tree_fits(),
        0 <= from <= at < item.child_indices_attached_after_declaration@.len(),
        item.child_indices_attached_after_declaration@[at] < input.tree.child_count_of(0),
        is_kept(
            input,
            input.tree.child_of(0, item.child_indices_attached_after_declaration@[at] as int),
            token,
        ),
    ensures
        has_token(input, attached_after_docs(input, item, from), token),
    decreases at - from,
{
    if from == at {
        let index = item.child_indices_attached_after_declaration@[at] as int;
        input.tree.lemma_child(0, index);
        lemma_node(input, input.tree.child_of(0, index), token);
    } else {
        lemma_attached_after(input, item, from + 1, at, token);
    }
}

proof fn lemma_without_extends(
    input: ParseInput,
    node: int,
    from: int,
    previous: Option<int>,
    part: int,
    token: int,
)
    requires
        input.tree_fits(),
        input.tree.has(node),
        0 <= from <= part < input.tree.child_count_of(node),
        input.tree.child_kind_of(node, part) != GDScriptNodeKind::Extends,
        is_kept(input, input.tree.child_of(node, part), token),
    ensures
        has_token(input, without_extends_docs(input, node, from, previous), token),
    decreases part - from,
{
    let child = input.tree.child_of(node, from);
    if from == part {
        input.tree.lemma_child(node, part);
        lemma_node(input, child, token);
    } else if input.tree.kind_of(child) == GDScriptNodeKind::Extends {
        lemma_without_extends(input, node, from + 1, previous, part, token);
    } else {
        lemma_without_extends(input, node, from + 1, Some(child), part, token);
    }
}

/// An item loses nothing: its layout holds every token of its declaration, and
/// of everything that is attached to it.
pub proof fn items_hold_all_tokens(input: ParseInput, item: ReorderItem, index: int, token: int)
    requires
        input.tree_fits(),
        0 <= index < input.tree.child_count_of(0),
        names(input, item, index, token),
    ensures
        has_token(input, item_docs(input, item), token),
{
    reveal(item_docs);
    let before = item.child_indices_attached_before_declaration@;
    let after = item.child_indices_attached_after_declaration@;
    let child = input.tree.child_of(0, index);
    input.tree.lemma_child(0, index);
    if declares(input, item, index, token) {
        match item.sub_child {
            Some(part) => {
                input.tree.lemma_child(child, part as int);
                lemma_node(input, input.tree.child_of(child, part as int), token);
            },
            None => {
                if item.split_extends {
                    let part = choose|part: int|
                        #![trigger input.tree.child_of(child, part)]
                        0 <= part < input.tree.child_count_of(child) && input.tree.child_kind_of(
                            child,
                            part,
                        ) != GDScriptNodeKind::Extends && is_kept(
                            input,
                            input.tree.child_of(child, part),
                            token,
                        );
                    lemma_without_extends(input, child, 0, None, part, token);
                } else {
                    lemma_node(input, child, token);
                }
            },
        }
        assert(has_token(input, item_declaration_docs(input, item), token));
    } else if exists|i: int| 0 <= i < before.len() && #[trigger] before[i] == index {
        let i = choose|i: int| 0 <= i < before.len() && #[trigger] before[i] == index;
        lemma_attached_before(input, item, 0, i, token);
    } else {
        let i = choose|i: int| 0 <= i < after.len() && #[trigger] after[i] == index;
        lemma_attached_after(input, item, 0, i, token);
    }
}

proof fn lemma_items(input: ParseInput, from: int, at: int, index: int, token: int)
    requires
        input.tree_fits(),
        0 <= index < input.tree.child_count_of(0),
        0 <= from <= at < input.reorder_plan.items@.len(),
        names(input, input.reorder_plan.items@[at], index, token),
    ensures
        has_token(input, items_from(input, from), token),
    decreases at - from,
{
    if from == at {
        items_hold_all_tokens(input, input.reorder_plan.items@[at], index, token);
    } else {
        lemma_items(input, from + 1, at, index, token);
    }
}

/// Reordering loses nothing: a script that follows its plan holds every token
/// that an item of the plan names, in its declaration or in what is attached to
/// it. Where the plan names every child of the root, that is every token that
/// the layout of a script in source order holds.
pub proof fn reordering_holds_all_tokens(input: ParseInput, at: int, index: int, token: int)
    requires
        input.wf(),
        input.follows_plan(),
        0 <= at < input.reorder_plan.items@.len(),
        0 <= index < input.tree.child_count_of(0),
        names(input, input.reorder_plan.items@[at], index, token),
    ensures
        has_token(input, source_docs(input), token),
{
    lemma_items(input, 0, at, index, token);
}

/// Without regions, the layout comes to every child.
proof fn lemma_all_are_reached(input: ParseInput, node: int, from: int, index: int)
    requires
        input.disabled_regions@.len() == 0,
        from <= index < input.tree.child_count_of(node),
    ensures
        is_reached(input, node, from, index),
        overlap(input, node, index) is Clear,
    decreases index - from,
{
    if from < index {
        assert(overlap(input, node, from) is Clear);
        lemma_all_are_reached(input, node, from + 1, index);
    }
}

/// A plan without items loses nothing either: the script stays as it is.
pub proof fn empty_plans_hold_all_tokens(input: ParseInput, index: int, token: int)
    requires
        input.wf(),
        input.follows_plan(),
        input.reorder_plan.items@.len() == 0,
        0 <= index < input.tree.child_count_of(0),
        !may_leave_out(input, 0, index),
        is_kept(input, input.tree.child_of(0, index), token),
    ensures
        has_token(input, source_docs(input), token),
{
    lemma_all_are_reached(input, 0, 0, index);
    input.tree.lemma_child(0, index);
    lemma_children(input, 0, 0, index, token);
    assert(children_docs(input, 0) == children_from(input, 0, 0));
}

/// What stands between two items of a plan: blank lines where one of them is a
/// method or an inner class, as many as the options ask for in front of it and
/// two behind it. Otherwise a line break, and an empty line unless the two are
/// of one group and there is none in the source, or both stand in the header of
/// a class.
pub open spec fn is_item_gap(
    input: ParseInput,
    previous: ReorderItem,
    current: ReorderItem,
    gap: Seq<Doc>,
) -> bool {
    let first = previous.classification;
    let second = current.classification;
    let in_header = |kind: DeclarationKind|
        kind == DeclarationKind::ClassAnnotation || kind == DeclarationKind::ClassName || kind
            == DeclarationKind::Extends || kind == DeclarationKind::Docstring;
    &&& second == DeclarationKind::Method || second == DeclarationKind::InnerClass ==> gap
        == blank_lines(input.blank_lines_around_definitions as int)
    &&& second != DeclarationKind::Method && second != DeclarationKind::InnerClass && (first
        == DeclarationKind::Method || first == DeclarationKind::InnerClass) ==> gap == blank_lines(
        2,
    )
    &&& second != DeclarationKind::Method && second != DeclarationKind::InnerClass && first
        != DeclarationKind::Method && first != DeclarationKind::InnerClass ==> gap == if first
        == second {
        if current.has_blank_line_before && previous.child_index < current.child_index {
            hard_and_blank_line()
        } else {
            hard_line()
        }
    } else if in_header(first) && in_header(second) {
        hard_line()
    } else {
        hard_and_blank_line()
    }
}

proof fn lemma_items_in_a_row(input: ParseInput, from: int, at: int) -> (gap: Seq<Doc>)
    requires
        0 <= from <= at,
        at + 1 < input.reorder_plan.items@.len(),
    ensures
        in_a_row(
            items_from(input, from),
            item_docs(input, input.reorder_plan.items@[at]),
            gap,
            item_docs(input, input.reorder_plan.items@[at + 1]),
        ),
        is_item_gap(
            input,
            input.reorder_plan.items@[at],
            input.reorder_plan.items@[at + 1],
            gap,
        ),
    decreases at - from,
{
    let items = input.reorder_plan.items@;
    let front = if from > 0 {
        item_gap_docs(input, items[from - 1], items[from])
    } else {
        nothing()
    };
    let first = item_docs(input, items[from]);
    if from == at {
        let gap = item_gap_docs(input, items[at], items[at + 1]);
        let second = item_docs(input, items[at + 1]);
        let rest = items_from(input, at + 2);
        assert(items_from(input, at + 1) == gap + second + rest);
        assert(items_from(input, from) =~= front + first + gap + second + rest);
        lemma_row(front, first, gap, second, rest);
        gap
    } else {
        let gap = lemma_items_in_a_row(input, from + 1, at);
        let rest = items_from(input, from + 1);
        lemma_row_inside(
            front + first,
            rest,
            nothing(),
            item_docs(input, items[at]),
            gap,
            item_docs(input, items[at + 1]),
        );
        assert(items_from(input, from) =~= front + first + rest + nothing());
        gap
    }
}

/// A script that follows its plan is laid out in the order of the plan: each item
/// directly behind the one before it, with nothing but the gap that the two ask
/// for between them.
pub proof fn items_follow_each_other(input: ParseInput, at: int)
    requires
        input.follows_plan(),
        0 <= at,
        at + 1 < input.reorder_plan.items@.len(),
    ensures
        exists|gap: Seq<Doc>|
            is_item_gap(
                input,
                input.reorder_plan.items@[at],
                input.reorder_plan.items@[at + 1],
                gap,
            ) && #[trigger] in_a_row(
                source_docs(input),
                item_docs(input, input.reorder_plan.items@[at]),
                gap,
                item_docs(input, input.reorder_plan.items@[at + 1]),
            ),
{
    let gap = lemma_items_in_a_row(input, 0, at);
    assert(source_docs(input) == items_from(input, 0));
}

/// Two items never end up on one line.
pub proof fn items_stand_on_lines_of_their_own(
    input: ParseInput,
    previous: ReorderItem,
    current: ReorderItem,
    gap: Seq<Doc>,
)
    requires
        input.blank_lines_around_definitions > 0,
        is_item_gap(input, previous, current, gap),
    ensures
        is_blank(gap),
        has_line_break(gap),
{
    assert(gap.len() > 0);
    assert(gap[0] == Doc::Leaf(Element::HardLine) || gap[0] == Doc::Leaf(Element::BlankLine));
}

/// A line break where the source has one between two offsets, or else a space.
pub open spec fn is_line_or_space(input: ParseInput, from: int, to: int, gap: Seq<Doc>) -> bool {
    gap == if exists|offset: int|
        from <= offset < to && #[trigger] input.bytes()[offset] == 10u8 {
        hard_line()
    } else {
        space()
    }
}

/// What follows a child that is attached before a declaration: the next one, or
/// the declaration.
pub open spec fn next_of_item(input: ParseInput, item: ReorderItem, at: int) -> int {
    let attached = item.child_indices_attached_before_declaration@;
    if at + 1 < attached.len() {
        input.tree.child_of(0, attached[at + 1] as int)
    } else {
        input.tree.child_of(0, item.child_index as int)
    }
}

proof fn lemma_attached_row(input: ParseInput, item: ReorderItem, from: int, at: int)
    requires
        0 <= from <= at < item.child_indices_attached_before_declaration@.len(),
        forall|i: int|
            0 <= i < item.child_indices_attached_before_declaration@.len()
                ==> #[trigger] item.child_indices_attached_before_declaration@[i]
                < input.tree.child_count_of(0),
        0 <= item.child_index < input.tree.child_count_of(0),
    ensures
        ({
            let attached = item.child_indices_attached_before_declaration@;
            let child = input.tree.child_of(0, attached[at] as int);
            let next = next_of_item(input, item, at);
            exists|gap: Seq<Doc>, before: Seq<Doc>|
                is_line_or_space(input, input.tree.end_of(child), input.tree.start_of(next), gap)
                    && attached_before_docs(input, item, from) == #[trigger] (before + node_docs(
                    input,
                    child,
                ) + gap + attached_before_docs(input, item, at + 1))
        }),
    decreases at - from,
{
    let attached = item.child_indices_attached_before_declaration@;
    let child = input.tree.child_of(0, attached[from] as int);
    assert(attached[from] < input.tree.child_count_of(0));
    let gap = line_or_space_docs(
        input,
        input.tree.end_of(child),
        input.after_attached(item, from),
    );
    let rest = attached_before_docs(input, item, from + 1);
    assert(attached_before_docs(input, item, from) == node_docs(input, child) + gap + rest);
    if from == at {
        if at + 1 < attached.len() {
            assert(attached[at + 1] < input.tree.child_count_of(0));
        }
        assert(attached_before_docs(input, item, from) =~= nothing() + node_docs(input, child) + gap
            + rest);
    } else {
        lemma_attached_row(input, item, from + 1, at);
        let target = input.tree.child_of(0, attached[at] as int);
        let next = next_of_item(input, item, at);
        let (found, before) = choose|found: Seq<Doc>, before: Seq<Doc>|
            is_line_or_space(input, input.tree.end_of(target), input.tree.start_of(next), found)
                && rest == #[trigger] (before + node_docs(input, target) + found
                + attached_before_docs(input, item, at + 1));
        assert(attached_before_docs(input, item, from) =~= (node_docs(input, child) + gap + before)
            + node_docs(input, target) + found + attached_before_docs(input, item, at + 1));
    }
}

/// What is attached before a declaration stays in front of it, in its order and
/// as close as it was: what follows each attached child is the next one, or the
/// declaration, behind a line break where there is one in the source and behind
/// a space where there is none.
pub proof fn attached_children_stay_in_front(input: ParseInput, item: ReorderItem, at: int)
    requires
        item.classification != DeclarationKind::Docstring,
        item.sub_child is None,
        !item.split_extends,
        0 <= at < item.child_indices_attached_before_declaration@.len(),
        forall|i: int|
            0 <= i < item.child_indices_attached_before_declaration@.len()
                ==> #[trigger] item.child_indices_attached_before_declaration@[i]
                < input.tree.child_count_of(0),
        item.child_index < input.tree.child_count_of(0),
    ensures
        ({
            let attached = item.child_indices_attached_before_declaration@;
            let child = input.tree.child_of(0, attached[at] as int);
            let next = next_of_item(input, item, at);
            exists|gap: Seq<Doc>|
                is_line_or_space(input, input.tree.end_of(child), input.tree.start_of(next), gap)
                    && #[trigger] in_a_row(
                    item_docs(input, item),
                    node_docs(input, child),
                    gap,
                    node_docs(input, next),
                )
        }),
{
    reveal(item_docs);
    let attached = item.child_indices_attached_before_declaration@;
    let child = input.tree.child_of(0, attached[at] as int);
    let next = next_of_item(input, item, at);
    lemma_attached_row(input, item, 0, at);
    let (gap, before) = choose|gap: Seq<Doc>, before: Seq<Doc>|
        is_line_or_space(input, input.tree.end_of(child), input.tree.start_of(next), gap)
            && attached_before_docs(input, item, 0) == #[trigger] (before + node_docs(input, child)
            + gap + attached_before_docs(input, item, at + 1));
    let declaration = item_declaration_docs(input, item);
    let tail = attached_after_docs(input, item, 0);
    assert(declaration == node_docs(input, input.tree.child_of(0, item.child_index as int)));
    if at + 1 < attached.len() {
        assert(attached[at + 1] < input.tree.child_count_of(0));
        let next_gap = line_or_space_docs(
            input,
            input.tree.end_of(next),
            input.after_attached(item, at + 1),
        );
        let rest = next_gap + attached_before_docs(input, item, at + 2) + declaration + tail;
        assert(attached_before_docs(input, item, at + 1) == node_docs(input, next) + next_gap
            + attached_before_docs(input, item, at + 2));
        assert(item_docs(input, item) =~= before + node_docs(input, child) + gap + node_docs(
            input,
            next,
        ) + rest);
        lemma_row(before, node_docs(input, child), gap, node_docs(input, next), rest);
    } else {
        assert(attached_before_docs(input, item, at + 1) == nothing());
        assert(item_docs(input, item) =~= before + node_docs(input, child) + gap + node_docs(
            input,
            next,
        ) + tail);
        lemma_row(before, node_docs(input, child), gap, node_docs(input, next), tail);
    }
}

/// What is attached first behind a declaration follows it, behind a line break
/// where there is one in the source and behind a space where there is none.
pub proof fn attached_children_stay_behind(input: ParseInput, item: ReorderItem)
    requires
        item.classification != DeclarationKind::Docstring,
        item.sub_child is None,
        !item.split_extends,
        item.child_indices_attached_after_declaration@.len() > 0,
        item.child_indices_attached_after_declaration@[0] < input.tree.child_count_of(0),
        item.child_index < input.tree.child_count_of(0),
    ensures
        ({
            let declaration = input.tree.child_of(0, item.child_index as int);
            let next = input.tree.child_of(
                0,
                item.child_indices_attached_after_declaration@[0] as int,
            );
            exists|gap: Seq<Doc>|
                is_line_or_space(
                    input,
                    input.tree.end_of(declaration),
                    input.tree.start_of(next),
                    gap,
                ) && #[trigger] in_a_row(
                    item_docs(input, item),
                    node_docs(input, declaration),
                    gap,
                    node_docs(input, next),
                )
        }),
{
    reveal(item_docs);
    let declaration = input.tree.child_of(0, item.child_index as int);
    let next = input.tree.child_of(0, item.child_indices_attached_after_declaration@[0] as int);
    let gap = line_or_space_docs(input, input.tree.end_of(declaration), input.tree.start_of(next));
    let front = attached_before_docs(input, item, 0);
    let rest = attached_after_docs(input, item, 1);
    assert(attached_after_docs(input, item, 0) == gap + node_docs(input, next) + rest);
    assert(item_docs(input, item) =~= front + node_docs(input, declaration) + gap + node_docs(
        input,
        next,
    ) + rest);
    lemma_row(front, node_docs(input, declaration), gap, node_docs(input, next), rest);
}

proof fn lemma_docstring_row(input: ParseInput, item: ReorderItem, from: int, at: int)
    requires
        0 <= from <= at,
        at + 1 < item.child_indices_attached_before_declaration@.len(),
        forall|i: int|
            0 <= i < item.child_indices_attached_before_declaration@.len()
                ==> #[trigger] item.child_indices_attached_before_declaration@[i]
                < input.tree.child_count_of(0),
    ensures
        ({
            let attached = item.child_indices_attached_before_declaration@;
            in_a_row(
                docstring_docs(input, item, from),
                node_docs(input, input.tree.child_of(0, attached[at] as int)),
                hard_line(),
                node_docs(input, input.tree.child_of(0, attached[at + 1] as int)),
            )
        }),
    decreases at - from,
{
    let attached = item.child_indices_attached_before_declaration@;
    assert(attached[from] < input.tree.child_count_of(0));
    let first = node_docs(input, input.tree.child_of(0, attached[from] as int));
    let rest = docstring_docs(input, item, from + 1);
    assert(docstring_docs(input, item, from) == first + hard_line() + rest);
    if from == at {
        assert(attached[at + 1] < input.tree.child_count_of(0));
        let second = node_docs(input, input.tree.child_of(0, attached[at + 1] as int));
        let behind = hard_line() + docstring_docs(input, item, at + 2);
        assert(rest == second + hard_line() + docstring_docs(input, item, at + 2));
        assert(first + hard_line() + rest =~= nothing() + first + hard_line() + second + behind);
        lemma_row(nothing(), first, hard_line(), second, behind);
    } else {
        lemma_docstring_row(input, item, from + 1, at);
        lemma_row_inside(
            first + hard_line(),
            rest,
            nothing(),
            node_docs(input, input.tree.child_of(0, attached[at] as int)),
            hard_line(),
            node_docs(input, input.tree.child_of(0, attached[at + 1] as int)),
        );
        assert(first + hard_line() + rest =~= first + hard_line() + rest + nothing());
    }
}

/// The comments of a docstring stand on lines of their own, in their order.
pub proof fn docstrings_stand_line_by_line(input: ParseInput, item: ReorderItem, at: int)
    requires
        item.classification == DeclarationKind::Docstring,
        0 <= at,
        at + 1 < item.child_indices_attached_before_declaration@.len(),
        forall|i: int|
            0 <= i < item.child_indices_attached_before_declaration@.len()
                ==> #[trigger] item.child_indices_attached_before_declaration@[i]
                < input.tree.child_count_of(0),
    ensures
        ({
            let attached = item.child_indices_attached_before_declaration@;
            in_a_row(
                item_docs(input, item),
                node_docs(input, input.tree.child_of(0, attached[at] as int)),
                hard_line(),
                node_docs(input, input.tree.child_of(0, attached[at + 1] as int)),
            )
        }),
{
    reveal(item_docs);
    let attached = item.child_indices_attached_before_declaration@;
    let docs = docstring_docs(input, item, 0);
    let tail = attached_after_docs(input, item, 0);
    lemma_docstring_row(input, item, 0, at);
    lemma_row_inside(
        nothing(),
        docs,
        tail,
        node_docs(input, input.tree.child_of(0, attached[at] as int)),
        hard_line(),
        node_docs(input, input.tree.child_of(0, attached[at + 1] as int)),
    );
    assert(item_docs(input, item) =~= nothing() + docs + tail);
}

proof fn lemma_class_name_row(
    input: ParseInput,
    node: int,
    from: int,
    previous: Option<int>,
    index: int,
) -> (gap: Seq<Doc>)
    requires
        input.tree.kind_of(node) != GDScriptNodeKind::InferredType,
        0 <= from <= index,
        index + 1 < input.tree.child_count_of(node),
        input.tree.child_kind_of(node, index) != GDScriptNodeKind::Extends,
        input.tree.child_kind_of(node, index + 1) != GDScriptNodeKind::Extends,
    ensures
        is_part_gap(
            input,
            input.tree.kind_of(node),
            input.tree.child_of(node, index),
            input.tree.child_of(node, index + 1),
            gap,
        ),
        in_a_row(
            without_extends_docs(input, node, from, previous),
            node_docs(input, input.tree.child_of(node, index)),
            gap,
            node_docs(input, input.tree.child_of(node, index + 1)),
        ),
    decreases index - from,
{
    let child = input.tree.child_of(node, from);
    let first = node_docs(input, input.tree.child_of(node, index));
    let second = node_docs(input, input.tree.child_of(node, index + 1));
    let kind = input.tree.kind_of(node);
    let docs = without_extends_docs(input, node, from, previous);
    if input.tree.kind_of(child) == GDScriptNodeKind::Extends {
        lemma_class_name_row(input, node, from + 1, previous, index)
    } else {
        let front = match previous {
            Some(before) => separator_docs(input, kind, before, child),
            None => nothing(),
        };
        let rest = without_extends_docs(input, node, from + 1, Some(child));
        assert(docs == front + node_docs(input, child) + rest);
        if from == index {
            let next = input.tree.child_of(node, index + 1);
            let gap = separator_docs(input, kind, child, next);
            let behind = without_extends_docs(input, node, index + 2, Some(next));
            separators_keep_words_apart(input, kind, child, next);
            assert(rest == gap + second + behind);
            assert(docs =~= front + first + gap + second + behind);
            lemma_row(front, first, gap, second, behind);
            gap
        } else {
            let gap = lemma_class_name_row(input, node, from + 1, Some(child), index);
            let head = front + node_docs(input, child);
            lemma_row_inside(head, rest, nothing(), first, gap, second);
            assert(docs =~= head + rest + nothing());
            gap
        }
    }
}

/// The parts of a `class_name` statement without its `extends` part follow each
/// other, with what may stand between parts.
pub proof fn split_class_names_follow_each_other(input: ParseInput, item: ReorderItem, index: int)
    requires
        item.classification != DeclarationKind::Docstring,
        item.sub_child is None,
        item.split_extends,
        item.child_index < input.tree.child_count_of(0),
        ({
            let node = input.tree.child_of(0, item.child_index as int);
            &&& input.tree.kind_of(node) == GDScriptNodeKind::ClassName
            &&& 0 <= index
            &&& index + 1 < input.tree.child_count_of(node)
            &&& input.tree.child_kind_of(node, index) != GDScriptNodeKind::Extends
            &&& input.tree.child_kind_of(node, index + 1) != GDScriptNodeKind::Extends
        }),
    ensures
        ({
            let node = input.tree.child_of(0, item.child_index as int);
            exists|gap: Seq<Doc>|
                is_part_gap(
                    input,
                    GDScriptNodeKind::ClassName,
                    input.tree.child_of(node, index),
                    input.tree.child_of(node, index + 1),
                    gap,
                ) && #[trigger] in_a_row(
                    item_docs(input, item),
                    node_docs(input, input.tree.child_of(node, index)),
                    gap,
                    node_docs(input, input.tree.child_of(node, index + 1)),
                )
        }),
{
    reveal(item_docs);
    let node = input.tree.child_of(0, item.child_index as int);
    let front = attached_before_docs(input, item, 0);
    let docs = without_extends_docs(input, node, 0, None);
    let tail = attached_after_docs(input, item, 0);
    let gap = lemma_class_name_row(input, node, 0, None, index);
    lemma_row_inside(
        front,
        docs,
        tail,
        node_docs(input, input.tree.child_of(node, index)),
        gap,
        node_docs(input, input.tree.child_of(node, index + 1)),
    );
    assert(item_docs(input, item) =~= front + docs + tail);
}

} // verus!
