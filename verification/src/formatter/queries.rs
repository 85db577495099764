//! Questions that the formatter asks about a syntax tree.
use vstd::prelude::*;
use vstd::string::StringSliceAdditionalSpecFns;

use crate::formatter::rules::{
    allows_line_breaks_inside, ends_chain_search, ends_expression_search, is_declaration,
    is_single_indent_container, needs_two_blank_lines,
};
use crate::node_kind::GDScriptNodeKind;
use crate::parser::ParseInput;
use crate::syntax_tree::SyntaxTree;
use crate::text::{count_newlines, newline_count, range_is, range_starts_with, same_text};

verus! {

/// The index of the first child of a kind, from `from` up to, not including,
/// `to`.
pub open spec fn first_child_of_kind(
    tree: SyntaxTree,
    node: int,
    from: int,
    to: int,
    kind: GDScriptNodeKind,
) -> Option<int>
    decreases to - from,
{
    if from >= to {
        None
    } else if tree.child_kind_of(node, from) == kind {
        Some(from)
    } else {
        first_child_of_kind(tree, node, from + 1, to, kind)
    }
}

/// The first child of a kind is one of the children in the range, is of that
/// kind, and none before it is. Where there is none, none in the range is.
pub proof fn first_child_of_kind_is_the_first(
    tree: SyntaxTree,
    node: int,
    from: int,
    to: int,
    kind: GDScriptNodeKind,
)
    ensures
        match first_child_of_kind(tree, node, from, to, kind) {
            Some(index) => {
                &&& from <= index < to
                &&& tree.child_kind_of(node, index) == kind
                &&& forall|before: int|
                    #![trigger tree.child_of(node, before)]
                    from <= before < index ==> tree.child_kind_of(node, before) != kind
            },
            None => forall|index: int|
                #![trigger tree.child_of(node, index)]
                from <= index < to ==> tree.child_kind_of(node, index) != kind,
        },
    decreases to - from,
{
    if from < to {
        first_child_of_kind_is_the_first(tree, node, from + 1, to, kind);
    }
}

/// True where a node has a child of a kind.
pub open spec fn has_child_of_kind(tree: SyntaxTree, node: int, kind: GDScriptNodeKind) -> bool {
    first_child_of_kind(tree, node, 0, tree.child_count_of(node), kind) is Some
}

/// Finds the first child of a kind.
pub fn find_child_of_kind(
    tree: &SyntaxTree,
    node: usize,
    from: usize,
    to: usize,
    kind: GDScriptNodeKind,
) -> (found: Option<usize>)
    requires
        tree.is_linked(),
        tree.has(node as int),
        to <= tree.child_count_of(node as int),
    ensures
        match found {
            Some(index) => first_child_of_kind(*tree, node as int, from as int, to as int, kind)
                == Some(index as int) && from <= index < to && tree.child_kind_of(
                node as int,
                index as int,
            ) == kind,
            None => first_child_of_kind(*tree, node as int, from as int, to as int, kind) is None,
        },
{
    let mut index: usize = from;
    while index < to
        invariant
            from <= index,
            index <= to || index == from,
            tree.is_linked(),
            tree.has(node as int),
            to <= tree.child_count_of(node as int),
            first_child_of_kind(*tree, node as int, from as int, to as int, kind)
                == first_child_of_kind(*tree, node as int, index as int, to as int, kind),
        decreases to - index,
    {
        if tree.child_kind(node, index) == kind {
            return Some(index);
        }
        index = index + 1;
    }
    None
}

/// Tells whether a node has a child of a kind.
pub fn has_child(tree: &SyntaxTree, node: usize, kind: GDScriptNodeKind) -> (found: bool)
    requires
        tree.is_linked(),
        tree.has(node as int),
    ensures
        found == has_child_of_kind(*tree, node as int, kind),
{
    find_child_of_kind(tree, node, 0, tree.child_count(node), kind).is_some()
}

/// Tells whether annotations are attached to a node.
pub fn has_own_annotations_child(tree: &SyntaxTree, node: usize) -> (found: bool)
    requires
        tree.is_linked(),
        tree.has(node as int),
    ensures
        found == has_child_of_kind(*tree, node as int, GDScriptNodeKind::Annotations),
{
    has_child(tree, node, GDScriptNodeKind::Annotations)
}

/// True of the names of the annotations that stand on the line of the variable
/// they annotate: `onready`, and all that start with `export` but for
/// `export_group`.
pub open spec fn is_inline_annotation_name(name: Seq<u8>) -> bool {
    ||| "export".spec_bytes().is_prefix_of(name) && name != "export_group".spec_bytes()
    ||| name == "onready".spec_bytes()
}

/// True of an annotation that stands on the line of the variable it annotates.
/// Its name is its first identifier.
pub open spec fn is_inline_annotation(input: ParseInput, annotation: int) -> bool {
    match first_child_of_kind(
        *input.tree,
        annotation,
        0,
        input.tree.child_count_of(annotation),
        GDScriptNodeKind::Identifier,
    ) {
        Some(index) => is_inline_annotation_name(
            input.text_of(input.tree.child_of(annotation, index)),
        ),
        None => false,
    }
}

/// Tells whether an annotation stands on the line of the variable it annotates.
pub fn is_export_or_onready_annotation(input: &ParseInput, annotation: usize) -> (inline: bool)
    requires
        input.tree_fits(),
        input.tree.has(annotation as int),
    ensures
        inline == is_inline_annotation(*input, annotation as int),
{
    match find_child_of_kind(
        input.tree,
        annotation,
        0,
        input.tree.child_count(annotation),
        GDScriptNodeKind::Identifier,
    ) {
        Some(index) => {
            let name: usize = input.tree.child(annotation, index);
            proof {
                input.tree.lemma_child(annotation as int, index as int);
                input.lemma_node(name as int);
            }
            let bytes = input.source.as_bytes();
            let start: usize = input.tree.start_byte(name);
            let end: usize = input.tree.end_byte(name);
            (range_starts_with(bytes, start, end, "export".as_bytes()) && !range_is(
                bytes,
                start,
                end,
                "export_group".as_bytes(),
            )) || range_is(bytes, start, end, "onready".as_bytes())
        },
        None => false,
    }
}

/// True where all children from `from` on are annotations that stand on the
/// line of the variable.
pub open spec fn all_annotations_are_inline(input: ParseInput, annotations: int) -> bool {
    forall|index: int|
        #![trigger input.tree.child_of(annotations, index)]
        0 <= index < input.tree.child_count_of(annotations) ==> is_inline_annotation(
            input,
            input.tree.child_of(annotations, index),
        )
}

/// Tells whether all annotations of a list stand on the line of the variable.
pub fn annotations_can_inline(input: &ParseInput, annotations: usize) -> (inline: bool)
    requires
        input.tree_fits(),
        input.tree.has(annotations as int),
    ensures
        inline == all_annotations_are_inline(*input, annotations as int),
{
    let count: usize = input.tree.child_count(annotations);
    let mut index: usize = 0;
    while index < count
        invariant
            index <= count == input.tree.child_count_of(annotations as int),
            input.tree_fits(),
            input.tree.has(annotations as int),
            forall|before: int|
                #![trigger input.tree.child_of(annotations as int, before)]
                0 <= before < index ==> is_inline_annotation(
                    *input,
                    input.tree.child_of(annotations as int, before),
                ),
        decreases count - index,
    {
        proof {
            input.tree.lemma_child(annotations as int, index as int);
        }
        if !is_export_or_onready_annotation(input, input.tree.child(annotations, index)) {
            return false;
        }
        index = index + 1;
    }
    true
}

/// True where an annotation of a list has arguments.
pub open spec fn any_annotation_has_arguments(tree: SyntaxTree, annotations: int) -> bool {
    exists|index: int|
        #![trigger tree.child_of(annotations, index)]
        0 <= index < tree.child_count_of(annotations) && tree.child_count_of(
            tree.child_of(annotations, index),
        ) > 2
}

/// Tells whether an annotation of a list has arguments.
pub fn has_annotation_with_arguments(tree: &SyntaxTree, annotations: usize) -> (found: bool)
    requires
        tree.is_linked(),
        tree.has(annotations as int),
    ensures
        found == any_annotation_has_arguments(*tree, annotations as int),
{
    let count: usize = tree.child_count(annotations);
    let mut index: usize = 0;
    while index < count
        invariant
            index <= count == tree.child_count_of(annotations as int),
            tree.is_linked(),
            tree.has(annotations as int),
            forall|before: int|
                #![trigger tree.child_of(annotations as int, before)]
                0 <= before < index ==> tree.child_count_of(
                    tree.child_of(annotations as int, before),
                ) <= 2,
        decreases count - index,
    {
        proof {
            tree.lemma_child(annotations as int, index as int);
        }
        if tree.child_count(tree.child(annotations, index)) > 2 {
            return true;
        }
        index = index + 1;
    }
    false
}

/// True where a node is a lambda or contains one.
pub open spec fn contains_lambda(tree: SyntaxTree, node: int) -> bool
    decreases tree.size() - node,
{
    ||| tree.kind_of(node) == GDScriptNodeKind::Lambda
    ||| exists|index: int|
        #![trigger tree.child_of(node, index)]
        0 <= index < tree.child_count_of(node) && node < tree.child_of(node, index) < tree.size()
            && contains_lambda(tree, tree.child_of(node, index))
}

/// Tells whether a node is a lambda or contains one. The body of a lambda makes
/// every delimiter around it break.
pub fn contains_lambda_node(tree: &SyntaxTree, node: usize) -> (found: bool)
    requires
        tree.is_linked(),
        tree.has(node as int),
    ensures
        found == contains_lambda(*tree, node as int),
    decreases tree.size() - node,
{
    if tree.kind(node) == GDScriptNodeKind::Lambda {
        return true;
    }
    let count: usize = tree.child_count(node);
    let mut index: usize = 0;
    while index < count
        invariant
            index <= count == tree.child_count_of(node as int),
            tree.is_linked(),
            tree.has(node as int),
            forall|before: int|
                #![trigger tree.child_of(node as int, before)]
                0 <= before < index ==> !contains_lambda(*tree, tree.child_of(node as int, before)),
        decreases count - index,
    {
        proof {
            tree.lemma_child(node as int, index as int);
        }
        if contains_lambda_node(tree, tree.child(node, index)) {
            return true;
        }
        index = index + 1;
    }
    false
}

/// True where one of the children from `from` up to, not including, `to` is a
/// lambda or contains one.
pub open spec fn any_child_contains_lambda(
    tree: SyntaxTree,
    node: int,
    from: int,
    to: int,
) -> bool {
    exists|index: int|
        #![trigger tree.child_of(node, index)]
        from <= index < to && contains_lambda(tree, tree.child_of(node, index))
}

/// Tells whether one of the children in a range is a lambda or contains one.
pub fn has_child_with_lambda(tree: &SyntaxTree, node: usize, from: usize, to: usize) -> (found:
    bool)
    requires
        tree.is_linked(),
        tree.has(node as int),
        to <= tree.child_count_of(node as int),
    ensures
        found == any_child_contains_lambda(*tree, node as int, from as int, to as int),
{
    let mut index: usize = from;
    while index < to
        invariant
            from <= index,
            tree.is_linked(),
            tree.has(node as int),
            to <= tree.child_count_of(node as int),
            forall|before: int|
                #![trigger tree.child_of(node as int, before)]
                from <= before < index ==> !contains_lambda(
                    *tree,
                    tree.child_of(node as int, before),
                ),
        decreases to - index,
    {
        proof {
            tree.lemma_child(node as int, index as int);
        }
        if contains_lambda_node(tree, tree.child(node, index)) {
            return true;
        }
        index = index + 1;
    }
    false
}

/// True where a node is a lambda or a conditional expression, or contains one.
pub open spec fn contains_forced_multiline(tree: SyntaxTree, node: int) -> bool
    decreases tree.size() - node,
{
    ||| tree.kind_of(node) == GDScriptNodeKind::Lambda
    ||| tree.kind_of(node) == GDScriptNodeKind::Condition
    ||| exists|index: int|
        #![trigger tree.child_of(node, index)]
        0 <= index < tree.child_count_of(node) && node < tree.child_of(node, index) < tree.size()
            && contains_forced_multiline(tree, tree.child_of(node, index))
}

/// Tells whether a node is a lambda or a conditional expression, or contains
/// one.
pub fn contains_forced_multiline_node(tree: &SyntaxTree, node: usize) -> (found: bool)
    requires
        tree.is_linked(),
        tree.has(node as int),
    ensures
        found == contains_forced_multiline(*tree, node as int),
    decreases tree.size() - node,
{
    if matches!(tree.kind(node), GDScriptNodeKind::Lambda | GDScriptNodeKind::Condition) {
        return true;
    }
    let count: usize = tree.child_count(node);
    let mut index: usize = 0;
    while index < count
        invariant
            index <= count == tree.child_count_of(node as int),
            tree.is_linked(),
            tree.has(node as int),
            forall|before: int|
                #![trigger tree.child_of(node as int, before)]
                0 <= before < index ==> !contains_forced_multiline(
                    *tree,
                    tree.child_of(node as int, before),
                ),
        decreases count - index,
    {
        proof {
            tree.lemma_child(node as int, index as int);
        }
        if contains_forced_multiline_node(tree, tree.child(node, index)) {
            return true;
        }
        index = index + 1;
    }
    false
}

/// True where a node has a parent of a kind.
pub open spec fn parent_is(tree: SyntaxTree, node: int, kind: GDScriptNodeKind) -> bool {
    tree.parent_of(node) matches Some(parent) && tree.kind_of(parent as int) == kind
}

/// Tells whether a node has a parent of a kind.
pub fn has_parent_of_kind(tree: &SyntaxTree, node: usize, kind: GDScriptNodeKind) -> (found: bool)
    requires
        tree.is_linked(),
        tree.has(node as int),
    ensures
        found == parent_is(*tree, node as int, kind),
{
    proof {
        tree.lemma_links(node as int);
    }
    match tree.parent(node) {
        Some(parent) => tree.kind(parent) == kind,
        None => false,
    }
}

/// True where an expression belongs to a delimited expression that indents its
/// contents once, without a statement or a lambda between the two.
pub open spec fn is_in_single_indent_container(tree: SyntaxTree, node: int) -> bool
    decreases node,
{
    match tree.parent_of(node) {
        Some(parent) => if parent >= node {
            false
        } else if is_single_indent_container(tree.kind_of(parent as int)) {
            true
        } else if ends_expression_search(tree.kind_of(parent as int)) {
            false
        } else {
            is_in_single_indent_container(tree, parent as int)
        },
        None => false,
    }
}

/// Tells whether an expression belongs to a delimited expression that indents
/// its contents once.
pub fn expression_is_in_single_indent_container(tree: &SyntaxTree, node: usize) -> (found: bool)
    requires
        tree.is_linked(),
        tree.has(node as int),
    ensures
        found == is_in_single_indent_container(*tree, node as int),
    decreases node,
{
    proof {
        tree.lemma_links(node as int);
    }
    match tree.parent(node) {
        Some(parent) => {
            let kind = tree.kind(parent);
            if is_single_indent_container(kind) {
                true
            } else if ends_expression_search(kind) {
                false
            } else {
                expression_is_in_single_indent_container(tree, parent)
            }
        },
        None => false,
    }
}

/// True where a chain of calls may break without a backslash.
pub open spec fn allows_implicit_continuation(tree: SyntaxTree, node: int) -> bool
    decreases node,
{
    match tree.parent_of(node) {
        Some(parent) => if parent >= node {
            false
        } else if allows_line_breaks_inside(tree.kind_of(parent as int)) {
            true
        } else if ends_chain_search(tree.kind_of(parent as int)) {
            false
        } else {
            allows_implicit_continuation(tree, parent as int)
        },
        None => false,
    }
}

/// Tells whether a chain of calls may break without a backslash.
pub fn chain_allows_implicit_continuation(tree: &SyntaxTree, node: usize) -> (allowed: bool)
    requires
        tree.is_linked(),
        tree.has(node as int),
    ensures
        allowed == allows_implicit_continuation(*tree, node as int),
    decreases node,
{
    proof {
        tree.lemma_links(node as int);
    }
    match tree.parent(node) {
        Some(parent) => {
            let kind = tree.kind(parent);
            if allows_line_breaks_inside(kind) {
                true
            } else if ends_chain_search(kind) {
                false
            } else {
                chain_allows_implicit_continuation(tree, parent)
            }
        },
        None => false,
    }
}

/// True where a node stands somewhere inside of parentheses.
pub open spec fn is_inside_parentheses(tree: SyntaxTree, node: int) -> bool
    decreases node,
{
    match tree.parent_of(node) {
        Some(parent) => parent < node && (tree.kind_of(parent as int)
            == GDScriptNodeKind::ParenthesizedExpression || is_inside_parentheses(
            tree,
            parent as int,
        )),
        None => false,
    }
}

/// Tells whether a node stands somewhere inside of parentheses.
pub fn is_inside_parenthesized_expression(tree: &SyntaxTree, node: usize) -> (found: bool)
    requires
        tree.is_linked(),
        tree.has(node as int),
    ensures
        found == is_inside_parentheses(*tree, node as int),
    decreases node,
{
    proof {
        tree.lemma_links(node as int);
    }
    match tree.parent(node) {
        Some(parent) => tree.kind(parent) == GDScriptNodeKind::ParenthesizedExpression
            || is_inside_parenthesized_expression(tree, parent),
        None => false,
    }
}

/// True where a node has a child with a name.
pub open spec fn has_child_named(tree: SyntaxTree, node: int, name: Seq<char>) -> bool {
    exists|index: int|
        #![trigger tree.child_of(node, index)]
        0 <= index < tree.child_count_of(node) && tree.name_of(tree.child_of(node, index)) == name
}

/// Tells whether a node has a child with a name.
pub fn has_child_with_name(tree: &SyntaxTree, node: usize, name: &str) -> (found: bool)
    requires
        tree.is_linked(),
        tree.has(node as int),
    ensures
        found == has_child_named(*tree, node as int, name@),
{
    let count: usize = tree.child_count(node);
    let mut index: usize = 0;
    while index < count
        invariant
            index <= count == tree.child_count_of(node as int),
            tree.is_linked(),
            tree.has(node as int),
            forall|before: int|
                #![trigger tree.child_of(node as int, before)]
                0 <= before < index ==> tree.name_of(tree.child_of(node as int, before)) != name@,
        decreases count - index,
    {
        proof {
            tree.lemma_child(node as int, index as int);
        }
        if same_text(tree.name(tree.child(node, index)), name) {
            return true;
        }
        index = index + 1;
    }
    false
}

/// True of the arguments of a subscript that spells a type, as in a type hint
/// or on the right side of `as`. Such a type cannot break.
pub open spec fn is_type_subscript(tree: SyntaxTree, node: int) -> bool
    decreases node,
{
    match tree.parent_of(node) {
        Some(parent) => if parent >= node {
            false
        } else if tree.kind_of(parent as int) == GDScriptNodeKind::Type {
            true
        } else if tree.kind_of(parent as int) == GDScriptNodeKind::BinaryOperator {
            has_child_named(tree, parent as int, "as"@)
        } else if tree.kind_of(parent as int) == GDScriptNodeKind::Subscript || tree.kind_of(
            parent as int,
        ) == GDScriptNodeKind::Other {
            is_type_subscript(tree, parent as int)
        } else {
            false
        },
        None => false,
    }
}

/// Tells whether the arguments of a subscript spell a type.
pub fn subscript_is_type(tree: &SyntaxTree, node: usize) -> (found: bool)
    requires
        tree.is_linked(),
        tree.has(node as int),
    ensures
        found == is_type_subscript(*tree, node as int),
    decreases node,
{
    proof {
        tree.lemma_links(node as int);
    }
    match tree.parent(node) {
        Some(parent) => {
            let kind = tree.kind(parent);
            if kind == GDScriptNodeKind::Type {
                true
            } else if kind == GDScriptNodeKind::BinaryOperator {
                has_child_with_name(tree, parent, "as")
            } else if kind == GDScriptNodeKind::Subscript || kind == GDScriptNodeKind::Other {
                subscript_is_type(tree, parent)
            } else {
                false
            }
        },
        None => false,
    }
}

/// True of a child of a binary expression that belongs to the operator: it
/// stands between the operands and is no comment.
pub open spec fn is_operator_part(tree: SyntaxTree, node: int, index: int) -> bool {
    match (tree.left_of(node), tree.right_of(node)) {
        (Some(left), Some(right)) => {
            let child = tree.child_of(node, index);
            tree.start_of(child) >= tree.end_of(left as int) && tree.end_of(child) <= tree.start_of(
                right as int,
            ) && tree.kind_of(child) != GDScriptNodeKind::Comment
        },
        _ => false,
    }
}

/// The first child from `from` on that belongs to the operator of a binary
/// expression.
pub open spec fn operator_from(tree: SyntaxTree, node: int, from: int) -> Option<int>
    decreases tree.child_count_of(node) - from,
{
    if from >= tree.child_count_of(node) {
        None
    } else if is_operator_part(tree, node, from) {
        Some(tree.child_of(node, from))
    } else {
        operator_from(tree, node, from + 1)
    }
}

/// The operator of a binary expression.
pub open spec fn operator_of(tree: SyntaxTree, node: int) -> Option<int> {
    operator_from(tree, node, 0)
}

/// Tells whether a child of a binary expression belongs to the operator.
pub fn child_is_operator_part(tree: &SyntaxTree, node: usize, index: usize) -> (found: bool)
    requires
        tree.is_linked(),
        tree.has(node as int),
        index < tree.child_count_of(node as int),
    ensures
        found == is_operator_part(*tree, node as int, index as int),
{
    proof {
        tree.lemma_links(node as int);
        tree.lemma_child(node as int, index as int);
    }
    match (tree.left(node), tree.right(node)) {
        (Some(left), Some(right)) => {
            let child: usize = tree.child(node, index);
            tree.start_byte(child) >= tree.end_byte(left) && tree.end_byte(child)
                <= tree.start_byte(right) && tree.kind(child) != GDScriptNodeKind::Comment
        },
        _ => false,
    }
}

/// Finds the operator of a binary expression. It is an unnamed child between
/// the operands, where comments can stand as well.
pub fn binary_operator_token(tree: &SyntaxTree, node: usize) -> (token: Option<usize>)
    requires
        tree.is_linked(),
        tree.has(node as int),
    ensures
        match token {
            Some(operator) => operator_of(*tree, node as int) == Some(operator as int) && node
                < operator < tree.size(),
            None => operator_of(*tree, node as int) is None,
        },
{
    let count: usize = tree.child_count(node);
    let mut index: usize = 0;
    while index < count
        invariant
            index <= count == tree.child_count_of(node as int),
            tree.is_linked(),
            tree.has(node as int),
            operator_of(*tree, node as int) == operator_from(*tree, node as int, index as int),
        decreases count - index,
    {
        if child_is_operator_part(tree, node, index) {
            proof {
                tree.lemma_child(node as int, index as int);
            }
            return Some(tree.child(node, index));
        }
        index = index + 1;
    }
    None
}

/// The source of the operator of a binary expression, empty where it has none.
pub open spec fn operator_text(input: ParseInput, node: int) -> Seq<u8> {
    match operator_of(*input.tree, node) {
        Some(operator) => input.text_of(operator),
        None => Seq::empty(),
    }
}

/// Tells whether the operator of a binary expression is `expected`, which is
/// not empty.
pub fn operator_is(input: &ParseInput, node: usize, expected: &str) -> (same: bool)
    requires
        input.tree_fits(),
        input.tree.has(node as int),
        expected.spec_bytes().len() > 0,
    ensures
        same == (operator_text(*input, node as int) == expected.spec_bytes()),
{
    match binary_operator_token(input.tree, node) {
        Some(operator) => {
            proof {
                input.lemma_node(operator as int);
            }
            range_is(
                input.source.as_bytes(),
                input.tree.start_byte(operator),
                input.tree.end_byte(operator),
                expected.as_bytes(),
            )
        },
        None => false,
    }
}

/// The number of newlines between a child and the one before it.
pub open spec fn newlines_before_child(input: ParseInput, node: int, index: int) -> int {
    newline_count(
        input.bytes(),
        input.tree.end_of(input.tree.child_of(node, index - 1)),
        input.tree.start_of(input.tree.child_of(node, index)),
    ) as int
}

/// Counts the newlines between a child and the one before it.
pub fn count_newlines_before_child(input: &ParseInput, node: usize, index: usize) -> (count: usize)
    requires
        input.tree_fits(),
        input.tree.has(node as int),
        0 < index < input.tree.child_count_of(node as int),
    ensures
        count == newlines_before_child(*input, node as int, index as int),
{
    proof {
        input.lemma_siblings(node as int, index - 1, index as int);
    }
    count_newlines(
        input.source,
        input.tree.end_byte(input.tree.child(node, index - 1)),
        input.tree.start_byte(input.tree.child(node, index)),
    )
}

/// True where the comment at `index` is the last of a block of comments on
/// consecutive lines right above a definition, or where the comment on the next
/// line is.
pub open spec fn comment_leads_definition(input: ParseInput, node: int, index: int) -> bool
    decreases input.tree.child_count_of(node) - index,
{
    if index + 1 >= input.tree.child_count_of(node) || newlines_before_child(input, node, index + 1)
        != 1 {
        false
    } else if input.tree.child_kind_of(node, index + 1) == GDScriptNodeKind::Comment {
        comment_leads_definition(input, node, index + 1)
    } else {
        let next = input.tree.child_kind_of(node, index + 1);
        is_declaration(next) && needs_two_blank_lines(next)
    }
}

/// True where the block of comments that starts at `index` stands right above a
/// definition, and so documents it.
pub open spec fn block_leads_definition(input: ParseInput, node: int, index: int) -> bool {
    index < input.tree.child_count_of(node) && input.tree.child_kind_of(node, index)
        == GDScriptNodeKind::Comment && comment_leads_definition(input, node, index)
}

/// Tells whether the block of comments that starts at `start_index` stands
/// right above a definition.
pub fn comment_block_leads_definition(input: &ParseInput, node: usize, start_index: usize) -> (leads:
    bool)
    requires
        input.tree_fits(),
        input.tree.has(node as int),
    ensures
        leads == block_leads_definition(*input, node as int, start_index as int),
{
    let count: usize = input.tree.child_count(node);
    if start_index >= count || input.tree.child_kind(node, start_index)
        != GDScriptNodeKind::Comment {
        return false;
    }
    let mut index: usize = start_index;
    while index + 1 < count
        invariant
            index < count == input.tree.child_count_of(node as int),
            input.tree_fits(),
            input.tree.has(node as int),
            comment_leads_definition(*input, node as int, start_index as int)
                == comment_leads_definition(*input, node as int, index as int),
            block_leads_definition(*input, node as int, start_index as int)
                == comment_leads_definition(*input, node as int, start_index as int),
        decreases count - index,
    {
        if count_newlines_before_child(input, node, index + 1) != 1 {
            return false;
        }
        let next = input.tree.child_kind(node, index + 1);
        if next != GDScriptNodeKind::Comment {
            return is_declaration(next) && needs_two_blank_lines(next);
        }
        index = index + 1;
    }
    false
}

/// The index of the first comment of the block on consecutive lines that the
/// comment at `index` belongs to.
pub open spec fn first_of_comment_block(input: ParseInput, node: int, index: int) -> int
    decreases index,
{
    if index > 0 && input.tree.child_kind_of(node, index - 1) == GDScriptNodeKind::Comment
        && newlines_before_child(input, node, index) == 1 {
        first_of_comment_block(input, node, index - 1)
    } else {
        index
    }
}

/// True where the block of comments in front of `index` stands right below a
/// definition, and so belongs to it.
pub open spec fn previous_block_follows_definition(
    input: ParseInput,
    node: int,
    index: int,
) -> bool {
    0 < index <= input.tree.child_count_of(node) && input.tree.child_kind_of(node, index - 1)
        == GDScriptNodeKind::Comment && {
        let first = first_of_comment_block(input, node, index - 1);
        first > 0 && needs_two_blank_lines(input.tree.child_kind_of(node, first - 1))
            && newlines_before_child(input, node, first) == 1
    }
}

/// Tells whether the block of comments in front of `start_index` stands right
/// below a definition.
pub fn previous_comment_block_follows_definition(
    input: &ParseInput,
    node: usize,
    start_index: usize,
) -> (follows: bool)
    requires
        input.tree_fits(),
        input.tree.has(node as int),
    ensures
        follows == previous_block_follows_definition(*input, node as int, start_index as int),
{
    if start_index == 0 || start_index > input.tree.child_count(node) {
        return false;
    }
    let mut first: usize = start_index - 1;
    if input.tree.child_kind(node, first) != GDScriptNodeKind::Comment {
        return false;
    }
    while first > 0 && input.tree.child_kind(node, first - 1) == GDScriptNodeKind::Comment
        && count_newlines_before_child(input, node, first) == 1
        invariant
            first < start_index <= input.tree.child_count_of(node as int),
            input.tree_fits(),
            input.tree.has(node as int),
            first_of_comment_block(*input, node as int, start_index - 1) == first_of_comment_block(
                *input,
                node as int,
                first as int,
            ),
        decreases first,
    {
        first = first - 1;
    }
    first > 0 && needs_two_blank_lines(input.tree.child_kind(node, first - 1))
        && count_newlines_before_child(input, node, first) == 1
}

/// True where the first child from `from` on that is no annotation is a
/// definition.
pub open spec fn annotations_lead_definition(tree: SyntaxTree, node: int, from: int) -> bool
    decreases tree.child_count_of(node) - from,
{
    if from >= tree.child_count_of(node) {
        false
    } else if tree.child_kind_of(node, from) == GDScriptNodeKind::Annotation {
        annotations_lead_definition(tree, node, from + 1)
    } else {
        needs_two_blank_lines(tree.child_kind_of(node, from))
    }
}

/// Tells whether the first child from `start_index` on that is no annotation is
/// a definition. An annotation takes over the blank lines of what it annotates.
pub fn next_declaration_after_annotations_needs_two_blank_lines(
    tree: &SyntaxTree,
    node: usize,
    start_index: usize,
) -> (needs: bool)
    requires
        tree.is_linked(),
        tree.has(node as int),
    ensures
        needs == annotations_lead_definition(*tree, node as int, start_index as int),
{
    let count: usize = tree.child_count(node);
    let mut index: usize = start_index;
    while index < count
        invariant
            count == tree.child_count_of(node as int),
            tree.is_linked(),
            tree.has(node as int),
            annotations_lead_definition(*tree, node as int, start_index as int)
                == annotations_lead_definition(*tree, node as int, index as int),
        decreases count - index,
    {
        let kind = tree.child_kind(node, index);
        if kind != GDScriptNodeKind::Annotation {
            return needs_two_blank_lines(kind);
        }
        index = index + 1;
    }
    false
}

/// The last of the first `to` children that is named.
pub open spec fn last_named_child_before(tree: SyntaxTree, node: int, to: int) -> Option<int>
    decreases to,
{
    if to <= 0 {
        None
    } else if tree.is_named_of(tree.child_of(node, to - 1)) {
        Some(tree.child_of(node, to - 1))
    } else {
        last_named_child_before(tree, node, to - 1)
    }
}

/// Finds the last named child.
pub fn last_named_child(tree: &SyntaxTree, node: usize) -> (last: Option<usize>)
    requires
        tree.is_linked(),
        tree.has(node as int),
    ensures
        match last {
            Some(child) => last_named_child_before(
                *tree,
                node as int,
                tree.child_count_of(node as int),
            ) == Some(child as int) && node < child < tree.size(),
            None => last_named_child_before(
                *tree,
                node as int,
                tree.child_count_of(node as int),
            ) is None,
        },
{
    let mut to: usize = tree.child_count(node);
    while to > 0
        invariant
            to <= tree.child_count_of(node as int),
            tree.is_linked(),
            tree.has(node as int),
            last_named_child_before(*tree, node as int, tree.child_count_of(node as int))
                == last_named_child_before(*tree, node as int, to as int),
        decreases to,
    {
        to = to - 1;
        proof {
            tree.lemma_child(node as int, to as int);
        }
        if tree.is_named(tree.child(node, to)) {
            return Some(tree.child(node, to));
        }
    }
    None
}

/// The body of a lambda.
pub open spec fn lambda_body(tree: SyntaxTree, lambda: int) -> Option<int> {
    match first_child_of_kind(
        tree,
        lambda,
        0,
        tree.child_count_of(lambda),
        GDScriptNodeKind::Body,
    ) {
        Some(index) => Some(tree.child_of(lambda, index)),
        None => None,
    }
}

/// Finds the body of a lambda.
pub fn find_lambda_body(tree: &SyntaxTree, lambda: usize) -> (found: Option<usize>)
    requires
        tree.is_linked(),
        tree.has(lambda as int),
    ensures
        match found {
            Some(body) => lambda_body(*tree, lambda as int) == Some(body as int) && lambda < body
                < tree.size(),
            None => lambda_body(*tree, lambda as int) is None,
        },
{
    match find_child_of_kind(tree, lambda, 0, tree.child_count(lambda), GDScriptNodeKind::Body) {
        Some(index) => {
            proof {
                tree.lemma_child(lambda as int, index as int);
            }
            Some(tree.child(lambda, index))
        },
        None => None,
    }
}

/// True where the last thing in the body of a lambda is a comment.
pub open spec fn lambda_ends_with_comment(tree: SyntaxTree, lambda: int) -> bool {
    lambda_body(tree, lambda) matches Some(body) && tree.child_count_of(body) > 0
        && tree.child_kind_of(body, tree.child_count_of(body) - 1) == GDScriptNodeKind::Comment
}

/// Tells whether the last thing in the body of a lambda is a comment.
pub fn is_lambda_body_ending_with_comment(tree: &SyntaxTree, lambda: usize) -> (found: bool)
    requires
        tree.is_linked(),
        tree.has(lambda as int),
    ensures
        found == lambda_ends_with_comment(*tree, lambda as int),
{
    match find_lambda_body(tree, lambda) {
        Some(body) => {
            let count: usize = tree.child_count(body);
            count > 0 && tree.child_kind(body, count - 1) == GDScriptNodeKind::Comment
        },
        None => false,
    }
}

/// True where the last statement of a lambda is a `match` statement.
pub open spec fn lambda_ends_with_match(tree: SyntaxTree, lambda: int) -> bool {
    lambda_body(tree, lambda) matches Some(body) && last_named_child_before(
        tree,
        body,
        tree.child_count_of(body),
    ) matches Some(statement) && (tree.kind_of(statement) == GDScriptNodeKind::MatchBody
        || has_child_of_kind(tree, statement, GDScriptNodeKind::MatchBody))
}

/// Tells whether the last statement of a lambda is a `match` statement.
pub fn lambda_ends_with_match_node(tree: &SyntaxTree, lambda: usize) -> (found: bool)
    requires
        tree.is_linked(),
        tree.has(lambda as int),
    ensures
        found == lambda_ends_with_match(*tree, lambda as int),
{
    match find_lambda_body(tree, lambda) {
        Some(body) => match last_named_child(tree, body) {
            Some(statement) => tree.kind(statement) == GDScriptNodeKind::MatchBody || has_child(
                tree,
                statement,
                GDScriptNodeKind::MatchBody,
            ),
            None => false,
        },
        None => false,
    }
}

/// The node that is `steps` parents above a node.
pub open spec fn ancestor(tree: SyntaxTree, node: int, steps: nat) -> Option<int>
    decreases steps,
{
    if steps == 0 {
        Some(node)
    } else {
        match tree.parent_of(node) {
            Some(parent) => if parent < node {
                ancestor(tree, parent as int, (steps - 1) as nat)
            } else {
                None
            },
            None => None,
        }
    }
}

/// True where the node that is `steps` parents above a node is of a kind in a set.
pub open spec fn ancestor_is_among(
    tree: SyntaxTree,
    node: int,
    steps: nat,
    kinds: Set<GDScriptNodeKind>,
) -> bool {
    match ancestor(tree, node, steps) {
        Some(found) => kinds.contains(tree.kind_of(found)),
        None => false,
    }
}

/// The kinds of statements and blocks around a chain of calls.
pub open spec fn kinds_around_chains() -> Set<GDScriptNodeKind> {
    set![
        GDScriptNodeKind::Assignment,
        GDScriptNodeKind::AugmentedAssignment,
        GDScriptNodeKind::ExpressionStatement,
        GDScriptNodeKind::ReturnStatement,
        GDScriptNodeKind::Body,
    ]
}

/// The kinds between whose delimiters a chain of calls breaks without a backslash.
pub open spec fn kinds_with_delimiters() -> Set<GDScriptNodeKind> {
    set![
        GDScriptNodeKind::Array,
        GDScriptNodeKind::Dictionary,
        GDScriptNodeKind::Arguments,
        GDScriptNodeKind::SubscriptArguments,
        GDScriptNodeKind::ParenthesizedExpression,
    ]
}

/// A chain of calls goes by the nearest of the delimiters, statements and blocks
/// around it: where that has delimiters, its lines need no backslashes, and where it
/// is a statement or a block, or where there is none, they do.
pub proof fn chains_go_by_what_is_nearest(tree: SyntaxTree, node: int, steps: nat)
    requires
        steps > 0,
        forall|nearer: nat|
            #![trigger ancestor(tree, node, nearer)]
            0 < nearer < steps ==> !ancestor_is_among(
                tree,
                node,
                nearer,
                kinds_with_delimiters(),
            ) && !ancestor_is_among(tree, node, nearer, kinds_around_chains()),
    ensures
        ancestor_is_among(tree, node, steps, kinds_with_delimiters())
            ==> allows_implicit_continuation(tree, node),
        ancestor_is_among(tree, node, steps, kinds_around_chains())
            ==> !allows_implicit_continuation(tree, node),
        ancestor(tree, node, steps) is None ==> !allows_implicit_continuation(tree, node),
    decreases steps,
{
    if let Some(parent) = tree.parent_of(node) {
        if parent < node {
            let above = parent as int;
            assert(ancestor(tree, above, 0) == Some(above));
            assert(ancestor(tree, node, 1) == ancestor(tree, above, 0));
            if steps > 1 {
                assert(!ancestor_is_among(tree, node, 1, kinds_around_chains()));
                let left = (steps - 1) as nat;
                assert forall|nearer: nat|
                    #![trigger ancestor(tree, above, nearer)]
                    0 < nearer < left implies !ancestor_is_among(
                    tree,
                    above,
                    nearer,
                    kinds_with_delimiters(),
                ) && !ancestor_is_among(tree, above, nearer, kinds_around_chains()) by {
                    assert(ancestor(tree, node, nearer + 1) == ancestor(tree, above, nearer));
                    assert(!ancestor_is_among(tree, node, nearer + 1, kinds_around_chains()));
                }
                chains_go_by_what_is_nearest(tree, above, left);
                assert(ancestor(tree, node, steps) == ancestor(tree, above, left));
            }
        }
    }
}

/// The kinds of statements and blocks around an expression.
pub open spec fn kinds_around_expressions() -> Set<GDScriptNodeKind> {
    set![
        GDScriptNodeKind::Assignment,
        GDScriptNodeKind::AugmentedAssignment,
        GDScriptNodeKind::ExpressionStatement,
        GDScriptNodeKind::ReturnStatement,
        GDScriptNodeKind::Lambda,
        GDScriptNodeKind::Body,
    ]
}

/// The kinds that indent what stands between their delimiters.
pub open spec fn kinds_with_indentation() -> Set<GDScriptNodeKind> {
    set![
        GDScriptNodeKind::Array,
        GDScriptNodeKind::Dictionary,
        GDScriptNodeKind::EnumeratorList,
        GDScriptNodeKind::Parameters,
        GDScriptNodeKind::Arguments,
        GDScriptNodeKind::SubscriptArguments,
        GDScriptNodeKind::ParenthesizedExpression,
    ]
}

/// An expression goes by the nearest of the delimiters, statements and blocks
/// around it: it is inside of delimiters where that has some, and not where it is a
/// statement, a lambda or a block, or where there is none.
pub proof fn expressions_go_by_what_is_nearest(tree: SyntaxTree, node: int, steps: nat)
    requires
        steps > 0,
        forall|nearer: nat|
            #![trigger ancestor(tree, node, nearer)]
            0 < nearer < steps ==> !ancestor_is_among(
                tree,
                node,
                nearer,
                kinds_with_indentation(),
            ) && !ancestor_is_among(tree, node, nearer, kinds_around_expressions()),
    ensures
        ancestor_is_among(tree, node, steps, kinds_with_indentation())
            ==> is_in_single_indent_container(tree, node),
        ancestor_is_among(tree, node, steps, kinds_around_expressions())
            ==> !is_in_single_indent_container(tree, node),
        ancestor(tree, node, steps) is None ==> !is_in_single_indent_container(tree, node),
    decreases steps,
{
    if let Some(parent) = tree.parent_of(node) {
        if parent < node {
            let above = parent as int;
            assert(ancestor(tree, above, 0) == Some(above));
            assert(ancestor(tree, node, 1) == ancestor(tree, above, 0));
            if steps > 1 {
                assert(!ancestor_is_among(tree, node, 1, kinds_around_expressions()));
                let left = (steps - 1) as nat;
                assert forall|nearer: nat|
                    #![trigger ancestor(tree, above, nearer)]
                    0 < nearer < left implies !ancestor_is_among(
                    tree,
                    above,
                    nearer,
                    kinds_with_indentation(),
                ) && !ancestor_is_among(
                    tree,
                    above,
                    nearer,
                    kinds_around_expressions(),
                ) by {
                    assert(ancestor(tree, node, nearer + 1) == ancestor(tree, above, nearer));
                    assert(!ancestor_is_among(tree, node, nearer + 1, kinds_around_expressions()));
                }
                expressions_go_by_what_is_nearest(tree, above, left);
                assert(ancestor(tree, node, steps) == ancestor(tree, above, left));
            }
        }
    }
}

/// Parentheses around a node are found however far up they are.
pub proof fn parentheses_around_are_found(tree: SyntaxTree, node: int, steps: nat)
    requires
        steps > 0,
        ancestor_is_among(tree, node, steps, set![GDScriptNodeKind::ParenthesizedExpression]),
    ensures
        is_inside_parentheses(tree, node),
    decreases steps,
{
    if let Some(parent) = tree.parent_of(node) {
        let left = (steps - 1) as nat;
        assert(ancestor(tree, parent as int, 0) == Some(parent as int));
        assert(ancestor(tree, node, steps) == ancestor(tree, parent as int, left));
        if left > 0 {
            parentheses_around_are_found(tree, parent as int, left);
        }
    }
}

} // verus!
