//! Reads the trees of `tree_sitter` into plain values.
use vstd::prelude::*;

use crate::node_kind::{kind_for_name, GDScriptNodeKind};
use crate::syntax_tree::{SyntaxNode, SyntaxTree};

verus! {

/// A tree of the parser.
#[verifier::external_type_specification]
#[verifier::external_body]
pub struct ExTree(tree_sitter::Tree);

/// A node of a tree of the parser.
#[verifier::external_type_specification]
#[verifier::external_body]
pub struct ExNode<'tree>(tree_sitter::Node<'tree>);

/// What a node of the parser holds.
pub struct NodeModel {
    /// The name that the grammar gives to the node.
    pub name: Seq<char>,
    pub is_named: bool,
    pub start_byte: int,
    pub end_byte: int,
    pub start_row: int,
    pub end_row: int,
    pub children: Seq<NodeModel>,
    /// The index of the first child in each field.
    pub fields: Map<Seq<char>, int>,
    /// The children that the parser counts as named.
    pub named_children: Seq<NodeModel>,
}

/// What a node of the parser holds, with everything below it.
pub uninterp spec fn node_model(node: tree_sitter::Node) -> NodeModel;

/// What the root of a tree of the parser holds, with everything below it.
pub uninterp spec fn tree_model(tree: tree_sitter::Tree) -> NodeModel;

/// `tree_sitter::Tree::root_node` returns the root of the tree.
pub assume_specification[ tree_sitter::Tree::root_node ](tree: &tree_sitter::Tree) -> (root:
    tree_sitter::Node<'_>)
    ensures
        node_model(root) == tree_model(*tree),
;

/// `tree_sitter::Node::kind` returns the name that the grammar gives to the
/// node.
pub assume_specification<'tree>[ tree_sitter::Node::<'tree>::kind ](
    node: &tree_sitter::Node<'tree>,
) -> (name: &'static str)
    ensures
        name@ == node_model(*node).name,
;

/// `tree_sitter::Node::is_named` tells whether the node is a named rule of the
/// grammar, and not a string in it.
pub assume_specification<'tree>[ tree_sitter::Node::<'tree>::is_named ](
    node: &tree_sitter::Node<'tree>,
) -> (is_named: bool)
    ensures
        is_named == node_model(*node).is_named,
;

/// `tree_sitter::Node::start_byte` returns the offset where the node starts.
pub assume_specification<'tree>[ tree_sitter::Node::<'tree>::start_byte ](
    node: &tree_sitter::Node<'tree>,
) -> (offset: usize)
    ensures
        offset == node_model(*node).start_byte,
;

/// `tree_sitter::Node::end_byte` returns the offset where the node ends.
pub assume_specification<'tree>[ tree_sitter::Node::<'tree>::end_byte ](
    node: &tree_sitter::Node<'tree>,
) -> (offset: usize)
    ensures
        offset == node_model(*node).end_byte,
;

/// `tree_sitter::Node::child_count` returns the number of children, which the
/// parser keeps in 32 bits.
pub assume_specification<'tree>[ tree_sitter::Node::<'tree>::child_count ](
    node: &tree_sitter::Node<'tree>,
) -> (count: usize)
    ensures
        count == node_model(*node).children.len(),
        count <= u32::MAX,
;

/// `tree_sitter::Node::child` returns the child at an index, counted from zero,
/// and nothing where there are fewer children.
pub assume_specification<'tree>[ tree_sitter::Node::<'tree>::child ](
    node: &tree_sitter::Node<'tree>,
    i: u32,
) -> (child: Option<tree_sitter::Node<'tree>>)
    ensures
        match child {
            Some(found) => i < node_model(*node).children.len() && node_model(found)
                == node_model(*node).children[i as int],
            None => i >= node_model(*node).children.len(),
        },
;

/// `tree_sitter::Node::named_child_count` returns the number of named children,
/// which the parser keeps in 32 bits.
pub assume_specification<'tree>[ tree_sitter::Node::<'tree>::named_child_count ](
    node: &tree_sitter::Node<'tree>,
) -> (count: usize)
    ensures
        count == node_model(*node).named_children.len(),
        count <= u32::MAX,
;

/// `tree_sitter::Node::named_child` returns the named child at an index, counted
/// from zero. Nothing is said of an index behind the last one: where a string of
/// the grammar stands for a rule, the parser can go on into what is below it.
pub assume_specification<'tree>[ tree_sitter::Node::<'tree>::named_child ](
    node: &tree_sitter::Node<'tree>,
    i: u32,
) -> (child: Option<tree_sitter::Node<'tree>>)
    ensures
        match child {
            Some(found) => i < node_model(*node).named_children.len() ==> node_model(found)
                == node_model(*node).named_children[i as int],
            None => i >= node_model(*node).named_children.len(),
        },
;

/// `tree_sitter::Node::child_by_field_name` returns the first child in a field,
/// and nothing where no child stands in it. This tells whether it is the child
/// at an index; nodes are equal where they are the same node of a tree.
#[verifier::external_body]
fn is_first_in_field(node: &tree_sitter::Node, field: &str, index: u32) -> (found: bool)
    requires
        index < node_model(*node).children.len(),
    ensures
        found == (node_model(*node).fields.contains_key(field@) && node_model(*node).fields[field@]
            == index),
{
    node.child_by_field_name(field) == node.child(index)
}

/// `tree_sitter::Node::start_position` returns the row and the column where the
/// node starts. This is the row.
#[verifier::external_body]
fn start_row(node: &tree_sitter::Node) -> (row: usize)
    ensures
        row == node_model(*node).start_row,
{
    node.start_position().row
}

/// `tree_sitter::Node::end_position` returns the row and the column where the
/// node ends. This is the row.
#[verifier::external_body]
fn end_row(node: &tree_sitter::Node) -> (row: usize)
    ensures
        row == node_model(*node).end_row,
{
    node.end_position().row
}

/// The position of the first child in a field, where it is one of the first
/// `count` children.
pub open spec fn field_position(
    children: Seq<usize>,
    fields: Map<Seq<char>, int>,
    field: Seq<char>,
    count: int,
) -> Option<usize> {
    if fields.contains_key(field) && 0 <= fields[field] < count {
        Some(children[fields[field]])
    } else {
        None
    }
}

/// True where a node of a syntax tree holds what a node of the parser holds, but
/// for what is below it.
pub open spec fn node_holds(node: SyntaxNode, model: NodeModel) -> bool {
    &&& node.name@ == model.name
    &&& node.kind == kind_for_name(model.name)
    &&& node.is_named == model.is_named
    &&& node.start_byte == model.start_byte
    &&& node.end_byte == model.end_byte
    &&& node.start_row == model.start_row
    &&& node.end_row == model.end_row
    &&& node.children@.len() == model.children.len()
    &&& node.left == field_position(
        node.children@,
        model.fields,
        "left"@,
        model.children.len() as int,
    )
    &&& node.right == field_position(
        node.children@,
        model.fields,
        "right"@,
        model.children.len() as int,
    )
}

/// True where a node of a syntax tree holds what a node of the parser holds,
/// with everything below it.
pub open spec fn holds(nodes: Seq<SyntaxNode>, position: int, model: NodeModel) -> bool
    decreases model, 0int,
{
    &&& 0 <= position < nodes.len()
    &&& node_holds(nodes[position], model)
    &&& forall|index: int|
        #![trigger model.children[index]]
        0 <= index < model.children.len() ==> holds_child(
            nodes,
            position,
            nodes[position].children@[index] as int,
            model.children[index],
        )
}

/// True where a node below another one holds what a node of the parser holds.
pub open spec fn holds_child(
    nodes: Seq<SyntaxNode>,
    parent: int,
    position: int,
    model: NodeModel,
) -> bool
    decreases model, 1int,
{
    parent < position && holds(nodes, position, model)
}

/// True of a path, from a node down by the indices of children, to a node of the
/// parser.
pub open spec fn is_path(model: NodeModel, path: Seq<int>) -> bool
    decreases path.len(),
{
    path.len() > 0 ==> 0 <= path[0] < model.children.len() && is_path(
        model.children[path[0]],
        path.skip(1),
    )
}

/// The node of the parser at the end of a path.
pub open spec fn model_at(model: NodeModel, path: Seq<int>) -> NodeModel
    decreases path.len(),
{
    if path.len() == 0 {
        model
    } else {
        model_at(model.children[path[0]], path.skip(1))
    }
}

/// The node of a syntax tree at the end of a path.
pub open spec fn position_at(nodes: Seq<SyntaxNode>, position: int, path: Seq<int>) -> int
    decreases path.len(),
{
    if path.len() == 0 {
        position
    } else {
        position_at(nodes, nodes[position].children@[path[0]] as int, path.skip(1))
    }
}

/// A tree that was read holds every node of the parser, where the parser has it,
/// with its name and kind, where it starts and ends, and its two operands.
pub proof fn read_trees_hold_every_node(
    nodes: Seq<SyntaxNode>,
    position: int,
    model: NodeModel,
    path: Seq<int>,
)
    requires
        holds(nodes, position, model),
        is_path(model, path),
    ensures
        ({
            let at = position_at(nodes, position, path);
            let found = model_at(model, path);
            &&& position <= at < nodes.len()
            &&& nodes[at].name@ == found.name
            &&& nodes[at].kind == kind_for_name(found.name)
            &&& nodes[at].is_named == found.is_named
            &&& nodes[at].start_byte == found.start_byte && nodes[at].end_byte == found.end_byte
            &&& nodes[at].start_row == found.start_row && nodes[at].end_row == found.end_row
            &&& nodes[at].children@.len() == found.children.len()
            &&& nodes[at].left == if found.fields.contains_key("left"@) && 0
                <= found.fields["left"@] < found.children.len() {
                Some(nodes[at].children@[found.fields["left"@]])
            } else {
                None
            }
            &&& nodes[at].right == if found.fields.contains_key("right"@) && 0
                <= found.fields["right"@] < found.children.len() {
                Some(nodes[at].children@[found.fields["right"@]])
            } else {
                None
            }
        }),
    decreases path.len(),
{
    if path.len() > 0 {
        let child = nodes[position].children@[path[0]] as int;
        assert(model.children[path[0]] == model.children[path[0]]);
        assert(holds_child(nodes, position, child, model.children[path[0]]));
        read_trees_hold_every_node(nodes, child, model.children[path[0]], path.skip(1));
    }
}

/// What a node holds does not depend on what stands before it, nor on what is
/// added behind.
proof fn lemma_holds_is_stable(
    before: Seq<SyntaxNode>,
    after: Seq<SyntaxNode>,
    position: int,
    model: NodeModel,
)
    requires
        holds(before, position, model),
        before.len() <= after.len(),
        forall|i: int| position <= i < before.len() ==> before[i] == after[i],
    ensures
        holds(after, position, model),
    decreases model,
{
    assert(before[position] == after[position]);
    assert forall|index: int|
        #![trigger model.children[index]]
        0 <= index < model.children.len() implies holds_child(
        after,
        position,
        after[position].children@[index] as int,
        model.children[index],
    ) by {
        assert(holds_child(
            before,
            position,
            before[position].children@[index] as int,
            model.children[index],
        ));
        lemma_holds_is_stable(
            before,
            after,
            before[position].children@[index] as int,
            model.children[index],
        );
    }
}

/// The links of a node do not depend on what is added behind.
proof fn lemma_links_are_stable(before: SyntaxTree, after: SyntaxTree, node: int)
    requires
        before.has(node),
        before.node_is_linked(node),
        before.size() <= after.size(),
        forall|i: int| #![trigger after.nodes@[i]] node <= i < before.size() ==> before.nodes@[i] == after.nodes@[i],
    ensures
        after.node_is_linked(node),
{
    assert(after.nodes@[node] == before.nodes@[node]);
    assert forall|index: int|
        #![trigger after.child_of(node, index)]
        0 <= index < after.child_count_of(node) implies {
        &&& node < after.child_of(node, index) < after.size()
        &&& after.parent_of(after.child_of(node, index)) == Some(node as usize)
    } by {
        assert(before.child_of(node, index) == after.child_of(node, index));
        let child = before.child_of(node, index);
        assert(after.nodes@[child] == before.nodes@[child]);
    }
    lemma_operands_are_stable(before, after, node);
}

/// The operands of a node stay children of it.
proof fn lemma_operands_are_stable(before: SyntaxTree, after: SyntaxTree, node: int)
    requires
        before.nodes@[node] == after.nodes@[node],
    ensures
        forall|position: int|
            before.is_child(node, position) ==> #[trigger] after.is_child(node, position),
{
    assert forall|position: int| before.is_child(node, position) implies #[trigger] after.is_child(
        node,
        position,
    ) by {
        let index = choose|index: int|
            #![trigger before.child_of(node, index)]
            0 <= index < before.child_count_of(node) && before.child_of(node, index) == position;
        assert(after.child_of(node, index) == position);
    }
}

/// Copies a text.
fn copy_text(text: &str) -> (copy: String)
    ensures
        copy@ == text@,
{
    let mut copy = String::new();
    copy.append(text);
    assert(copy@ =~= text@);
    copy
}

/// Adds a node of the parser, and everything below it, to a tree.
fn read_node(node: &tree_sitter::Node, parent: Option<usize>, tree: &mut SyntaxTree) -> (position:
    usize)
    requires
        parent matches Some(above) ==> above < old(tree).size(),
    ensures
        position == old(tree).size(),
        position < final(tree).size(),
        forall|i: int|
            #![trigger final(tree).nodes@[i]]
            0 <= i < position ==> final(tree).nodes@[i] == old(tree).nodes@[i],
        final(tree).parent_of(position as int) == parent,
        forall|i: int|
            #![trigger final(tree).nodes@[i]]
            position <= i < final(tree).size() ==> final(tree).node_is_linked(i),
        holds(final(tree).nodes@, position as int, node_model(*node)),
    decreases node_model(*node),
{
    let ghost model = node_model(*node);
    let position: usize = tree.nodes.len();
    // Holds the place of the node until its children are read.
    tree.nodes.push(
        SyntaxNode {
            kind: GDScriptNodeKind::Other,
            name: String::new(),
            is_named: false,
            start_byte: 0,
            end_byte: 0,
            start_row: 0,
            end_row: 0,
            parent,
            children: Vec::new(),
            left: None,
            right: None,
        },
    );
    let mut children: Vec<usize> = Vec::new();
    let mut left: Option<usize> = None;
    let mut right: Option<usize> = None;
    let count: usize = node.child_count();
    let mut index: usize = 0;
    while index < count
        invariant
            index <= count == model.children.len(),
            count <= u32::MAX,
            model == node_model(*node),
            position == old(tree).size(),
            position < tree.size(),
            forall|i: int|
                #![trigger tree.nodes@[i]]
                0 <= i < position ==> tree.nodes@[i] == old(tree).nodes@[i],
            forall|i: int|
                #![trigger tree.nodes@[i]]
                position < i < tree.size() ==> tree.node_is_linked(i),
            children@.len() == index,
            forall|k: int|
                #![trigger children@[k]]
                0 <= k < index ==> {
                    &&& position < children@[k] < tree.size()
                    &&& tree.parent_of(children@[k] as int) == Some(position)
                    &&& holds(tree.nodes@, children@[k] as int, model.children[k])
                },
            left == field_position(children@, model.fields, "left"@, index as int),
            right == field_position(children@, model.fields, "right"@, index as int),
        decreases count - index,
    {
        let ghost before = *tree;
        let ghost earlier = children@;
        match node.child(index as u32) {
            Some(child) => {
                let added: usize = read_node(&child, Some(position), tree);
                children.push(added);
                proof {
                    assert forall|i: int|
                        #![trigger tree.nodes@[i]]
                        position < i < tree.size() implies tree.node_is_linked(i) by {
                        if i < added {
                            lemma_links_are_stable(before, *tree, i);
                        }
                    }
                    assert forall|k: int| #![trigger children@[k]] 0 <= k < index + 1 implies {
                        &&& position < children@[k] < tree.size()
                        &&& tree.parent_of(children@[k] as int) == Some(position)
                        &&& holds(tree.nodes@, children@[k] as int, model.children[k])
                    } by {
                        if k < index {
                            assert(children@[k] == earlier[k]);
                            assert(tree.nodes@[earlier[k] as int]
                                == before.nodes@[earlier[k] as int]);
                            lemma_holds_is_stable(
                                before.nodes@,
                                tree.nodes@,
                                earlier[k] as int,
                                model.children[k],
                            );
                        }
                    }
                    assert(children@ =~= earlier.push(added));
                }
                if is_first_in_field(node, "left", index as u32) {
                    left = Some(added);
                }
                if is_first_in_field(node, "right", index as u32) {
                    right = Some(added);
                }
            },
            None => {},
        }
        index = index + 1;
    }
    let ghost built = *tree;
    let name = node.kind();
    let closed = SyntaxNode {
        kind: GDScriptNodeKind::from_name(name),
        name: copy_text(name),
        is_named: node.is_named(),
        start_byte: node.start_byte(),
        end_byte: node.end_byte(),
        start_row: start_row(node),
        end_row: end_row(node),
        parent,
        children,
        left,
        right,
    };
    tree.nodes.set(position, closed);
    proof {
        assert forall|i: int|
            #![trigger tree.nodes@[i]]
            position <= i < tree.size() implies tree.node_is_linked(i) by {
            if i > position {
                lemma_links_are_stable(built, *tree, i);
            } else {
                assert forall|k: int|
                    #![trigger tree.child_of(position as int, k)]
                    0 <= k < tree.child_count_of(position as int) implies {
                    &&& position < tree.child_of(position as int, k) < tree.size()
                    &&& tree.parent_of(tree.child_of(position as int, k)) == Some(position)
                } by {
                    assert(tree.child_of(position as int, k) == children@[k]);
                }
                if left is Some {
                    assert(tree.child_of(position as int, model.fields["left"@]) == left->0);
                }
                if right is Some {
                    assert(tree.child_of(position as int, model.fields["right"@]) == right->0);
                }
            }
        }
        assert forall|k: int|
            #![trigger model.children[k]]
            0 <= k < model.children.len() implies holds_child(
            tree.nodes@,
            position as int,
            tree.nodes@[position as int].children@[k] as int,
            model.children[k],
        ) by {
            assert(tree.nodes@[position as int].children@[k] == children@[k]);
            lemma_holds_is_stable(
                built.nodes@,
                tree.nodes@,
                children@[k] as int,
                model.children[k],
            );
        }
    }
    position
}

/// Reads a tree of the parser.
pub fn read_tree(source: &tree_sitter::Tree) -> (tree: SyntaxTree)
    ensures
        tree.is_linked(),
        holds(tree.nodes@, 0, tree_model(*source)),
{
    let mut tree = SyntaxTree { nodes: Vec::new() };
    let root = source.root_node();
    read_node(&root, None, &mut tree);
    tree
}

} // verus!
