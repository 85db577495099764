//! Syntax trees as plain values.
//!
//! A tree is a vector of nodes in which every node stands after its parent.
//! Nodes refer to each other by their position in that vector, and the root
//! stands at position 0.
use vstd::prelude::*;

use crate::node_kind::GDScriptNodeKind;

verus! {

/// One node of a syntax tree.
#[derive(Debug)]
pub struct SyntaxNode {
    pub kind: GDScriptNodeKind,
    /// The name that the grammar gives to the node.
    pub name: String,
    /// False for punctuation and keywords.
    pub is_named: bool,
    pub start_byte: usize,
    pub end_byte: usize,
    pub start_row: usize,
    pub end_row: usize,
    pub parent: Option<usize>,
    pub children: Vec<usize>,
    /// The child in the field `left`.
    pub left: Option<usize>,
    /// The child in the field `right`.
    pub right: Option<usize>,
}

/// A syntax tree.
#[derive(Debug)]
pub struct SyntaxTree {
    pub nodes: Vec<SyntaxNode>,
}

impl SyntaxTree {
    /// The number of nodes.
    pub open spec fn size(self) -> int {
        self.nodes@.len() as int
    }

    pub open spec fn kind_of(self, node: int) -> GDScriptNodeKind {
        self.nodes@[node].kind
    }

    pub open spec fn name_of(self, node: int) -> Seq<char> {
        self.nodes@[node].name@
    }

    pub open spec fn is_named_of(self, node: int) -> bool {
        self.nodes@[node].is_named
    }

    pub open spec fn start_of(self, node: int) -> int {
        self.nodes@[node].start_byte as int
    }

    pub open spec fn end_of(self, node: int) -> int {
        self.nodes@[node].end_byte as int
    }

    pub open spec fn start_row_of(self, node: int) -> int {
        self.nodes@[node].start_row as int
    }

    pub open spec fn end_row_of(self, node: int) -> int {
        self.nodes@[node].end_row as int
    }

    pub open spec fn parent_of(self, node: int) -> Option<usize> {
        self.nodes@[node].parent
    }

    pub open spec fn child_count_of(self, node: int) -> int {
        self.nodes@[node].children@.len() as int
    }

    /// The number of children from `index` on.
    pub open spec fn children_left(self, node: int, index: int) -> nat {
        if index < self.child_count_of(node) {
            (self.child_count_of(node) - index) as nat
        } else {
            0
        }
    }

    pub open spec fn child_of(self, node: int, index: int) -> int {
        self.nodes@[node].children@[index] as int
    }

    pub open spec fn left_of(self, node: int) -> Option<usize> {
        self.nodes@[node].left
    }

    pub open spec fn right_of(self, node: int) -> Option<usize> {
        self.nodes@[node].right
    }

    /// True where `node` is a position in the tree.
    pub open spec fn has(self, node: int) -> bool {
        0 <= node < self.size()
    }

    /// The kind of a child.
    pub open spec fn child_kind_of(self, node: int, index: int) -> GDScriptNodeKind {
        self.kind_of(self.child_of(node, index))
    }

    /// True of the children of a node.
    pub open spec fn is_child(self, node: int, position: int) -> bool {
        exists|index: int|
            #![trigger self.child_of(node, index)]
            0 <= index < self.child_count_of(node) && self.child_of(node, index) == position
    }

    /// True where the children of `node` stand after it, name it as their
    /// parent, and hold its two operands, and where its own parent stands
    /// before it.
    pub open spec fn node_is_linked(self, node: int) -> bool {
        &&& forall|index: int|
            #![trigger self.child_of(node, index)]
            0 <= index < self.child_count_of(node) ==> {
                &&& node < self.child_of(node, index) < self.size()
                &&& self.parent_of(self.child_of(node, index)) == Some(node as usize)
            }
        &&& self.parent_of(node) matches Some(parent) ==> parent < node
        &&& self.left_of(node) matches Some(left) ==> self.is_child(node, left as int)
        &&& self.right_of(node) matches Some(right) ==> self.is_child(node, right as int)
    }

    /// True where the positions in the nodes form a tree.
    pub open spec fn is_linked(self) -> bool {
        &&& self.size() > 0
        &&& forall|node: int| #![trigger self.nodes@[node]] self.has(node) ==> self.node_is_linked(node)
    }

    /// Tells whether an operand of a node, if there is one, is a child of it.
    fn holds_operand(&self, node: usize, operand: Option<usize>) -> (held: bool)
        requires
            self.has(node as int),
        ensures
            held == (operand matches Some(position) ==> self.is_child(node as int, position as int)),
    {
        match operand {
            None => true,
            Some(position) => {
                let count: usize = self.nodes[node].children.len();
                let mut index: usize = 0;
                while index < count
                    invariant
                        index <= count == self.child_count_of(node as int),
                        self.has(node as int),
                        operand == Some(position),
                        forall|before: int|
                            #![trigger self.child_of(node as int, before)]
                            0 <= before < index ==> self.child_of(node as int, before) != position,
                    decreases count - index,
                {
                    let child: usize = self.nodes[node].children[index];
                    assert(child == self.child_of(node as int, index as int));
                    if child == position {
                        return true;
                    }
                    index = index + 1;
                }
                false
            },
        }
    }

    /// Tells whether the children, the parent and the operands of a node form a
    /// tree around it.
    fn has_links(&self, node: usize) -> (linked: bool)
        requires
            self.has(node as int),
        ensures
            linked == self.node_is_linked(node as int),
    {
        let size: usize = self.nodes.len();
        let current = &self.nodes[node];
        let parent_is_before = match current.parent {
            Some(parent) => parent < node,
            None => true,
        };
        if !parent_is_before || !self.holds_operand(node, current.left) || !self.holds_operand(
            node,
            current.right,
        ) {
            return false;
        }
        let count: usize = current.children.len();
        let mut index: usize = 0;
        while index < count
            invariant
                index <= count == self.child_count_of(node as int),
                self.has(node as int),
                size == self.size(),
                forall|before: int|
                    #![trigger self.child_of(node as int, before)]
                    0 <= before < index ==> {
                        &&& node < self.child_of(node as int, before) < self.size()
                        &&& self.parent_of(self.child_of(node as int, before)) == Some(node)
                    },
            decreases count - index,
        {
            let child: usize = self.nodes[node].children[index];
            assert(child == self.child_of(node as int, index as int));
            if child <= node || child >= size {
                return false;
            }
            match self.nodes[child].parent {
                Some(parent) => {
                    if parent != node {
                        return false;
                    }
                },
                None => {
                    return false;
                },
            }
            index = index + 1;
        }
        true
    }

    /// Tells whether the positions in the nodes form a tree.
    pub fn check_links(&self) -> (linked: bool)
        ensures
            linked == self.is_linked(),
    {
        let size: usize = self.nodes.len();
        if size == 0 {
            return false;
        }
        let mut node: usize = 0;
        while node < size
            invariant
                node <= size == self.size(),
                forall|before: int|
                    #![trigger self.nodes@[before]]
                    0 <= before < node ==> self.node_is_linked(before),
            decreases size - node,
        {
            if !self.has_links(node) {
                assert(self.has(node as int) && !self.node_is_linked(node as int));
                assert(self.nodes@[node as int] == self.nodes@[node as int]);
                return false;
            }
            node = node + 1;
        }
        true
    }

    /// The number of nodes.
    pub fn len(&self) -> (count: usize)
        ensures
            count == self.size(),
    {
        self.nodes.len()
    }

    pub fn kind(&self, node: usize) -> (kind: GDScriptNodeKind)
        requires
            self.has(node as int),
        ensures
            kind == self.kind_of(node as int),
    {
        self.nodes[node].kind
    }

    pub fn name(&self, node: usize) -> (name: &str)
        requires
            self.has(node as int),
        ensures
            name@ == self.name_of(node as int),
    {
        self.nodes[node].name.as_str()
    }

    pub fn is_named(&self, node: usize) -> (named: bool)
        requires
            self.has(node as int),
        ensures
            named == self.is_named_of(node as int),
    {
        self.nodes[node].is_named
    }

    pub fn start_byte(&self, node: usize) -> (offset: usize)
        requires
            self.has(node as int),
        ensures
            offset == self.start_of(node as int),
    {
        self.nodes[node].start_byte
    }

    pub fn end_byte(&self, node: usize) -> (offset: usize)
        requires
            self.has(node as int),
        ensures
            offset == self.end_of(node as int),
    {
        self.nodes[node].end_byte
    }

    pub fn start_row(&self, node: usize) -> (row: usize)
        requires
            self.has(node as int),
        ensures
            row == self.start_row_of(node as int),
    {
        self.nodes[node].start_row
    }

    pub fn end_row(&self, node: usize) -> (row: usize)
        requires
            self.has(node as int),
        ensures
            row == self.end_row_of(node as int),
    {
        self.nodes[node].end_row
    }

    pub fn parent(&self, node: usize) -> (parent: Option<usize>)
        requires
            self.has(node as int),
        ensures
            parent == self.parent_of(node as int),
    {
        self.nodes[node].parent
    }

    pub fn child_count(&self, node: usize) -> (count: usize)
        requires
            self.has(node as int),
        ensures
            count == self.child_count_of(node as int),
    {
        self.nodes[node].children.len()
    }

    pub fn child(&self, node: usize, index: usize) -> (child: usize)
        requires
            self.has(node as int),
            index < self.child_count_of(node as int),
        ensures
            child == self.child_of(node as int, index as int),
    {
        self.nodes[node].children[index]
    }

    /// The kind of a child.
    pub fn child_kind(&self, node: usize, index: usize) -> (kind: GDScriptNodeKind)
        requires
            self.is_linked(),
            self.has(node as int),
            index < self.child_count_of(node as int),
        ensures
            kind == self.child_kind_of(node as int, index as int),
    {
        proof {
            self.lemma_child(node as int, index as int);
        }
        self.kind(self.child(node, index))
    }

    pub fn left(&self, node: usize) -> (left: Option<usize>)
        requires
            self.has(node as int),
        ensures
            left == self.left_of(node as int),
    {
        self.nodes[node].left
    }

    pub fn right(&self, node: usize) -> (right: Option<usize>)
        requires
            self.has(node as int),
        ensures
            right == self.right_of(node as int),
    {
        self.nodes[node].right
    }

    /// A child is a position in the tree, after its parent.
    pub proof fn lemma_child(self, node: int, index: int)
        requires
            self.is_linked(),
            self.has(node),
            0 <= index < self.child_count_of(node),
        ensures
            node < self.child_of(node, index) < self.size(),
            self.has(self.child_of(node, index)),
            self.parent_of(self.child_of(node, index)) == Some(node as usize),
    {
        assert(self.node_is_linked(node));
    }

    /// A parent is a position in the tree, before its children, and the two
    /// operands of a node are children of it.
    pub proof fn lemma_links(self, node: int)
        requires
            self.is_linked(),
            self.has(node),
        ensures
            self.parent_of(node) matches Some(parent) ==> parent < node && self.has(parent as int),
            self.left_of(node) matches Some(left) ==> node < left && self.has(left as int)
                && self.is_child(node, left as int),
            self.right_of(node) matches Some(right) ==> node < right && self.has(right as int)
                && self.is_child(node, right as int),
    {
        assert(self.node_is_linked(node));
    }
}

} // verus!
