//! What the formatter works on: the source code, its syntax tree, and the
//! options of the user.
use vstd::prelude::*;
use vstd::string::StringSliceAdditionalSpecFns;
use vstd::utf8::is_char_boundary;

use crate::node_kind::GDScriptNodeKind;
use crate::reorder::{DeclarationKind, ReorderItem, ReorderPlan};
use crate::string_literal::{delimiters_fit, has_room_for_delimiters, slice_text, QuoteStyle};
use crate::syntax_tree::SyntaxTree;

verus! {

/// A range of the source between a `# fmt: off` and a `# fmt: on` comment, as
/// byte offsets.
#[derive(Clone, Copy, Debug, PartialEq, Eq, Structural)]
pub struct RegionWithDisabledFormatting {
    pub start: usize,
    pub end: usize,
}

/// Everything that the formatter reads.
#[derive(Debug)]
pub struct ParseInput<'a> {
    pub source: &'a str,
    pub tree: &'a SyntaxTree,
    pub disabled_regions: Vec<RegionWithDisabledFormatting>,
    /// The number of blank lines around functions and classes.
    pub blank_lines_around_definitions: u16,
    /// The number of indents of a line that continues the one above it.
    pub continuation_indent_level: u16,
    pub quote_style: QuoteStyle,
    /// Whether to write the declarations in the order of `reorder_plan`.
    pub reorder_code: bool,
    pub reorder_plan: ReorderPlan,
}

/// True of the kinds whose quotes can be rewritten.
pub open spec fn is_string_kind(kind: GDScriptNodeKind) -> bool {
    kind == GDScriptNodeKind::String || kind == GDScriptNodeKind::StringName || kind
        == GDScriptNodeKind::NodePath
}

impl<'a> ParseInput<'a> {
    /// The source as bytes.
    pub open spec fn bytes(self) -> Seq<u8> {
        self.source.spec_bytes()
    }

    /// The source of a node.
    pub open spec fn text_of(self, node: int) -> Seq<u8> {
        self.bytes().subrange(self.tree.start_of(node), self.tree.end_of(node))
    }

    /// True where a node covers a range of the source.
    pub open spec fn is_in_source(self, node: int) -> bool {
        self.tree.start_of(node) <= self.tree.end_of(node) <= self.bytes().len()
    }

    /// True where the children of a node follow each other in the source.
    pub open spec fn children_are_in_order(self, node: int) -> bool {
        forall|k: int, l: int|
            #![trigger self.tree.child_of(node, k), self.tree.child_of(node, l)]
            0 <= k < l < self.tree.child_count_of(node) ==> self.tree.end_of(
                self.tree.child_of(node, k),
            ) <= self.tree.start_of(self.tree.child_of(node, l))
    }

    /// True where a string literal whose quotes may be rewritten has room for
    /// delimiters.
    pub open spec fn delimiters_fit_if_string(self, node: int) -> bool {
        is_string_kind(self.tree.kind_of(node)) && self.tree.child_count_of(node) > 0
            && self.quote_style != QuoteStyle::Preserve ==> {
            &&& is_char_boundary(self.bytes(), self.tree.start_of(node))
            &&& is_char_boundary(self.bytes(), self.tree.end_of(node))
            &&& has_room_for_delimiters(self.text_of(node), self.quote_style)
        }
    }

    /// True where the tree fits the source.
    pub open spec fn tree_fits(self) -> bool {
        &&& self.tree.is_linked()
        &&& self.bytes().len() < usize::MAX
        &&& forall|node: int|
            #![trigger self.tree.nodes@[node]]
            self.tree.has(node) ==> {
                &&& self.is_in_source(node)
                &&& self.children_are_in_order(node)
                &&& self.delimiters_fit_if_string(node)
            }
    }

    /// The node at an index among the children of the root.
    pub open spec fn top_level(self, index: int) -> Option<int> {
        if 0 <= index < self.tree.child_count_of(0) {
            Some(self.tree.child_of(0, index))
        } else {
            None
        }
    }

    /// Where the declaration of a reorder item starts.
    pub open spec fn item_start(self, item: ReorderItem) -> int {
        match self.top_level(item.child_index as int) {
            Some(child) => self.tree.start_of(child),
            None => 0,
        }
    }

    /// Where the declaration of a reorder item ends.
    pub open spec fn item_end(self, item: ReorderItem) -> int {
        match self.top_level(item.child_index as int) {
            Some(child) => self.tree.end_of(child),
            None => 0,
        }
    }

    /// Where the text starts that follows a child attached before a
    /// declaration.
    pub open spec fn after_attached(self, item: ReorderItem, index: int) -> int {
        let attached = item.child_indices_attached_before_declaration@;
        if index + 1 < attached.len() {
            match self.top_level(attached[index + 1] as int) {
                Some(child) => self.tree.start_of(child),
                None => self.item_start(item),
            }
        } else {
            self.item_start(item)
        }
    }

    /// True where what is attached before a declaration stands before it, and
    /// what is attached after it stands behind it.
    pub open spec fn item_is_in_order(self, item: ReorderItem) -> bool {
        &&& item.classification != DeclarationKind::Docstring ==> forall|index: int|
            #![trigger item.child_indices_attached_before_declaration@[index]]
            0 <= index < item.child_indices_attached_before_declaration@.len() ==> (self.top_level(
                item.child_indices_attached_before_declaration@[index] as int,
            ) matches Some(child) ==> self.tree.end_of(child) <= self.after_attached(item, index))
        &&& forall|index: int|
            #![trigger item.child_indices_attached_after_declaration@[index]]
            0 <= index < item.child_indices_attached_after_declaration@.len() ==> (self.top_level(
                item.child_indices_attached_after_declaration@[index] as int,
            ) matches Some(child) ==> self.item_end(item) <= self.tree.start_of(child))
    }

    /// True where declarations are written in the order of the plan. They are
    /// not where formatting is disabled somewhere, as that would move code into
    /// or out of the disabled regions.
    pub open spec fn follows_plan(self) -> bool {
        self.reorder_code && self.disabled_regions@.len() == 0
    }

    /// True where the formatter can work on the input.
    pub open spec fn wf(self) -> bool {
        &&& self.tree_fits()
        &&& self.follows_plan() ==> forall|index: int|
            #![trigger self.reorder_plan.items@[index]]
            0 <= index < self.reorder_plan.items@.len() ==> self.item_is_in_order(
                self.reorder_plan.items@[index],
            )
    }

    /// A node of a well-formed input covers a range of the source.
    pub proof fn lemma_node(self, node: int)
        requires
            self.tree_fits(),
            self.tree.has(node),
        ensures
            self.is_in_source(node),
            self.children_are_in_order(node),
            self.delimiters_fit_if_string(node),
    {
        assert(self.tree.nodes@[node] == self.tree.nodes@[node]);
    }

    /// A script can be laid out where its tree is linked, every node lies in the
    /// source, and children follow each other, as long as quotes stay as they are
    /// and no plan is followed.
    pub proof fn scripts_can_be_laid_out(self)
        requires
            self.tree.is_linked(),
            self.source.spec_bytes().len() < usize::MAX,
            self.quote_style == QuoteStyle::Preserve,
            !self.reorder_code || self.disabled_regions@.len() > 0,
            forall|node: int|
                #![trigger self.tree.nodes@[node]]
                0 <= node < self.tree.nodes@.len() ==> {
                    &&& self.tree.nodes@[node].start_byte <= self.tree.nodes@[node].end_byte
                        <= self.source.spec_bytes().len()
                    &&& forall|k: int, l: int|
                        #![trigger self.tree.child_of(node, k), self.tree.child_of(node, l)]
                        0 <= k < l < self.tree.child_count_of(node) ==> self.tree.end_of(
                            self.tree.child_of(node, k),
                        ) <= self.tree.start_of(self.tree.child_of(node, l))
                },
        ensures
            self.wf(),
    {
    }

    /// Of two siblings, the first ends before the second starts.
    pub proof fn lemma_siblings(self, node: int, k: int, l: int)
        requires
            self.tree_fits(),
            self.tree.has(node),
            0 <= k < l < self.tree.child_count_of(node),
        ensures
            node < self.tree.child_of(node, k) < self.tree.size(),
            node < self.tree.child_of(node, l) < self.tree.size(),
            self.tree.end_of(self.tree.child_of(node, k)) <= self.tree.start_of(
                self.tree.child_of(node, l),
            ) <= self.tree.end_of(self.tree.child_of(node, l)) <= self.bytes().len(),
            self.tree.start_of(self.tree.child_of(node, k)) <= self.tree.end_of(
                self.tree.child_of(node, k),
            ),
    {
        self.tree.lemma_child(node, k);
        self.tree.lemma_child(node, l);
        self.lemma_node(node);
        self.lemma_node(self.tree.child_of(node, k));
        self.lemma_node(self.tree.child_of(node, l));
    }

    /// Tells whether a node covers a range of the source.
    fn check_range(&self, node: usize) -> (fits: bool)
        requires
            self.tree.has(node as int),
        ensures
            fits == self.is_in_source(node as int),
    {
        let length: usize = self.source.as_bytes().len();
        self.tree.start_byte(node) <= self.tree.end_byte(node) && self.tree.end_byte(node) <= length
    }

    /// Tells whether the children of a node follow each other in the source.
    fn check_order(&self, node: usize) -> (ordered: bool)
        requires
            self.tree.is_linked(),
            self.tree.has(node as int),
        ensures
            ordered == self.children_are_in_order(node as int),
    {
        let count: usize = self.tree.child_count(node);
        let mut latest_end: usize = 0;
        let mut index: usize = 0;
        while index < count
            invariant
                index <= count == self.tree.child_count_of(node as int),
                self.tree.is_linked(),
                self.tree.has(node as int),
                latest_end == 0 || exists|k: int|
                    0 <= k < index && latest_end == self.tree.end_of(
                        #[trigger] self.tree.child_of(node as int, k),
                    ),
                forall|k: int|
                    #![trigger self.tree.child_of(node as int, k)]
                    0 <= k < index ==> self.tree.end_of(self.tree.child_of(node as int, k))
                        <= latest_end,
                forall|k: int, l: int|
                    #![trigger self.tree.child_of(node as int, k), self.tree.child_of(node as int, l)]
                    0 <= k < l < index ==> self.tree.end_of(self.tree.child_of(node as int, k))
                        <= self.tree.start_of(self.tree.child_of(node as int, l)),
            decreases count - index,
        {
            proof {
                self.tree.lemma_child(node as int, index as int);
            }
            let child: usize = self.tree.child(node, index);
            if self.tree.start_byte(child) < latest_end {
                return false;
            }
            if self.tree.end_byte(child) > latest_end {
                latest_end = self.tree.end_byte(child);
            }
            index = index + 1;
        }
        true
    }

    /// Tells whether a string literal whose quotes may be rewritten has room for
    /// delimiters.
    fn check_quotes(&self, node: usize) -> (fits: bool)
        requires
            self.tree.has(node as int),
            self.is_in_source(node as int),
        ensures
            fits == self.delimiters_fit_if_string(node as int),
    {
        let kind = self.tree.kind(node);
        let is_string = kind == GDScriptNodeKind::String || kind == GDScriptNodeKind::StringName
            || kind == GDScriptNodeKind::NodePath;
        if !is_string || self.tree.child_count(node) == 0 || self.quote_style
            == QuoteStyle::Preserve {
            return true;
        }
        let start: usize = self.tree.start_byte(node);
        let end: usize = self.tree.end_byte(node);
        if !self.source.is_char_boundary(start) || !self.source.is_char_boundary(end) {
            return false;
        }
        delimiters_fit(slice_text(self.source, start, end), self.quote_style)
    }

    /// Tells whether the tree fits the source.
    pub fn check_tree(&self) -> (fits: bool)
        ensures
            fits == self.tree_fits(),
    {
        let length: usize = self.source.as_bytes().len();
        if length == usize::MAX || !self.tree.check_links() {
            return false;
        }
        let count: usize = self.tree.len();
        let mut node: usize = 0;
        while node < count
            invariant
                node <= count == self.tree.size(),
                self.tree.is_linked(),
                forall|before: int|
                    #![trigger self.tree.nodes@[before]]
                    0 <= before < node ==> {
                        &&& self.is_in_source(before)
                        &&& self.children_are_in_order(before)
                        &&& self.delimiters_fit_if_string(before)
                    },
            decreases count - node,
        {
            if !self.check_range(node) || !self.check_order(node) || !self.check_quotes(node) {
                assert(self.tree.nodes@[node as int] == self.tree.nodes@[node as int]);
                return false;
            }
            node = node + 1;
        }
        true
    }

    /// Tells whether the text behind a node reaches up to an offset.
    fn ends_before(&self, index: usize, offset: usize) -> (ordered: bool)
        requires
            self.tree_fits(),
        ensures
            ordered == (self.top_level(index as int) matches Some(child) ==> self.tree.end_of(child)
                <= offset),
    {
        if index < self.tree.child_count(0) {
            proof {
                self.tree.lemma_child(0, index as int);
            }
            self.tree.end_byte(self.tree.child(0, index)) <= offset
        } else {
            true
        }
    }

    /// Where a node among the children of the root starts, or `otherwise`.
    fn top_level_start(&self, index: usize, otherwise: usize) -> (start: usize)
        requires
            self.tree_fits(),
        ensures
            start == match self.top_level(index as int) {
                Some(child) => self.tree.start_of(child),
                None => otherwise as int,
            },
    {
        if index < self.tree.child_count(0) {
            proof {
                self.tree.lemma_child(0, index as int);
            }
            self.tree.start_byte(self.tree.child(0, index))
        } else {
            otherwise
        }
    }

    /// Where the declaration of an item ends.
    fn declaration_end(&self, item: &ReorderItem) -> (end: usize)
        requires
            self.tree_fits(),
        ensures
            end == self.item_end(*item),
    {
        if item.child_index < self.tree.child_count(0) {
            proof {
                self.tree.lemma_child(0, item.child_index as int);
            }
            self.tree.end_byte(self.tree.child(0, item.child_index))
        } else {
            0
        }
    }

    /// Tells whether what is attached to a declaration stands where it should.
    fn check_item(&self, item: &ReorderItem) -> (ordered: bool)
        requires
            self.tree_fits(),
        ensures
            ordered == self.item_is_in_order(*item),
    {
        let declaration_start: usize = self.top_level_start(item.child_index, 0);
        let declaration_end: usize = self.declaration_end(item);
        let before = &item.child_indices_attached_before_declaration;
        let after = &item.child_indices_attached_after_declaration;
        if item.classification != DeclarationKind::Docstring {
            let mut index: usize = 0;
            while index < before.len()
                invariant
                    index <= before@.len(),
                    *before == item.child_indices_attached_before_declaration,
                    self.tree_fits(),
                    declaration_start == self.item_start(*item),
                    item.classification != DeclarationKind::Docstring,
                    forall|k: int|
                        #![trigger before@[k]]
                        0 <= k < index ==> (self.top_level(before@[k] as int) matches Some(child)
                            ==> self.tree.end_of(child) <= self.after_attached(*item, k)),
                decreases before@.len() - index,
            {
                let next_start: usize = if index + 1 < before.len() {
                    self.top_level_start(before[index + 1], declaration_start)
                } else {
                    declaration_start
                };
                assert(next_start == self.after_attached(*item, index as int));
                if !self.ends_before(before[index], next_start) {
                    return false;
                }
                index = index + 1;
            }
        }
        let mut index: usize = 0;
        while index < after.len()
            invariant
                index <= after@.len(),
                *after == item.child_indices_attached_after_declaration,
                self.tree_fits(),
                declaration_end == self.item_end(*item),
                forall|k: int|
                    #![trigger after@[k]]
                    0 <= k < index ==> (self.top_level(after@[k] as int) matches Some(child)
                        ==> self.item_end(*item) <= self.tree.start_of(child)),
            decreases after@.len() - index,
        {
            if self.top_level_start(after[index], declaration_end) < declaration_end {
                assert(self.top_level(after@[index as int] as int) is Some);
                return false;
            }
            index = index + 1;
        }
        true
    }

    /// Tells whether the formatter can work on the input.
    pub fn is_well_formed(&self) -> (formed: bool)
        ensures
            formed == self.wf(),
    {
        if !self.check_tree() {
            return false;
        }
        if !self.reorders() {
            return true;
        }
        let items = &self.reorder_plan.items;
        let mut index: usize = 0;
        while index < items.len()
            invariant
                index <= items@.len(),
                *items == self.reorder_plan.items,
                self.tree_fits(),
                self.follows_plan(),
                forall|before: int|
                    #![trigger self.reorder_plan.items@[before]]
                    0 <= before < index ==> self.item_is_in_order(
                        self.reorder_plan.items@[before],
                    ),
            decreases items@.len() - index,
        {
            if !self.check_item(&items[index]) {
                assert(!self.item_is_in_order(self.reorder_plan.items@[index as int]));
                return false;
            }
            index = index + 1;
        }
        true
    }

    /// The kind of a node.
    pub fn kind(&self, node: usize) -> (kind: GDScriptNodeKind)
        requires
            self.tree.has(node as int),
        ensures
            kind == self.tree.kind_of(node as int),
    {
        self.tree.kind(node)
    }

    /// Tells whether declarations are written in the order of the plan.
    pub fn reorders(&self) -> (reorders: bool)
        ensures
            reorders == self.follows_plan(),
    {
        self.reorder_code && self.disabled_regions.len() == 0
    }

    /// Tells whether reordering was asked for and is left out, because
    /// formatting is disabled somewhere.
    pub fn skips_reordering(&self) -> (skips: bool)
        ensures
            skips == (self.reorder_code && !self.follows_plan()),
    {
        self.reorder_code && self.disabled_regions.len() > 0
    }
}

} // verus!
