//! Compares the structure of two syntax trees, as before and after formatting.
//!
//! Formatting changes the tree of a script in ways that do not change what the
//! script means. Both trees are brought into a normal form without these
//! differences:
//!
//! 1. An annotation in front of a declaration may stand on a line of its own,
//!    as a sibling of the declaration, or on its line, as a child of it.
//! 2. `class_name Foo extends Bar` may be split into two statements.
//! 3. Parentheses may stand around an expression, so that it can wrap.
use vstd::prelude::*;

use crate::node_kind::{kind_for_name, GDScriptNodeKind};
use crate::tree_reader::{node_model, tree_model, NodeModel};

verus! {

/// The structure of a syntax tree: kinds, and named nodes only.
#[derive(Debug)]
pub struct StructureNode {
    pub kind: GDScriptNodeKind,
    pub children: Vec<StructureNode>,
}

/// The structure of a syntax tree, as mathematical values.
pub struct Shape {
    pub kind: GDScriptNodeKind,
    pub children: Seq<Shape>,
}

/// What a structure holds.
pub open spec fn shape(node: StructureNode) -> Shape
    decreases node,
{
    Shape { kind: node.kind, children: shapes(node.children@) }
}

/// What several structures hold.
pub open spec fn shapes(nodes: Seq<StructureNode>) -> Seq<Shape>
    decreases nodes,
{
    if nodes.len() == 0 {
        Seq::empty()
    } else {
        shapes(nodes.drop_last()).push(shape(nodes[nodes.len() - 1]))
    }
}

/// The structure of what a node of the parser holds.
pub open spec fn model_shape(model: NodeModel) -> Shape
    decreases model,
{
    Shape { kind: kind_for_name(model.name), children: model_shapes(model.named_children) }
}

/// The structures of what several nodes of the parser hold.
pub open spec fn model_shapes(models: Seq<NodeModel>) -> Seq<Shape>
    decreases models,
{
    if models.len() == 0 {
        Seq::empty()
    } else {
        model_shapes(models.drop_last()).push(model_shape(models[models.len() - 1]))
    }
}

/// True of the declarations that annotations can become a part of.
pub open spec fn kind_is_annotatable(kind: GDScriptNodeKind) -> bool {
    matches!(
        kind,
        GDScriptNodeKind::Variable
            | GDScriptNodeKind::ExportVariable
            | GDScriptNodeKind::OnReadyVariable
            | GDScriptNodeKind::Function
            | GDScriptNodeKind::Constructor
    )
}

/// True of annotations and lists of them.
pub open spec fn kind_is_annotation_like(kind: GDScriptNodeKind) -> bool {
    kind == GDScriptNodeKind::Annotation || kind == GDScriptNodeKind::Annotations
}

/// The kind that stands for all kinds of variables, and every other kind.
pub open spec fn canonical_kind(kind: GDScriptNodeKind) -> GDScriptNodeKind {
    if kind == GDScriptNodeKind::ExportVariable || kind == GDScriptNodeKind::OnReadyVariable {
        GDScriptNodeKind::Variable
    } else {
        kind
    }
}

/// The number of annotations at the start of a list of siblings.
pub open spec fn annotation_run(siblings: Seq<Shape>) -> nat
    decreases siblings.len(),
{
    if siblings.len() > 0 && kind_is_annotation_like(siblings[0].kind) {
        1 + annotation_run(siblings.skip(1))
    } else {
        0
    }
}

/// True of a `class_name` statement that holds an `extends` part.
pub open spec fn holds_extends(node: Shape) -> bool {
    node.kind == GDScriptNodeKind::ClassName && exists|i: int|
        #![trigger node.children[i]]
        0 <= i < node.children.len() && node.children[i].kind == GDScriptNodeKind::Extends
}

/// The first of some siblings of a kind.
pub open spec fn first_of_kind(siblings: Seq<Shape>, kind: GDScriptNodeKind) -> int
    decreases siblings.len(),
{
    if siblings.len() == 0 || siblings[0].kind == kind {
        0
    } else {
        1 + first_of_kind(siblings.skip(1), kind)
    }
}

/// The normal form of a node. Parentheses around a single expression are not
/// there.
pub open spec fn normalized(node: Shape) -> Shape
    decreases node, 0int,
{
    if node.kind == GDScriptNodeKind::ParenthesizedExpression && node.children.len() == 1 {
        normalized(node.children[0])
    } else {
        Shape { kind: canonical_kind(node.kind), children: normalized_siblings(node.children) }
    }
}

/// The normal forms of siblings, one by one.
pub open spec fn normalized_each(siblings: Seq<Shape>) -> Seq<Shape>
    decreases siblings, 0int,
{
    if siblings.len() == 0 {
        Seq::empty()
    } else {
        seq![normalized(siblings[0])] + normalized_each(siblings.skip(1))
    }
}

/// The normal forms of siblings, one by one, without those of a kind.
pub open spec fn normalized_without(siblings: Seq<Shape>, kind: GDScriptNodeKind) -> Seq<Shape>
    decreases siblings, 0int,
{
    if siblings.len() == 0 {
        Seq::empty()
    } else if siblings[0].kind == kind {
        normalized_without(siblings.skip(1), kind)
    } else {
        seq![normalized(siblings[0])] + normalized_without(siblings.skip(1), kind)
    }
}

/// The normal forms of the first `count` siblings, which are annotations. A
/// list of annotations counts as the annotations in it.
pub open spec fn normalized_annotations(siblings: Seq<Shape>, count: nat) -> Seq<Shape>
    decreases siblings, 0int,
{
    if siblings.len() == 0 || count == 0 {
        Seq::empty()
    } else {
        (if siblings[0].kind == GDScriptNodeKind::Annotations {
            normalized_inner(siblings[0])
        } else {
            seq![normalized(siblings[0])]
        }) + normalized_annotations(siblings.skip(1), (count - 1) as nat)
    }
}

/// The normal forms of the children of a node, one by one.
pub open spec fn normalized_inner(node: Shape) -> Seq<Shape>
    decreases node, 0int,
{
    normalized_each(node.children)
}

/// True of a declaration with a list of annotations as its first child.
pub open spec fn has_own_annotations(declaration: Shape) -> bool {
    declaration.children.len() > 0 && declaration.children[0].kind == GDScriptNodeKind::Annotations
}

/// The annotations of a declaration.
pub open spec fn own_annotations(declaration: Shape) -> Seq<Shape> {
    if has_own_annotations(declaration) {
        declaration.children[0].children
    } else {
        Seq::empty()
    }
}

/// The children of a declaration behind its annotations.
pub open spec fn behind_annotations(declaration: Shape) -> Seq<Shape> {
    if has_own_annotations(declaration) {
        declaration.children.skip(1)
    } else {
        declaration.children
    }
}

/// A declaration in normal form with the given annotations in front of its own.
pub open spec fn annotated(declaration: Shape, annotations: Seq<Shape>) -> Shape {
    Shape {
        kind: declaration.kind,
        children: seq![
            Shape {
                kind: GDScriptNodeKind::Annotations,
                children: annotations + own_annotations(declaration),
            },
        ] + behind_annotations(declaration),
    }
}

/// The normal forms of a `class_name` statement and of its `extends` part.
pub open spec fn split_class_name(node: Shape) -> Seq<Shape>
    decreases node, 1int,
{
    let extends = first_of_kind(node.children, GDScriptNodeKind::Extends);
    seq![
        Shape {
            kind: GDScriptNodeKind::ClassName,
            children: normalized_without(node.children, GDScriptNodeKind::Extends),
        },
    ] + (if 0 <= extends < node.children.len() {
        seq![normalized(node.children[extends])]
    } else {
        Seq::empty()
    })
}

/// The normal forms of siblings. Annotations in front of a declaration become a
/// part of it, and `class_name` statements are split.
pub open spec fn normalized_siblings(siblings: Seq<Shape>) -> Seq<Shape>
    decreases siblings, 1int,
{
    let run = annotation_run(siblings);
    if siblings.len() == 0 {
        Seq::empty()
    } else if 0 < run < siblings.len() && kind_is_annotatable(siblings[run as int].kind) {
        seq![
            annotated(
                normalized(siblings[run as int]),
                normalized_annotations(siblings, run),
            ),
        ] + normalized_siblings(siblings.skip(run as int + 1))
    } else if holds_extends(siblings[0]) {
        split_class_name(siblings[0]) + normalized_siblings(siblings.skip(1))
    } else {
        seq![normalized(siblings[0])] + normalized_siblings(siblings.skip(1))
    }
}

/// Two trees have the same structure where their normal forms are the same.
pub open spec fn same_structure(first: Shape, second: Shape) -> bool {
    normalized(first) == normalized(second)
}

/// What several structures hold is what each of them holds.
proof fn lemma_shapes(nodes: Seq<StructureNode>)
    ensures
        shapes(nodes).len() == nodes.len(),
        forall|i: int| 0 <= i < nodes.len() ==> #[trigger] shapes(nodes)[i] == shape(nodes[i]),
    decreases nodes.len(),
{
    if nodes.len() > 0 {
        lemma_shapes(nodes.drop_last());
        assert forall|i: int| 0 <= i < nodes.len() implies #[trigger] shapes(nodes)[i] == shape(
            nodes[i],
        ) by {
            if i < nodes.len() - 1 {
                assert(shapes(nodes)[i] == shapes(nodes.drop_last())[i]);
                assert(nodes.drop_last()[i] == nodes[i]);
            }
        }
    }
}

/// One more structure holds one more shape.
proof fn lemma_push_shape(nodes: Seq<StructureNode>, node: StructureNode)
    ensures
        shapes(nodes.push(node)) == shapes(nodes).push(shape(node)),
{
    assert(nodes.push(node).drop_last() =~= nodes);
}

/// More structures hold more shapes.
proof fn lemma_append_shapes(nodes: Seq<StructureNode>, more: Seq<StructureNode>)
    ensures
        shapes(nodes + more) == shapes(nodes) + shapes(more),
    decreases more.len(),
{
    if more.len() == 0 {
        assert(nodes + more =~= nodes);
        assert(shapes(nodes) + shapes(more) =~= shapes(nodes));
    } else {
        lemma_append_shapes(nodes, more.drop_last());
        assert((nodes + more).drop_last() =~= nodes + more.drop_last());
        assert(shapes(nodes) + shapes(more) =~= (shapes(nodes) + shapes(more.drop_last())).push(
            shape(more[more.len() - 1]),
        ));
    }
}

/// The structure of a node of the parser has its kind, and the structures of its
/// named children, one for each of them and in their order.
pub proof fn structures_hold_every_named_child(model: NodeModel)
    ensures
        model_shape(model).kind == kind_for_name(model.name),
        model_shape(model).children.len() == model.named_children.len(),
        forall|i: int|
            0 <= i < model.named_children.len() ==> #[trigger] model_shape(model).children[i]
                == model_shape(model.named_children[i]),
{
    lemma_model_shapes(model.named_children);
}

/// What several nodes of the parser hold is what each of them holds.
proof fn lemma_model_shapes(models: Seq<NodeModel>)
    ensures
        model_shapes(models).len() == models.len(),
        forall|i: int|
            0 <= i < models.len() ==> #[trigger] model_shapes(models)[i] == model_shape(models[i]),
    decreases models.len(),
{
    if models.len() > 0 {
        lemma_model_shapes(models.drop_last());
        assert forall|i: int| 0 <= i < models.len() implies #[trigger] model_shapes(models)[i]
            == model_shape(models[i]) by {
            if i < models.len() - 1 {
                assert(model_shapes(models)[i] == model_shapes(models.drop_last())[i]);
                assert(models.drop_last()[i] == models[i]);
            }
        }
    }
}

/// Reads the structure of a node of the parser.
pub fn read_structure(node: &tree_sitter::Node) -> (structure: StructureNode)
    ensures
        shape(structure) == model_shape(node_model(*node)),
    decreases node_model(*node),
{
    let ghost models = node_model(*node).named_children;
    let count: usize = node.named_child_count();
    let mut children: Vec<StructureNode> = Vec::new();
    let mut index: usize = 0;
    while index < count
        invariant
            index <= count == models.len(),
            count <= u32::MAX,
            models == node_model(*node).named_children,
            children@.len() == index,
            forall|i: int|
                0 <= i < index ==> shape(#[trigger] children@[i]) == model_shape(models[i]),
        decreases count - index,
    {
        match node.named_child(index as u32) {
            Some(child) => {
                let structure = read_structure(&child);
                children.push(structure);
            },
            None => {},
        }
        index = index + 1;
    }
    proof {
        lemma_shapes(children@);
        lemma_model_shapes(models);
        assert(shapes(children@) =~= model_shapes(models));
    }
    StructureNode { kind: GDScriptNodeKind::from_name(node.kind()), children }
}

/// True of the declarations that annotations can become a part of.
fn is_annotatable_declaration(kind: GDScriptNodeKind) -> (found: bool)
    ensures
        found == kind_is_annotatable(kind),
{
    matches!(
        kind,
        GDScriptNodeKind::Variable
            | GDScriptNodeKind::ExportVariable
            | GDScriptNodeKind::OnReadyVariable
            | GDScriptNodeKind::Function
            | GDScriptNodeKind::Constructor
    )
}

/// True of annotations and lists of them.
fn is_annotation_like(kind: GDScriptNodeKind) -> (found: bool)
    ensures
        found == kind_is_annotation_like(kind),
{
    kind == GDScriptNodeKind::Annotation || kind == GDScriptNodeKind::Annotations
}

/// Brings a node into its normal form.
pub fn normalize_node(node: &StructureNode) -> (normal: StructureNode)
    ensures
        shape(normal) == normalized(shape(*node)),
    decreases *node, 3int,
{
    proof {
        lemma_shapes(node.children@);
    }
    if node.kind == GDScriptNodeKind::ParenthesizedExpression && node.children.len() == 1 {
        return normalize_node(&node.children[0]);
    }
    let kind = match node.kind {
        GDScriptNodeKind::ExportVariable | GDScriptNodeKind::OnReadyVariable => {
            GDScriptNodeKind::Variable
        },
        other => other,
    };
    StructureNode { kind, children: build_normalized_children(node) }
}

/// The number of annotations from a sibling on.
fn count_annotations(siblings: &Vec<StructureNode>, start: usize) -> (count: usize)
    requires
        start <= siblings@.len(),
    ensures
        count == annotation_run(shapes(siblings@).skip(start as int)),
        start + count <= siblings@.len(),
{
    let ghost all = shapes(siblings@);
    proof {
        lemma_shapes(siblings@);
    }
    let mut end: usize = start;
    while end < siblings.len() && is_annotation_like(siblings[end].kind)
        invariant
            start <= end <= siblings@.len(),
            all == shapes(siblings@),
            all.len() == siblings@.len(),
            forall|i: int| 0 <= i < siblings@.len() ==> #[trigger] all[i] == shape(siblings@[i]),
            annotation_run(all.skip(start as int)) == end - start + annotation_run(
                all.skip(end as int),
            ),
        decreases siblings@.len() - end,
    {
        assert(all.skip(end as int)[0] == shape(siblings@[end as int]));
        assert(all.skip(end as int).skip(1) =~= all.skip(end + 1));
        end = end + 1;
    }
    assert(end < siblings@.len() ==> all.skip(end as int)[0] == shape(siblings@[end as int]));
    end - start
}

/// Brings the children of a node into their normal forms, one by one, and adds
/// them to others.
fn normalize_inner(node: &StructureNode, out: &mut Vec<StructureNode>)
    ensures
        shapes(final(out)@) == shapes(old(out)@) + normalized_inner(shape(*node)),
    decreases *node, 0int,
{
    let ghost all = shapes(node.children@);
    let ghost before = shapes(out@);
    proof {
        lemma_shapes(node.children@);
        assert(all.skip(0) =~= all);
    }
    let mut index: usize = 0;
    while index < node.children.len()
        invariant
            index <= node.children@.len(),
            all == shapes(node.children@),
            all.len() == node.children@.len(),
            forall|i: int|
                0 <= i < node.children@.len() ==> #[trigger] all[i] == shape(node.children@[i]),
            shapes(out@) + normalized_each(all.skip(index as int)) == before + normalized_each(all),
        decreases node.children@.len() - index,
    {
        let ghost done = out@;
        let normal = normalize_node(&node.children[index]);
        out.push(normal);
        proof {
            lemma_push_shape(done, normal);
            assert(all.skip(index as int)[0] == all[index as int]);
            assert(all.skip(index as int).skip(1) =~= all.skip(index + 1));
            assert(shapes(out@) + normalized_each(all.skip(index + 1)) =~= shapes(done)
                + normalized_each(all.skip(index as int)));
        }
        index = index + 1;
    }
    proof {
        assert(normalized_each(all.skip(index as int)) =~= Seq::<Shape>::empty());
        assert(shapes(out@) =~= before + normalized_each(all));
    }
}

/// Splits a `class_name` statement from its `extends` part.
fn normalize_class_name(node: &StructureNode, out: &mut Vec<StructureNode>)
    requires
        holds_extends(shape(*node)),
    ensures
        shapes(final(out)@) == shapes(old(out)@) + split_class_name(shape(*node)),
    decreases *node, 1int,
{
    let ghost all = shapes(node.children@);
    let ghost before = shapes(out@);
    let ghost earlier = out@;
    proof {
        lemma_shapes(node.children@);
        assert(all.skip(0) =~= all);
    }
    let mut children: Vec<StructureNode> = Vec::new();
    let mut extends: Option<usize> = None;
    let mut index: usize = 0;
    assert(shapes(children@) + normalized_without(all, GDScriptNodeKind::Extends)
        =~= normalized_without(all, GDScriptNodeKind::Extends));
    while index < node.children.len()
        invariant
            index <= node.children@.len(),
            all == shapes(node.children@),
            all.len() == node.children@.len(),
            forall|i: int|
                0 <= i < node.children@.len() ==> #[trigger] all[i] == shape(node.children@[i]),
            shapes(children@) + normalized_without(
                all.skip(index as int),
                GDScriptNodeKind::Extends,
            ) == normalized_without(all, GDScriptNodeKind::Extends),
            match extends {
                Some(first) => first < index && first_of_kind(all, GDScriptNodeKind::Extends)
                    == first,
                None => first_of_kind(all, GDScriptNodeKind::Extends) == index + first_of_kind(
                    all.skip(index as int),
                    GDScriptNodeKind::Extends,
                ),
            },
        decreases node.children@.len() - index,
    {
        proof {
            assert(all.skip(index as int)[0] == all[index as int]);
            assert(all.skip(index as int).skip(1) =~= all.skip(index + 1));
        }
        if node.children[index].kind == GDScriptNodeKind::Extends {
            if extends.is_none() {
                extends = Some(index);
            }
        } else {
            let ghost done = children@;
            let normal = normalize_node(&node.children[index]);
            children.push(normal);
            proof {
                lemma_push_shape(done, normal);
                assert(shapes(children@) + normalized_without(
                    all.skip(index + 1),
                    GDScriptNodeKind::Extends,
                ) =~= shapes(done) + normalized_without(
                    all.skip(index as int),
                    GDScriptNodeKind::Extends,
                ));
            }
        }
        index = index + 1;
    }
    proof {
        assert(normalized_without(all.skip(index as int), GDScriptNodeKind::Extends)
            =~= Seq::<Shape>::empty());
        assert(shapes(children@) =~= normalized_without(all, GDScriptNodeKind::Extends));
    }
    let class_name = StructureNode { kind: GDScriptNodeKind::ClassName, children };
    out.push(class_name);
    proof {
        lemma_push_shape(earlier, class_name);
    }
    let ghost named = out@;
    match extends {
        Some(first) => {
            let normal = normalize_node(&node.children[first]);
            out.push(normal);
            proof {
                lemma_push_shape(named, normal);
            }
        },
        None => {},
    }
    assert(shapes(out@) =~= before + split_class_name(shape(*node)));
}

/// Brings annotations into their normal forms. A list of annotations counts as
/// the annotations in it.
fn normalize_annotations(node: &StructureNode, start: usize, end: usize) -> (annotations: Vec<
    StructureNode,
>)
    requires
        start <= end <= node.children@.len(),
    ensures
        shapes(annotations@) == normalized_annotations(
            shapes(node.children@).skip(start as int),
            (end - start) as nat,
        ),
    decreases *node, 1int,
{
    let ghost all = shapes(node.children@);
    proof {
        lemma_shapes(node.children@);
    }
    let ghost total = normalized_annotations(all.skip(start as int), (end - start) as nat);
    let mut annotations: Vec<StructureNode> = Vec::new();
    let mut index: usize = start;
    assert(shapes(annotations@) + total =~= total);
    while index < end
        invariant
            start <= index <= end <= node.children@.len(),
            all == shapes(node.children@),
            all.len() == node.children@.len(),
            forall|i: int|
                0 <= i < node.children@.len() ==> #[trigger] all[i] == shape(node.children@[i]),
            shapes(annotations@) + normalized_annotations(
                all.skip(index as int),
                (end - index) as nat,
            ) == total,
        decreases end - index,
    {
        let ghost done = annotations@;
        let annotation = &node.children[index];
        proof {
            assert(all.skip(index as int)[0] == shape(*annotation));
            assert(all.skip(index as int).skip(1) =~= all.skip(index + 1));
        }
        if annotation.kind == GDScriptNodeKind::Annotations {
            normalize_inner(annotation, &mut annotations);
        } else {
            let normal = normalize_node(annotation);
            annotations.push(normal);
            proof {
                lemma_push_shape(done, normal);
            }
        }
        proof {
            assert(shapes(annotations@) + normalized_annotations(
                all.skip(index + 1),
                (end - index - 1) as nat,
            ) =~= shapes(done) + normalized_annotations(
                all.skip(index as int),
                (end - index) as nat,
            ));
        }
        index = index + 1;
    }
    assert(shapes(annotations@) =~= total);
    annotations
}

/// Puts annotations in front of those of a declaration in normal form.
fn annotate(declaration: StructureNode, annotations: Vec<StructureNode>) -> (merged: StructureNode)
    ensures
        shape(merged) == annotated(shape(declaration), shapes(annotations@)),
{
    let ghost own = shape(declaration);
    let ghost given = annotations@;
    proof {
        lemma_shapes(declaration.children@);
    }
    let kind = declaration.kind;
    let mut all = annotations;
    let mut rest = declaration.children;
    if rest.len() > 0 && rest[0].kind == GDScriptNodeKind::Annotations {
        let list = rest.remove(0);
        let mut listed = list.children;
        proof {
            lemma_shapes(rest@);
            assert(shapes(rest@) =~= own.children.skip(1));
            assert(own.children[0] == shape(list));
            lemma_append_shapes(given, listed@);
        }
        all.append(&mut listed);
    }
    assert(shapes(all@) =~= shapes(given) + own_annotations(own));
    let wrapper = StructureNode { kind: GDScriptNodeKind::Annotations, children: all };
    let mut children: Vec<StructureNode> = Vec::new();
    children.push(wrapper);
    let ghost first = children@;
    let ghost more = rest@;
    children.append(&mut rest);
    proof {
        lemma_append_shapes(first, more);
        lemma_push_shape(Seq::empty(), wrapper);
        assert(first =~= Seq::<StructureNode>::empty().push(wrapper));
        assert(shapes(first) =~= seq![shape(wrapper)]);
    }
    StructureNode { kind, children }
}

/// Brings the children of a node into their normal forms.
pub fn build_normalized_children(node: &StructureNode) -> (out: Vec<StructureNode>)
    ensures
        shapes(out@) == normalized_siblings(shape(*node).children),
    decreases *node, 2int,
{
    let siblings = &node.children;
    let ghost all = shapes(siblings@);
    let ghost total = normalized_siblings(all);
    proof {
        lemma_shapes(siblings@);
        assert(all.skip(0) =~= all);
    }
    let mut out: Vec<StructureNode> = Vec::new();
    let mut index: usize = 0;
    assert(shapes(out@) + total =~= total);
    while index < siblings.len()
        invariant
            index <= siblings@.len(),
            *siblings == node.children,
            all == shapes(siblings@),
            all.len() == siblings@.len(),
            forall|i: int| 0 <= i < siblings@.len() ==> #[trigger] all[i] == shape(siblings@[i]),
            shapes(out@) + normalized_siblings(all.skip(index as int)) == total,
        decreases siblings@.len() - index,
    {
        let ghost done = out@;
        let ghost rest = all.skip(index as int);
        let run: usize = count_annotations(siblings, index);
        proof {
            assert(rest[0] == all[index as int]);
            assert(rest.skip(1) =~= all.skip(index + 1));
        }
        let end: usize = index + run;
        if run > 0 && end < siblings.len() && is_annotatable_declaration(siblings[end].kind) {
            // Annotations end up in the declaration, wherever they stood.
            let annotations = normalize_annotations(node, index, end);
            let declaration = normalize_node(&siblings[end]);
            let merged = annotate(declaration, annotations);
            out.push(merged);
            proof {
                lemma_push_shape(done, merged);
                assert(rest[run as int] == all[end as int]);
                assert(rest.skip(run + 1) =~= all.skip(end + 1));
                assert(shapes(out@) + normalized_siblings(all.skip(end + 1)) =~= shapes(done)
                    + normalized_siblings(rest));
            }
            index = end + 1;
        } else if is_class_name_with_extends(&siblings[index]) {
            normalize_class_name(&siblings[index], &mut out);
            proof {
                assert(shapes(out@) + normalized_siblings(all.skip(index + 1)) =~= shapes(done)
                    + normalized_siblings(rest));
            }
            index = index + 1;
        } else {
            let normal = normalize_node(&siblings[index]);
            out.push(normal);
            proof {
                lemma_push_shape(done, normal);
                assert(shapes(out@) + normalized_siblings(all.skip(index + 1)) =~= shapes(done)
                    + normalized_siblings(rest));
            }
            index = index + 1;
        }
    }
    proof {
        assert(normalized_siblings(all.skip(index as int)) =~= Seq::<Shape>::empty());
        assert(shapes(out@) =~= total);
    }
    out
}

/// Tells whether a node is a `class_name` statement that holds an `extends`
/// part.
fn is_class_name_with_extends(node: &StructureNode) -> (found: bool)
    ensures
        found == holds_extends(shape(*node)),
{
    let ghost all = shapes(node.children@);
    proof {
        lemma_shapes(node.children@);
    }
    if node.kind != GDScriptNodeKind::ClassName {
        return false;
    }
    let mut index: usize = 0;
    while index < node.children.len()
        invariant
            index <= node.children@.len(),
            node.kind == GDScriptNodeKind::ClassName,
            all == shapes(node.children@),
            all.len() == node.children@.len(),
            forall|i: int|
                0 <= i < node.children@.len() ==> #[trigger] all[i] == shape(node.children@[i]),
            forall|i: int|
                0 <= i < index ==> (#[trigger] all[i]).kind != GDScriptNodeKind::Extends,
        decreases node.children@.len() - index,
    {
        assert(all[index as int] == shape(node.children@[index as int]));
        if node.children[index].kind == GDScriptNodeKind::Extends {
            assert(shape(*node).children[index as int].kind == GDScriptNodeKind::Extends);
            return true;
        }
        index = index + 1;
    }
    false
}

/// Tells whether two structures hold the same.
fn is_same(first: &StructureNode, second: &StructureNode) -> (same: bool)
    ensures
        same == (shape(*first) == shape(*second)),
    decreases *first,
{
    proof {
        lemma_shapes(first.children@);
        lemma_shapes(second.children@);
    }
    if first.kind != second.kind {
        return false;
    }
    if first.children.len() != second.children.len() {
        assert(shape(*first).children.len() != shape(*second).children.len());
        return false;
    }
    let mut index: usize = 0;
    while index < first.children.len()
        invariant
            index <= first.children@.len() == second.children@.len(),
            shapes(first.children@).len() == first.children@.len(),
            shapes(second.children@).len() == second.children@.len(),
            forall|i: int|
                0 <= i < first.children@.len() ==> #[trigger] shapes(first.children@)[i] == shape(
                    first.children@[i],
                ),
            forall|i: int|
                0 <= i < second.children@.len() ==> #[trigger] shapes(second.children@)[i]
                    == shape(second.children@[i]),
            forall|i: int|
                0 <= i < index ==> #[trigger] shapes(first.children@)[i] == shapes(
                    second.children@,
                )[i],
        decreases first.children@.len() - index,
    {
        if !is_same(&first.children[index], &second.children[index]) {
            assert(shape(*first).children[index as int] != shape(*second).children[index as int]);
            return false;
        }
        assert(shapes(first.children@)[index as int] == shape(first.children@[index as int]));
        assert(shapes(second.children@)[index as int] == shape(second.children@[index as int]));
        index = index + 1;
    }
    assert(shapes(first.children@) =~= shapes(second.children@));
    true
}

/// Tells whether two structures are the same but for the differences that
/// formatting makes.
pub fn are_structures_equal(input: &StructureNode, output: &StructureNode) -> (equal: bool)
    ensures
        equal == same_structure(shape(*input), shape(*output)),
{
    is_same(&normalize_node(input), &normalize_node(output))
}

/// Tells whether two trees of the parser have the same structure but for the
/// differences that formatting makes. The table of kinds by number is not read:
/// kinds are told by name.
pub fn are_syntax_trees_structurally_equal(
    input_tree: &tree_sitter::Tree,
    output_tree: &tree_sitter::Tree,
    _lookup: &[GDScriptNodeKind; 256],
) -> (equal: bool)
    ensures
        equal == same_structure(
            model_shape(tree_model(*input_tree)),
            model_shape(tree_model(*output_tree)),
        ),
{
    let input = read_structure(&input_tree.root_node());
    let output = read_structure(&output_tree.root_node());
    are_structures_equal(&input, &output)
}

} // verus!
