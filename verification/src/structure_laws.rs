//! What comparing structures leaves out of account, and what it does not.
use vstd::prelude::*;

use crate::node_kind::GDScriptNodeKind;
use crate::verify_structure::{
    annotated, annotation_run, behind_annotations, canonical_kind, first_of_kind,
    has_own_annotations, holds_extends, kind_is_annotatable, kind_is_annotation_like, normalized,
    normalized_annotations, normalized_each, normalized_inner, normalized_siblings,
    normalized_without, own_annotations, same_structure, split_class_name, Shape,
};

verus! {

/// To have the same structure is an equivalence: it holds of a tree and itself,
/// in both directions, and from one tree over a second to a third.
pub proof fn same_structure_is_an_equivalence(first: Shape, second: Shape, third: Shape)
    ensures
        same_structure(first, first),
        same_structure(first, second) ==> same_structure(second, first),
        same_structure(first, second) && same_structure(second, third) ==> same_structure(
            first,
            third,
        ),
{
}

/// Parentheses around an expression.
pub open spec fn parenthesized(inner: Shape) -> Shape {
    Shape { kind: GDScriptNodeKind::ParenthesizedExpression, children: seq![inner] }
}

/// Parentheses around an expression are not a part of the structure.
pub proof fn parentheses_are_ignored(inner: Shape)
    ensures
        same_structure(parenthesized(inner), inner),
{
    assert(parenthesized(inner).children[0] == inner);
}

/// Variables with and without `@export` or `@onready` in their kind are one
/// kind.
pub proof fn kinds_of_variables_are_ignored(children: Seq<Shape>)
    ensures
        same_structure(
            Shape { kind: GDScriptNodeKind::ExportVariable, children },
            Shape { kind: GDScriptNodeKind::Variable, children },
        ),
        same_structure(
            Shape { kind: GDScriptNodeKind::OnReadyVariable, children },
            Shape { kind: GDScriptNodeKind::Variable, children },
        ),
{
}

/// The annotations at the start of siblings are those at the start of the
/// first part of them, where that part holds something else.
proof fn lemma_run_of_prefix(prefix: Seq<Shape>, rest: Seq<Shape>)
    requires
        prefix.len() > 0,
        !kind_is_annotation_like(prefix.last().kind),
    ensures
        annotation_run(prefix + rest) == annotation_run(prefix),
        annotation_run(prefix) < prefix.len(),
    decreases prefix.len(),
{
    assert((prefix + rest)[0] == prefix[0]);
    if kind_is_annotation_like(prefix[0].kind) {
        assert(prefix.len() > 1);
        assert((prefix + rest).skip(1) =~= prefix.skip(1) + rest);
        lemma_run_of_prefix(prefix.skip(1), rest);
    }
}

/// The normal forms of the annotations at the start of siblings do not depend on
/// what follows.
proof fn lemma_annotations_of_prefix(prefix: Seq<Shape>, rest: Seq<Shape>, count: nat)
    requires
        count <= prefix.len(),
    ensures
        normalized_annotations(prefix + rest, count) == normalized_annotations(prefix, count),
    decreases prefix.len(),
{
    if count > 0 {
        assert((prefix + rest)[0] == prefix[0]);
        assert((prefix + rest).skip(1) =~= prefix.skip(1) + rest);
        lemma_annotations_of_prefix(prefix.skip(1), rest, (count - 1) as nat);
    }
}

/// Siblings can be brought into their normal forms in two parts, unless the
/// first part ends with an annotation, which may belong to the second.
pub proof fn siblings_split_behind_other_than_annotations(prefix: Seq<Shape>, rest: Seq<Shape>)
    requires
        prefix.len() > 0 ==> prefix.last().kind != GDScriptNodeKind::Annotation
            && prefix.last().kind != GDScriptNodeKind::Annotations,
    ensures
        normalized_siblings(prefix + rest) == normalized_siblings(prefix) + normalized_siblings(
            rest,
        ),
    decreases prefix.len(),
{
    if prefix.len() == 0 {
        assert(prefix + rest =~= rest);
        assert(normalized_siblings(prefix) + normalized_siblings(rest) =~= normalized_siblings(
            rest,
        ));
    } else {
        let all = prefix + rest;
        let run = annotation_run(prefix) as int;
        lemma_run_of_prefix(prefix, rest);
        assert(all[0] == prefix[0]);
        assert(all[run] == prefix[run]);
        if run > 0 && kind_is_annotatable(prefix[run].kind) {
            lemma_annotations_of_prefix(prefix, rest, run as nat);
            assert(all.skip(run + 1) =~= prefix.skip(run + 1) + rest);
            siblings_split_behind_other_than_annotations(prefix.skip(run + 1), rest);
        } else {
            assert(all.skip(1) =~= prefix.skip(1) + rest);
            siblings_split_behind_other_than_annotations(prefix.skip(1), rest);
        }
        assert(normalized_siblings(all) =~= normalized_siblings(prefix) + normalized_siblings(
            rest,
        ));
    }
}

/// True of the kinds that have a part in how their siblings are normalized.
pub open spec fn kind_affects_siblings(kind: GDScriptNodeKind) -> bool {
    matches!(
        kind,
        GDScriptNodeKind::Annotation
            | GDScriptNodeKind::Annotations
            | GDScriptNodeKind::Variable
            | GDScriptNodeKind::ExportVariable
            | GDScriptNodeKind::OnReadyVariable
            | GDScriptNodeKind::Function
            | GDScriptNodeKind::Constructor
            | GDScriptNodeKind::ClassName
    )
}

/// Nothing but the kind of a sibling, and its normal form, has a part in the
/// normal forms of siblings.
proof fn lemma_replace_sibling(prefix: Seq<Shape>, old_one: Shape, new_one: Shape, rest: Seq<Shape>)
    requires
        !kind_affects_siblings(old_one.kind),
        !kind_affects_siblings(new_one.kind),
        same_structure(old_one, new_one),
    ensures
        normalized_siblings(prefix + seq![old_one] + rest) == normalized_siblings(
            prefix + seq![new_one] + rest,
        ),
    decreases prefix.len(),
{
    let first = prefix + seq![old_one] + rest;
    let second = prefix + seq![new_one] + rest;
    if prefix.len() == 0 {
        assert(first.skip(1) =~= rest);
        assert(second.skip(1) =~= rest);
        assert(first[0] == old_one);
        assert(second[0] == new_one);
        assert(annotation_run(first) == 0);
        assert(annotation_run(second) == 0);
    } else {
        let run = annotation_run(first);
        lemma_run_up_to(prefix, old_one, new_one, rest);
        assert(first[0] == prefix[0] && second[0] == prefix[0]);
        assert(first.skip(1) =~= prefix.skip(1) + seq![old_one] + rest);
        assert(second.skip(1) =~= prefix.skip(1) + seq![new_one] + rest);
        lemma_replace_sibling(prefix.skip(1), old_one, new_one, rest);
        if 0 < run < first.len() && run < prefix.len() && kind_is_annotatable(
            prefix[run as int].kind,
        ) {
            let after = prefix.skip(run as int + 1);
            assert(first.skip(run as int + 1) =~= after + seq![old_one] + rest);
            assert(second.skip(run as int + 1) =~= after + seq![new_one] + rest);
            lemma_replace_sibling(after, old_one, new_one, rest);
            lemma_annotations_of_prefix(prefix, seq![old_one] + rest, run);
            lemma_annotations_of_prefix(prefix, seq![new_one] + rest, run);
            assert(first =~= prefix + (seq![old_one] + rest));
            assert(second =~= prefix + (seq![new_one] + rest));
            assert(first[run as int] == prefix[run as int]);
            assert(second[run as int] == prefix[run as int]);
        } else {
            assert(run == prefix.len() ==> first[run as int] == old_one);
            assert(run == prefix.len() ==> second[run as int] == new_one);
            assert(run < prefix.len() ==> first[run as int] == prefix[run as int]);
            assert(run < prefix.len() ==> second[run as int] == prefix[run as int]);
        }
    }
}

/// Annotations at the start of siblings end at the latest where something else
/// stands.
proof fn lemma_run_up_to(prefix: Seq<Shape>, old_one: Shape, new_one: Shape, rest: Seq<Shape>)
    requires
        !kind_is_annotation_like(old_one.kind),
        !kind_is_annotation_like(new_one.kind),
    ensures
        annotation_run(prefix + seq![old_one] + rest) == annotation_run(
            prefix + seq![new_one] + rest,
        ),
        annotation_run(prefix + seq![old_one] + rest) <= prefix.len(),
    decreases prefix.len(),
{
    let first = prefix + seq![old_one] + rest;
    let second = prefix + seq![new_one] + rest;
    if prefix.len() == 0 {
        assert(first[0] == old_one && second[0] == new_one);
    } else {
        assert(first[0] == prefix[0] && second[0] == prefix[0]);
        assert(first.skip(1) =~= prefix.skip(1) + seq![old_one] + rest);
        assert(second.skip(1) =~= prefix.skip(1) + seq![new_one] + rest);
        lemma_run_up_to(prefix.skip(1), old_one, new_one, rest);
    }
}

/// Parentheses around one of several siblings are not a part of the structure
/// of the node above, as long as they do not hide a declaration or an
/// annotation, which have a part in the structure around them.
pub proof fn parentheses_among_siblings_are_ignored(
    kind: GDScriptNodeKind,
    prefix: Seq<Shape>,
    inner: Shape,
    rest: Seq<Shape>,
)
    requires
        !kind_affects_siblings(inner.kind),
        kind != GDScriptNodeKind::ParenthesizedExpression,
    ensures
        same_structure(
            Shape { kind, children: prefix + seq![parenthesized(inner)] + rest },
            Shape { kind, children: prefix + seq![inner] + rest },
        ),
{
    parentheses_are_ignored(inner);
    lemma_replace_sibling(prefix, parenthesized(inner), inner, rest);
}

/// The annotations in some siblings, where a list of annotations counts as the
/// annotations in it.
pub open spec fn flat_annotations(annotations: Seq<Shape>) -> Seq<Shape>
    decreases annotations.len(),
{
    if annotations.len() == 0 {
        Seq::empty()
    } else {
        (if annotations[0].kind == GDScriptNodeKind::Annotations {
            annotations[0].children
        } else {
            seq![annotations[0]]
        }) + flat_annotations(annotations.skip(1))
    }
}

/// A declaration with more annotations in its first child, in front of its own.
pub open spec fn with_annotations(declaration: Shape, annotations: Seq<Shape>) -> Shape {
    Shape {
        kind: declaration.kind,
        children: seq![
            Shape {
                kind: GDScriptNodeKind::Annotations,
                children: flat_annotations(annotations) + own_annotations(declaration),
            },
        ] + behind_annotations(declaration),
    }
}

/// True of siblings that are all annotations.
pub open spec fn all_annotations(siblings: Seq<Shape>) -> bool {
    forall|i: int|
        0 <= i < siblings.len() ==> (#[trigger] siblings[i]).kind == GDScriptNodeKind::Annotation
            || siblings[i].kind == GDScriptNodeKind::Annotations
}

/// The normal forms of siblings one by one can be found in two parts.
proof fn lemma_each_of_concat(prefix: Seq<Shape>, rest: Seq<Shape>)
    ensures
        normalized_each(prefix + rest) == normalized_each(prefix) + normalized_each(rest),
    decreases prefix.len(),
{
    if prefix.len() == 0 {
        assert(prefix + rest =~= rest);
        assert(normalized_each(prefix) + normalized_each(rest) =~= normalized_each(rest));
    } else {
        assert((prefix + rest)[0] == prefix[0]);
        assert((prefix + rest).skip(1) =~= prefix.skip(1) + rest);
        lemma_each_of_concat(prefix.skip(1), rest);
        assert(normalized_each(prefix + rest) =~= normalized_each(prefix) + normalized_each(rest));
    }
}

/// Annotations are normalized one by one.
proof fn lemma_normalized_annotations(annotations: Seq<Shape>)
    ensures
        normalized_annotations(annotations, annotations.len()) == normalized_each(
            flat_annotations(annotations),
        ),
    decreases annotations.len(),
{
    if annotations.len() > 0 {
        let first = if annotations[0].kind == GDScriptNodeKind::Annotations {
            annotations[0].children
        } else {
            seq![annotations[0]]
        };
        lemma_normalized_annotations(annotations.skip(1));
        lemma_each_of_concat(first, flat_annotations(annotations.skip(1)));
        if annotations[0].kind != GDScriptNodeKind::Annotations {
            assert(first.skip(1) =~= Seq::<Shape>::empty());
            assert(normalized_each(first.skip(1)) =~= Seq::<Shape>::empty());
            assert(normalized_each(first) =~= seq![normalized(annotations[0])]);
        } else {
            assert(normalized_inner(annotations[0]) == normalized_each(first));
        }
    }
}

/// Siblings that are all annotations are normalized one by one.
proof fn lemma_all_annotations(siblings: Seq<Shape>)
    requires
        all_annotations(siblings),
    ensures
        normalized_siblings(siblings) == normalized_each(siblings),
        annotation_run(siblings) == siblings.len(),
    decreases siblings.len(),
{
    if siblings.len() > 0 {
        assert(kind_is_annotation_like(siblings[0].kind));
        assert forall|i: int| 0 <= i < siblings.skip(1).len() implies kind_is_annotation_like(
            (#[trigger] siblings.skip(1)[i]).kind,
        ) by {
            assert(siblings.skip(1)[i] == siblings[i + 1]);
        }
        lemma_all_annotations(siblings.skip(1));
    }
}

/// The annotations in front of a declaration are all that stand there.
proof fn lemma_run_before_declaration(
    annotations: Seq<Shape>,
    declaration: Shape,
    rest: Seq<Shape>,
)
    requires
        all_annotations(annotations),
        !kind_is_annotation_like(declaration.kind),
    ensures
        annotation_run(annotations + seq![declaration] + rest) == annotations.len(),
    decreases annotations.len(),
{
    let all = annotations + seq![declaration] + rest;
    if annotations.len() == 0 {
        assert(all[0] == declaration);
    } else {
        assert(all[0] == annotations[0]);
        assert(all.skip(1) =~= annotations.skip(1) + seq![declaration] + rest);
        assert forall|i: int| 0 <= i < annotations.skip(1).len() implies kind_is_annotation_like(
            (#[trigger] annotations.skip(1)[i]).kind,
        ) by {
            assert(annotations.skip(1)[i] == annotations[i + 1]);
        }
        lemma_run_before_declaration(annotations.skip(1), declaration, rest);
    }
}

/// Annotations in front of a declaration, as siblings of it, have the same
/// structure as annotations inside of it, in its first child, where they stand
/// in front of those that it has already. Behind its annotations stands its
/// name, or at least no declaration, no annotation and nothing in parentheses.
pub proof fn annotations_merge_into_declarations(
    annotations: Seq<Shape>,
    declaration: Shape,
    rest: Seq<Shape>,
)
    requires
        annotations.len() > 0,
        all_annotations(annotations),
        all_annotations(flat_annotations(annotations)),
        matches!(
            declaration.kind,
            GDScriptNodeKind::Variable
                | GDScriptNodeKind::ExportVariable
                | GDScriptNodeKind::OnReadyVariable
                | GDScriptNodeKind::Function
                | GDScriptNodeKind::Constructor
        ),
        all_annotations(own_annotations(declaration)),
        starts_with_name(behind_annotations(declaration)),
    ensures
        normalized_siblings(annotations + seq![declaration] + rest) == normalized_siblings(
            seq![with_annotations(declaration, annotations)] + rest,
        ),
{
    let apart = annotations + seq![declaration] + rest;
    let run = annotations.len() as int;
    let flat = flat_annotations(annotations);
    let own = own_annotations(declaration);
    let behind = behind_annotations(declaration);
    let merged = with_annotations(declaration, annotations);
    let together = seq![merged] + rest;
    lemma_run_before_declaration(annotations, declaration, rest);
    assert(apart[run] == declaration);
    assert(apart.skip(run + 1) =~= rest);
    assert(apart =~= annotations + (seq![declaration] + rest));
    lemma_annotations_of_prefix(annotations, seq![declaration] + rest, run as nat);
    lemma_normalized_annotations(annotations);
    assert(together[0] == merged);
    assert(together.skip(1) =~= rest);
    assert(annotation_run(together) == 0);
    assert forall|i: int| 0 <= i < (flat + own).len() implies kind_is_annotation_like(
        (#[trigger] (flat + own)[i]).kind,
    ) by {
        assert((flat + own)[i] == if i < flat.len() {
            flat[i]
        } else {
            own[i - flat.len()]
        });
    }
    lemma_each_of_concat(flat, own);
    lemma_annotation_list(flat + own, behind);
    if has_own_annotations(declaration) {
        lemma_annotation_list(own, behind);
        assert(declaration.children[0] == (Shape {
            kind: GDScriptNodeKind::Annotations,
            children: own,
        }));
        assert(declaration.children =~= seq![declaration.children[0]] + behind);
        let normal = normalized(declaration);
        assert(normal.children[0].children == normalized_each(own));
        assert(normal.children.skip(1) =~= normalized_siblings(behind));
    } else {
        lemma_first_is_no_annotation_list(declaration.children);
        assert(normalized_each(flat + own) =~= normalized_each(flat));
        assert(normalized_each(flat) + Seq::<Shape>::empty() =~= normalized_each(flat));
    }
    assert(normalized(merged) == annotated(normalized(declaration), normalized_each(flat)));
}

/// True of siblings of which the first, if there is one, is no declaration, no
/// annotation and nothing in parentheses.
pub open spec fn starts_with_name(siblings: Seq<Shape>) -> bool {
    siblings.len() > 0 ==> siblings[0].kind == GDScriptNodeKind::ClassName
        || !kind_affects_siblings(siblings[0].kind) && siblings[0].kind
        != GDScriptNodeKind::ParenthesizedExpression
}

/// A list of annotations in front of other siblings is normalized on its own.
proof fn lemma_annotation_list(annotations: Seq<Shape>, behind: Seq<Shape>)
    requires
        all_annotations(annotations),
        starts_with_name(behind),
    ensures
        normalized_siblings(
            seq![Shape { kind: GDScriptNodeKind::Annotations, children: annotations }] + behind,
        ) == seq![
            Shape {
                kind: GDScriptNodeKind::Annotations,
                children: normalized_each(annotations),
            },
        ] + normalized_siblings(behind),
{
    let list = Shape { kind: GDScriptNodeKind::Annotations, children: annotations };
    let all = seq![list] + behind;
    lemma_all_annotations(annotations);
    assert(all[0] == list);
    assert(all.skip(1) =~= behind);
    assert(annotation_run(behind) == 0);
    assert(annotation_run(all) == 1);
    assert(all.len() > 1 ==> all[1] == behind[0]);
    assert(normalized(list).children == normalized_each(annotations));
}

/// A child that is no annotation does not become a list of annotations.
proof fn lemma_first_is_no_annotation_list(children: Seq<Shape>)
    requires
        children.len() > 0 ==> !kind_is_annotation_like(children[0].kind) && children[0].kind
            != GDScriptNodeKind::ParenthesizedExpression,
    ensures
        children.len() == 0 ==> normalized_siblings(children).len() == 0,
        children.len() > 0 ==> normalized_siblings(children).len() > 0 && normalized_siblings(
            children,
        )[0].kind != GDScriptNodeKind::Annotations,
{
    if children.len() > 0 {
        assert(annotation_run(children) == 0);
        if holds_extends(children[0]) {
            assert(split_class_name(children[0])[0].kind == GDScriptNodeKind::ClassName);
        } else {
            assert(normalized(children[0]).kind == canonical_kind(children[0].kind));
        }
    }
}

/// True of siblings that are normalized one by one, whatever stands next to
/// them.
pub open spec fn are_independent(siblings: Seq<Shape>) -> bool {
    forall|i: int|
        0 <= i < siblings.len() ==> {
            &&& (#[trigger] siblings[i]).kind != GDScriptNodeKind::Annotation
            &&& siblings[i].kind != GDScriptNodeKind::Annotations
            &&& siblings[i].kind != GDScriptNodeKind::ClassName
        }
}

/// Siblings that have no part in each other's normal forms are normalized one
/// by one.
proof fn lemma_independent(siblings: Seq<Shape>)
    requires
        are_independent(siblings),
    ensures
        normalized_siblings(siblings) == normalized_each(siblings),
    decreases siblings.len(),
{
    if siblings.len() > 0 {
        assert(!kind_is_annotation_like(siblings[0].kind));
        assert(annotation_run(siblings) == 0);
        assert forall|i: int| 0 <= i < siblings.skip(1).len() implies {
            &&& !kind_is_annotation_like((#[trigger] siblings.skip(1)[i]).kind)
            &&& siblings.skip(1)[i].kind != GDScriptNodeKind::ClassName
        } by {
            assert(siblings.skip(1)[i] == siblings[i + 1]);
        }
        lemma_independent(siblings.skip(1));
    }
}

/// Leaving out the only sibling of a kind is leaving out all of that kind.
proof fn lemma_without(before: Seq<Shape>, removed: Shape, after: Seq<Shape>)
    requires
        forall|i: int| 0 <= i < before.len() ==> (#[trigger] before[i]).kind != removed.kind,
        forall|i: int| 0 <= i < after.len() ==> (#[trigger] after[i]).kind != removed.kind,
    ensures
        normalized_without(before + seq![removed] + after, removed.kind) == normalized_each(
            before + after,
        ),
        first_of_kind(before + seq![removed] + after, removed.kind) == before.len(),
    decreases before.len(),
{
    let all = before + seq![removed] + after;
    if before.len() == 0 {
        assert(all[0] == removed);
        assert(all.skip(1) =~= after);
        assert(before + after =~= after);
        lemma_nothing_to_leave_out(after, removed.kind);
    } else {
        assert(all[0] == before[0]);
        assert(all.skip(1) =~= before.skip(1) + seq![removed] + after);
        assert((before + after)[0] == before[0]);
        assert((before + after).skip(1) =~= before.skip(1) + after);
        assert forall|i: int| 0 <= i < before.skip(1).len() implies (#[trigger] before.skip(
            1,
        )[i]).kind != removed.kind by {
            assert(before.skip(1)[i] == before[i + 1]);
        }
        lemma_without(before.skip(1), removed, after);
    }
}

/// Where no sibling is of a kind, none is left out.
proof fn lemma_nothing_to_leave_out(siblings: Seq<Shape>, kind: GDScriptNodeKind)
    requires
        forall|i: int| 0 <= i < siblings.len() ==> (#[trigger] siblings[i]).kind != kind,
    ensures
        normalized_without(siblings, kind) == normalized_each(siblings),
    decreases siblings.len(),
{
    if siblings.len() > 0 {
        assert(siblings[0].kind != kind);
        assert forall|i: int| 0 <= i < siblings.skip(1).len() implies (#[trigger] siblings.skip(
            1,
        )[i]).kind != kind by {
            assert(siblings.skip(1)[i] == siblings[i + 1]);
        }
        lemma_nothing_to_leave_out(siblings.skip(1), kind);
    }
}

/// A `class_name` statement with an `extends` part has the same structure as a
/// `class_name` statement without it and an `extends` statement behind. The
/// other parts of the statement hold no second `extends`, no annotation and no
/// further `class_name`.
pub proof fn class_name_splits_from_extends(
    before: Seq<Shape>,
    extends: Shape,
    after: Seq<Shape>,
    rest: Seq<Shape>,
)
    requires
        extends.kind == GDScriptNodeKind::Extends,
        are_independent(before),
        are_independent(after),
        forall|i: int|
            0 <= i < before.len() ==> (#[trigger] before[i]).kind != GDScriptNodeKind::Extends,
        forall|i: int|
            0 <= i < after.len() ==> (#[trigger] after[i]).kind != GDScriptNodeKind::Extends,
    ensures
        normalized_siblings(
            seq![
                Shape {
                    kind: GDScriptNodeKind::ClassName,
                    children: before + seq![extends] + after,
                },
            ] + rest,
        ) == normalized_siblings(
            seq![
                Shape { kind: GDScriptNodeKind::ClassName, children: before + after },
                extends,
            ] + rest,
        ),
{
    let class_name = GDScriptNodeKind::ClassName;
    let whole = Shape { kind: class_name, children: before + seq![extends] + after };
    let part = Shape { kind: class_name, children: before + after };
    let together = seq![whole] + rest;
    let apart = seq![part, extends] + rest;
    assert(together[0] == whole && apart[0] == part);
    assert(together.skip(1) =~= rest);
    assert(apart.skip(1) =~= seq![extends] + rest);
    assert(apart.skip(1)[0] == extends);
    assert(apart.skip(1).skip(1) =~= rest);
    assert(annotation_run(together) == 0);
    assert(annotation_run(apart) == 0);
    assert(annotation_run(apart.skip(1)) == 0);
    assert(whole.children[before.len() as int] == extends);
    assert(holds_extends(whole));
    assert forall|i: int| 0 <= i < part.children.len() implies {
        &&& !kind_is_annotation_like((#[trigger] part.children[i]).kind)
        &&& part.children[i].kind != GDScriptNodeKind::ClassName
        &&& part.children[i].kind != GDScriptNodeKind::Extends
    } by {
        if i < before.len() {
            assert(part.children[i] == before[i]);
        } else {
            assert(part.children[i] == after[i - before.len()]);
        }
    }
    assert(!holds_extends(part));
    lemma_without(before, extends, after);
    lemma_independent(part.children);
    assert(split_class_name(whole) =~= seq![normalized(part), normalized(extends)]);
    assert(normalized_siblings(apart.skip(1)) == seq![normalized(extends)] + normalized_siblings(
        rest,
    ));
    assert(normalized_siblings(apart) == seq![normalized(part)] + normalized_siblings(
        apart.skip(1),
    ));
    assert(normalized_siblings(together) =~= normalized_siblings(apart));
}

/// True of a tree without anything that its normal form leaves out or moves: no
/// parentheses around a single expression, no annotations, no `class_name`
/// statements, and no kind of variable but the plain one.
pub open spec fn is_plain(node: Shape) -> bool
    decreases node,
{
    &&& node.kind != GDScriptNodeKind::ParenthesizedExpression || node.children.len() != 1
    &&& node.kind != GDScriptNodeKind::Annotation && node.kind != GDScriptNodeKind::Annotations
    &&& node.kind != GDScriptNodeKind::ClassName
    &&& node.kind != GDScriptNodeKind::ExportVariable && node.kind
        != GDScriptNodeKind::OnReadyVariable
    &&& forall|i: int|
        0 <= i < node.children.len() ==> is_plain(#[trigger] node.children[i])
}

/// The normal form of a plain tree is the tree itself.
proof fn lemma_plain_is_normal(node: Shape)
    requires
        is_plain(node),
    ensures
        normalized(node) == node,
    decreases node, 1int,
{
    lemma_plain_siblings(node.children);
}

/// The normal forms of plain siblings are these siblings.
proof fn lemma_plain_siblings(siblings: Seq<Shape>)
    requires
        forall|i: int| 0 <= i < siblings.len() ==> is_plain(#[trigger] siblings[i]),
    ensures
        normalized_siblings(siblings) == siblings,
    decreases siblings, 0int,
{
    if siblings.len() > 0 {
        assert(is_plain(siblings[0]));
        lemma_plain_is_normal(siblings[0]);
        assert forall|i: int| 0 <= i < siblings.skip(1).len() implies is_plain(
            #[trigger] siblings.skip(1)[i],
        ) by {
            assert(siblings.skip(1)[i] == siblings[i + 1]);
        }
        lemma_plain_siblings(siblings.skip(1));
        assert(annotation_run(siblings) == 0);
        assert(seq![siblings[0]] + siblings.skip(1) =~= siblings);
    }
}

/// Plain trees have the same structure only if they are the same: nothing that
/// formatting drops or adds there goes unnoticed.
pub proof fn plain_trees_are_compared_exactly(first: Shape, second: Shape)
    requires
        is_plain(first),
        is_plain(second),
    ensures
        same_structure(first, second) <==> first == second,
{
    lemma_plain_is_normal(first);
    lemma_plain_is_normal(second);
}

/// Nodes of different kinds have different structures. The exceptions are the
/// three kinds of variables, which count as one, and parentheses around a single
/// expression, which do not count at all.
pub proof fn kinds_are_told_apart(first: Shape, second: Shape)
    requires
        first.kind != second.kind,
        !((first.kind == GDScriptNodeKind::Variable || first.kind
            == GDScriptNodeKind::ExportVariable || first.kind == GDScriptNodeKind::OnReadyVariable)
            && (second.kind == GDScriptNodeKind::Variable || second.kind
            == GDScriptNodeKind::ExportVariable || second.kind
            == GDScriptNodeKind::OnReadyVariable)),
        first.kind != GDScriptNodeKind::ParenthesizedExpression || first.children.len() != 1,
        second.kind != GDScriptNodeKind::ParenthesizedExpression || second.children.len() != 1,
    ensures
        !same_structure(first, second),
{
}

/// An annotation in front of anything but a variable, a function or a
/// constructor stays where it is: it does not become a part of what follows.
pub proof fn annotations_stay_in_front_of_others(
    annotation: Shape,
    statement: Shape,
    rest: Seq<Shape>,
)
    requires
        annotation.kind == GDScriptNodeKind::Annotation,
        !matches!(
            statement.kind,
            GDScriptNodeKind::Variable
                | GDScriptNodeKind::ExportVariable
                | GDScriptNodeKind::OnReadyVariable
                | GDScriptNodeKind::Function
                | GDScriptNodeKind::Constructor
                | GDScriptNodeKind::Annotation
                | GDScriptNodeKind::Annotations
        ),
    ensures
        normalized_siblings(seq![annotation, statement] + rest) == seq![normalized(annotation)]
            + normalized_siblings(seq![statement] + rest),
{
    let all = seq![annotation, statement] + rest;
    assert(all.skip(1) =~= seq![statement] + rest);
    assert(all[0] == annotation && all[1] == statement);
    assert(all.skip(1)[0] == statement);
    assert(annotation_run(all.skip(1)) == 0);
    assert(annotation_run(all) == 1);
}

/// True of a kind that is counted together with another one: all kinds of
/// variables are one.
pub open spec fn counts_as(kind: GDScriptNodeKind, counted: GDScriptNodeKind) -> bool {
    kind == counted || counted == GDScriptNodeKind::Variable && (kind
        == GDScriptNodeKind::ExportVariable || kind == GDScriptNodeKind::OnReadyVariable)
}

/// The number of nodes of a kind in a tree.
pub open spec fn count_kind(node: Shape, counted: GDScriptNodeKind) -> nat
    decreases node, 1int,
{
    (if counts_as(node.kind, counted) {
        1nat
    } else {
        0nat
    }) + count_below(node.children, counted)
}

/// The number of nodes of a kind in several trees.
pub open spec fn count_below(siblings: Seq<Shape>, counted: GDScriptNodeKind) -> nat
    decreases siblings, 0int,
{
    if siblings.len() == 0 {
        0
    } else {
        count_kind(siblings[0], counted) + count_below(siblings.skip(1), counted)
    }
}

/// True of a tree in which no `class_name` statement has a second `extends`
/// part.
pub open spec fn extends_one_class(node: Shape) -> bool
    decreases node,
{
    &&& node.kind == GDScriptNodeKind::ClassName ==> forall|i: int, j: int|
        #![trigger node.children[i], node.children[j]]
        0 <= i < j < node.children.len() && node.children[i].kind == GDScriptNodeKind::Extends
            ==> node.children[j].kind != GDScriptNodeKind::Extends
    &&& forall|i: int|
        0 <= i < node.children.len() ==> extends_one_class(#[trigger] node.children[i])
}

/// True of several trees of which each extends one class at most where it names
/// one.
pub open spec fn all_extend_one_class(siblings: Seq<Shape>) -> bool {
    forall|i: int| 0 <= i < siblings.len() ==> extends_one_class(#[trigger] siblings[i])
}

/// Nodes are counted in two parts.
proof fn lemma_count_concat(first: Seq<Shape>, second: Seq<Shape>, counted: GDScriptNodeKind)
    ensures
        count_below(first + second, counted) == count_below(first, counted) + count_below(
            second,
            counted,
        ),
    decreases first.len(),
{
    if first.len() == 0 {
        assert(first + second =~= second);
    } else {
        assert((first + second)[0] == first[0]);
        assert((first + second).skip(1) =~= first.skip(1) + second);
        lemma_count_concat(first.skip(1), second, counted);
    }
}

/// One tree is counted by itself.
proof fn lemma_count_one(node: Shape, counted: GDScriptNodeKind)
    ensures
        count_below(seq![node], counted) == count_kind(node, counted),
{
    assert(seq![node].skip(1) =~= Seq::<Shape>::empty());
    assert(count_below(Seq::<Shape>::empty(), counted) == 0);
    assert(seq![node][0] == node);
}

/// Trees behind the first ones extend one class each, too.
proof fn lemma_skip_extends(siblings: Seq<Shape>, count: int)
    requires
        all_extend_one_class(siblings),
        0 <= count <= siblings.len(),
    ensures
        all_extend_one_class(siblings.skip(count)),
{
    assert forall|i: int| 0 <= i < siblings.skip(count).len() implies extends_one_class(
        #[trigger] siblings.skip(count)[i],
    ) by {
        assert(siblings.skip(count)[i] == siblings[i + count]);
    }
}

/// The normal form of a tree holds as many nodes of a kind as the tree.
proof fn lemma_count_normalized(node: Shape, counted: GDScriptNodeKind)
    requires
        extends_one_class(node),
        counted != GDScriptNodeKind::ParenthesizedExpression,
        counted != GDScriptNodeKind::Annotations,
        !is_variable_variant(counted),
    ensures
        count_kind(normalized(node), counted) == count_kind(node, counted),
    decreases node, 0int,
{
    if node.kind == GDScriptNodeKind::ParenthesizedExpression && node.children.len() == 1 {
        assert(extends_one_class(node.children[0]));
        lemma_count_normalized(node.children[0], counted);
        assert(node.children.skip(1) =~= Seq::<Shape>::empty());
        assert(count_below(node.children.skip(1), counted) == 0);
    } else {
        assert(all_extend_one_class(node.children));
        lemma_count_siblings(node.children, counted);
    }
}

/// True of the kinds of variables that count as plain ones.
pub open spec fn is_variable_variant(kind: GDScriptNodeKind) -> bool {
    kind == GDScriptNodeKind::ExportVariable || kind == GDScriptNodeKind::OnReadyVariable
}

/// The normal forms of siblings one by one.
proof fn lemma_count_each(siblings: Seq<Shape>, counted: GDScriptNodeKind)
    requires
        all_extend_one_class(siblings),
        counted != GDScriptNodeKind::ParenthesizedExpression,
        counted != GDScriptNodeKind::Annotations,
        !is_variable_variant(counted),
    ensures
        count_below(normalized_each(siblings), counted) == count_below(siblings, counted),
    decreases siblings, 1int,
{
    if siblings.len() > 0 {
        assert(extends_one_class(siblings[0]));
        lemma_skip_extends(siblings, 1);
        lemma_count_normalized(siblings[0], counted);
        lemma_count_each(siblings.skip(1), counted);
        lemma_count_one(normalized(siblings[0]), counted);
        lemma_count_concat(
            seq![normalized(siblings[0])],
            normalized_each(siblings.skip(1)),
            counted,
        );
    }
}

/// The normal forms of the parts of a `class_name` statement, without its
/// `extends` part and that part.
proof fn lemma_count_without(siblings: Seq<Shape>, counted: GDScriptNodeKind)
    requires
        all_extend_one_class(siblings),
        forall|i: int, j: int|
            #![trigger siblings[i], siblings[j]]
            0 <= i < j < siblings.len() && siblings[i].kind == GDScriptNodeKind::Extends
                ==> siblings[j].kind != GDScriptNodeKind::Extends,
        counted != GDScriptNodeKind::ParenthesizedExpression,
        counted != GDScriptNodeKind::Annotations,
        !is_variable_variant(counted),
    ensures
        ({
            let extends = first_of_kind(siblings, GDScriptNodeKind::Extends);
            &&& 0 <= extends <= siblings.len()
            &&& count_below(siblings, counted) == count_below(
                normalized_without(siblings, GDScriptNodeKind::Extends),
                counted,
            ) + (if extends < siblings.len() {
                count_kind(normalized(siblings[extends]), counted)
            } else {
                0
            })
        }),
    decreases siblings, 1int,
{
    if siblings.len() > 0 {
        let rest = siblings.skip(1);
        assert(extends_one_class(siblings[0]));
        lemma_skip_extends(siblings, 1);
        lemma_count_normalized(siblings[0], counted);
        if siblings[0].kind == GDScriptNodeKind::Extends {
            assert forall|i: int| 0 <= i < rest.len() implies (#[trigger] rest[i]).kind
                != GDScriptNodeKind::Extends by {
                assert(rest[i] == siblings[i + 1]);
            }
            lemma_nothing_to_leave_out(rest, GDScriptNodeKind::Extends);
            lemma_count_each(rest, counted);
        } else {
            assert forall|i: int, j: int|
                #![trigger rest[i], rest[j]]
                0 <= i < j < rest.len() && rest[i].kind == GDScriptNodeKind::Extends implies rest[j].kind
                != GDScriptNodeKind::Extends by {
                assert(rest[i] == siblings[i + 1] && rest[j] == siblings[j + 1]);
            }
            lemma_count_without(rest, counted);
            let extends = first_of_kind(rest, GDScriptNodeKind::Extends);
            assert(extends < rest.len() ==> rest[extends] == siblings[extends + 1]);
            let first = seq![normalized(siblings[0])];
            let others = normalized_without(rest, GDScriptNodeKind::Extends);
            lemma_count_one(normalized(siblings[0]), counted);
            lemma_count_concat(first, others, counted);
        }
    }
}

/// The normal forms of the first siblings, which are annotations.
proof fn lemma_count_annotations(siblings: Seq<Shape>, count: nat, counted: GDScriptNodeKind)
    requires
        all_extend_one_class(siblings),
        count <= siblings.len(),
        counted != GDScriptNodeKind::ParenthesizedExpression,
        counted != GDScriptNodeKind::Annotations,
        !is_variable_variant(counted),
    ensures
        count_below(siblings, counted) == count_below(
            normalized_annotations(siblings, count),
            counted,
        ) + count_below(siblings.skip(count as int), counted),
    decreases siblings, 1int,
{
    if count == 0 {
        assert(siblings.skip(0) =~= siblings);
        assert(count_below(Seq::<Shape>::empty(), counted) == 0);
    } else {
        let rest = siblings.skip(1);
        let others = normalized_annotations(rest, (count - 1) as nat);
        assert(extends_one_class(siblings[0]));
        lemma_skip_extends(siblings, 1);
        lemma_count_annotations(rest, (count - 1) as nat, counted);
        assert(rest.skip(count - 1) =~= siblings.skip(count as int));
        if siblings[0].kind == GDScriptNodeKind::Annotations {
            assert(all_extend_one_class(siblings[0].children));
            lemma_count_inner(siblings[0], counted);
            lemma_count_concat(normalized_inner(siblings[0]), others, counted);
            assert(count_kind(siblings[0], counted) == count_below(siblings[0].children, counted));
        } else {
            lemma_count_normalized(siblings[0], counted);
            lemma_count_one(normalized(siblings[0]), counted);
            lemma_count_concat(seq![normalized(siblings[0])], others, counted);
        }
    }
}

/// The normal forms of the children of a node.
proof fn lemma_count_inner(node: Shape, counted: GDScriptNodeKind)
    requires
        all_extend_one_class(node.children),
        counted != GDScriptNodeKind::ParenthesizedExpression,
        counted != GDScriptNodeKind::Annotations,
        !is_variable_variant(counted),
    ensures
        count_below(normalized_inner(node), counted) == count_below(node.children, counted),
    decreases node, 0int,
{
    lemma_count_each(node.children, counted);
}

/// A declaration with annotations in front of its own.
proof fn lemma_count_annotated(
    declaration: Shape,
    annotations: Seq<Shape>,
    counted: GDScriptNodeKind,
)
    requires
        counted != GDScriptNodeKind::Annotations,
    ensures
        count_kind(annotated(declaration, annotations), counted) == count_kind(declaration, counted)
            + count_below(annotations, counted),
{
    let own = own_annotations(declaration);
    let behind = behind_annotations(declaration);
    let list = Shape { kind: GDScriptNodeKind::Annotations, children: annotations + own };
    lemma_count_concat(annotations, own, counted);
    lemma_count_one(list, counted);
    lemma_count_concat(seq![list], behind, counted);
    assert(count_kind(list, counted) == count_below(list.children, counted));
    if has_own_annotations(declaration) {
        assert(declaration.children.skip(1) == behind);
        let first = declaration.children[0];
        assert(count_kind(first, counted) == count_below(first.children, counted));
        assert(count_below(declaration.children, counted) == count_kind(first, counted)
            + count_below(behind, counted));
    } else {
        assert(count_below(Seq::<Shape>::empty(), counted) == 0);
    }
}

/// The normal forms of siblings hold as many nodes of a kind as the siblings.
proof fn lemma_count_siblings(siblings: Seq<Shape>, counted: GDScriptNodeKind)
    requires
        all_extend_one_class(siblings),
        counted != GDScriptNodeKind::ParenthesizedExpression,
        counted != GDScriptNodeKind::Annotations,
        !is_variable_variant(counted),
    ensures
        count_below(normalized_siblings(siblings), counted) == count_below(siblings, counted),
    decreases siblings, 2int,
{
    let run = annotation_run(siblings) as int;
    if siblings.len() == 0 {
    } else if 0 < run < siblings.len() && kind_is_annotatable(siblings[run].kind) {
        let merged = annotated(
            normalized(siblings[run]),
            normalized_annotations(siblings, run as nat),
        );
        let rest = siblings.skip(run + 1);
        assert(extends_one_class(siblings[run]));
        lemma_skip_extends(siblings, run + 1);
        lemma_count_annotations(siblings, run as nat, counted);
        lemma_count_normalized(siblings[run], counted);
        lemma_count_annotated(
            normalized(siblings[run]),
            normalized_annotations(siblings, run as nat),
            counted,
        );
        lemma_count_siblings(rest, counted);
        assert(siblings.skip(run)[0] == siblings[run]);
        assert(siblings.skip(run).skip(1) =~= rest);
        assert(count_below(siblings.skip(run), counted) == count_kind(siblings[run], counted)
            + count_below(rest, counted));
        lemma_count_one(merged, counted);
        lemma_count_concat(seq![merged], normalized_siblings(rest), counted);
    } else {
        let rest = siblings.skip(1);
        let first = siblings[0];
        assert(extends_one_class(first));
        lemma_skip_extends(siblings, 1);
        lemma_count_siblings(rest, counted);
        if holds_extends(first) {
            assert(all_extend_one_class(first.children));
            lemma_count_without(first.children, counted);
            let extends = first_of_kind(first.children, GDScriptNodeKind::Extends);
            let name = Shape {
                kind: GDScriptNodeKind::ClassName,
                children: normalized_without(first.children, GDScriptNodeKind::Extends),
            };
            lemma_count_one(name, counted);
            if extends < first.children.len() {
                lemma_count_one(normalized(first.children[extends]), counted);
                lemma_count_concat(
                    seq![name],
                    seq![normalized(first.children[extends])],
                    counted,
                );
            } else {
                assert(seq![name] + Seq::<Shape>::empty() =~= seq![name]);
            }
            lemma_count_concat(split_class_name(first), normalized_siblings(rest), counted);
            let one = if counts_as(GDScriptNodeKind::ClassName, counted) {
                1nat
            } else {
                0nat
            };
            assert(count_kind(first, counted) == one + count_below(first.children, counted));
            assert(count_kind(name, counted) == one + count_below(name.children, counted));
            assert(count_below(siblings, counted) == count_kind(first, counted) + count_below(
                rest,
                counted,
            ));
        } else {
            lemma_count_normalized(first, counted);
            lemma_count_one(normalized(first), counted);
            lemma_count_concat(seq![normalized(first)], normalized_siblings(rest), counted);
        }
    }
}

/// Nothing that formatting drops or adds goes unnoticed, however deep it stands:
/// trees with the same structure hold the same number of nodes of every kind.
/// The three kinds of variables are counted together, parentheses and lists of
/// annotations are not counted, and a `class_name` statement has one `extends`
/// part at most.
pub proof fn same_structures_hold_the_same_nodes(
    first: Shape,
    second: Shape,
    counted: GDScriptNodeKind,
)
    requires
        same_structure(first, second),
        extends_one_class(first),
        extends_one_class(second),
        counted != GDScriptNodeKind::ParenthesizedExpression,
        counted != GDScriptNodeKind::Annotations,
        counted != GDScriptNodeKind::ExportVariable,
        counted != GDScriptNodeKind::OnReadyVariable,
    ensures
        count_kind(first, counted) == count_kind(second, counted),
{
    lemma_count_normalized(first, counted);
    lemma_count_normalized(second, counted);
}

} // verus!
