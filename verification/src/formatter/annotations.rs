//! Which annotations stand on the line of what they annotate.
use vstd::prelude::*;
use vstd::string::StringSliceAdditionalSpecFns;
use vstd::utf8::is_ascii_chars_encode_utf8;

use crate::formatter::queries::{
    all_annotations_are_inline, first_child_of_kind, first_child_of_kind_is_the_first,
    is_inline_annotation, is_inline_annotation_name,
};
use crate::node_kind::GDScriptNodeKind;
use crate::parser::ParseInput;

verus! {

/// The bytes of `export`.
pub open spec fn export_bytes() -> Seq<u8> {
    seq![101u8, 120u8, 112u8, 111u8, 114u8, 116u8]
}

/// The bytes of `onready`.
pub open spec fn onready_bytes() -> Seq<u8> {
    seq![111u8, 110u8, 114u8, 101u8, 97u8, 100u8, 121u8]
}

/// True of `onready`, of `export`, and of all names that start with `export` but
/// for `export_group`.
pub open spec fn is_line_name(name: Seq<u8>) -> bool {
    ||| name == onready_bytes()
    ||| name.len() >= 6 && name.subrange(0, 6) == export_bytes() && name != export_bytes() + seq![
        95u8,
        103u8,
        114u8,
        111u8,
        117u8,
        112u8,
    ]
}

/// True of an annotation with such a name, which is the first identifier in it.
pub open spec fn goes_on_the_line(input: ParseInput, annotation: int) -> bool {
    exists|index: int|
        #![trigger input.tree.child_of(annotation, index)]
        0 <= index < input.tree.child_count_of(annotation) && input.tree.child_kind_of(
            annotation,
            index,
        ) == GDScriptNodeKind::Identifier && is_first_identifier(input, annotation, index)
            && is_line_name(input.text_of(input.tree.child_of(annotation, index)))
}

/// True of a child in front of which no identifier stands.
pub open spec fn is_first_identifier(input: ParseInput, annotation: int, index: int) -> bool {
    forall|before: int|
        #![trigger input.tree.child_of(annotation, before)]
        0 <= before < index ==> input.tree.child_kind_of(annotation, before)
            != GDScriptNodeKind::Identifier
}

/// How the names are spelled.
proof fn lemma_names()
    ensures
        "export".spec_bytes() == export_bytes(),
        "onready".spec_bytes() == onready_bytes(),
        "export_group".spec_bytes() == export_bytes() + seq![
            95u8,
            103u8,
            114u8,
            111u8,
            117u8,
            112u8,
        ],
{
    reveal_strlit("export");
    reveal_strlit("onready");
    reveal_strlit("export_group");
    is_ascii_chars_encode_utf8("export"@);
    is_ascii_chars_encode_utf8("onready"@);
    is_ascii_chars_encode_utf8("export_group"@);
    assert("export"@ =~= seq!['e', 'x', 'p', 'o', 'r', 't']);
    assert("onready"@ =~= seq!['o', 'n', 'r', 'e', 'a', 'd', 'y']);
    assert("export_group"@ =~= seq![
        'e',
        'x',
        'p',
        'o',
        'r',
        't',
        '_',
        'g',
        'r',
        'o',
        'u',
        'p',
    ]);
    assert("export".spec_bytes() =~= export_bytes());
    assert("onready".spec_bytes() =~= onready_bytes());
    assert("export_group".spec_bytes() =~= export_bytes() + seq![
        95u8,
        103u8,
        114u8,
        111u8,
        117u8,
        112u8,
    ]);
}

/// The annotations that go on the line of a variable are `@onready` and those
/// that start with `@export`, but for `@export_group`, which is about all that
/// follows.
pub proof fn exports_go_on_the_line(input: ParseInput, annotation: int)
    ensures
        is_inline_annotation(input, annotation) == goes_on_the_line(input, annotation),
{
    let count = input.tree.child_count_of(annotation);
    let kind = GDScriptNodeKind::Identifier;
    lemma_names();
    first_child_of_kind_is_the_first(*input.tree, annotation, 0, count, kind);
    match first_child_of_kind(*input.tree, annotation, 0, count, kind) {
        Some(index) => {
            let name = input.text_of(input.tree.child_of(annotation, index));
            let prefix = "export".spec_bytes();
            assert(is_first_identifier(input, annotation, index));
            assert(prefix.is_prefix_of(name) == (name.len() >= 6 && name.subrange(0, 6)
                =~= export_bytes())) by {
                if name.len() >= 6 {
                    assert(name.subrange(0, prefix.len() as int) =~= name.subrange(0, 6));
                }
            }
            assert(is_inline_annotation_name(name) == is_line_name(name));
            if goes_on_the_line(input, annotation) {
                let other = choose|other: int|
                    #![trigger input.tree.child_of(annotation, other)]
                    0 <= other < count && input.tree.child_kind_of(annotation, other) == kind
                        && is_first_identifier(input, annotation, other) && is_line_name(
                        input.text_of(input.tree.child_of(annotation, other)),
                    );
                if other < index {
                    assert(input.tree.child_of(annotation, other) == input.tree.child_of(
                        annotation,
                        other,
                    ));
                } else if index < other {
                    assert(input.tree.child_of(annotation, index) == input.tree.child_of(
                        annotation,
                        index,
                    ));
                }
                assert(other == index);
            }
        },
        None => {},
    }
}

/// True where all children of a list of annotations go on the line of a variable.
pub open spec fn all_go_on_the_line(input: ParseInput, annotations: int) -> bool {
    forall|index: int|
        #![trigger input.tree.child_of(annotations, index)]
        0 <= index < input.tree.child_count_of(annotations) ==> goes_on_the_line(
            input,
            input.tree.child_of(annotations, index),
        )
}

/// The same of a list of annotations.
pub proof fn lists_of_exports_go_on_the_line(input: ParseInput, annotations: int)
    ensures
        all_annotations_are_inline(input, annotations) == all_go_on_the_line(input, annotations),
{
    assert forall|index: int|
        #![trigger input.tree.child_of(annotations, index)]
        is_inline_annotation(input, input.tree.child_of(annotations, index)) == goes_on_the_line(
            input,
            input.tree.child_of(annotations, index),
        ) by {
        exports_go_on_the_line(input, input.tree.child_of(annotations, index));
    }
}

} // verus!
