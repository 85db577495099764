use gdscript_formatter::node_kind::GDScriptNodeKind;
use gdscript_formatter::verify_structure::{
    are_structures_equal, are_syntax_trees_structurally_equal, build_normalized_children,
    normalize_node, read_structure, StructureNode,
};

fn parse(source: &str) -> tree_sitter::Tree {
    let mut parser = tree_sitter::Parser::new();
    parser
        .set_language(&tree_sitter_gdscript::LANGUAGE.into())
        .unwrap();
    parser.parse(source, None).unwrap()
}

fn lookup() -> [GDScriptNodeKind; 256] {
    [GDScriptNodeKind::Other; 256]
}

fn structurally_equal(a: &str, b: &str) -> bool {
    let ta = parse(a);
    let tb = parse(b);
    are_syntax_trees_structurally_equal(&ta, &tb, &lookup())
}

#[test]
fn identical_trees_equal() {
    assert!(structurally_equal("var x = 1", "var x = 1"));
}

#[test]
fn same_structure_equal() {
    assert!(structurally_equal("var x = 1", "var y = 2"));
}

#[test]
fn different_kinds_not_equal() {
    assert!(!structurally_equal("const X = 1", "var x = 1"));
}

#[test]
fn export_single_line_vs_split() {
    assert!(structurally_equal(
        "@export var x = 1",
        "@export\nvar x = 1"
    ));
}

#[test]
fn onready_single_line_vs_split() {
    assert!(structurally_equal(
        "@onready var health := max_health",
        "@onready\nvar health := max_health"
    ));
}

#[test]
fn export_variable_no_newline_stays_merged() {
    assert!(structurally_equal("@export var x = 1", "@export var x = 1"));
}

#[test]
fn class_name_with_inline_extends_normalizes() {
    assert!(structurally_equal(
        "class_name Foo extends Bar",
        "class_name Foo\nextends Bar"
    ));
}

#[test]
fn class_name_without_extends_not_affected() {
    assert!(structurally_equal("class_name Foo", "class_name Foo"));
}

#[test]
fn same_function_shape_equal() {
    assert!(structurally_equal(
        "func foo():\n\tpass",
        "func bar():\n\tpass"
    ));
}

#[test]
fn annotation_before_function_merged() {
    assert!(structurally_equal(
        "@abstract func foo():\n\tpass",
        "@abstract\nfunc foo():\n\tpass"
    ));
}

#[test]
fn complex_source_normalizes() {
    let a = "class_name Foo extends Bar\n@export var x = 1\nfunc test():\n\tpass";
    let b = "class_name Foo\nextends Bar\n@export\nvar x = 1\nfunc test():\n\tpass";
    assert!(structurally_equal(a, b));
}

#[test]
fn export_vs_regular_var_different() {
    assert!(!structurally_equal("@export var x = 1", "var x = 1"));
}

#[test]
fn empty_source_equal() {
    assert!(structurally_equal("", ""));
}

#[test]
fn multiple_annotations_before_var_merge() {
    assert!(structurally_equal(
        "@export @onready var x = 1",
        "@export\n@onready\nvar x = 1"
    ));
}

#[test]
fn if_bare_vs_parenthesized_condition() {
    // When the formatter wraps a long if condition in parentheses for
    // readability, safe mode should treat both forms as equivalent.
    assert!(structurally_equal(
        "if position.x > 200 and position.x < 400:\n\tpass",
        "if (position.x > 200 and position.x < 400):\n\tpass"
    ));
}

#[test]
fn assignment_bare_vs_parenthesized_expression() {
    assert!(structurally_equal(
        "var is_attacking := Input.is_action_pressed(\"attack\") and not animation.is_playing()",
        "var is_attacking := (Input.is_action_pressed(\"attack\") and not animation.is_playing())"
    ));
}

#[test]
fn parentheses_that_change_operator_grouping_are_not_equal() {
    assert!(!structurally_equal(
        "var result = a * (b + c)",
        "var result = a * b + c"
    ));
}

fn leaf(kind: GDScriptNodeKind) -> StructureNode {
    StructureNode { kind, children: Vec::new() }
}

fn node(kind: GDScriptNodeKind, children: Vec<StructureNode>) -> StructureNode {
    StructureNode { kind, children }
}

fn script(children: Vec<StructureNode>) -> StructureNode {
    node(GDScriptNodeKind::Other, children)
}

fn variable() -> StructureNode {
    node(
        GDScriptNodeKind::Variable,
        vec![leaf(GDScriptNodeKind::Identifier)],
    )
}

fn annotation() -> StructureNode {
    node(
        GDScriptNodeKind::Annotation,
        vec![leaf(GDScriptNodeKind::Identifier)],
    )
}

fn annotated_variable(annotations: Vec<StructureNode>) -> StructureNode {
    node(
        GDScriptNodeKind::Variable,
        vec![
            node(GDScriptNodeKind::Annotations, annotations),
            leaf(GDScriptNodeKind::Identifier),
        ],
    )
}

#[test]
fn parentheses_around_one_child_are_ignored() {
    let bare = script(vec![leaf(GDScriptNodeKind::Identifier)]);
    let wrapped = script(vec![node(
        GDScriptNodeKind::ParenthesizedExpression,
        vec![leaf(GDScriptNodeKind::Identifier)],
    )]);
    assert!(are_structures_equal(&bare, &wrapped));
    assert!(are_structures_equal(&wrapped, &bare));
}

#[test]
fn parentheses_around_two_children_count() {
    let bare = script(vec![
        leaf(GDScriptNodeKind::Comment),
        leaf(GDScriptNodeKind::Identifier),
    ]);
    let wrapped = script(vec![node(
        GDScriptNodeKind::ParenthesizedExpression,
        vec![
            leaf(GDScriptNodeKind::Comment),
            leaf(GDScriptNodeKind::Identifier),
        ],
    )]);
    assert!(!are_structures_equal(&bare, &wrapped));
}

#[test]
fn annotation_siblings_and_lists_merge() {
    let apart = script(vec![
        annotation(),
        node(GDScriptNodeKind::Annotations, vec![annotation()]),
        variable(),
        variable(),
    ]);
    let together = script(vec![
        annotated_variable(vec![annotation(), annotation()]),
        variable(),
    ]);
    assert!(are_structures_equal(&apart, &together));
}

#[test]
fn annotations_in_front_join_those_of_the_declaration() {
    let with_own = script(vec![
        annotation(),
        annotated_variable(vec![annotation(), annotation()]),
    ]);
    let together = script(vec![annotated_variable(vec![
        annotation(),
        annotation(),
        annotation(),
    ])]);
    let dropped = script(vec![annotated_variable(vec![annotation()])]);
    assert!(are_structures_equal(&with_own, &together));
    assert!(!are_structures_equal(&with_own, &dropped));
    assert!(structurally_equal(
        "@export\n@onready var x = 1",
        "@export @onready var x = 1"
    ));
    assert!(!structurally_equal("@export\n@onready var x = 1", "@export var x = 1"));
}

#[test]
fn normal_forms_keep_all_annotations() {
    let declaration = script(vec![
        node(GDScriptNodeKind::Annotation, vec![leaf(GDScriptNodeKind::Identifier)]),
        annotated_variable(vec![leaf(GDScriptNodeKind::Annotation)]),
    ]);
    let normal = build_normalized_children(&declaration);
    assert_eq!(normal.len(), 1);
    assert_eq!(normal[0].kind, GDScriptNodeKind::Variable);
    let annotations = &normal[0].children[0];
    assert_eq!(annotations.kind, GDScriptNodeKind::Annotations);
    assert_eq!(annotations.children.len(), 2);
    assert_eq!(annotations.children[0].children.len(), 1);
    assert_eq!(annotations.children[1].children.len(), 0);
    let wrapped = node(
        GDScriptNodeKind::ParenthesizedExpression,
        vec![node(
            GDScriptNodeKind::ParenthesizedExpression,
            vec![leaf(GDScriptNodeKind::Identifier)],
        )],
    );
    let inner = normalize_node(&wrapped);
    assert_eq!(inner.kind, GDScriptNodeKind::Identifier);
    assert!(inner.children.is_empty());
}

#[test]
fn annotations_in_front_of_other_nodes_stay() {
    let before_enum = script(vec![annotation(), leaf(GDScriptNodeKind::Enum)]);
    let without = script(vec![leaf(GDScriptNodeKind::Enum)]);
    assert!(!are_structures_equal(&before_enum, &without));
    let at_the_end = script(vec![variable(), annotation()]);
    assert!(!are_structures_equal(&at_the_end, &script(vec![variable()])));
    assert!(are_structures_equal(&at_the_end, &at_the_end));
}

#[test]
fn kinds_of_variables_are_one() {
    let export = script(vec![node(
        GDScriptNodeKind::ExportVariable,
        vec![leaf(GDScriptNodeKind::Identifier)],
    )]);
    let onready = script(vec![node(
        GDScriptNodeKind::OnReadyVariable,
        vec![leaf(GDScriptNodeKind::Identifier)],
    )]);
    assert!(are_structures_equal(&export, &script(vec![variable()])));
    assert!(are_structures_equal(&onready, &export));
}

#[test]
fn class_name_is_split_once() {
    let name = || leaf(GDScriptNodeKind::Identifier);
    let extends = || leaf(GDScriptNodeKind::Extends);
    let together = script(vec![node(
        GDScriptNodeKind::ClassName,
        vec![name(), extends()],
    )]);
    let apart = script(vec![
        node(GDScriptNodeKind::ClassName, vec![name()]),
        extends(),
    ]);
    let swapped = script(vec![
        extends(),
        node(GDScriptNodeKind::ClassName, vec![name()]),
    ]);
    assert!(are_structures_equal(&together, &apart));
    assert!(!are_structures_equal(&together, &swapped));
}

#[test]
fn dropped_and_added_nodes_are_noticed() {
    let one = script(vec![variable()]);
    let two = script(vec![variable(), variable()]);
    assert!(!are_structures_equal(&one, &two));
    assert!(!are_structures_equal(&two, &one));
    assert!(!structurally_equal("var x = 1", "var x = 1\nvar y = 1"));
    assert!(!structurally_equal("var x = f(1, 2)", "var x = f(1)"));
}

#[test]
fn structures_hold_named_nodes_only() {
    let tree = parse("var x = 1");
    let structure = read_structure(&tree.root_node());
    assert_eq!(structure.kind, GDScriptNodeKind::Other);
    assert_eq!(structure.children.len(), 1);
    let statement = &structure.children[0];
    assert_eq!(statement.kind, GDScriptNodeKind::Variable);
    assert_eq!(statement.children.len(), 2);
    assert_eq!(statement.children[0].kind, GDScriptNodeKind::Identifier);
    assert_eq!(statement.children[1].kind, GDScriptNodeKind::Other);
    assert!(statement.children[1].children.is_empty());
}
