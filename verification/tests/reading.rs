use gdscript_formatter::node_kind::GDScriptNodeKind;
use gdscript_formatter::parser::ParseInput;
use gdscript_formatter::reorder::ReorderPlan;
use gdscript_formatter::string_literal::{format_string_literal, delimiters_fit, QuoteStyle};
use gdscript_formatter::syntax_tree::{SyntaxNode, SyntaxTree};
use gdscript_formatter::text::{count_newlines, has_newline};
use gdscript_formatter::tree_reader::read_tree;

fn parse(source: &str) -> SyntaxTree {
    let mut parser = tree_sitter::Parser::new();
    parser
        .set_language(&tree_sitter_gdscript::LANGUAGE.into())
        .unwrap();
    read_tree(&parser.parse(source, None).unwrap())
}

fn input<'a>(source: &'a str, tree: &'a SyntaxTree) -> ParseInput<'a> {
    ParseInput {
        source,
        tree,
        disabled_regions: Vec::new(),
        blank_lines_around_definitions: 2,
        continuation_indent_level: 2,
        quote_style: QuoteStyle::Single,
        reorder_code: false,
        reorder_plan: ReorderPlan { items: Vec::new() },
    }
}

#[test]
fn trees_keep_what_the_parser_found() {
    let source = "var a = 1\n\nvar b = (c\n\t+ d)\n";
    let tree = parse(source);
    assert!(tree.check_links());
    assert_eq!(tree.name(0), "source");
    assert_eq!(tree.parent(0), None);
    assert_eq!(tree.child_count(0), 2);

    let first = tree.child(0, 0);
    assert_eq!(first, 1);
    assert_eq!(tree.kind(first), GDScriptNodeKind::Variable);
    assert_eq!(tree.parent(first), Some(0));
    assert_eq!((tree.start_byte(first), tree.end_byte(first)), (0, 9));
    assert_eq!((tree.start_row(first), tree.end_row(first)), (0, 0));
    assert_eq!(tree.child_count(first), 4);
    assert!(!tree.is_named(tree.child(first, 0)));
    assert_eq!(tree.name(tree.child(first, 0)), "var");
    assert!(tree.is_named(tree.child(first, 1)));
    assert_eq!(tree.child_kind(first, 1), GDScriptNodeKind::Identifier);

    let second = tree.child(0, 1);
    assert_eq!((tree.start_byte(second), tree.end_byte(second)), (11, 27));
    assert_eq!((tree.start_row(second), tree.end_row(second)), (2, 3));
    let parentheses = tree.child(second, 3);
    assert_eq!(tree.kind(parentheses), GDScriptNodeKind::ParenthesizedExpression);
    let operator = tree.child(parentheses, 1);
    assert_eq!(tree.kind(operator), GDScriptNodeKind::BinaryOperator);
    assert_eq!(tree.left(operator), Some(tree.child(operator, 0)));
    assert_eq!(tree.right(operator), Some(tree.child(operator, 2)));
    assert_eq!(tree.name(tree.child(operator, 1)), "+");
    assert_eq!(tree.left(first), None);
    assert!(input(source, &tree).is_well_formed());
}

#[test]
fn every_node_is_read() {
    let source = "class A:\n\tfunc f(a, b = [1, 2]):\n\t\treturn {x = a.b().c}\n";
    let mut parser = tree_sitter::Parser::new();
    parser
        .set_language(&tree_sitter_gdscript::LANGUAGE.into())
        .unwrap();
    let parsed = parser.parse(source, None).unwrap();
    let tree = read_tree(&parsed);
    assert_eq!(tree.len(), parsed.root_node().descendant_count());
}

fn plain(start_byte: usize, end_byte: usize, parent: Option<usize>) -> SyntaxNode {
    SyntaxNode {
        kind: GDScriptNodeKind::Other,
        name: String::from("node"),
        is_named: true,
        start_byte,
        end_byte,
        start_row: 0,
        end_row: 0,
        parent,
        children: Vec::new(),
        left: None,
        right: None,
    }
}

fn three_nodes() -> SyntaxTree {
    let mut root = plain(0, 4, None);
    root.children = vec![1, 2];
    SyntaxTree { nodes: vec![root, plain(0, 2, Some(0)), plain(2, 4, Some(0))] }
}

#[test]
fn trees_have_to_be_linked() {
    assert!(three_nodes().check_links());
    assert!(!SyntaxTree { nodes: Vec::new() }.check_links());
    let mut tree = three_nodes();
    tree.nodes[0].children = vec![1, 3];
    assert!(!tree.check_links());
    let mut tree = three_nodes();
    tree.nodes[2].parent = Some(1);
    assert!(!tree.check_links());
    let mut tree = three_nodes();
    tree.nodes[2].parent = None;
    assert!(!tree.check_links());
    let mut tree = three_nodes();
    tree.nodes[1].children = vec![0];
    assert!(!tree.check_links());
    let mut tree = three_nodes();
    tree.nodes[1].left = Some(1);
    assert!(!tree.check_links());
    let mut tree = three_nodes();
    tree.nodes[1].right = Some(3);
    assert!(!tree.check_links());
    let mut tree = three_nodes();
    tree.nodes[1].left = Some(2);
    assert!(!tree.check_links());
    let mut tree = three_nodes();
    tree.nodes[0].left = Some(2);
    assert!(tree.check_links());
    let mut tree = three_nodes();
    tree.nodes[0].parent = Some(0);
    assert!(!tree.check_links());
}

#[test]
fn trees_have_to_fit_the_source() {
    let tree = three_nodes();
    assert!(input("abcd", &tree).is_well_formed());
    assert!(!input("abc", &tree).is_well_formed());
    let mut tree = three_nodes();
    tree.nodes[1].end_byte = 3;
    assert!(!input("abcd", &tree).is_well_formed());
    let mut tree = three_nodes();
    tree.nodes[2].end_byte = 1;
    assert!(!input("abcd", &tree).is_well_formed());
}

#[test]
fn strings_have_to_have_quotes() {
    let mut tree = three_nodes();
    tree.nodes[0].kind = GDScriptNodeKind::String;
    assert!(input("\"ab\"", &tree).is_well_formed());
    assert!(input("'ab'", &tree).is_well_formed());
    let mut tree = three_nodes();
    tree.nodes[0].kind = GDScriptNodeKind::StringName;
    tree.nodes[0].end_byte = 1;
    tree.nodes[0].children = Vec::new();
    tree.nodes.truncate(1);
    assert!(input("&abc", &tree).is_well_formed());
    let mut child = plain(0, 1, Some(0));
    child.end_byte = 1;
    tree.nodes[0].children = vec![1];
    tree.nodes.push(child);
    assert!(!input("&abc", &tree).is_well_formed());
}

#[test]
fn literals_get_the_preferred_quotes() {
    assert_eq!(format_string_literal("\"a\"", QuoteStyle::Preserve), None);
    assert_eq!(format_string_literal("'a'", QuoteStyle::Single), None);
    assert_eq!(
        format_string_literal("\"a\"", QuoteStyle::Single),
        Some(String::from("'a'"))
    );
    assert_eq!(
        format_string_literal("&\"é\"", QuoteStyle::Single),
        Some(String::from("&'é'"))
    );
    assert_eq!(
        format_string_literal("^'''a'b'''", QuoteStyle::Double),
        Some(String::from("^\"\"\"a'b\"\"\""))
    );
    assert_eq!(
        format_string_literal("''", QuoteStyle::Double),
        Some(String::from("\"\""))
    );
    assert_eq!(format_string_literal("'\"'", QuoteStyle::Double), None);
    assert_eq!(format_string_literal("'''\"\"\"'''", QuoteStyle::Double), None);
    assert_eq!(format_string_literal("'''\"'''", QuoteStyle::Double), None);
    assert_eq!(format_string_literal("\"\"\"a'\"\"\"", QuoteStyle::Single), None);
    assert_eq!(
        format_string_literal("\"\"\"'a\"\"\"", QuoteStyle::Single),
        Some(String::from("''''a'''"))
    );
    assert_eq!(
        format_string_literal("r\"b\"", QuoteStyle::Single),
        Some(String::from("r'b'"))
    );
    assert_eq!(
        format_string_literal("@'c/d'", QuoteStyle::Double),
        Some(String::from("@\"c/d\""))
    );
    assert_eq!(format_string_literal("r'b'", QuoteStyle::Single), None);
}

#[test]
fn literals_without_room_for_quotes_are_told_apart() {
    assert!(delimiters_fit("'a'", QuoteStyle::Double));
    assert!(delimiters_fit("", QuoteStyle::Preserve));
    assert!(!delimiters_fit("", QuoteStyle::Single));
    assert!(!delimiters_fit("&", QuoteStyle::Single));
    assert!(!delimiters_fit("'", QuoteStyle::Double));
    assert!(!delimiters_fit("'''", QuoteStyle::Double));
    assert!(delimiters_fit("'", QuoteStyle::Single));
}

#[test]
fn newlines_are_counted_up_to_an_offset() {
    let source = "a\n\nb\n";
    assert_eq!(count_newlines(source, 0, 5), 3);
    assert_eq!(count_newlines(source, 0, 4), 3);
    assert_eq!(count_newlines(source, 0, 3), 2);
    assert_eq!(count_newlines(source, 1, 2), 2);
    assert_eq!(count_newlines(source, 2, 2), 1);
    assert_eq!(count_newlines(source, 3, 3), 0);
    assert_eq!(count_newlines("a\nb\n", 0, 3), 2);
    assert_eq!(count_newlines("a\nb\n", 4, 4), 0);
    assert!(has_newline(source, 0, 2));
    assert!(!has_newline(source, 0, 1));
    assert!(!has_newline(source, 3, 4));
}

#[test]
fn kinds_are_told_by_name() {
    assert_eq!(
        GDScriptNodeKind::from_name("function_definition"),
        GDScriptNodeKind::Function
    );
    assert_eq!(GDScriptNodeKind::from_name("("), GDScriptNodeKind::TokenParen);
    assert_eq!(GDScriptNodeKind::from_name("ERROR"), GDScriptNodeKind::Error);
    assert_eq!(GDScriptNodeKind::from_name("pass_statement"), GDScriptNodeKind::Other);
}

#[test]
fn newlines_of_adjacent_ranges_add_up() {
    let source = "a\n\nb\n c";
    for middle in 0..source.len() {
        assert_eq!(
            count_newlines(source, 0, middle) + count_newlines(source, middle + 1, source.len()),
            3
        );
    }
    assert_eq!(count_newlines(source, 0, 0), 0);
}

#[test]
fn preferred_quotes_are_kept() {
    for source in ["\"a\"", "r\"b\"", "&\"c\"", "\"\"\"d\"\"\"", "@\"e\""] {
        let formatted = format_string_literal(source, QuoteStyle::Single).unwrap();
        assert_ne!(formatted, source);
        assert_eq!(formatted, source.replace('"', "'"));
        assert_eq!(format_string_literal(&formatted, QuoteStyle::Single), None);
    }
}
