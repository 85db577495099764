use gdscript_formatter::formatter::build_formatter_intermediate_representation;
use gdscript_formatter::formatter::regions::find_disabled_region_containing;
use gdscript_formatter::formatter::rules::calculate_separator_blank_count;
use gdscript_formatter::node_kind::GDScriptNodeKind;
use gdscript_formatter::parser::{ParseInput, RegionWithDisabledFormatting};
use gdscript_formatter::renderer::{RangeRenderElement, RenderElement};
use gdscript_formatter::reorder::{DeclarationKind, ReorderItem, ReorderPlan};
use gdscript_formatter::string_literal::QuoteStyle;
use gdscript_formatter::syntax_tree::SyntaxTree;
use gdscript_formatter::tree_reader::read_tree;
use gdscript_formatter::verify_structure::are_syntax_trees_structurally_equal;

fn parse(source: &str) -> SyntaxTree {
    let mut parser = tree_sitter::Parser::new();
    parser
        .set_language(&tree_sitter_gdscript::LANGUAGE.into())
        .unwrap();
    read_tree(&parser.parse(source, None).unwrap())
}

fn input<'a>(source: &'a str, tree: &'a SyntaxTree, quote_style: QuoteStyle) -> ParseInput<'a> {
    ParseInput {
        source,
        tree,
        disabled_regions: Vec::new(),
        blank_lines_around_definitions: 2,
        continuation_indent_level: 2,
        quote_style,
        reorder_code: false,
        reorder_plan: ReorderPlan { items: Vec::new() },
    }
}

fn elements(input: &ParseInput) -> Vec<RenderElement> {
    assert!(input.is_well_formed());
    let mut elements = vec![RenderElement::Space];
    build_formatter_intermediate_representation(input, &mut elements);
    elements
}

/// Writes elements in short: groups in `()`, indents in `>[]`, balanced groups
/// in `%()`, branches in `?{}` and `:{}`, soft lines as `|`, hard lines as `/`,
/// blank lines as `#`, balanced lines as `~`, forced breaks as `!`, and spaces
/// that only appear on a single line as `_`.
fn sketch_range(
    source: &str,
    elements: &[RenderElement],
    range: RangeRenderElement,
    out: &mut String,
) {
    let mut index = range.start;
    while index < range.end {
        let mut next = index + 1;
        match &elements[index] {
            RenderElement::Text { range } => out.push_str(&source[range.start_byte..range.end_byte]),
            RenderElement::UnformattedSource { range } => {
                out.push_str(&source[range.start_byte..range.end_byte])
            }
            RenderElement::TextProducedByFormatter(text) => out.push_str(text),
            RenderElement::TextStatic(text) => {
                out.push('\'');
                out.push_str(text);
            }
            RenderElement::Space => out.push(' '),
            RenderElement::SpaceSingleLineOnly => out.push('_'),
            RenderElement::SoftLine => out.push('|'),
            RenderElement::HardLine => out.push('/'),
            RenderElement::BlankLine => out.push('#'),
            RenderElement::BalancedLine => out.push('~'),
            RenderElement::ForceBreakingParent => out.push('!'),
            RenderElement::Indent { level, child } => {
                out.push_str(&">".repeat(*level as usize));
                out.push('[');
                sketch_range(source, elements, *child, out);
                out.push(']');
                next = child.end;
            }
            RenderElement::Group { children, parent_fit: _ } => {
                out.push('(');
                sketch_range(source, elements, *children, out);
                out.push(')');
                next = children.end;
            }
            RenderElement::BalancedGroup { children } => {
                out.push_str("%(");
                sketch_range(source, elements, *children, out);
                out.push(')');
                next = children.end;
            }
            RenderElement::Branch { if_single_line, if_multiline } => {
                if let Some(range) = if_multiline {
                    out.push_str("?{");
                    sketch_range(source, elements, *range, out);
                    out.push('}');
                    next = range.end;
                }
                if let Some(range) = if_single_line {
                    out.push_str(":{");
                    sketch_range(source, elements, *range, out);
                    out.push('}');
                    next = range.end;
                }
            }
        }
        index = next;
    }
}

fn sketch_input(input: &ParseInput) -> String {
    let elements = elements(input);
    let mut out = String::new();
    let range = RangeRenderElement { start: 0, end: elements.len() };
    sketch_range(input.source, &elements, range, &mut out);
    out
}

fn sketch(source: &str) -> String {
    let tree = parse(source);
    sketch_input(&input(source, &tree, QuoteStyle::Preserve))
}

/// A small renderer: a group stays on one line if it fits and nothing in it
/// breaks.
struct Renderer<'a> {
    source: &'a str,
    elements: &'a [RenderElement],
    max_line_length: usize,
    output: String,
}

impl<'a> Renderer<'a> {
    fn text(&self, index: usize) -> Option<&'a str> {
        let source = self.source;
        match &self.elements[index] {
            RenderElement::Text { range } => Some(&source[range.start_byte..range.end_byte]),
            RenderElement::UnformattedSource { range } => {
                Some(&source[range.start_byte..range.end_byte])
            }
            RenderElement::TextProducedByFormatter(text) => Some(text.as_str()),
            RenderElement::TextStatic(text) => Some(text),
            RenderElement::Space | RenderElement::SpaceSingleLineOnly => Some(" "),
            RenderElement::BalancedLine => Some(" "),
            _ => None,
        }
    }

    fn flat_width(&self, range: RangeRenderElement) -> Option<usize> {
        let mut width = 0;
        let mut index = range.start;
        while index < range.end {
            match &self.elements[index] {
                RenderElement::HardLine
                | RenderElement::BlankLine
                | RenderElement::ForceBreakingParent => return None,
                RenderElement::Branch { if_single_line: None, if_multiline: Some(range) } => {
                    index = range.end;
                    continue;
                }
                _ => {}
            }
            if let Some(text) = self.text(index) {
                width += text.len();
            }
            index += 1;
        }
        Some(width)
    }

    fn push(&mut self, text: &str, indent: usize) {
        if self.output.is_empty() || self.output.ends_with('\n') {
            self.output.push_str(&"\t".repeat(indent));
        }
        self.output.push_str(text);
    }

    fn break_line(&mut self) {
        if !self.output.is_empty() && !self.output.ends_with('\n') {
            self.output.push('\n');
        }
    }

    fn render(&mut self, range: RangeRenderElement, indent: usize, is_flat: bool) {
        let mut index = range.start;
        while index < range.end {
            let mut next = index + 1;
            let elements = self.elements;
            match &elements[index] {
                RenderElement::SoftLine => {
                    if !is_flat {
                        self.break_line();
                    }
                }
                RenderElement::SpaceSingleLineOnly => {
                    if is_flat {
                        self.push(" ", indent);
                    }
                }
                RenderElement::BalancedLine => {
                    if is_flat {
                        self.push(" ", indent);
                    } else {
                        self.break_line();
                    }
                }
                RenderElement::HardLine => self.break_line(),
                RenderElement::BlankLine => {
                    self.break_line();
                    self.output.push('\n');
                }
                RenderElement::ForceBreakingParent => {}
                RenderElement::Indent { level, child } => {
                    self.render(*child, indent + *level as usize, is_flat);
                    next = child.end;
                }
                RenderElement::Group { children, parent_fit: _ }
                | RenderElement::BalancedGroup { children } => {
                    let line_start = self.output.rfind('\n').map_or(0, |i| i + 1);
                    let line_length = self.output.len() - line_start;
                    let fits = match self.flat_width(*children) {
                        Some(width) => line_length + width <= self.max_line_length,
                        None => false,
                    };
                    self.render(*children, indent, is_flat || fits);
                    next = children.end;
                }
                RenderElement::Branch { if_single_line, if_multiline } => {
                    if let Some(range) = if_single_line {
                        if is_flat {
                            self.render(*range, indent, is_flat);
                        }
                        next = range.end;
                    }
                    if let Some(range) = if_multiline {
                        if !is_flat {
                            self.render(*range, indent, is_flat);
                        }
                        next = range.end;
                    }
                }
                _ => {
                    if let Some(text) = self.text(index) {
                        self.push(text, indent);
                    }
                }
            }
            index = next;
        }
    }
}

fn format(source: &str, quote_style: QuoteStyle, max_line_length: usize) -> String {
    let tree = parse(source);
    let input = input(source, &tree, quote_style);
    let elements = elements(&input);
    let mut renderer = Renderer {
        source,
        elements: &elements,
        max_line_length,
        output: String::new(),
    };
    let range = RangeRenderElement { start: 0, end: elements.len() };
    renderer.render(range, 0, false);
    renderer.break_line();
    renderer.output
}

fn keeps_structure(before: &str, after: &str) -> bool {
    let mut parser = tree_sitter::Parser::new();
    parser
        .set_language(&tree_sitter_gdscript::LANGUAGE.into())
        .unwrap();
    let before = parser.parse(before, None).unwrap();
    let after = parser.parse(after, None).unwrap();
    are_syntax_trees_structurally_equal(&before, &after, &[GDScriptNodeKind::Other; 256])
}

#[test]
fn quote_style_changes_compatible_string_literals() {
    let input = r#"var double = "double"
var single = 'already single'
var escaped = "line\n"
var contains_preferred_quote = "don't change"
var multiline = """multiple
lines"""
var multiline_with_preferred_quote = """has ''' inside"""
var string_name = &"Name"
var node_path = ^"Node/Path"
"#;
    let expected = r#"var double = 'double'
var single = 'already single'
var escaped = 'line\n'
var contains_preferred_quote = "don't change"
var multiline = '''multiple
lines'''
var multiline_with_preferred_quote = """has ''' inside"""
var string_name = &'Name'
var node_path = ^'Node/Path'
"#;
    let output = format(input, QuoteStyle::Single, 100);
    assert_eq!(output, expected);
    assert!(keeps_structure(input, &output));
    let again = format(&output, QuoteStyle::Single, 100);
    assert_eq!(again, output);
    assert!(keeps_structure(&output, &again));
}

#[test]
fn quote_style_prefers_double_quotes() {
    let input = r#"var single = 'single'
var contains_preferred_quote = 'keep "double"'
var multiline = '''multiple
lines'''
"#;
    let expected = r#"var single = "single"
var contains_preferred_quote = 'keep "double"'
var multiline = """multiple
lines"""
"#;
    assert_eq!(format(input, QuoteStyle::Double, 100), expected);
}

#[test]
fn generic_type_parameters_never_break() {
    // Type-level generic parameters like Dictionary[String, String] must
    // stay on one line even when max_line_length would otherwise force a
    // break. Splitting the brackets produces invalid GDScript.
    let input = "func test() -> Dictionary[String, String]:\n    return {}\n";
    let output = format(input, QuoteStyle::Preserve, 10);
    // The generic type must remain on a single line.
    let expected_line_0 = "func test() -> Dictionary[String, String]:";
    assert!(
        output.lines().next() == Some(expected_line_0),
        "Expected first line to be '{}' but got '{}'",
        expected_line_0,
        output.lines().next().unwrap_or("")
    );
}

#[test]
fn quotes_stay_where_they_are_preserved() {
    let source = "var a = 'x'\nvar b = \"y\"\nvar c = '''z'''\n";
    assert_eq!(format(source, QuoteStyle::Preserve, 100), source);
}

#[test]
fn what_was_in_the_buffer_is_gone() {
    let source = "var x = 1";
    let tree = parse(source);
    let input = input(source, &tree, QuoteStyle::Preserve);
    let mut elements = vec![RenderElement::BlankLine, RenderElement::HardLine];
    build_formatter_intermediate_representation(&input, &mut elements);
    let mut again = Vec::new();
    build_formatter_intermediate_representation(&input, &mut again);
    assert_eq!(elements, again);
    assert_eq!(sketch(source), "var x = 1");
    assert_eq!(elements.len(), 7);
}

#[test]
fn spans_are_nested() {
    let source = "func f(a, b):\n\tvar x = [1, g(func(): return {a = 1})]\n";
    let tree = parse(source);
    let elements = elements(&input(source, &tree, QuoteStyle::Preserve));
    for (index, element) in elements.iter().enumerate() {
        let range = match element {
            RenderElement::Indent { child, .. } => *child,
            RenderElement::Group { children, .. } => *children,
            RenderElement::BalancedGroup { children } => *children,
            RenderElement::Branch { if_single_line: Some(range), if_multiline: None } => *range,
            RenderElement::Branch { if_single_line: None, if_multiline: Some(range) } => *range,
            _ => continue,
        };
        assert_eq!(range.start, index + 1);
        assert!(range.start <= range.end && range.end <= elements.len());
    }
}

#[test]
fn empty_script() {
    assert_eq!(sketch(""), "");
}

#[test]
fn arrays_and_dictionaries() {
    assert_eq!(sketch("var x=[]"), "var x = []");
    assert_eq!(sketch("var x={}"), "var x = { }");
    assert_eq!(sketch("var x=[1]"), "var x = ([|>[1]|])");
    assert_eq!(sketch("var x=[1,2,3]"), "var x = ([|>[1,|_2,|_3?{',}]|])");
    assert_eq!(sketch("var x=[1,2,3,]"), "var x = ([|>[1,|_2,|_3?{',}]|])");
    assert_eq!(
        sketch("var d={a=1,\"b\":2}"),
        "var d = ({_|>[a = 1,|_\"b\": 2?{',}]|_})"
    );
    assert_eq!(sketch("var x = a[1, 2]"), "var x = a([|>[1,|_2?{',}]|])");
}

#[test]
fn containers_with_comments_and_blank_lines() {
    assert_eq!(
        sketch("var x = [\n\t1, # one\n\t2,\n\n\t3\n]"),
        "var x = ([|>[1, # one/2,|_#3?{',}]/])"
    );
    assert_eq!(
        sketch("var x = [\n\t1 # last\n]"),
        "var x = ([|>[1?{',} # last]/])"
    );
    assert_eq!(
        sketch("var x = [\n\t1,\n\t# below\n\t2,\n]"),
        "var x = ([|>[1,/# below/2?{',}]/])"
    );
}

#[test]
fn enums_always_break() {
    assert_eq!(sketch("enum A{X,Y}"), "enum A ({_|>[X,|_Y?{',}!]|_})");
    assert_eq!(sketch("enum {X}"), "enum ({_|>[X',!]|_})");
    assert_eq!(
        format("enum A {X, Y}", QuoteStyle::Preserve, 100),
        "enum A {\n\tX,\n\tY,\n}\n"
    );
}

#[test]
fn functions() {
    assert_eq!(
        sketch("func f(a,b:int=2)->void:\n\tpass"),
        "(func f(|>[a,|_b: int = 2?{',}]|) -> void:)/>[pass]"
    );
    assert_eq!(
        format("func f(first, second) -> void:\n\tpass", QuoteStyle::Preserve, 20),
        "func f(\n\tfirst,\n\tsecond,\n) -> void:\n\tpass\n"
    );
}

#[test]
fn definitions_are_two_blank_lines_apart() {
    assert_eq!(
        sketch("func f():\n\tpass\nfunc g():\n\tpass"),
        "(func f():)/>[pass]##(func g():)/>[pass]"
    );
    assert_eq!(
        sketch("class A:\n\tvar a\n\tfunc f():\n\t\tpass\n\t# c\n\tfunc g():\n\t\tpass\n"),
        "class A:/>[var a##(func f():)/>[pass]### c/(func g():)/>[pass]]"
    );
    assert_eq!(sketch("var a\nfunc f():\n\tpass"), "var a##(func f():)/>[pass]");
}

#[test]
fn blank_lines_between_other_declarations_are_limited_to_one() {
    assert_eq!(sketch("var a\n\n\n\nvar b\nvar c"), "var a/#var b/var c");
}

#[test]
fn comments_move_with_definitions() {
    assert_eq!(
        sketch("# c\n\n# d\nfunc g():\n\tpass\n# e"),
        "# c### d/(func g():)/>[pass]/# e"
    );
    assert_eq!(
        sketch("var a # x\n# d\nfunc g():\n\tpass"),
        "var a # x### d/(func g():)/>[pass]"
    );
    assert_eq!(
        sketch("var a\n\n# p\n\n# d\nfunc g():\n\tpass"),
        "var a/## p#### d/(func g():)/>[pass]"
    );
    assert_eq!(sketch("var a\n# b\nvar c"), "var a/# b/var c");
    assert_eq!(sketch("var a\n\n\n\n# b\nvar c"), "var a### b/var c");
    assert_eq!(sketch("var a\n\n# b\n\nvar c"), "var a/## b/#var c");
}

#[test]
fn annotations_of_variables() {
    assert_eq!(
        sketch("@export\nvar a\n@tool\nvar b"),
        "@export var a/@tool/var b"
    );
    assert_eq!(sketch("@onready\nvar a"), "@onready var a");
    assert_eq!(
        sketch("@export_group(\"G\")\nvar a"),
        "@export_group((|>[\"G\"]|))/var a"
    );
    assert_eq!(
        sketch("@export_range(0, 1) var a"),
        "@export_range((|>[0,|_1?{',}]|)) var a"
    );
    assert_eq!(
        sketch("@rpc(\"any_peer\") func f():\n\tpass"),
        "(@rpc((|>[\"any_peer\"]|))/func f():)/>[pass]"
    );
}

#[test]
fn semicolons_become_line_breaks() {
    assert_eq!(sketch("func f():\n\ta; b\n\n\n\tc"), "(func f():)/>[a/b/#c]");
    assert_eq!(sketch("var a; var b"), "var a/var b");
}

#[test]
fn region_markers_get_no_blank_lines() {
    assert_eq!(
        sketch("#region A\nfunc f():\n\tpass\n#endregion"),
        "#region A/(func f():)/>[pass]/#endregion"
    );
}

#[test]
fn lambdas_break_what_is_around_them() {
    assert_eq!(
        sketch("func f():\n\tvar x = f(func(): return 1)\n"),
        "(func f():)/>[var x = f((|>[(func():|:{ }>[return 1]!)?{',}!]|))]"
    );
    assert_eq!(
        sketch("func f():\n\tx(func():\n\t\tpass\n\t\t# c\n\t)\n"),
        "(func f():)/>[x((|>[(func():|:{ }>[pass',/# c]!)!]|))]"
    );
    assert_eq!(
        sketch("func f():\n\tx((func(): pass))\n"),
        "(func f():)/>[x((|>[((func():|:{ }>[pass]!/)>[)]!]|))]"
    );
    assert_eq!(
        sketch("func f():\n\tx(func():\n\t\tmatch a:\n\t\t\t1: pass\n\t)\n"),
        "(func f():)/>[x((|>[(func():|:{ }>[match a:/>[1:/>[pass]]]!)!]|))]"
    );
}

#[test]
fn boolean_operators_get_parentheses() {
    assert_eq!(
        sketch("func f():\n\tif a and b:\n\t\treturn (a\n\t\t+ b)\n\telse:\n\t\tpass"),
        "(func f():)/>[if (?{'(/}>[%(a~and b)]?{/')}):/>[return ((|>[%(a~+ b)]|))]/else:/>[pass]]"
    );
    assert_eq!(
        format("var x = first and second and third", QuoteStyle::Preserve, 16),
        "var x = (\n\tfirst\n\tand second\n\tand third\n)\n"
    );
    assert_eq!(
        format("var x = first and second and third", QuoteStyle::Preserve, 100),
        "var x = first and second and third\n"
    );
}

#[test]
fn operator_chains() {
    assert_eq!(sketch("var x = a + b * c"), "var x = a + b * c");
    assert_eq!(sketch("var x = [a + b + c]"), "var x = ([|>[%(a~+ b~+ c)]|])");
    assert_eq!(sketch("var x = [a + b - c]"), "var x = ([|>[%(%(a~+ b)~- c)]|])");
    assert_eq!(
        sketch("var x = [a not in b and c]"),
        "var x = ([|>[%(%(a~not in b)~and c)]|])"
    );
    assert_eq!(
        sketch("var x = (\n\ta\n\t# why\n\tor b\n\tor c\n)"),
        "var x = ((|>[%(a/# why/or b/or c)]|))"
    );
    assert_eq!(
        sketch("func f():\n\tvar x = a \\\n\t\t+ b\n"),
        "(func f():)/>[var x = a \\/>>[+] b]"
    );
}

#[test]
fn conditional_expressions() {
    assert_eq!(sketch("var x = a if b else c"), "var x = a if b else c");
    assert_eq!(
        sketch("var x = (a if b\nelse c)"),
        "var x = ((|>[(!a|if b|else c)]|))"
    );
    assert_eq!(
        sketch("var x = [a if b\nelse c]"),
        "var x = ([|>[('(!|>[(!a|if b|else c)]|'))]|])"
    );
}

#[test]
fn chains_of_calls() {
    assert_eq!(
        sketch("func f():\n\ta.b().c().d()"),
        "(func f():)/>[(a>>[?{ '\\}|.b](())>>[?{ '\\}|.c](())>>[?{ '\\}|.d](()))]"
    );
    assert_eq!(
        sketch("func f():\n\tx = [a.b().c(1, 2,).d]\n"),
        "(func f():)/>[x = ([|>[(a|.b(())|.c((1, 2))|.d)]|])]"
    );
    assert_eq!(
        sketch("func f():\n\tx = a.b() \\\n\t\t.c()\n"),
        "(func f():)/>[x = (a.b(()) \\\n>>[.c](()))]"
    );
    assert_eq!(sketch("func f():\n\ta.b()"), "(func f():)/>[a.b()]");
    assert_eq!(
        sketch("func f():\n\tx = a.b().c(1, 2).d(func(): pass)\n"),
        "(func f():)/>[x = (a>>[?{ '\\}|.b](())>>[?{ '\\}|.c]((1, 2))>>[?{ '\\}|.d](((|>[(func():|:{ }>[pass]!)?{',}!]|))))]"
    );
}

#[test]
fn types_and_casts_stay_on_one_line() {
    assert_eq!(
        sketch("var x: Dictionary[String, int] = y as Array[int]"),
        "var x: Dictionary[String, int] = y as Array[int]"
    );
}

#[test]
fn accessors() {
    assert_eq!(
        sketch("var x:\n\tset(v):\n\t\tx = v\n\tget:\n\t\treturn x\n"),
        "var x:/>[set((|>[v]|)):/>[x = v]/get:/>[return x]]"
    );
}

#[test]
fn other_statements() {
    assert_eq!(
        sketch("match x:\n\t1:\n\t\tpass\n\t_:\n\t\tpass\n"),
        "match x:/>[1:/>[pass]/_:/>[pass]]"
    );
    assert_eq!(
        sketch("signal a(b, c)\nconst B = preload(\"x\")\n"),
        "signal a((|>[b,|_c?{',}]|))/const B = preload((|>[\"x\"]|))"
    );
    assert_eq!(
        sketch("func f():\n\tassert(x)\n\treturn -a\n"),
        "(func f():)/>[assert((|>[x]|))/return -a]"
    );
    assert_eq!(
        sketch("func f():\n\tif x: # c\n\t\tpass # d\n\t# e\n\telif y:\n\t\tpass\n"),
        "(func f():)/>[if x: # c/>[pass # d]/# e/elif y:/>[pass]]"
    );
    assert_eq!(sketch("var x = not ~a"), "var x = not ~a");
    assert_eq!(sketch("var x := $A/B"), "var x := $A/B");
}

fn sketch_with_region(source: &str, start: usize, end: usize) -> String {
    let tree = parse(source);
    let mut input = input(source, &tree, QuoteStyle::Preserve);
    input.disabled_regions = vec![RegionWithDisabledFormatting { start, end }];
    sketch_input(&input)
}

#[test]
fn disabled_regions_are_copied() {
    let source = "var x  =  0\n# fmt: off\nvar a  =  1\n# fmt: on\nvar b  =  2\n";
    let start = source.find("# fmt: off").unwrap();
    let end = source.find("# fmt: on\n").unwrap() + "# fmt: on".len();
    assert_eq!(
        sketch_with_region(source, start, end),
        "var x = 0/# fmt: off\nvar a  =  1\n# fmt: on/var b = 2"
    );
}

#[test]
fn disabled_regions_in_bodies_are_copied() {
    let source = "func f():\n\ta  ( )\n\t# fmt: off\n\tb  ( )\n\t# fmt: on\n\tc  ( )\n";
    let start = source.find("# fmt: off").unwrap();
    let end = source.find("# fmt: on\n").unwrap() + "# fmt: on".len();
    assert_eq!(
        sketch_with_region(source, start, end),
        "func f():/>[a()/# fmt: off\n\tb  ( )\n\t# fmt: on/c()]"
    );
}

#[test]
fn disabled_regions_can_end_inside_of_a_function() {
    let source = "# fmt: off\nfunc f( ):\n\ta  ( )\n\t# fmt: on\n\tc  ( )\n";
    let end = source.find("# fmt: on\n").unwrap() + "# fmt: on".len();
    assert_eq!(
        sketch_with_region(source, 0, end),
        "# fmt: off\nfunc f( ):\n\ta  ( )\n\t# fmt: on>[/c()]"
    );
}

fn item(classification: DeclarationKind, child_index: usize) -> ReorderItem {
    ReorderItem {
        classification,
        child_index,
        sub_child: None,
        split_extends: false,
        has_blank_line_before: false,
        child_indices_attached_before_declaration: Vec::new(),
        child_indices_attached_after_declaration: Vec::new(),
    }
}

fn sketch_with_plan(source: &str, items: Vec<ReorderItem>) -> String {
    let tree = parse(source);
    let mut input = input(source, &tree, QuoteStyle::Preserve);
    input.reorder_code = true;
    input.reorder_plan = ReorderPlan { items };
    sketch_input(&input)
}

#[test]
fn declarations_follow_the_plan() {
    assert_eq!(
        sketch_with_plan(
            "func f():\n\tpass\nvar b\nconst C = 1\nvar a",
            vec![
                item(DeclarationKind::Constant, 2),
                item(DeclarationKind::Variable, 1),
                item(DeclarationKind::Variable, 3),
                item(DeclarationKind::Method, 0),
            ]
        ),
        "const C = 1/#var b/var a##(func f():)/>[pass]"
    );
}

#[test]
fn blank_lines_are_kept_between_items_in_source_order() {
    let first = || item(DeclarationKind::Variable, 0);
    let second = || {
        let mut second = item(DeclarationKind::Variable, 1);
        second.has_blank_line_before = true;
        second
    };
    assert_eq!(
        sketch_with_plan("var a\n\nvar b", vec![first(), second()]),
        "var a/#var b"
    );
    let mut moved = first();
    moved.has_blank_line_before = true;
    assert_eq!(
        sketch_with_plan("var a\n\nvar b", vec![second(), moved]),
        "var b/var a"
    );
}

#[test]
fn what_is_attached_moves_along() {
    let mut a = item(DeclarationKind::Variable, 3);
    a.child_indices_attached_before_declaration = vec![2];
    a.child_indices_attached_after_declaration = vec![4];
    assert_eq!(
        sketch_with_plan(
            "func f():\n\tpass\nvar b\n# above\nvar a # behind\n",
            vec![
                a,
                item(DeclarationKind::Variable, 1),
                item(DeclarationKind::Method, 0),
                item(DeclarationKind::Constant, 9),
            ]
        ),
        "# above/var a # behind/var b##(func f():)/>[pass]##"
    );
}

#[test]
fn class_name_is_written_in_two_items() {
    let mut class_name = item(DeclarationKind::ClassName, 0);
    class_name.split_extends = true;
    let mut extends = item(DeclarationKind::Extends, 0);
    extends.sub_child = Some(2);
    let mut missing = item(DeclarationKind::Extends, 0);
    missing.sub_child = Some(7);
    assert_eq!(
        sketch_with_plan(
            "class_name Foo extends Bar",
            vec![class_name, extends, missing]
        ),
        "class_name Foo/extends Bar/"
    );
}

#[test]
fn docstrings_stand_on_lines_of_their_own() {
    let mut docstring = item(DeclarationKind::Docstring, 1);
    docstring.child_indices_attached_before_declaration = vec![1, 2];
    assert_eq!(
        sketch_with_plan(
            "extends A\n## One\n## Two\nvar a",
            vec![
                item(DeclarationKind::Extends, 0),
                docstring,
                item(DeclarationKind::Variable, 3),
            ]
        ),
        "extends A/## One/## Two//#var a"
    );
}

#[test]
fn an_empty_plan_keeps_the_script() {
    assert_eq!(sketch_with_plan("# a\n\n# b", Vec::new()), "# a/## b");
}

#[test]
fn reordering_is_skipped_with_disabled_regions() {
    let source = "var a\nvar b";
    let tree = parse(source);
    let mut input = input(source, &tree, QuoteStyle::Preserve);
    input.reorder_code = true;
    input.reorder_plan = ReorderPlan {
        items: vec![
            item(DeclarationKind::Variable, 1),
            item(DeclarationKind::Variable, 0),
        ],
    };
    assert!(input.reorders() && !input.skips_reordering());
    assert_eq!(sketch_input(&input), "var b/var a");
    input.disabled_regions = vec![RegionWithDisabledFormatting { start: 50, end: 60 }];
    assert!(!input.reorders() && input.skips_reordering());
    assert_eq!(sketch_input(&input), "var a/var b");
}

#[test]
fn plans_that_move_text_backwards_are_refused() {
    let source = "var a # behind\nvar b";
    let tree = parse(source);
    let mut input = input(source, &tree, QuoteStyle::Preserve);
    input.reorder_code = true;
    let mut before = item(DeclarationKind::Variable, 0);
    before.child_indices_attached_before_declaration = vec![1];
    input.reorder_plan = ReorderPlan { items: vec![before] };
    assert!(!input.is_well_formed());
    let mut after = item(DeclarationKind::Variable, 2);
    after.child_indices_attached_after_declaration = vec![1];
    input.reorder_plan = ReorderPlan { items: vec![after] };
    assert!(!input.is_well_formed());
    input.reorder_code = false;
    assert!(input.is_well_formed());
}

const SCRIPT: &str = "class_name A extends B\n\n@export\nvar a: int = 1 + 2 * (3 - 4)\n\
    enum E { X, Y = 2, }\nsignal s(p)\n# note\nfunc f(a, b = {\"k\": [1, 2]}) -> void:\n\
    \tif a and b or not c: return\n\tvar l = func(x): return x\n\
    \tmatch a:\n\t\t1, 2: pass\n\t\tvar y when y > 1: g(); h()\n\
    \tfor i in range(3): d.e(i).f()[i] = $N/M if i else &\"t\"\n\
    \twhile true: break\n\n\n\n\tawait z\n";

#[test]
fn no_token_gets_lost() {
    let tree = parse(SCRIPT);
    let elements = elements(&input(SCRIPT, &tree, QuoteStyle::Preserve));
    let mut leaves = 0;
    for node in 0..tree.len() {
        let text = &SCRIPT[tree.start_byte(node)..tree.end_byte(node)];
        if tree.child_count(node) > 0 || text == "," || text == ";" {
            continue;
        }
        leaves += 1;
        assert!(
            elements.iter().any(|element| match element {
                RenderElement::Text { range } | RenderElement::UnformattedSource { range } => {
                    range.start_byte <= tree.start_byte(node) && tree.end_byte(node) <= range.end_byte
                }
                _ => false,
            }),
            "{text:?} is missing"
        );
    }
    assert!(leaves > 100);
}

#[test]
fn text_comes_from_the_source() {
    let tree = parse(SCRIPT);
    let mut copied = 0;
    for element in elements(&input(SCRIPT, &tree, QuoteStyle::Single)) {
        match element {
            RenderElement::Text { range } => {
                copied += 1;
                assert!((0..tree.len()).any(|node| tree.child_count(node) == 0
                    && tree.start_byte(node) == range.start_byte
                    && tree.end_byte(node) == range.end_byte));
            }
            RenderElement::UnformattedSource { range } => {
                assert!((0..tree.len()).any(|node| tree.start_byte(node) == range.start_byte
                    && tree.end_byte(node) == range.end_byte));
            }
            RenderElement::TextProducedByFormatter(text) => {
                assert!(text == "'k'" || text == "&'t'");
            }
            RenderElement::TextStatic(text) => assert!([",", "(", ")", "\\"].contains(&text)),
            _ => {}
        }
    }
    assert!(copied > 100);
}

#[test]
fn bodies_keep_at_most_one_blank_line() {
    assert_eq!(
        sketch("func f():\n\ta()\n\n\n\n\n\tb()\n\tc()"),
        "(func f():)/>[a()/#b()/c()]"
    );
}

#[test]
fn blank_lines_follow_definitions_too() {
    let tree = parse("");
    let mut input = input("", &tree, QuoteStyle::Preserve);
    let (function, variable) = (GDScriptNodeKind::Function, GDScriptNodeKind::Variable);
    assert_eq!(calculate_separator_blank_count(&input, function, variable, true), 2);
    assert_eq!(calculate_separator_blank_count(&input, variable, function, true), 2);
    assert_eq!(calculate_separator_blank_count(&input, variable, variable, false), 0);
    input.blank_lines_around_definitions = 3;
    assert_eq!(calculate_separator_blank_count(&input, function, variable, true), 3);
    assert_eq!(
        sketch("func f():\n\tpass\nvar a"),
        "(func f():)/>[pass]##var a"
    );
}

#[test]
fn regions_are_found_by_offset() {
    let source = "# fmt: off\na  ( )\n# fmt: on\n\n# fmt: off\nb";
    let tree = parse(source);
    let mut input = input(source, &tree, QuoteStyle::Preserve);
    let first = RegionWithDisabledFormatting { start: 0, end: 27 };
    let second = RegionWithDisabledFormatting { start: 29, end: source.len() };
    input.disabled_regions = vec![first, second];
    let starts = |offset| {
        find_disabled_region_containing(&input, offset).map(|region| (region.start, region.end))
    };
    assert_eq!(starts(0), Some((0, 27)));
    assert_eq!(starts(26), Some((0, 27)));
    assert_eq!(starts(27), None);
    assert_eq!(starts(28), None);
    assert_eq!(starts(29), Some((29, source.len())));
    assert_eq!(starts(source.len()), None);
}

#[test]
fn comments_in_bodies_stay_on_the_line_above() {
    assert_eq!(
        sketch("func f():\n\ta()\n\n\t# c\n\tb()"),
        "(func f():)/>[a()/## c/b()]"
    );
}

#[test]
fn a_lone_comment_gets_no_comma() {
    for source in ["var a = [ # c\n]", "var a = { # c\n}", "f( # c\n)"] {
        assert!(!sketch(source).contains(','), "{}", sketch(source));
    }
    assert_eq!(sketch("var a = [ # c\n]"), "var a = ([|>[# c]/])");
    assert_eq!(sketch("var a = [1 # c\n]"), "var a = ([|>[1?{',} # c]/])");
}

#[test]
fn commas_stand_in_front_of_trailing_comments() {
    let layout = sketch("f(func():\n\ta()\n\t# c\n\t# d\n)");
    assert_eq!(layout, "f((|>[(func():|:{ }>[a()',/# c/# d]!)!]|))");
}

#[test]
fn trailing_commas_make_no_difference() {
    for (without, with) in [
        ("var a = [1, 2]", "var a = [1, 2,]"),
        ("var a = {\"k\": 1, \"l\": 2}", "var a = {\"k\": 1, \"l\": 2,}"),
        ("f(1, 2)", "f(1, 2,)"),
        ("enum E { X, Y }", "enum E { X, Y, }"),
    ] {
        assert_ne!(without, with);
        assert_eq!(sketch(without), sketch(with));
    }
    assert_eq!(sketch("var a = [1, 2,]"), "var a = ([|>[1,|_2?{',}]|])");
}

#[test]
fn disabled_regions_leave_out_reordering() {
    let source = "var b\n# fmt: off\nvar a  =  1\n# fmt: on\nfunc f(): pass\n";
    let start = source.find("# fmt: off").unwrap();
    let end = source.find("# fmt: on\n").unwrap() + "# fmt: on".len();
    let tree = parse(source);
    let mut input = input(source, &tree, QuoteStyle::Preserve);
    input.disabled_regions = vec![RegionWithDisabledFormatting { start, end }];
    let in_order = sketch_input(&input);
    input.reorder_code = true;
    input.reorder_plan = ReorderPlan { items: vec![item(DeclarationKind::Variable, 0)] };
    assert_eq!(sketch_input(&input), in_order);
    input.disabled_regions = Vec::new();
    assert_ne!(sketch_input(&input), in_order);
}

/// How often elements copy the byte at an offset.
fn copies(elements: &[RenderElement], byte: usize) -> usize {
    elements
        .iter()
        .filter(|element| match element {
            RenderElement::Text { range } | RenderElement::UnformattedSource { range } => {
                range.start_byte <= byte && byte < range.end_byte
            }
            _ => false,
        })
        .count()
}

#[test]
fn no_byte_is_written_twice() {
    let tree = parse(SCRIPT);
    for node in 0..tree.len() {
        for index in 0..tree.child_count(node) {
            let child = tree.child(node, index);
            assert!(tree.start_byte(node) <= tree.start_byte(child));
            assert!(tree.end_byte(child) <= tree.end_byte(node));
        }
    }
    let elements = elements(&input(SCRIPT, &tree, QuoteStyle::Preserve));
    let mut copied = 0;
    for byte in 0..SCRIPT.len() {
        let count = copies(&elements, byte);
        assert!(count <= 1, "{byte} is written {count} times");
        copied += count;
    }
    assert!(copied > 200);
}

#[test]
fn no_token_gets_lost_around_disabled_regions() {
    let source = "var x  =  [1]\n# fmt: off\nvar a  =  [ 2 ]\n# fmt: on\nfunc f( ):\n\
        \ta  ( )\n\t# fmt: off\n\tb  ( 3 )\n\t# fmt: on\n\tc  ( )\n";
    let tree = parse(source);
    let mut input = input(source, &tree, QuoteStyle::Preserve);
    let mut offset = 0;
    while let Some(start) = source[offset..].find("# fmt: off").map(|start| start + offset) {
        let end = start + source[start..].find("# fmt: on\n").unwrap() + "# fmt: on".len();
        input.disabled_regions.push(RegionWithDisabledFormatting { start, end });
        offset = end;
    }
    assert_eq!(input.disabled_regions.len(), 2);
    let elements = elements(&input);
    for node in 0..tree.len() {
        if tree.child_count(node) == 0 {
            for byte in tree.start_byte(node)..tree.end_byte(node) {
                assert_eq!(copies(&elements, byte), 1);
            }
        }
    }
}
