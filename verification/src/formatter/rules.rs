//! The rules that depend on nothing but the kinds of nodes and the options.
use vstd::prelude::*;

use crate::node_kind::GDScriptNodeKind;
use crate::parser::ParseInput;

verus! {

/// True of the kinds that count as declarations in the spacing of a body. The
/// comments and annotations that lead a declaration count, too.
pub open spec fn kind_is_declaration(kind: GDScriptNodeKind) -> bool {
    matches!(kind, GDScriptNodeKind::Function | GDScriptNodeKind::Constructor | GDScriptNodeKind::ClassDefinition | GDScriptNodeKind::Variable | GDScriptNodeKind::Const | GDScriptNodeKind::Enum | GDScriptNodeKind::Signal | GDScriptNodeKind::Comment | GDScriptNodeKind::Annotation)
}

/// True of the kinds that count as declarations in the spacing of a body. The
/// comments and annotations that lead a declaration count, too.
#[verifier::when_used_as_spec(kind_is_declaration)]
pub fn is_declaration(kind: GDScriptNodeKind) -> (found: bool)
    ensures
        found == kind_is_declaration(kind),
{
    matches!(kind, GDScriptNodeKind::Function | GDScriptNodeKind::Constructor | GDScriptNodeKind::ClassDefinition | GDScriptNodeKind::Variable | GDScriptNodeKind::Const | GDScriptNodeKind::Enum | GDScriptNodeKind::Signal | GDScriptNodeKind::Comment | GDScriptNodeKind::Annotation)
}

/// True of the definitions that blank lines set apart.
pub open spec fn kind_needs_two_blank_lines(kind: GDScriptNodeKind) -> bool {
    matches!(kind, GDScriptNodeKind::Function | GDScriptNodeKind::ClassDefinition | GDScriptNodeKind::InnerClass | GDScriptNodeKind::Constructor)
}

/// True of the definitions that blank lines set apart.
#[verifier::when_used_as_spec(kind_needs_two_blank_lines)]
pub fn needs_two_blank_lines(kind: GDScriptNodeKind) -> (found: bool)
    ensures
        found == kind_needs_two_blank_lines(kind),
{
    matches!(kind, GDScriptNodeKind::Function | GDScriptNodeKind::ClassDefinition | GDScriptNodeKind::InnerClass | GDScriptNodeKind::Constructor)
}

/// True of the statements that name a class and its parent.
pub open spec fn kind_is_class_header(kind: GDScriptNodeKind) -> bool {
    matches!(kind, GDScriptNodeKind::ClassName | GDScriptNodeKind::Extends)
}

/// True of the statements that name a class and its parent.
#[verifier::when_used_as_spec(kind_is_class_header)]
pub fn is_class_header(kind: GDScriptNodeKind) -> (found: bool)
    ensures
        found == kind_is_class_header(kind),
{
    matches!(kind, GDScriptNodeKind::ClassName | GDScriptNodeKind::Extends)
}

/// True of the markers of code regions.
pub open spec fn kind_is_region_marker(kind: GDScriptNodeKind) -> bool {
    matches!(kind, GDScriptNodeKind::RegionStart | GDScriptNodeKind::RegionEnd)
}

/// True of the markers of code regions.
#[verifier::when_used_as_spec(kind_is_region_marker)]
pub fn is_region_marker(kind: GDScriptNodeKind) -> (found: bool)
    ensures
        found == kind_is_region_marker(kind),
{
    matches!(kind, GDScriptNodeKind::RegionStart | GDScriptNodeKind::RegionEnd)
}

/// True of the declarations of variables.
pub open spec fn kind_is_variable(kind: GDScriptNodeKind) -> bool {
    matches!(kind, GDScriptNodeKind::Variable | GDScriptNodeKind::ExportVariable | GDScriptNodeKind::OnReadyVariable)
}

/// True of the declarations of variables.
#[verifier::when_used_as_spec(kind_is_variable)]
pub fn is_variable(kind: GDScriptNodeKind) -> (found: bool)
    ensures
        found == kind_is_variable(kind),
{
    matches!(kind, GDScriptNodeKind::Variable | GDScriptNodeKind::ExportVariable | GDScriptNodeKind::OnReadyVariable)
}

/// True of parentheses, brackets and braces.
pub open spec fn kind_is_opening_or_closing_token(kind: GDScriptNodeKind) -> bool {
    matches!(kind, GDScriptNodeKind::TokenParen | GDScriptNodeKind::TokenBracket | GDScriptNodeKind::TokenBrace)
}

/// True of parentheses, brackets and braces.
#[verifier::when_used_as_spec(kind_is_opening_or_closing_token)]
pub fn is_opening_or_closing_token(kind: GDScriptNodeKind) -> (found: bool)
    ensures
        found == kind_is_opening_or_closing_token(kind),
{
    matches!(kind, GDScriptNodeKind::TokenParen | GDScriptNodeKind::TokenBracket | GDScriptNodeKind::TokenBrace)
}

/// True of the blocks of statements, members and match branches.
pub open spec fn kind_is_indented_body(kind: GDScriptNodeKind) -> bool {
    matches!(kind, GDScriptNodeKind::Body | GDScriptNodeKind::ClassBody | GDScriptNodeKind::MatchBody)
}

/// True of the blocks of statements, members and match branches.
#[verifier::when_used_as_spec(kind_is_indented_body)]
pub fn is_indented_body(kind: GDScriptNodeKind) -> (found: bool)
    ensures
        found == kind_is_indented_body(kind),
{
    matches!(kind, GDScriptNodeKind::Body | GDScriptNodeKind::ClassBody | GDScriptNodeKind::MatchBody)
}

/// True of the delimited expressions that indent their contents once.
pub open spec fn kind_is_single_indent_container(kind: GDScriptNodeKind) -> bool {
    matches!(kind, GDScriptNodeKind::Array | GDScriptNodeKind::Dictionary | GDScriptNodeKind::EnumeratorList | GDScriptNodeKind::Parameters | GDScriptNodeKind::Arguments | GDScriptNodeKind::SubscriptArguments | GDScriptNodeKind::ParenthesizedExpression)
}

/// True of the delimited expressions that indent their contents once.
#[verifier::when_used_as_spec(kind_is_single_indent_container)]
pub fn is_single_indent_container(kind: GDScriptNodeKind) -> (found: bool)
    ensures
        found == kind_is_single_indent_container(kind),
{
    matches!(kind, GDScriptNodeKind::Array | GDScriptNodeKind::Dictionary | GDScriptNodeKind::EnumeratorList | GDScriptNodeKind::Parameters | GDScriptNodeKind::Arguments | GDScriptNodeKind::SubscriptArguments | GDScriptNodeKind::ParenthesizedExpression)
}

/// True of the kinds that an expression does not reach beyond.
pub open spec fn kind_ends_expression_search(kind: GDScriptNodeKind) -> bool {
    matches!(kind, GDScriptNodeKind::Assignment | GDScriptNodeKind::AugmentedAssignment | GDScriptNodeKind::ExpressionStatement | GDScriptNodeKind::ReturnStatement | GDScriptNodeKind::Lambda | GDScriptNodeKind::Body)
}

/// True of the kinds that an expression does not reach beyond.
#[verifier::when_used_as_spec(kind_ends_expression_search)]
pub fn ends_expression_search(kind: GDScriptNodeKind) -> (found: bool)
    ensures
        found == kind_ends_expression_search(kind),
{
    matches!(kind, GDScriptNodeKind::Assignment | GDScriptNodeKind::AugmentedAssignment | GDScriptNodeKind::ExpressionStatement | GDScriptNodeKind::ReturnStatement | GDScriptNodeKind::Lambda | GDScriptNodeKind::Body)
}

/// True of the kinds in which a chain of calls may break without a backslash.
pub open spec fn kind_allows_line_breaks_inside(kind: GDScriptNodeKind) -> bool {
    matches!(kind, GDScriptNodeKind::Array | GDScriptNodeKind::Dictionary | GDScriptNodeKind::Arguments | GDScriptNodeKind::SubscriptArguments | GDScriptNodeKind::ParenthesizedExpression)
}

/// True of the kinds in which a chain of calls may break without a backslash.
#[verifier::when_used_as_spec(kind_allows_line_breaks_inside)]
pub fn allows_line_breaks_inside(kind: GDScriptNodeKind) -> (found: bool)
    ensures
        found == kind_allows_line_breaks_inside(kind),
{
    matches!(kind, GDScriptNodeKind::Array | GDScriptNodeKind::Dictionary | GDScriptNodeKind::Arguments | GDScriptNodeKind::SubscriptArguments | GDScriptNodeKind::ParenthesizedExpression)
}

/// True of the kinds that a chain of calls does not reach beyond.
pub open spec fn kind_ends_chain_search(kind: GDScriptNodeKind) -> bool {
    matches!(kind, GDScriptNodeKind::Assignment | GDScriptNodeKind::AugmentedAssignment | GDScriptNodeKind::ExpressionStatement | GDScriptNodeKind::ReturnStatement | GDScriptNodeKind::Body)
}

/// True of the kinds that a chain of calls does not reach beyond.
#[verifier::when_used_as_spec(kind_ends_chain_search)]
pub fn ends_chain_search(kind: GDScriptNodeKind) -> (found: bool)
    ensures
        found == kind_ends_chain_search(kind),
{
    matches!(kind, GDScriptNodeKind::Assignment | GDScriptNodeKind::AugmentedAssignment | GDScriptNodeKind::ExpressionStatement | GDScriptNodeKind::ReturnStatement | GDScriptNodeKind::Body)
}

/// True of the kinds whose source is not broken up.
pub open spec fn kind_is_verbatim(kind: GDScriptNodeKind) -> bool {
    matches!(kind, GDScriptNodeKind::String | GDScriptNodeKind::StringName | GDScriptNodeKind::NodePath | GDScriptNodeKind::GetNode | GDScriptNodeKind::RegionStart | GDScriptNodeKind::RegionEnd | GDScriptNodeKind::Error)
}

/// True of the kinds whose source is not broken up.
#[verifier::when_used_as_spec(kind_is_verbatim)]
pub fn is_verbatim(kind: GDScriptNodeKind) -> (found: bool)
    ensures
        found == kind_is_verbatim(kind),
{
    matches!(kind, GDScriptNodeKind::String | GDScriptNodeKind::StringName | GDScriptNodeKind::NodePath | GDScriptNodeKind::GetNode | GDScriptNodeKind::RegionStart | GDScriptNodeKind::RegionEnd | GDScriptNodeKind::Error)
}

/// True of the kinds that indent their own contents.
pub open spec fn kind_indents_itself(kind: GDScriptNodeKind) -> bool {
    matches!(kind, GDScriptNodeKind::Lambda | GDScriptNodeKind::Array | GDScriptNodeKind::Dictionary)
}

/// True of the kinds that indent their own contents.
#[verifier::when_used_as_spec(kind_indents_itself)]
pub fn indents_itself(kind: GDScriptNodeKind) -> (found: bool)
    ensures
        found == kind_indents_itself(kind),
{
    matches!(kind, GDScriptNodeKind::Lambda | GDScriptNodeKind::Array | GDScriptNodeKind::Dictionary)
}

/// The number of blank lines that a declaration of this kind asks for, 0 where
/// it asks for none.
pub open spec fn blank_lines_before(input: ParseInput, kind: GDScriptNodeKind) -> u16 {
    if kind_needs_two_blank_lines(kind) {
        input.blank_lines_around_definitions
    } else {
        0
    }
}

/// The number of blank lines between two declarations: the larger of what the
/// two ask for. Where neither asks for any and blank lines are wanted anyway,
/// as in front of a comment that leads a definition, it is the number around
/// definitions.
pub open spec fn separator_blank_lines(
    input: ParseInput,
    previous: GDScriptNodeKind,
    current: GDScriptNodeKind,
    wants_two_blank: bool,
) -> u16 {
    let before = blank_lines_before(input, previous);
    let after = blank_lines_before(input, current);
    let larger = if before >= after {
        before
    } else {
        after
    };
    if larger == 0 && wants_two_blank {
        input.blank_lines_around_definitions
    } else {
        larger
    }
}

/// Neither side of a separator counts more than the other.
pub proof fn separator_blank_lines_are_symmetric(
    input: ParseInput,
    first: GDScriptNodeKind,
    second: GDScriptNodeKind,
    wants_two_blank: bool,
)
    ensures
        separator_blank_lines(input, first, second, wants_two_blank) == separator_blank_lines(
            input,
            second,
            first,
            wants_two_blank,
        ),
{
}

/// Between two declarations stand either no blank lines or as many as the
/// options ask for around definitions, and these stand there if and only if one
/// of the two is a definition or blank lines are wanted for another reason.
pub proof fn definitions_are_set_apart(
    input: ParseInput,
    previous: GDScriptNodeKind,
    current: GDScriptNodeKind,
    wants_two_blank: bool,
)
    ensures
        separator_blank_lines(input, previous, current, wants_two_blank) == (if wants_two_blank
            || kind_needs_two_blank_lines(previous) || kind_needs_two_blank_lines(current) {
            input.blank_lines_around_definitions
        } else {
            0
        }),
{
}

/// Returns the number of blank lines that a declaration of this kind asks for.
pub fn get_blank_line_count_before_declaration(input: &ParseInput, kind: GDScriptNodeKind) -> (count:
    u16)
    ensures
        count == blank_lines_before(*input, kind),
{
    match kind {
        GDScriptNodeKind::Function
        | GDScriptNodeKind::Constructor
        | GDScriptNodeKind::ClassDefinition
        | GDScriptNodeKind::InnerClass => input.blank_lines_around_definitions,
        _ => 0,
    }
}

/// Returns the number of blank lines between two declarations.
pub fn calculate_separator_blank_count(
    input: &ParseInput,
    last_kind: GDScriptNodeKind,
    statement_kind: GDScriptNodeKind,
    wants_two_blank: bool,
) -> (count: u16)
    ensures
        count == separator_blank_lines(*input, last_kind, statement_kind, wants_two_blank),
{
    let previous_blank_count: u16 = get_blank_line_count_before_declaration(input, last_kind);
    let statement_blank_count: u16 = get_blank_line_count_before_declaration(
        input,
        statement_kind,
    );
    let max_blank_count: u16 = if previous_blank_count >= statement_blank_count {
        previous_blank_count
    } else {
        statement_blank_count
    };
    if max_blank_count == 0 && wants_two_blank {
        input.blank_lines_around_definitions
    } else {
        max_blank_count
    }
}

} // verus!
