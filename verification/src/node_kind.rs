//! The kinds of syntax nodes that the formatter tells apart.
use vstd::prelude::*;

use crate::text::same_text;

verus! {

/// The kind of a syntax node. Everything that needs no treatment of its own is
/// `Other`.
#[derive(Clone, Copy, Debug, PartialEq, Eq, Structural)]
pub enum GDScriptNodeKind {
    Function,
    Constructor,
    ClassDefinition,
    InnerClass,
    Variable,
    ExportVariable,
    OnReadyVariable,
    Const,
    Enum,
    Signal,
    ClassName,
    Extends,
    Annotation,
    Annotations,
    Comment,
    RegionStart,
    RegionEnd,
    LineContinuation,
    Body,
    ClassBody,
    MatchBody,
    SetBody,
    GetBody,
    SetGet,
    ElifStatement,
    ElseStatement,
    ReturnStatement,
    ExpressionStatement,
    Assignment,
    AugmentedAssignment,
    Lambda,
    Condition,
    ParenthesizedExpression,
    BinaryOperator,
    UnaryOperator,
    Attribute,
    AttributeCall,
    Subscript,
    SubscriptArguments,
    Array,
    Dictionary,
    EnumeratorList,
    Parameters,
    Arguments,
    Type,
    InferredType,
    Identifier,
    NameInit,
    NameSet,
    NameGet,
    KeywordFunc,
    String,
    StringName,
    NodePath,
    GetNode,
    TokenParen,
    TokenBracket,
    TokenBrace,
    TokenComma,
    TokenColon,
    TokenDot,
    SemiColon,
    Operator,
    Error,
    Other,
}

/// The kind of the nodes that the GDScript grammar gives this name.
pub open spec fn kind_for_name(name: Seq<char>) -> GDScriptNodeKind {
    if name == "function_definition"@ {
        GDScriptNodeKind::Function
    } else if name == "constructor_definition"@ {
        GDScriptNodeKind::Constructor
    } else if name == "class_definition"@ {
        GDScriptNodeKind::ClassDefinition
    } else if name == "inner_class"@ {
        GDScriptNodeKind::InnerClass
    } else if name == "variable_statement"@ {
        GDScriptNodeKind::Variable
    } else if name == "export_variable_statement"@ {
        GDScriptNodeKind::ExportVariable
    } else if name == "onready_variable_statement"@ {
        GDScriptNodeKind::OnReadyVariable
    } else if name == "const_statement"@ {
        GDScriptNodeKind::Const
    } else if name == "enum_definition"@ {
        GDScriptNodeKind::Enum
    } else if name == "signal_statement"@ {
        GDScriptNodeKind::Signal
    } else if name == "class_name_statement"@ {
        GDScriptNodeKind::ClassName
    } else if name == "extends_statement"@ {
        GDScriptNodeKind::Extends
    } else if name == "annotation"@ {
        GDScriptNodeKind::Annotation
    } else if name == "annotations"@ {
        GDScriptNodeKind::Annotations
    } else if name == "comment"@ {
        GDScriptNodeKind::Comment
    } else if name == "region_start"@ {
        GDScriptNodeKind::RegionStart
    } else if name == "region_end"@ {
        GDScriptNodeKind::RegionEnd
    } else if name == "line_continuation"@ {
        GDScriptNodeKind::LineContinuation
    } else if name == "body"@ {
        GDScriptNodeKind::Body
    } else if name == "class_body"@ {
        GDScriptNodeKind::ClassBody
    } else if name == "match_body"@ {
        GDScriptNodeKind::MatchBody
    } else if name == "set_body"@ {
        GDScriptNodeKind::SetBody
    } else if name == "get_body"@ {
        GDScriptNodeKind::GetBody
    } else if name == "setget"@ {
        GDScriptNodeKind::SetGet
    } else if name == "elif_clause"@ {
        GDScriptNodeKind::ElifStatement
    } else if name == "else_clause"@ {
        GDScriptNodeKind::ElseStatement
    } else if name == "return_statement"@ {
        GDScriptNodeKind::ReturnStatement
    } else if name == "expression_statement"@ {
        GDScriptNodeKind::ExpressionStatement
    } else if name == "assignment"@ {
        GDScriptNodeKind::Assignment
    } else if name == "augmented_assignment"@ {
        GDScriptNodeKind::AugmentedAssignment
    } else if name == "lambda"@ {
        GDScriptNodeKind::Lambda
    } else if name == "conditional_expression"@ {
        GDScriptNodeKind::Condition
    } else if name == "parenthesized_expression"@ {
        GDScriptNodeKind::ParenthesizedExpression
    } else if name == "binary_operator"@ {
        GDScriptNodeKind::BinaryOperator
    } else if name == "unary_operator"@ {
        GDScriptNodeKind::UnaryOperator
    } else if name == "attribute"@ {
        GDScriptNodeKind::Attribute
    } else if name == "attribute_call"@ {
        GDScriptNodeKind::AttributeCall
    } else if name == "subscript"@ {
        GDScriptNodeKind::Subscript
    } else if name == "subscript_arguments"@ {
        GDScriptNodeKind::SubscriptArguments
    } else if name == "array"@ {
        GDScriptNodeKind::Array
    } else if name == "dictionary"@ {
        GDScriptNodeKind::Dictionary
    } else if name == "enumerator_list"@ {
        GDScriptNodeKind::EnumeratorList
    } else if name == "parameters"@ || name == "()"@ {
        GDScriptNodeKind::Parameters
    } else if name == "arguments"@ {
        GDScriptNodeKind::Arguments
    } else if name == "type"@ {
        GDScriptNodeKind::Type
    } else if name == "inferred_type"@ {
        GDScriptNodeKind::InferredType
    } else if name == "identifier"@ || name == "name"@ {
        GDScriptNodeKind::Identifier
    } else if name == "_init"@ {
        GDScriptNodeKind::NameInit
    } else if name == "set"@ {
        GDScriptNodeKind::NameSet
    } else if name == "get"@ {
        GDScriptNodeKind::NameGet
    } else if name == "func"@ {
        GDScriptNodeKind::KeywordFunc
    } else if name == "string"@ {
        GDScriptNodeKind::String
    } else if name == "string_name"@ {
        GDScriptNodeKind::StringName
    } else if name == "node_path"@ {
        GDScriptNodeKind::NodePath
    } else if name == "get_node"@ {
        GDScriptNodeKind::GetNode
    } else if name == "("@ || name == ")"@ {
        GDScriptNodeKind::TokenParen
    } else if name == "["@ || name == "]"@ {
        GDScriptNodeKind::TokenBracket
    } else if name == "{"@ || name == "}"@ {
        GDScriptNodeKind::TokenBrace
    } else if name == ","@ {
        GDScriptNodeKind::TokenComma
    } else if name == ":"@ {
        GDScriptNodeKind::TokenColon
    } else if name == "."@ {
        GDScriptNodeKind::TokenDot
    } else if name == ";"@ {
        GDScriptNodeKind::SemiColon
    } else if name == "-"@ || name == "+"@ {
        GDScriptNodeKind::Operator
    } else if name == "ERROR"@ {
        GDScriptNodeKind::Error
    } else {
        GDScriptNodeKind::Other
    }
}

/// Names that the grammar gives to different nodes do not share a kind, so that
/// nodes of one kind have one name. The exceptions are pairs of brackets, the two
/// signs, and the names that stand for the same thing; nodes that need no
/// treatment of their own are all `Other`.
pub proof fn names_are_told_apart(first: Seq<char>, second: Seq<char>)
    requires
        kind_for_name(first) == kind_for_name(second),
        kind_for_name(first) != GDScriptNodeKind::Other,
    ensures
        ({
            ||| first == second
            ||| first == "parameters"@ && second == "()"@
            ||| first == "()"@ && second == "parameters"@
            ||| first == "identifier"@ && second == "name"@
            ||| first == "name"@ && second == "identifier"@
            ||| first == "("@ && second == ")"@
            ||| first == ")"@ && second == "("@
            ||| first == "["@ && second == "]"@
            ||| first == "]"@ && second == "["@
            ||| first == "{"@ && second == "}"@
            ||| first == "}"@ && second == "{"@
            ||| first == "-"@ && second == "+"@
            ||| first == "+"@ && second == "-"@
        }),
{
}

/// The lengths of the names, and what tells apart those of the same length.
proof fn lemma_names()
    ensures
        "function_definition"@.len() == 19,
        "function_definition"@[0] == 'f',
        "constructor_definition"@.len() == 22,
        "constructor_definition"@[3] == 's',
        "class_definition"@.len() == 16,
        "class_definition"@[0] == 'c',
        "inner_class"@.len() == 11,
        "inner_class"@[0] == 'i',
        "variable_statement"@.len() == 18,
        "export_variable_statement"@.len() == 25,
        "onready_variable_statement"@.len() == 26,
        "const_statement"@.len() == 15,
        "const_statement"@[0] == 'c',
        "enum_definition"@.len() == 15,
        "enum_definition"@[0] == 'e',
        "enum_definition"@[4] == '_',
        "signal_statement"@.len() == 16,
        "signal_statement"@[0] == 's',
        "class_name_statement"@.len() == 20,
        "class_name_statement"@[0] == 'c',
        "extends_statement"@.len() == 17,
        "extends_statement"@[0] == 'e',
        "annotation"@.len() == 10,
        "annotation"@[0] == 'a',
        "annotation"@[1] == 'n',
        "annotations"@.len() == 11,
        "annotations"@[0] == 'a',
        "comment"@.len() == 7,
        "region_start"@.len() == 12,
        "region_end"@.len() == 10,
        "region_end"@[0] == 'r',
        "line_continuation"@.len() == 17,
        "line_continuation"@[0] == 'l',
        "body"@.len() == 4,
        "body"@[0] == 'b',
        "class_body"@.len() == 10,
        "class_body"@[0] == 'c',
        "match_body"@.len() == 10,
        "match_body"@[0] == 'm',
        "set_body"@.len() == 8,
        "set_body"@[0] == 's',
        "get_body"@.len() == 8,
        "get_body"@[0] == 'g',
        "get_body"@[4] == 'b',
        "setget"@.len() == 6,
        "setget"@[0] == 's',
        "setget"@[1] == 'e',
        "elif_clause"@.len() == 11,
        "elif_clause"@[0] == 'e',
        "elif_clause"@[2] == 'i',
        "else_clause"@.len() == 11,
        "else_clause"@[0] == 'e',
        "else_clause"@[2] == 's',
        "return_statement"@.len() == 16,
        "return_statement"@[0] == 'r',
        "expression_statement"@.len() == 20,
        "expression_statement"@[0] == 'e',
        "assignment"@.len() == 10,
        "assignment"@[0] == 'a',
        "assignment"@[1] == 's',
        "augmented_assignment"@.len() == 20,
        "augmented_assignment"@[0] == 'a',
        "lambda"@.len() == 6,
        "lambda"@[0] == 'l',
        "conditional_expression"@.len() == 22,
        "conditional_expression"@[3] == 'd',
        "parenthesized_expression"@.len() == 24,
        "binary_operator"@.len() == 15,
        "binary_operator"@[0] == 'b',
        "unary_operator"@.len() == 14,
        "unary_operator"@[0] == 'u',
        "attribute"@.len() == 9,
        "attribute"@[0] == 'a',
        "attribute"@[1] == 't',
        "attribute_call"@.len() == 14,
        "attribute_call"@[0] == 'a',
        "subscript"@.len() == 9,
        "subscript"@[0] == 's',
        "subscript_arguments"@.len() == 19,
        "subscript_arguments"@[0] == 's',
        "array"@.len() == 5,
        "array"@[0] == 'a',
        "dictionary"@.len() == 10,
        "dictionary"@[0] == 'd',
        "enumerator_list"@.len() == 15,
        "enumerator_list"@[0] == 'e',
        "enumerator_list"@[4] == 'e',
        "parameters"@.len() == 10,
        "parameters"@[0] == 'p',
        "()"@.len() == 2,
        "arguments"@.len() == 9,
        "arguments"@[0] == 'a',
        "arguments"@[1] == 'r',
        "type"@.len() == 4,
        "type"@[0] == 't',
        "inferred_type"@.len() == 13,
        "identifier"@.len() == 10,
        "identifier"@[0] == 'i',
        "name"@.len() == 4,
        "name"@[0] == 'n',
        "_init"@.len() == 5,
        "_init"@[0] == '_',
        "set"@.len() == 3,
        "set"@[0] == 's',
        "get"@.len() == 3,
        "get"@[0] == 'g',
        "func"@.len() == 4,
        "func"@[0] == 'f',
        "string"@.len() == 6,
        "string"@[0] == 's',
        "string"@[1] == 't',
        "string_name"@.len() == 11,
        "string_name"@[0] == 's',
        "node_path"@.len() == 9,
        "node_path"@[0] == 'n',
        "get_node"@.len() == 8,
        "get_node"@[0] == 'g',
        "get_node"@[4] == 'n',
        "("@.len() == 1,
        "("@[0] == '(',
        ")"@.len() == 1,
        ")"@[0] == ')',
        "["@.len() == 1,
        "["@[0] == '[',
        "]"@.len() == 1,
        "]"@[0] == ']',
        "{"@.len() == 1,
        "{"@[0] == '{',
        "}"@.len() == 1,
        "}"@[0] == '}',
        ","@.len() == 1,
        ","@[0] == ',',
        ":"@.len() == 1,
        ":"@[0] == ':',
        "."@.len() == 1,
        "."@[0] == '.',
        ";"@.len() == 1,
        ";"@[0] == ';',
        "-"@.len() == 1,
        "-"@[0] == '-',
        "+"@.len() == 1,
        "+"@[0] == '+',
        "ERROR"@.len() == 5,
        "ERROR"@[0] == 'E',
{
    reveal_strlit("function_definition");
    reveal_strlit("constructor_definition");
    reveal_strlit("class_definition");
    reveal_strlit("inner_class");
    reveal_strlit("variable_statement");
    reveal_strlit("export_variable_statement");
    reveal_strlit("onready_variable_statement");
    reveal_strlit("const_statement");
    reveal_strlit("enum_definition");
    reveal_strlit("signal_statement");
    reveal_strlit("class_name_statement");
    reveal_strlit("extends_statement");
    reveal_strlit("annotation");
    reveal_strlit("annotations");
    reveal_strlit("comment");
    reveal_strlit("region_start");
    reveal_strlit("region_end");
    reveal_strlit("line_continuation");
    reveal_strlit("body");
    reveal_strlit("class_body");
    reveal_strlit("match_body");
    reveal_strlit("set_body");
    reveal_strlit("get_body");
    reveal_strlit("setget");
    reveal_strlit("elif_clause");
    reveal_strlit("else_clause");
    reveal_strlit("return_statement");
    reveal_strlit("expression_statement");
    reveal_strlit("assignment");
    reveal_strlit("augmented_assignment");
    reveal_strlit("lambda");
    reveal_strlit("conditional_expression");
    reveal_strlit("parenthesized_expression");
    reveal_strlit("binary_operator");
    reveal_strlit("unary_operator");
    reveal_strlit("attribute");
    reveal_strlit("attribute_call");
    reveal_strlit("subscript");
    reveal_strlit("subscript_arguments");
    reveal_strlit("array");
    reveal_strlit("dictionary");
    reveal_strlit("enumerator_list");
    reveal_strlit("parameters");
    reveal_strlit("()");
    reveal_strlit("arguments");
    reveal_strlit("type");
    reveal_strlit("inferred_type");
    reveal_strlit("identifier");
    reveal_strlit("name");
    reveal_strlit("_init");
    reveal_strlit("set");
    reveal_strlit("get");
    reveal_strlit("func");
    reveal_strlit("string");
    reveal_strlit("string_name");
    reveal_strlit("node_path");
    reveal_strlit("get_node");
    reveal_strlit("(");
    reveal_strlit(")");
    reveal_strlit("[");
    reveal_strlit("]");
    reveal_strlit("{");
    reveal_strlit("}");
    reveal_strlit(",");
    reveal_strlit(":");
    reveal_strlit(".");
    reveal_strlit(";");
    reveal_strlit("-");
    reveal_strlit("+");
    reveal_strlit("ERROR");
}

/// Every kind but `Other` has its name in the grammar.
#[verifier::rlimit(60)]
pub proof fn names_have_their_kinds()
    ensures
        kind_for_name("function_definition"@) == GDScriptNodeKind::Function,
        kind_for_name("constructor_definition"@) == GDScriptNodeKind::Constructor,
        kind_for_name("class_definition"@) == GDScriptNodeKind::ClassDefinition,
        kind_for_name("inner_class"@) == GDScriptNodeKind::InnerClass,
        kind_for_name("variable_statement"@) == GDScriptNodeKind::Variable,
        kind_for_name("export_variable_statement"@) == GDScriptNodeKind::ExportVariable,
        kind_for_name("onready_variable_statement"@) == GDScriptNodeKind::OnReadyVariable,
        kind_for_name("const_statement"@) == GDScriptNodeKind::Const,
        kind_for_name("enum_definition"@) == GDScriptNodeKind::Enum,
        kind_for_name("signal_statement"@) == GDScriptNodeKind::Signal,
        kind_for_name("class_name_statement"@) == GDScriptNodeKind::ClassName,
        kind_for_name("extends_statement"@) == GDScriptNodeKind::Extends,
        kind_for_name("annotation"@) == GDScriptNodeKind::Annotation,
        kind_for_name("annotations"@) == GDScriptNodeKind::Annotations,
        kind_for_name("comment"@) == GDScriptNodeKind::Comment,
        kind_for_name("region_start"@) == GDScriptNodeKind::RegionStart,
        kind_for_name("region_end"@) == GDScriptNodeKind::RegionEnd,
        kind_for_name("line_continuation"@) == GDScriptNodeKind::LineContinuation,
        kind_for_name("body"@) == GDScriptNodeKind::Body,
        kind_for_name("class_body"@) == GDScriptNodeKind::ClassBody,
        kind_for_name("match_body"@) == GDScriptNodeKind::MatchBody,
        kind_for_name("set_body"@) == GDScriptNodeKind::SetBody,
        kind_for_name("get_body"@) == GDScriptNodeKind::GetBody,
        kind_for_name("setget"@) == GDScriptNodeKind::SetGet,
        kind_for_name("elif_clause"@) == GDScriptNodeKind::ElifStatement,
        kind_for_name("else_clause"@) == GDScriptNodeKind::ElseStatement,
        kind_for_name("return_statement"@) == GDScriptNodeKind::ReturnStatement,
        kind_for_name("expression_statement"@) == GDScriptNodeKind::ExpressionStatement,
        kind_for_name("assignment"@) == GDScriptNodeKind::Assignment,
        kind_for_name("augmented_assignment"@) == GDScriptNodeKind::AugmentedAssignment,
        kind_for_name("lambda"@) == GDScriptNodeKind::Lambda,
        kind_for_name("conditional_expression"@) == GDScriptNodeKind::Condition,
        kind_for_name("parenthesized_expression"@) == GDScriptNodeKind::ParenthesizedExpression,
        kind_for_name("binary_operator"@) == GDScriptNodeKind::BinaryOperator,
        kind_for_name("unary_operator"@) == GDScriptNodeKind::UnaryOperator,
        kind_for_name("attribute"@) == GDScriptNodeKind::Attribute,
        kind_for_name("attribute_call"@) == GDScriptNodeKind::AttributeCall,
        kind_for_name("subscript"@) == GDScriptNodeKind::Subscript,
        kind_for_name("subscript_arguments"@) == GDScriptNodeKind::SubscriptArguments,
        kind_for_name("array"@) == GDScriptNodeKind::Array,
        kind_for_name("dictionary"@) == GDScriptNodeKind::Dictionary,
        kind_for_name("enumerator_list"@) == GDScriptNodeKind::EnumeratorList,
        kind_for_name("parameters"@) == GDScriptNodeKind::Parameters,
        kind_for_name("()"@) == GDScriptNodeKind::Parameters,
        kind_for_name("arguments"@) == GDScriptNodeKind::Arguments,
        kind_for_name("type"@) == GDScriptNodeKind::Type,
        kind_for_name("inferred_type"@) == GDScriptNodeKind::InferredType,
        kind_for_name("identifier"@) == GDScriptNodeKind::Identifier,
        kind_for_name("name"@) == GDScriptNodeKind::Identifier,
        kind_for_name("_init"@) == GDScriptNodeKind::NameInit,
        kind_for_name("set"@) == GDScriptNodeKind::NameSet,
        kind_for_name("get"@) == GDScriptNodeKind::NameGet,
        kind_for_name("func"@) == GDScriptNodeKind::KeywordFunc,
        kind_for_name("string"@) == GDScriptNodeKind::String,
        kind_for_name("string_name"@) == GDScriptNodeKind::StringName,
        kind_for_name("node_path"@) == GDScriptNodeKind::NodePath,
        kind_for_name("get_node"@) == GDScriptNodeKind::GetNode,
        kind_for_name("("@) == GDScriptNodeKind::TokenParen,
        kind_for_name(")"@) == GDScriptNodeKind::TokenParen,
        kind_for_name("["@) == GDScriptNodeKind::TokenBracket,
        kind_for_name("]"@) == GDScriptNodeKind::TokenBracket,
        kind_for_name("{"@) == GDScriptNodeKind::TokenBrace,
        kind_for_name("}"@) == GDScriptNodeKind::TokenBrace,
        kind_for_name(","@) == GDScriptNodeKind::TokenComma,
        kind_for_name(":"@) == GDScriptNodeKind::TokenColon,
        kind_for_name("."@) == GDScriptNodeKind::TokenDot,
        kind_for_name(";"@) == GDScriptNodeKind::SemiColon,
        kind_for_name("-"@) == GDScriptNodeKind::Operator,
        kind_for_name("+"@) == GDScriptNodeKind::Operator,
        kind_for_name("ERROR"@) == GDScriptNodeKind::Error,
{
    lemma_names();
}

impl GDScriptNodeKind {
    /// The kind of the nodes that the GDScript grammar gives this name.
    pub fn from_name(name: &str) -> (kind: GDScriptNodeKind)
        ensures
            kind == kind_for_name(name@),
    {
        if same_text(name, "function_definition") {
            GDScriptNodeKind::Function
        } else if same_text(name, "constructor_definition") {
            GDScriptNodeKind::Constructor
        } else if same_text(name, "class_definition") {
            GDScriptNodeKind::ClassDefinition
        } else if same_text(name, "inner_class") {
            GDScriptNodeKind::InnerClass
        } else if same_text(name, "variable_statement") {
            GDScriptNodeKind::Variable
        } else if same_text(name, "export_variable_statement") {
            GDScriptNodeKind::ExportVariable
        } else if same_text(name, "onready_variable_statement") {
            GDScriptNodeKind::OnReadyVariable
        } else if same_text(name, "const_statement") {
            GDScriptNodeKind::Const
        } else if same_text(name, "enum_definition") {
            GDScriptNodeKind::Enum
        } else if same_text(name, "signal_statement") {
            GDScriptNodeKind::Signal
        } else if same_text(name, "class_name_statement") {
            GDScriptNodeKind::ClassName
        } else if same_text(name, "extends_statement") {
            GDScriptNodeKind::Extends
        } else if same_text(name, "annotation") {
            GDScriptNodeKind::Annotation
        } else if same_text(name, "annotations") {
            GDScriptNodeKind::Annotations
        } else if same_text(name, "comment") {
            GDScriptNodeKind::Comment
        } else if same_text(name, "region_start") {
            GDScriptNodeKind::RegionStart
        } else if same_text(name, "region_end") {
            GDScriptNodeKind::RegionEnd
        } else if same_text(name, "line_continuation") {
            GDScriptNodeKind::LineContinuation
        } else if same_text(name, "body") {
            GDScriptNodeKind::Body
        } else if same_text(name, "class_body") {
            GDScriptNodeKind::ClassBody
        } else if same_text(name, "match_body") {
            GDScriptNodeKind::MatchBody
        } else if same_text(name, "set_body") {
            GDScriptNodeKind::SetBody
        } else if same_text(name, "get_body") {
            GDScriptNodeKind::GetBody
        } else if same_text(name, "setget") {
            GDScriptNodeKind::SetGet
        } else if same_text(name, "elif_clause") {
            GDScriptNodeKind::ElifStatement
        } else if same_text(name, "else_clause") {
            GDScriptNodeKind::ElseStatement
        } else if same_text(name, "return_statement") {
            GDScriptNodeKind::ReturnStatement
        } else if same_text(name, "expression_statement") {
            GDScriptNodeKind::ExpressionStatement
        } else if same_text(name, "assignment") {
            GDScriptNodeKind::Assignment
        } else if same_text(name, "augmented_assignment") {
            GDScriptNodeKind::AugmentedAssignment
        } else if same_text(name, "lambda") {
            GDScriptNodeKind::Lambda
        } else if same_text(name, "conditional_expression") {
            GDScriptNodeKind::Condition
        } else if same_text(name, "parenthesized_expression") {
            GDScriptNodeKind::ParenthesizedExpression
        } else if same_text(name, "binary_operator") {
            GDScriptNodeKind::BinaryOperator
        } else if same_text(name, "unary_operator") {
            GDScriptNodeKind::UnaryOperator
        } else if same_text(name, "attribute") {
            GDScriptNodeKind::Attribute
        } else if same_text(name, "attribute_call") {
            GDScriptNodeKind::AttributeCall
        } else if same_text(name, "subscript") {
            GDScriptNodeKind::Subscript
        } else if same_text(name, "subscript_arguments") {
            GDScriptNodeKind::SubscriptArguments
        } else if same_text(name, "array") {
            GDScriptNodeKind::Array
        } else if same_text(name, "dictionary") {
            GDScriptNodeKind::Dictionary
        } else if same_text(name, "enumerator_list") {
            GDScriptNodeKind::EnumeratorList
        } else if same_text(name, "parameters") || same_text(name, "()") {
            GDScriptNodeKind::Parameters
        } else if same_text(name, "arguments") {
            GDScriptNodeKind::Arguments
        } else if same_text(name, "type") {
            GDScriptNodeKind::Type
        } else if same_text(name, "inferred_type") {
            GDScriptNodeKind::InferredType
        } else if same_text(name, "identifier") || same_text(name, "name") {
            GDScriptNodeKind::Identifier
        } else if same_text(name, "_init") {
            GDScriptNodeKind::NameInit
        } else if same_text(name, "set") {
            GDScriptNodeKind::NameSet
        } else if same_text(name, "get") {
            GDScriptNodeKind::NameGet
        } else if same_text(name, "func") {
            GDScriptNodeKind::KeywordFunc
        } else if same_text(name, "string") {
            GDScriptNodeKind::String
        } else if same_text(name, "string_name") {
            GDScriptNodeKind::StringName
        } else if same_text(name, "node_path") {
            GDScriptNodeKind::NodePath
        } else if same_text(name, "get_node") {
            GDScriptNodeKind::GetNode
        } else if same_text(name, "(") || same_text(name, ")") {
            GDScriptNodeKind::TokenParen
        } else if same_text(name, "[") || same_text(name, "]") {
            GDScriptNodeKind::TokenBracket
        } else if same_text(name, "{") || same_text(name, "}") {
            GDScriptNodeKind::TokenBrace
        } else if same_text(name, ",") {
            GDScriptNodeKind::TokenComma
        } else if same_text(name, ":") {
            GDScriptNodeKind::TokenColon
        } else if same_text(name, ".") {
            GDScriptNodeKind::TokenDot
        } else if same_text(name, ";") {
            GDScriptNodeKind::SemiColon
        } else if same_text(name, "-") || same_text(name, "+") {
            GDScriptNodeKind::Operator
        } else if same_text(name, "ERROR") {
            GDScriptNodeKind::Error
        } else {
            GDScriptNodeKind::Other
        }
    }
}

} // verus!
