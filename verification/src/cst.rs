//! The concrete syntax tree the formatter works on: node kinds, source
//! positions (character offsets and 0-based lines) and node text, as produced
//! by the M1 parser.

use vstd::prelude::*;
use crate::text::trim_end;

verus! {

/// The node kinds the formatter distinguishes; every other kind of the
/// grammar is `Other` (printed verbatim).
#[derive(Clone, Copy, PartialEq, Eq, Debug, Structural)]
pub enum Kind {
    SourceFile,
    LineComment,
    BlockComment,
    LocalDeclaration,
    AssignmentStatement,
    ExpressionStatement,
    IfStatement,
    WhenStatement,
    ExpandStatement,
    Block,
    EmptyStatement,
    Static,
    Local,
    TypeAnnotation,
    Identifier,
    Assign,
    Semicolon,
    PlusEq,
    MinusEq,
    StarEq,
    SlashEq,
    PercentEq,
    AmpEq,
    PipeEq,
    CaretEq,
    LtLtEq,
    GtGtEq,
    Number,
    StringLiteral,
    Boolean,
    True,
    False,
    MemberExpression,
    CallExpression,
    UnaryExpression,
    BinaryExpression,
    TernaryExpression,
    ParenthesizedExpression,
    ArgumentList,
    Dot,
    Minus,
    Bang,
    Not,
    LParen,
    RParen,
    LBrace,
    RBrace,
    Comma,
    Question,
    Colon,
    If,
    Else,
    ElseClause,
    When,
    Is,
    IsClause,
    Expand,
    To,
    Other,
}

/// A node: its kind, its span as character offsets into the source, the
/// 0-based lines its first and last characters are on, its source text, and
/// its children in source order (comments included).
pub struct Node {
    pub kind: Kind,
    pub start: usize,
    pub end: usize,
    pub start_line: usize,
    pub end_line: usize,
    pub text: String,
    pub children: Vec<Node>,
}

/// A parsed document: the root node and the number of syntax errors the
/// parser reported.
pub struct Cst {
    pub root: Node,
    pub syntax_errors: usize,
}

pub open spec fn is_comment(k: Kind) -> bool {
    k == Kind::LineComment || k == Kind::BlockComment
}

pub fn kind_is_comment(k: Kind) -> (r: bool)
    ensures
        r == is_comment(k),
{
    k == Kind::LineComment || k == Kind::BlockComment
}

/// `+=`, `-=`, ... `>>=`: the compound assignment operators.
pub open spec fn is_compound_assign(k: Kind) -> bool {
    k == Kind::PlusEq || k == Kind::MinusEq || k == Kind::StarEq || k == Kind::SlashEq || k
        == Kind::PercentEq || k == Kind::AmpEq || k == Kind::PipeEq || k == Kind::CaretEq || k
        == Kind::LtLtEq || k == Kind::GtGtEq
}

pub fn kind_is_compound_assign(k: Kind) -> (r: bool)
    ensures
        r == is_compound_assign(k),
{
    k == Kind::PlusEq || k == Kind::MinusEq || k == Kind::StarEq || k == Kind::SlashEq || k
        == Kind::PercentEq || k == Kind::AmpEq || k == Kind::PipeEq || k == Kind::CaretEq || k
        == Kind::LtLtEq || k == Kind::GtGtEq
}

/// Leaf expression kinds printed as their text.
pub open spec fn is_atom(k: Kind) -> bool {
    k == Kind::Identifier || k == Kind::Number || k == Kind::StringLiteral || k == Kind::Boolean
        || k == Kind::True || k == Kind::False
}

/// Number of non-comment nodes in `s`.
pub open spec fn count_nc(s: Seq<Node>) -> nat
    decreases s.len(),
{
    if s.len() == 0 {
        0
    } else {
        count_nc(s.drop_last()) + if is_comment(s.last().kind) {
            0nat
        } else {
            1nat
        }
    }
}

/// The flat (single-line) rendering of a child `c` of a node of kind `pk`,
/// `seen` being the number of non-comment siblings before it.
pub open spec fn flat_child(pk: Kind, c: Node, seen: int) -> Seq<char>
    decreases c, 2int,
{
    if is_comment(c.kind) {
        seq![]
    } else if pk == Kind::CallExpression && c.kind == Kind::ArgumentList {
        arglist_flat(c)
    } else if pk == Kind::ArgumentList && (c.kind == Kind::LParen || c.kind == Kind::RParen) {
        seq![]
    } else if pk == Kind::ArgumentList && c.kind == Kind::Comma {
        seq![',', ' ']
    } else if pk == Kind::MemberExpression && c.kind == Kind::Dot {
        seq!['.']
    } else if pk == Kind::UnaryExpression && (c.kind == Kind::Minus || c.kind == Kind::Bang) {
        c.text@
    } else if pk == Kind::UnaryExpression && c.kind == Kind::Not {
        seq!['n', 'o', 't', ' ']
    } else if pk == Kind::ParenthesizedExpression && (c.kind == Kind::LParen || c.kind
        == Kind::RParen) {
        seq![]
    } else if pk == Kind::TernaryExpression && c.kind == Kind::Question {
        seq![' ', '?', ' ']
    } else if pk == Kind::TernaryExpression && c.kind == Kind::Colon {
        seq![' ', ':', ' ']
    } else if pk == Kind::BinaryExpression && seen == 1 {
        seq![' '] + c.text@ + seq![' ']
    } else {
        flat(c)
    }
}

/// The flat renderings of `items`, in order.
pub open spec fn flat_items(pk: Kind, items: Seq<Node>, seen: int) -> Seq<char>
    decreases items, 0int,
{
    if items.len() == 0 {
        seq![]
    } else {
        flat_child(pk, items[0], seen) + flat_items(
            pk,
            items.drop_first(),
            seen + if is_comment(items[0].kind) {
                0int
            } else {
                1int
            },
        )
    }
}

/// `(a, b, c)`: an argument list on one line.
pub open spec fn arglist_flat(a: Node) -> Seq<char>
    decreases a, 1int,
{
    seq!['('] + flat_items(Kind::ArgumentList, a.children@, 0) + seq![')']
}

/// The canonical single-line form of an expression: no space around `.`,
/// none inside parentheses or before `(`, `", "` between arguments, one space
/// around binary operators, `" ? "` / `" : "` in a ternary, `not ` before its
/// operand; atoms as written, anything else as written minus trailing
/// whitespace.
pub open spec fn flat(n: Node) -> Seq<char>
    decreases n, 1int,
{
    if is_atom(n.kind) {
        n.text@
    } else if n.kind == Kind::MemberExpression || n.kind == Kind::CallExpression || n.kind
        == Kind::UnaryExpression || n.kind == Kind::BinaryExpression || n.kind
        == Kind::TernaryExpression {
        flat_items(n.kind, n.children@, 0)
    } else if n.kind == Kind::ParenthesizedExpression {
        seq!['('] + flat_items(n.kind, n.children@, 0) + seq![')']
    } else {
        trim_end(n.text@)
    }
}

} // verus!
