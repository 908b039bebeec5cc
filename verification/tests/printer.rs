//! The printer's low-level helpers: column tracking, the width check and
//! continuation indentation, and the wrapped binary path on incomplete
//! binary expressions.

use m1_fmt::cst::{Cst, Kind, Node};
use m1_fmt::printer::Printer;
use m1_fmt::{FormatOptions, IndentStyle};

fn leaf(kind: Kind, text: &str, start: usize) -> Node {
    Node {
        kind,
        start,
        end: start + text.chars().count(),
        start_line: 0,
        end_line: 0,
        text: text.to_string(),
        children: Vec::new(),
    }
}

fn inner(kind: Kind, children: Vec<Node>) -> Node {
    let start = children.first().map(|c| c.start).unwrap_or(0);
    let end = children.last().map(|c| c.end).unwrap_or(0);
    let text = children.iter().map(|c| c.text.clone()).collect::<Vec<_>>().join(" ");
    Node { kind, start, end, start_line: 0, end_line: 0, text, children }
}

/// The tree of `x = 1;`.
fn small_tree() -> Cst {
    let stmt = inner(
        Kind::AssignmentStatement,
        vec![
            leaf(Kind::Identifier, "x", 0),
            leaf(Kind::Assign, "=", 2),
            leaf(Kind::Number, "1", 4),
            leaf(Kind::Semicolon, ";", 5),
        ],
    );
    Cst { root: inner(Kind::SourceFile, vec![stmt]), syntax_errors: 0 }
}

fn printer() -> Printer {
    Printer::new(&small_tree(), &FormatOptions::default())
}

fn chars(s: &str) -> Vec<char> {
    s.chars().collect()
}

fn text(p: &Printer) -> String {
    p.output.iter().collect()
}

fn current_col_counts_since_last_newline() {
    let mut p = printer();
    p.emit(&chars("abc"));
    assert_eq!(p.current_col(), 3);
    p.emit_newline();
    p.emit(&chars("de"));
    assert_eq!(p.current_col(), 2);
}

#[test]
fn printer_current_col_counts_since_last_newline() {
    current_col_counts_since_last_newline();
}

#[test]
fn mod_current_col_counts_since_last_newline() {
    current_col_counts_since_last_newline();
}

fn exceeds_limit_boundary() {
    let p = printer();
    let s88 = chars(&"a".repeat(88));
    let s89 = chars(&"a".repeat(89));
    assert!(!p.exceeds_limit(0, &s88));
    assert!(p.exceeds_limit(0, &s89));
    assert!(p.exceeds_limit(1, &s88));
}

#[test]
fn printer_exceeds_limit_boundary() {
    exceeds_limit_boundary();
}

#[test]
fn mod_exceeds_limit_boundary() {
    exceeds_limit_boundary();
}

fn continuation_indent_is_block_plus_one_level() {
    let mut p = printer();
    p.indent_style = IndentStyle::Spaces;
    p.indent_width = 4;
    p.indent = 1;
    p.emit_continuation_indent();
    assert_eq!(text(&p), " ".repeat(4 + 4));
}

#[test]
fn printer_continuation_indent_is_block_plus_one_level() {
    continuation_indent_is_block_plus_one_level();
}

#[test]
fn mod_continuation_indent_is_block_plus_one_level() {
    continuation_indent_is_block_plus_one_level();
}

fn continuation_indent_uses_tabs_by_default() {
    let mut p = printer();
    p.indent = 1;
    p.emit_continuation_indent();
    assert_eq!(text(&p), "\t".repeat(1 + 1));
}

#[test]
fn printer_continuation_indent_uses_tabs_by_default() {
    continuation_indent_uses_tabs_by_default();
}

#[test]
fn mod_continuation_indent_uses_tabs_by_default() {
    continuation_indent_uses_tabs_by_default();
}

fn continuation_indent_honors_configured_levels() {
    let mut p = Printer::new(&small_tree(), &FormatOptions { continuation_indent: 2, ..Default::default() });
    p.indent = 1;
    p.emit_continuation_indent();
    assert_eq!(text(&p), "\t".repeat(1 + 2));
}

#[test]
fn printer_continuation_indent_honors_configured_levels() {
    continuation_indent_honors_configured_levels();
}

#[test]
fn mod_continuation_indent_honors_configured_levels() {
    continuation_indent_honors_configured_levels();
}

#[test]
fn wrapped_path_survives_recovered_binaries() {
    let long = "a".repeat(60);
    let other = "b".repeat(60);
    // Recovered shapes: `long + <missing>`, `long +++ other` (four parts) and
    // a chain with a dangling operator.
    let shapes = vec![
        inner(
            Kind::BinaryExpression,
            vec![leaf(Kind::Identifier, &long, 4), leaf(Kind::Other, "+", 65), leaf(Kind::Other, "", 67)],
        ),
        inner(
            Kind::BinaryExpression,
            vec![
                leaf(Kind::Identifier, &long, 4),
                leaf(Kind::Other, "++", 65),
                leaf(Kind::Other, "+", 67),
                leaf(Kind::Identifier, &other, 69),
            ],
        ),
        inner(
            Kind::BinaryExpression,
            vec![
                inner(
                    Kind::BinaryExpression,
                    vec![leaf(Kind::Identifier, &long, 4), leaf(Kind::Other, "+", 65), leaf(Kind::Identifier, &other, 67)],
                ),
                leaf(Kind::Other, "and", 128),
            ],
        ),
    ];
    for node in shapes {
        let mut p = printer();
        p.emit_binary(&node);
        assert!(text(&p).contains(&long), "wrapped output dropped the operand: {:?}", text(&p));
    }
}

#[test]
fn fitting_call_is_printed_flat_and_long_one_wraps() {
    let args = |n: usize| {
        let mut ch = vec![leaf(Kind::LParen, "(", 0)];
        for i in 0..n {
            if i > 0 {
                ch.push(leaf(Kind::Comma, ",", 0));
            }
            ch.push(leaf(Kind::Identifier, &format!("argument{i}"), 0));
        }
        ch.push(leaf(Kind::RParen, ")", 0));
        inner(Kind::ArgumentList, ch)
    };
    let call = |n: usize| inner(Kind::CallExpression, vec![leaf(Kind::Identifier, "Compute", 0), args(n)]);
    let mut p = printer();
    p.emit_expr(&call(2));
    assert_eq!(text(&p), "Compute(argument0, argument1)");
    let mut q = printer();
    q.emit_expr(&call(12));
    let out = text(&q);
    assert!(out.contains("Compute(argument0, argument1,"), "{out}");
    assert!(out.contains("\n\targument"), "continuation lines are indented one level: {out:?}");
    for line in out.lines() {
        assert!(line.chars().count() <= 88, "{line:?}");
    }
}

#[test]
fn deeply_nested_input_is_declined_not_crashed() {
    let n = 50_000;
    let src = format!("x = {}1{};\n", "(".repeat(n), ")".repeat(n));
    // The tree of `x = ((...1...));`, built bottom-up.
    let mut e = leaf(Kind::Number, "1", 4 + n);
    for k in (0..n).rev() {
        let start = 4 + k;
        let end = 4 + 2 * n + 1 - k;
        e = Node {
            kind: Kind::ParenthesizedExpression,
            start,
            end,
            start_line: 0,
            end_line: 0,
            text: String::new(),
            children: vec![leaf(Kind::LParen, "(", start), e, leaf(Kind::RParen, ")", end - 1)],
        };
    }
    let stmt = Node {
        kind: Kind::AssignmentStatement,
        start: 0,
        end: 4 + 2 * n + 2,
        start_line: 0,
        end_line: 0,
        text: String::new(),
        children: vec![
            leaf(Kind::Identifier, "x", 0),
            leaf(Kind::Assign, "=", 2),
            e,
            leaf(Kind::Semicolon, ";", 4 + 2 * n + 1),
        ],
    };
    // The parser does not take on nesting this deep: it reports it as a
    // syntax error, which is what makes the formatter decline the document.
    let cst = Cst { root: inner(Kind::SourceFile, vec![stmt]), syntax_errors: 1 };
    let r = match m1_fmt::format_str(&src, &cst).expect("format must return") {
        m1_fmt::FormatStep::Done(r) => r,
        m1_fmt::FormatStep::Reparse(_) => panic!("no format-off regions here"),
    };
    assert!(!r.changed, "a too-deep document must be left unchanged");
    assert_eq!(r.output, src);
    let plan = m1_fmt::format_range(&src, &cst, 0, 0, &FormatOptions::default()).expect("range format must return");
    assert!(plan.is_none());
    // The tree is as deep as the document; it is not dropped node by node.
    std::mem::forget(cst);
}
