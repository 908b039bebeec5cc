//! Whole-document and range formatting, driven the way the program drives
//! the library: the text is parsed, formatted, and (with format-off regions)
//! the formatted text parsed again. The parser here is a small
//! recursive-descent reader of the M1 constructs these tests use, producing
//! the tree shape the library works on.

use m1_fmt::cli::{
    OptionFlags, USAGE_EXIT, cli_overrides, exit_code, parse_style_overrides, range_arg,
    range_buffer, stdin_report,
};
use m1_fmt::config::resolve_options;
use m1_fmt::config_resolve::resolve_opts;
use m1_fmt::cst::{Cst, Kind, Node};
use m1_fmt::{
    BraceStyle, FormatOptions, FormatResult, FormatStep, IndentStyle, RangeResult, finish_range,
    finish_splice, format_range, format_str_with, parse_input,
};

// ---------------------------------------------------------------------------
// A reader of M1 source
// ---------------------------------------------------------------------------

const KEYWORDS: &[&str] = &[
    "local", "static", "if", "else", "when", "is", "expand", "to", "and", "or", "not", "eq",
    "neq", "true", "false",
];

struct Reader {
    src: Vec<char>,
    pos: usize,
    errors: usize,
}

fn is_word_start(c: char) -> bool {
    c.is_ascii_alphabetic() || c == '_'
}

fn is_word_char(c: char) -> bool {
    c.is_ascii_alphanumeric() || c == '_'
}

impl Reader {
    fn new(text: &str) -> Reader {
        Reader { src: text.chars().collect(), pos: 0, errors: 0 }
    }

    fn line_of(&self, p: usize) -> usize {
        self.src[..p.min(self.src.len())].iter().filter(|c| **c == '\n').count()
    }

    fn text(&self, a: usize, b: usize) -> String {
        self.src[a..b].iter().collect()
    }

    fn leaf(&self, kind: Kind, a: usize, b: usize) -> Node {
        Node {
            kind,
            start: a,
            end: b,
            start_line: self.line_of(a),
            end_line: self.line_of(b),
            text: self.text(a, b),
            children: Vec::new(),
        }
    }

    fn node(&self, kind: Kind, children: Vec<Node>) -> Node {
        let a = children.first().map(|c| c.start).unwrap_or(self.pos);
        let b = children.last().map(|c| c.end).unwrap_or(self.pos);
        Node {
            kind,
            start: a,
            end: b,
            start_line: self.line_of(a),
            end_line: self.line_of(b),
            text: self.text(a, b),
            children,
        }
    }

    fn peek_at(&self, p: usize) -> Option<char> {
        self.src.get(p).copied()
    }

    /// Skip whitespace; comments become children of `into`.
    fn trivia(&mut self, into: &mut Vec<Node>) {
        loop {
            match self.peek_at(self.pos) {
                Some(c) if c.is_whitespace() => self.pos += 1,
                Some('/') if self.peek_at(self.pos + 1) == Some('/') => {
                    let a = self.pos;
                    while let Some(c) = self.peek_at(self.pos) {
                        if c == '\n' {
                            break;
                        }
                        self.pos += 1;
                    }
                    let mut b = self.pos;
                    if b > a && self.src[b - 1] == '\r' {
                        b -= 1;
                    }
                    into.push(self.leaf(Kind::LineComment, a, b));
                }
                Some('/') if self.peek_at(self.pos + 1) == Some('*') => {
                    let a = self.pos;
                    self.pos += 2;
                    loop {
                        match self.peek_at(self.pos) {
                            None => {
                                self.errors += 1;
                                break;
                            }
                            Some('*') if self.peek_at(self.pos + 1) == Some('/') => {
                                self.pos += 2;
                                break;
                            }
                            _ => self.pos += 1,
                        }
                    }
                    into.push(self.leaf(Kind::BlockComment, a, self.pos));
                }
                _ => break,
            }
        }
    }

    /// The word at `p` and where it ends.
    fn word_at(&self, p: usize) -> Option<(String, usize)> {
        match self.peek_at(p) {
            Some(c) if is_word_start(c) => {
                let mut e = p;
                while self.peek_at(e).map_or(false, is_word_char) {
                    e += 1;
                }
                Some((self.text(p, e), e))
            }
            _ => None,
        }
    }

    /// The next token's text (after trivia, which is not consumed).
    fn peek_token(&mut self) -> Option<String> {
        let save = self.pos;
        let mut scratch = Vec::new();
        self.trivia(&mut scratch);
        let r = self.token_end(self.pos).map(|e| self.text(self.pos, e));
        self.pos = save;
        r
    }

    /// End of the token starting at `p` (identifiers run over spaces between
    /// words that are not keywords).
    fn token_end(&self, p: usize) -> Option<usize> {
        let c = self.peek_at(p)?;
        if is_word_start(c) {
            let (w, mut e) = self.word_at(p)?;
            if KEYWORDS.contains(&w.as_str()) {
                return Some(e);
            }
            loop {
                let mut q = e;
                while matches!(self.peek_at(q), Some(' ') | Some('\t')) {
                    q += 1;
                }
                if q == e {
                    break;
                }
                match self.word_at(q) {
                    Some((w2, e2)) if !KEYWORDS.contains(&w2.as_str()) => e = e2,
                    _ => break,
                }
            }
            return Some(e);
        }
        if c.is_ascii_digit() {
            let mut e = p;
            while self.peek_at(e).map_or(false, |c| c.is_ascii_alphanumeric() || c == '.') {
                e += 1;
            }
            return Some(e);
        }
        if c == '"' {
            let mut e = p + 1;
            loop {
                match self.peek_at(e) {
                    None | Some('\n') => return Some(e),
                    Some('\\') => e += 2,
                    Some('"') => return Some(e + 1),
                    _ => e += 1,
                }
            }
        }
        for op in [
            "<<=", ">>=", "==", "!=", "<=", ">=", "<<", ">>", "&&", "||", "+=", "-=", "*=", "/=",
            "%=", "&=", "|=", "^=",
        ] {
            let n = op.chars().count();
            if p + n <= self.src.len() && self.text(p, p + n) == op {
                return Some(p + n);
            }
        }
        Some(p + 1)
    }

    /// Consume the next token as a leaf of `kind`, comments before it going
    /// to `into`.
    fn take(&mut self, into: &mut Vec<Node>, kind: Kind) -> Node {
        self.trivia(into);
        let e = self.token_end(self.pos).unwrap_or(self.pos);
        let n = self.leaf(kind, self.pos, e);
        self.pos = e;
        n
    }

    fn expect(&mut self, into: &mut Vec<Node>, kind: Kind, text: &str) -> Node {
        if self.peek_token().as_deref() != Some(text) {
            self.errors += 1;
        }
        self.take(into, kind)
    }

    fn at(&mut self, text: &str) -> bool {
        self.peek_token().as_deref() == Some(text)
    }

    fn at_end(&mut self) -> bool {
        self.peek_token().is_none()
    }

    fn statements(&mut self, into: &mut Vec<Node>, until_brace: bool) {
        loop {
            self.trivia(into);
            if self.at_end() || (until_brace && self.at("}")) {
                return;
            }
            if self.errors > 0 {
                return;
            }
            let s = self.statement();
            into.push(s);
        }
    }

    fn block(&mut self) -> Node {
        let mut ch = Vec::new();
        let lb = self.expect(&mut ch, Kind::LBrace, "{");
        ch.push(lb);
        self.statements(&mut ch, true);
        let rb = self.expect(&mut ch, Kind::RBrace, "}");
        ch.push(rb);
        self.node(Kind::Block, ch)
    }

    fn paren_head(&mut self, ch: &mut Vec<Node>, kw: Kind, text: &str) {
        let k = self.expect(ch, kw, text);
        ch.push(k);
        let lp = self.expect(ch, Kind::LParen, "(");
        ch.push(lp);
    }

    fn statement(&mut self) -> Node {
        let t = self.peek_token().unwrap_or_default();
        let mut ch = Vec::new();
        match t.as_str() {
            "static" | "local" => {
                if t == "static" {
                    let s = self.take(&mut ch, Kind::Static);
                    ch.push(s);
                }
                let l = self.expect(&mut ch, Kind::Local, "local");
                ch.push(l);
                if self.at("<") {
                    let mut tc = Vec::new();
                    let lt = self.take(&mut tc, Kind::Other);
                    tc.push(lt);
                    let id = self.identifier(&mut tc);
                    tc.push(id);
                    let gt = self.expect(&mut tc, Kind::Other, ">");
                    tc.push(gt);
                    ch.push(self.node(Kind::TypeAnnotation, tc));
                }
                let id = self.identifier(&mut ch);
                ch.push(id);
                if self.at("=") {
                    let a = self.take(&mut ch, Kind::Assign);
                    ch.push(a);
                    let v = self.expr(&mut ch);
                    ch.push(v);
                }
                let semi = self.expect(&mut ch, Kind::Semicolon, ";");
                ch.push(semi);
                self.node(Kind::LocalDeclaration, ch)
            }
            "if" => self.if_statement(),
            "when" => {
                self.paren_head(&mut ch, Kind::When, "when");
                let e = self.expr(&mut ch);
                ch.push(e);
                let rp = self.expect(&mut ch, Kind::RParen, ")");
                ch.push(rp);
                let lb = self.expect(&mut ch, Kind::LBrace, "{");
                ch.push(lb);
                loop {
                    self.trivia(&mut ch);
                    if !self.at("is") || self.errors > 0 {
                        break;
                    }
                    let mut ic = Vec::new();
                    self.paren_head(&mut ic, Kind::Is, "is");
                    let e = self.expr(&mut ic);
                    ic.push(e);
                    let rp = self.expect(&mut ic, Kind::RParen, ")");
                    ic.push(rp);
                    self.trivia(&mut ic);
                    let b = self.block();
                    ic.push(b);
                    ch.push(self.node(Kind::IsClause, ic));
                }
                let rb = self.expect(&mut ch, Kind::RBrace, "}");
                ch.push(rb);
                self.node(Kind::WhenStatement, ch)
            }
            "expand" => {
                self.paren_head(&mut ch, Kind::Expand, "expand");
                let v = self.identifier(&mut ch);
                ch.push(v);
                let a = self.expect(&mut ch, Kind::Assign, "=");
                ch.push(a);
                let s = self.expr(&mut ch);
                ch.push(s);
                let to = self.expect(&mut ch, Kind::To, "to");
                ch.push(to);
                let e = self.expr(&mut ch);
                ch.push(e);
                let rp = self.expect(&mut ch, Kind::RParen, ")");
                ch.push(rp);
                self.trivia(&mut ch);
                let b = self.block();
                ch.push(b);
                self.node(Kind::ExpandStatement, ch)
            }
            "{" => self.block(),
            ";" => {
                let s = self.take(&mut ch, Kind::Semicolon);
                ch.push(s);
                self.node(Kind::EmptyStatement, ch)
            }
            _ => {
                let target = self.expr(&mut ch);
                ch.push(target);
                let op = self.peek_token().unwrap_or_default();
                let assign_ops = [
                    "=", "+=", "-=", "*=", "/=", "%=", "&=", "|=", "^=", "<<=", ">>=",
                ];
                if assign_ops.contains(&op.as_str()) {
                    let kind = match op.as_str() {
                        "=" => Kind::Assign,
                        "+=" => Kind::PlusEq,
                        "-=" => Kind::MinusEq,
                        "*=" => Kind::StarEq,
                        "/=" => Kind::SlashEq,
                        "%=" => Kind::PercentEq,
                        "&=" => Kind::AmpEq,
                        "|=" => Kind::PipeEq,
                        "^=" => Kind::CaretEq,
                        "<<=" => Kind::LtLtEq,
                        _ => Kind::GtGtEq,
                    };
                    let o = self.take(&mut ch, kind);
                    ch.push(o);
                    let v = self.expr(&mut ch);
                    ch.push(v);
                    let semi = self.expect(&mut ch, Kind::Semicolon, ";");
                    ch.push(semi);
                    self.node(Kind::AssignmentStatement, ch)
                } else {
                    let semi = self.expect(&mut ch, Kind::Semicolon, ";");
                    ch.push(semi);
                    self.node(Kind::ExpressionStatement, ch)
                }
            }
        }
    }

    fn if_statement(&mut self) -> Node {
        let mut ch = Vec::new();
        self.paren_head(&mut ch, Kind::If, "if");
        let c = self.expr(&mut ch);
        ch.push(c);
        let rp = self.expect(&mut ch, Kind::RParen, ")");
        ch.push(rp);
        self.trivia(&mut ch);
        let b = self.block();
        ch.push(b);
        let mut look = Vec::new();
        let save = self.pos;
        self.trivia(&mut look);
        if self.at("else") {
            self.pos = save;
            let mut ec = Vec::new();
            let e = self.take(&mut ec, Kind::Else);
            ec.push(e);
            if self.at("if") {
                self.trivia(&mut ec);
                let i = self.if_statement();
                ec.push(i);
            } else {
                self.trivia(&mut ec);
                let b = self.block();
                ec.push(b);
            }
            ch.push(self.node(Kind::ElseClause, ec));
        } else {
            self.pos = save;
        }
        self.node(Kind::IfStatement, ch)
    }

    fn identifier(&mut self, into: &mut Vec<Node>) -> Node {
        match self.peek_token() {
            Some(t) if t.chars().next().map_or(false, is_word_start)
                && !KEYWORDS.contains(&t.as_str()) => {}
            _ => self.errors += 1,
        }
        self.take(into, Kind::Identifier)
    }

    fn expr(&mut self, into: &mut Vec<Node>) -> Node {
        let cond = self.binary(into, 1);
        if self.at("?") {
            let mut ch = vec![cond];
            let q = self.take(&mut ch, Kind::Question);
            ch.push(q);
            let a = self.expr(&mut ch);
            ch.push(a);
            let c = self.expect(&mut ch, Kind::Colon, ":");
            ch.push(c);
            let b = self.expr(&mut ch);
            ch.push(b);
            return self.node(Kind::TernaryExpression, ch);
        }
        cond
    }

    fn prec(op: &str) -> u8 {
        match op {
            "or" | "||" => 1,
            "and" | "&&" => 2,
            "|" => 3,
            "^" => 4,
            "&" => 5,
            "==" | "!=" | "eq" | "neq" => 6,
            "<" | ">" | "<=" | ">=" => 7,
            "<<" | ">>" => 8,
            "+" | "-" => 9,
            "*" | "/" | "%" => 10,
            _ => 0,
        }
    }

    fn binary(&mut self, into: &mut Vec<Node>, min: u8) -> Node {
        let mut left = self.unary(into);
        loop {
            let op = self.peek_token().unwrap_or_default();
            let p = Self::prec(&op);
            if p == 0 || p < min {
                return left;
            }
            let mut ch = vec![left];
            let o = self.take(&mut ch, Kind::Other);
            ch.push(o);
            let right = self.binary(&mut ch, p + 1);
            ch.push(right);
            left = self.node(Kind::BinaryExpression, ch);
        }
    }

    fn unary(&mut self, into: &mut Vec<Node>) -> Node {
        let t = self.peek_token().unwrap_or_default();
        let kind = match t.as_str() {
            "-" => Some(Kind::Minus),
            "!" => Some(Kind::Bang),
            "not" => Some(Kind::Not),
            "~" => Some(Kind::Other),
            _ => None,
        };
        match kind {
            Some(k) => {
                let mut ch = Vec::new();
                let o = self.take(&mut ch, k);
                ch.push(o);
                let e = self.unary(&mut ch);
                ch.push(e);
                self.node(Kind::UnaryExpression, ch)
            }
            None => self.postfix(into),
        }
    }

    fn postfix(&mut self, into: &mut Vec<Node>) -> Node {
        let mut e = self.primary(into);
        loop {
            if self.at(".") {
                let mut ch = vec![e];
                let d = self.take(&mut ch, Kind::Dot);
                ch.push(d);
                let id = self.identifier(&mut ch);
                ch.push(id);
                e = self.node(Kind::MemberExpression, ch);
            } else if self.at("(") {
                let mut ch = vec![e];
                let mut ac = Vec::new();
                let lp = self.take(&mut ac, Kind::LParen);
                ac.push(lp);
                if !self.at(")") {
                    loop {
                        let a = self.expr(&mut ac);
                        ac.push(a);
                        if self.at(",") {
                            let c = self.take(&mut ac, Kind::Comma);
                            ac.push(c);
                        } else {
                            break;
                        }
                    }
                }
                let rp = self.expect(&mut ac, Kind::RParen, ")");
                ac.push(rp);
                ch.push(self.node(Kind::ArgumentList, ac));
                e = self.node(Kind::CallExpression, ch);
            } else {
                return e;
            }
        }
    }

    fn primary(&mut self, into: &mut Vec<Node>) -> Node {
        let t = self.peek_token().unwrap_or_default();
        let c = t.chars().next().unwrap_or(' ');
        if t == "true" || t == "false" {
            self.take(into, Kind::Boolean)
        } else if is_word_start(c) && !KEYWORDS.contains(&t.as_str()) {
            self.take(into, Kind::Identifier)
        } else if c.is_ascii_digit() {
            self.take(into, Kind::Number)
        } else if c == '"' {
            self.take(into, Kind::StringLiteral)
        } else if t == "(" {
            let mut ch = Vec::new();
            let lp = self.take(&mut ch, Kind::LParen);
            ch.push(lp);
            let e = self.expr(&mut ch);
            ch.push(e);
            let rp = self.expect(&mut ch, Kind::RParen, ")");
            ch.push(rp);
            self.node(Kind::ParenthesizedExpression, ch)
        } else {
            self.errors += 1;
            self.take(into, Kind::Other)
        }
    }
}

/// Parse M1 source text into the tree the formatter reads.
fn parse(text: &str) -> Cst {
    let mut r = Reader::new(text);
    let mut ch = Vec::new();
    r.statements(&mut ch, false);
    let root = Node {
        kind: Kind::SourceFile,
        start: 0,
        end: r.src.len(),
        start_line: 0,
        end_line: r.line_of(r.src.len()),
        text: text.to_string(),
        children: ch,
    };
    Cst { root, syntax_errors: r.errors }
}

// ---------------------------------------------------------------------------
// Driving the library
// ---------------------------------------------------------------------------

fn format_with(src: &str, opts: &FormatOptions) -> FormatResult {
    let cst = parse(&parse_input(src));
    match format_str_with(src, &cst, opts).unwrap() {
        FormatStep::Done(r) => r,
        FormatStep::Reparse(sp) => {
            let out_cst = parse(&sp.lf_out);
            finish_splice(&sp, &out_cst)
        }
    }
}

fn fmt(src: &str) -> String {
    format_with(src, &FormatOptions::default()).output
}

fn fmt_opts(src: &str, opts: &FormatOptions) -> String {
    format_with(src, opts).output
}

fn range(src: &str, a: usize, b: usize, opts: &FormatOptions) -> Option<RangeResult> {
    let cst = parse(&parse_input(src));
    let plan = format_range(src, &cst, a, b, opts).unwrap()?;
    let res = format_with(&plan.slice, &plan.opts);
    Some(finish_range(&plan, &res))
}

fn idempotent(src: &str, opts: &FormatOptions) -> String {
    let once = fmt_opts(src, opts);
    let twice = fmt_opts(&once, opts);
    assert_eq!(once, twice, "not idempotent for {src:?}");
    once
}

fn syntax_error_count(src: &str) -> usize {
    parse(&parse_input(src)).syntax_errors
}

// ---------------------------------------------------------------------------
// Tests
// ---------------------------------------------------------------------------

#[test]
fn reader_builds_the_expected_tree() {
    let cst = parse("local x = Foo(a, b);\n");
    assert_eq!(cst.syntax_errors, 0);
    assert_eq!(cst.root.children.len(), 1);
    let decl = &cst.root.children[0];
    assert!(matches!(decl.kind, Kind::LocalDeclaration));
    assert_eq!(decl.text, "local x = Foo(a, b);");
    assert_eq!(parse("x = 1\n").syntax_errors > 0, true);
}

// ---------------------------------------------------------------------------
// The command line over standard input, as the program runs it
// ---------------------------------------------------------------------------

/// Run the standard-input path with `args`; returns stdout, stderr and the
/// exit status.
fn run_with_stdin(args: &[&str], input: &str) -> (String, String, i32) {
    let mut check = false;
    let mut diff = false;
    let mut brace: Option<&str> = None;
    let mut indent: Option<&str> = None;
    let mut range_s: Option<&str> = None;
    let mut i = 0;
    while i < args.len() {
        match args[i] {
            "--check" => check = true,
            "--diff" => diff = true,
            "--brace-style" => {
                i += 1;
                brace = Some(args[i]);
            }
            "--indent-style" => {
                i += 1;
                indent = Some(args[i]);
            }
            "--range" => {
                i += 1;
                range_s = Some(args[i]);
            }
            _ => {}
        }
        i += 1;
    }
    let styles = match parse_style_overrides(indent, brace) {
        Ok(s) => s,
        Err(m) => return (String::new(), m + "\n", USAGE_EXIT),
    };
    let range_v = match range_arg(range_s) {
        Ok(r) => r,
        Err(m) => return (String::new(), m + "\n", USAGE_EXIT),
    };
    let flags = OptionFlags {
        max_blank_lines: None,
        line_width: None,
        indent_width: None,
        continuation_indent: None,
        align_assignments: false,
        no_align_assignments: false,
        reflow_comments: false,
        no_reflow_comments: false,
        final_blank_line: false,
        no_final_blank_line: false,
    };
    let (opts, warnings) = resolve_opts(cli_overrides(&flags, styles), resolve_options(None, None));
    assert!(warnings.is_empty());
    let result = match range_v {
        None => format_with(input, &opts),
        Some((a, b)) => {
            let rr = range(input, a - 1, b - 1, &opts);
            let (output, changed, warnings) = range_buffer(input, rr.as_ref());
            FormatResult { output, changed, warnings }
        }
    };
    let serr = syntax_error_count(input);
    let report = stdin_report("<stdin>", &result, serr, check, diff);
    let code = exit_code(false, report.syntax_error, check, report.changed);
    (report.stdout, report.stderr, code)
}

#[test]
fn default_mode_fails_on_syntax_errors() {
    let (stdout, stderr, code) = run_with_stdin(&["-"], "x = 1\n");
    assert_ne!(code, 0, "unparseable input must exit non-zero; stderr: {stderr}");
    assert_eq!(stdout, "x = 1\n", "the original is still emitted unchanged");
    assert!(stderr.to_lowercase().contains("syntax"), "stderr should mention syntax errors: {stderr}");
}

#[test]
fn bad_range_argument_is_a_usage_error_exit_two() {
    let (_out, _stderr, code) = run_with_stdin(&["--range", "notarange", "-"], "x = 1;\n");
    assert_eq!(code, 2);
}

#[test]
fn check_flags_unparseable_input() {
    let (_out, stderr, code) = run_with_stdin(&["--check", "-"], "local <Integer> = 1;\n");
    assert_ne!(code, 0, "--check on unparseable input must exit non-zero; stderr: {stderr}");
    assert!(stderr.to_lowercase().contains("syntax"), "stderr should mention syntax errors: {stderr}");
}

#[test]
fn dash_argument_reads_stdin() {
    let files = m1_fmt::cli::file_args(vec!["-".to_string()]);
    assert!(files.is_empty(), "a lone `-` means standard input");
    let (stdout, stderr, code) = run_with_stdin(&["-"], "local x=1;\n");
    assert_eq!(code, 0, "stderr: {stderr}");
    assert_eq!(stdout, "local x = 1;\n");
}

#[test]
fn brace_style_flag_overrides_default_over_stdin() {
    let input = "if (A > B)\n{\n\tValue = 1;\n}\n";
    let (default_out, default_err, default_code) = run_with_stdin(&[], input);
    assert_eq!(default_code, 0, "stderr: {default_err}");
    assert_eq!(default_out, input, "the default Allman output must keep the brace on its own line");
    let (kr_out, kr_err, kr_code) = run_with_stdin(&["--brace-style", "kr"], input);
    assert_eq!(kr_code, 0, "stderr: {kr_err}");
    assert_ne!(kr_out, default_out, "--brace-style kr must change the output vs the Allman default");
    assert!(kr_out.contains("if (A > B) {"), "K&R must put the opening brace on the keyword line; got: {kr_out:?}");
}

#[test]
fn indent_style_flag_overrides_default_over_stdin() {
    let input = "if (A > B)\n{\n\tValue = 1;\n}\n";
    let (out, err, code) = run_with_stdin(&["--indent-style", "spaces"], input);
    assert_eq!(code, 0, "stderr: {err}");
    assert!(out.contains("\n    Value = 1;"), "--indent-style spaces must indent with spaces, not a tab; got: {out:?}");
    assert!(!out.contains("\n\tValue = 1;"), "the tab default must be overridden; got: {out:?}");
}

#[test]
fn invalid_brace_style_flag_is_a_usage_error_exit_two() {
    let (_out, stderr, code) = run_with_stdin(&["--brace-style", "egyptian", "-"], "x = 1;\n");
    assert_eq!(code, 2, "stderr: {stderr}");
    assert!(
        stderr.contains("brace-style") && stderr.contains("allman") && stderr.contains("kr"),
        "the error must name the flag and list accepted values; stderr: {stderr}"
    );
}

#[test]
fn invalid_indent_style_flag_is_a_usage_error_exit_two() {
    let (_out, stderr, code) = run_with_stdin(&["--indent-style", "tabz", "-"], "x = 1;\n");
    assert_eq!(code, 2, "stderr: {stderr}");
    assert!(
        stderr.contains("indent-style") && stderr.contains("tab") && stderr.contains("spaces"),
        "the error must name the flag and list accepted values; stderr: {stderr}"
    );
}

#[test]
fn stdin_bom_is_preserved_and_body_formatted() {
    let (out, err, code) = run_with_stdin(&["-"], "\u{FEFF}local x=1;\n");
    assert_eq!(code, 0, "stderr: {err}");
    assert_eq!(out, "\u{FEFF}local x = 1;\n");
}

#[test]
fn stdin_bom_with_syntax_error_is_byte_for_byte_unchanged() {
    let src = "\u{FEFF}x = ;\n";
    let (out, _err, code) = run_with_stdin(&["-"], src);
    assert_eq!(out, src);
    assert_eq!(code, 1);
}

// ---------------------------------------------------------------------------
// Wrapping
// ---------------------------------------------------------------------------

fn nested_wrapped_args() {
    let src = "local result = Outer.Compute(Inner.Deep(Innermost.EvenDeeper(\
               reallyQuiteLongArgumentNameOne, reallyQuiteLongArgumentNameTwo, \
               reallyQuiteLongArgumentNameThree, reallyQuiteLongArgumentNameFour)));\n";
    let out = fmt(src);
    for line in out.lines() {
        assert!(line.chars().count() <= 88, "line over budget after wrapping: {line:?}");
    }
    let again = format_with(&out, &FormatOptions::default());
    assert_eq!(again.output, out, "formatting is not idempotent");
    assert!(!again.changed);
}

#[test]
fn printer_nested_wrapped_args_break_after_open_paren() {
    nested_wrapped_args();
}

#[test]
fn mod_nested_wrapped_args_break_after_open_paren() {
    nested_wrapped_args();
}

#[test]
fn binary_chain_keeps_relational_operands_with_their_operator() {
    let src = "if (Aaaaaaaaaaaaaaaaaaaaaaaaa.Bbbbbb eq 1 and Ccccccccccccccccccccccc.Dddddd eq 2 and Eeeeeeeeeeeeeeee.Ffff eq 3) {\nValue = 1;\n}\n";
    let out = fmt(src);
    for line in out.lines() {
        let t = line.trim_start();
        assert!(!(t.starts_with("eq ") || t.starts_with("neq ")), "relational operand orphaned from its operator:\n{out}");
    }
}

#[test]
fn long_ternary_wraps_under_the_line_width() {
    let src = "x = Conditionnnnnnnnnnnnnnnnnnnnn.Foo eq 1 ? AlternativeOneeeeeeeeeeeeeeeee.Value : AlternativeTwooooooooooooo.Value;\n";
    let out = fmt(src);
    for line in out.lines() {
        assert!(line.chars().count() <= 88, "ternary line exceeds width:\n{out}");
    }
    assert!(out.lines().any(|l| l.trim_start().starts_with("? ")), "expected a `?`-led continuation line:\n{out}");
    assert!(out.lines().any(|l| l.trim_start().starts_with(": ")), "expected a `:`-led continuation line:\n{out}");
}

#[test]
fn deeply_nested_calls_format_in_bounded_time() {
    let n = 80;
    let src = format!("x = {}1{};\n", "f(".repeat(n), ")".repeat(n));
    let start = std::time::Instant::now();
    let out = fmt(&src);
    assert!(start.elapsed() < std::time::Duration::from_secs(3));
    assert!(out.contains("f("));
    assert_eq!(fmt(&out), out, "formatting is not idempotent");
}

#[test]
fn deeply_nested_binary_formats_in_bounded_time() {
    let n = 80;
    let src = format!("local x = {}a{};\n", "(a + ".repeat(n), ")".repeat(n));
    let start = std::time::Instant::now();
    let out = fmt(&src);
    assert!(start.elapsed() < std::time::Duration::from_secs(3));
    assert_eq!(fmt(&out), out, "formatting is not idempotent");
}

#[test]
fn huge_indent_width_does_not_panic() {
    let opts = FormatOptions { indent_width: usize::MAX, ..Default::default() };
    let _ = format_with(
        "local myResult = DemoGroup.ValueA + DemoGroup.ValueB + DemoGroup.ValueC + DemoGroup.ValueD;\n",
        &opts,
    );
}

#[test]
fn huge_continuation_indent_does_not_panic() {
    let opts = FormatOptions {
        continuation_indent: usize::MAX,
        indent_style: IndentStyle::Spaces,
        indent_width: 1,
        ..Default::default()
    };
    let _ = format_with(
        "local myResult = DemoGroup.ValueA + DemoGroup.ValueB + DemoGroup.ValueC + DemoGroup.ValueD;\n",
        &opts,
    );
}

#[test]
fn line_too_long_counts_tab_expanded_columns() {
    let src = "if (A)\n{\n\tif (B)\n\t{\n\t\t// aaaaaaaaaaaaaaaaaaaaaaaa\n\t}\n}\n";
    let mk = |style| FormatOptions { indent_width: 4, line_width: 30, indent_style: style, ..Default::default() };
    let tab = format_with(src, &mk(IndentStyle::Tab));
    let sp = format_with(src, &mk(IndentStyle::Spaces));
    assert!(!tab.warnings.is_empty(), "tab-indented over-width line must warn");
    assert_eq!(tab.warnings.len(), sp.warnings.len(), "tabs and spaces must agree on line-too-long");
}

// ---------------------------------------------------------------------------
// Style
// ---------------------------------------------------------------------------

#[test]
fn default_is_allman_braces_and_tab_indentation() {
    let out = fmt("if (a) {\nValue = 1;\n}\n");
    assert_eq!(out, "if (a)\n{\n\tValue = 1;\n}\n", "got:\n{out}");
}

#[test]
fn kr_and_spaces_override() {
    let opts = FormatOptions {
        brace_style: BraceStyle::Kr,
        indent_style: IndentStyle::Spaces,
        indent_width: 4,
        ..Default::default()
    };
    let out = fmt_opts("if (a)\n{\nValue = 1;\n}\n", &opts);
    assert_eq!(out, "if (a) {\n    Value = 1;\n}\n", "got:\n{out}");
}

#[test]
fn comment_between_condition_and_brace_stays_before_the_brace() {
    let src = "if (a)\n// note\n{\nValue = 1;\n}\n";
    let out = fmt(src);
    assert_eq!(out, "if (a)\n// note\n{\n\tValue = 1;\n}\n", "got:\n{out}");
    assert_eq!(fmt(&out), out, "not idempotent");
}

#[test]
fn comment_before_is_clause_brace_stays_before_the_brace() {
    let src = "when (m)\n{\nis (X)\n// note\n{\nValue = 1;\n}\n}\n";
    let out = fmt(src);
    assert!(out.contains("is (X)\n\t// note\n\t{"), "comment should sit before the is-clause brace:\n{out}");
    assert!(!out.contains("// note\n\n"), "no spurious blank line after the comment:\n{out}");
}

#[test]
fn comment_between_when_subject_and_brace_stays_before_the_brace() {
    let src = "when (S) // subj\n{\nis (A)\n{\nValue = 1;\n}\n}\n";
    let out = fmt(src);
    assert!(out.contains("when (S)\n// subj\n{"), "comment should sit before the when brace:\n{out}");
    assert!(!out.contains("{\n\t// subj"), "comment must not be relocated inside the block:\n{out}");
    assert_eq!(fmt(&out), out, "not idempotent");
}

#[test]
fn allman_puts_else_on_its_own_line() {
    let out = fmt("if (a) {\nValue = 1;\n} else {\nValue = 2;\n}\n");
    assert_eq!(out, "if (a)\n{\n\tValue = 1;\n}\nelse\n{\n\tValue = 2;\n}\n", "got:\n{out}");
}

// ---------------------------------------------------------------------------
// Options
// ---------------------------------------------------------------------------

#[test]
fn format_str_with_default_matches_format_str() {
    let src = "x=1+2;\n";
    let cst = parse(&parse_input(src));
    let a = match m1_fmt::format_str(src, &cst).unwrap() {
        FormatStep::Done(r) => r.output,
        FormatStep::Reparse(_) => panic!("no format-off regions here"),
    };
    let b = fmt_opts(src, &FormatOptions::default());
    assert_eq!(a, b);
}

#[test]
fn default_options_are_two_blank_lines_and_88() {
    let o = FormatOptions::default();
    assert_eq!(o.max_blank_lines, 2);
    assert_eq!(o.line_width, 88);
}

#[test]
fn final_blank_line_appends_exactly_one_blank_line() {
    let opts = FormatOptions { final_blank_line: true, ..Default::default() };
    let out = fmt_opts("local x = 1;\n", &opts);
    assert!(out.ends_with(";\n\n"), "got {out:?}");
    assert!(!out.ends_with("\n\n\n"), "got {out:?}");
    let again = fmt_opts(&out, &opts);
    assert_eq!(out, again);
    let out2 = fmt_opts("local x = 1;\n\n\n\n", &opts);
    assert_eq!(out, out2);
}

#[test]
fn final_blank_line_off_keeps_single_trailing_newline() {
    let out = fmt("local x = 1;\n\n\n");
    assert!(out.ends_with(";\n"), "got {out:?}");
    assert!(!out.ends_with("\n\n"), "got {out:?}");
}

// ---------------------------------------------------------------------------
// Regressions
// ---------------------------------------------------------------------------

#[test]
fn local_bare_identifier_initializer_keeps_single_space() {
    let out = fmt("local a = b;\n");
    assert_eq!(out, "local a = b;\n", "got:\n{out}");
}

#[test]
fn local_multiword_identifier_initializer_is_stable() {
    let out = fmt("local Left Motor Torque = Torque Request;\n");
    assert_eq!(out, "local Left Motor Torque = Torque Request;\n", "got:\n{out}");
    assert_eq!(fmt(&out), out, "not idempotent");
}

#[test]
fn static_typed_local_bare_initializer_is_correct() {
    let out = fmt("static local <T> name = other;\n");
    assert_eq!(out, "static local <T> name = other;\n", "got:\n{out}");
}

#[test]
fn comment_before_else_stays_above_keyword() {
    let src = "if (a > 0)\n{\n\tb = 1;\n}\n// choose fallback\nelse\n{\n\tb = 2;\n}\n";
    let out = fmt(src);
    assert_eq!(out, src, "comment was relocated; got:\n{out}");
}

#[test]
fn comment_before_else_if_stays_above_keyword() {
    let src = "if (a > 0)\n{\n\tb = 1;\n}\n// fallback branch\nelse if (a < 0)\n{\n\tb = 2;\n}\n";
    let out = fmt(src);
    assert_eq!(out, src, "comment was relocated; got:\n{out}");
}

#[test]
fn short_assignment_is_not_broken() {
    let out = fmt("x = some.call();\n");
    assert_eq!(out, "x = some.call();\n", "got:\n{out}");
}

#[test]
fn tilde_unary_formats_correctly() {
    let out = fmt("x = ~a;\n");
    assert_eq!(out, "x = ~a;\n", "got:\n{out}");
}

#[test]
fn tilde_unary_is_idempotent() {
    let out = fmt("x = ~a;\n");
    assert_eq!(fmt(&out), out, "not idempotent");
}

#[test]
fn tilde_member_expression_formats_correctly() {
    let out = fmt("x = ~foo.bar;\n");
    assert_eq!(out, "x = ~foo.bar;\n", "got:\n{out}");
    assert_eq!(fmt(&out), out, "not idempotent");
}

#[test]
fn tilde_paren_expression_formats_correctly() {
    let out = fmt("x = ~(a + b);\n");
    assert_eq!(out, "x = ~(a + b);\n", "got:\n{out}");
    assert_eq!(fmt(&out), out, "not idempotent");
}

#[test]
fn tilde_inside_binary_expression_formats_correctly() {
    let out = fmt("x = a & ~b;\n");
    assert_eq!(out, "x = a & ~b;\n", "got:\n{out}");
    assert_eq!(fmt(&out), out, "not idempotent");
}

#[test]
fn format_error_has_only_io_error_variant() {
    let err = m1_fmt::diagnostics::FormatError::IoError(std::io::Error::other("boom"));
    match err {
        m1_fmt::diagnostics::FormatError::IoError(e) => assert_eq!(e.kind(), std::io::ErrorKind::Other),
    }
}

#[test]
fn syntax_error_buffer_is_ok_passthrough_not_err() {
    let src = "x = 1\n";
    let result = format_with(src, &FormatOptions::default());
    assert_eq!(result.output, src, "original must pass through unchanged");
    assert!(!result.changed, "a passed-through buffer is unchanged");
    assert!(syntax_error_count(src) > 0);
}

// ---------------------------------------------------------------------------
// Comments and byte-order marks
// ---------------------------------------------------------------------------

#[test]
fn eol_comment_attaches_to_the_statement_it_follows() {
    let out = fmt("a = 1; b = 2; // tail of b\n");
    assert_eq!(out, "a = 1;\nb = 2;  // tail of b\n", "got:\n{out}");
}

#[test]
fn eol_comment_attaches_to_last_of_three_statements() {
    let out = fmt("a = 1; b = 2; c = 3; // tail of c\n");
    assert_eq!(out, "a = 1;\nb = 2;\nc = 3;  // tail of c\n", "got:\n{out}");
}

#[test]
fn single_statement_eol_comment_still_attaches() {
    let out = fmt("x = 1; // note\n");
    assert_eq!(out, "x = 1;  // note\n", "got:\n{out}");
}

#[test]
fn eol_comment_attachment_is_idempotent() {
    let once = fmt("a = 1; b = 2; // tail of b\n");
    let twice = fmt(&once);
    assert_eq!(once, twice, "formatting is not idempotent");
}

#[test]
fn bom_is_preserved_and_body_formatted() {
    let out = fmt("\u{FEFF}local x=1;\n");
    assert_eq!(out, "\u{FEFF}local x = 1;\n", "got:\n{out:?}");
}

#[test]
fn bom_with_syntax_error_is_byte_for_byte_unchanged() {
    let src = "\u{FEFF}x = ;\n";
    let result = format_with(src, &FormatOptions::default());
    assert_eq!(result.output, src, "got:\n{:?}", result.output);
    assert!(!result.changed);
}

#[test]
fn bom_round_trips_an_already_formatted_buffer() {
    let src = "\u{FEFF}local x = 1;\n";
    let result = format_with(src, &FormatOptions::default());
    assert_eq!(result.output, src);
    assert!(!result.changed, "an already-formatted BOM file must not change");
}

#[test]
fn non_javadoc_star_lines_are_preserved_verbatim() {
    let src = "/*\n    *custom indent\n        *deeper\n*/\nx = 1;\n";
    let out = fmt(src);
    assert_eq!(out, "/*\n    *custom indent\n        *deeper\n*/\nx = 1;\n", "got:\n{out}");
}

#[test]
fn javadoc_star_lines_are_realigned() {
    let src = "/**\n    *custom indent\n        *deeper\n*/\nx = 1;\n";
    let out = fmt(src);
    assert_eq!(out, "/**\n *custom indent\n *deeper\n */\nx = 1;\n", "got:\n{out}");
}

#[test]
fn non_javadoc_block_comment_is_idempotent() {
    let src = "/*\n    *custom indent\n        *deeper\n*/\nx = 1;\n";
    let once = fmt(src);
    let twice = fmt(&once);
    assert_eq!(once, twice, "block-comment handling is not idempotent");
}

#[test]
fn bom_with_crlf_round_trips() {
    let out = fmt("\u{FEFF}local x=1;\r\n");
    assert_eq!(out, "\u{FEFF}local x = 1;\r\n", "got:\n{out:?}");
}

// ---------------------------------------------------------------------------
// Idempotency
// ---------------------------------------------------------------------------

#[test]
fn brace_adjacent_blank_stripping_is_idempotent() {
    let src = "if (a) {\n\n\n\n    x = 1;\n}\n";
    let once = fmt(src);
    let twice = fmt(&once);
    assert_eq!(once, twice, "format must be idempotent in one pass");
    assert!(!once.contains("{\n\n"), "brace-adjacent blank not stripped");
}

#[test]
fn crlf_input_formats_and_preserves_crlf() {
    let lf = "if (a) {\n    x = 1;\n}\n";
    let crlf = lf.replace('\n', "\r\n");
    let out = fmt(&crlf);
    assert!(out.contains("\r\n"), "CRLF should be preserved on output");
    assert!(!out.ends_with("\r\n\r\n"), "no spurious trailing blank line on CRLF");
    let lf_out = fmt(lf);
    assert_eq!(out, lf_out.replace('\n', "\r\n"));
    let out2 = fmt(&out);
    assert_eq!(out, out2);
}

#[test]
fn wrapped_stmt_then_comment_before_is_clause_is_idempotent() {
    let src = "when (Value)\n\
               {\n\
               \tis (Emergency)\n\
               \t{\n\
               \t\tInverter Active = SomeReallyLongFunctionName.ThatWrapsAcross(ArgumentOne, ArgumentTwo, ArgThree);\n\
               \t}\n\
               \t// a latching fault has occured\n\
               \tis (Latching Fault)\n\
               \t{\n\
               \t\tValue = Drive State.Idle;\n\
               \t}\n\
               }\n";
    let once = fmt(src);
    let twice = fmt(&once);
    assert_eq!(once, twice, "not idempotent\n--- first ---\n{once}\n--- second ---\n{twice}");
    assert!(once.contains("ThatWrapsAcross(ArgumentOne,\n"), "the long assignment should wrap:\n{once}");
}

#[test]
fn crlf_brace_adjacent_blank_is_stripped() {
    let out = fmt("if (a) {\r\n\r\n    x = 1;\r\n}\r\n");
    assert!(!out.contains("{\r\n\r\n"), "brace-adjacent blank not stripped on CRLF input");
}

#[test]
fn block_comment_interior_indentation_is_preserved() {
    let src = "/* table:\n     col1    col2\n     a       b\n*/\nlocal x = 1;\n";
    let out = fmt(src);
    assert!(out.contains("     col1    col2"), "{out}");
    assert!(out.contains("     a       b"), "{out}");
    assert_eq!(fmt(&out), out, "block-comment formatting must be idempotent");
}

#[test]
fn block_comment_indented_code_block_keeps_indentation() {
    let src = "/*\n\tif (Foo)\n\t{\n\t\tBar = 1;\n\t}\n*/\nlocal y = 2;\n";
    let out = fmt(src);
    assert!(out.contains("\n\tif (Foo)\n"), "{out:?}");
    assert!(out.contains("\n\t\tBar = 1;\n"), "{out:?}");
}

// ---------------------------------------------------------------------------
// Format-off regions
// ---------------------------------------------------------------------------

#[test]
fn off_region_is_byte_identical_and_rest_is_formatted() {
    let src = "a=1;\n// @m1:fmt(off)\nb   =    2 ;\nc\t=3;\n// @m1:fmt(on)\nd=4;\n";
    let out = fmt(src);
    assert!(out.contains("// @m1:fmt(off)\nb   =    2 ;\nc\t=3;\n// @m1:fmt(on)"), "{out}");
    assert!(out.starts_with("a = 1;\n"), "{out}");
    assert!(out.ends_with("d = 4;\n"), "{out}");
}

#[test]
fn unclosed_off_runs_to_eof() {
    let src = "a=1;\n// @m1:fmt(off)\nb   =    2 ;\nc  =3;\n";
    let out = fmt(src);
    assert!(out.starts_with("a = 1;\n"), "{out}");
    assert!(out.ends_with("// @m1:fmt(off)\nb   =    2 ;\nc  =3;\n"), "{out}");
}

#[test]
fn off_region_inside_a_block_is_preserved() {
    let src = "if (a)\n{\n\tx=1;\n\t// @m1:fmt(off)\n\ty   =   2 ;\n\t// @m1:fmt(on)\n\tz=3;\n}\n";
    let out = fmt(src);
    assert!(out.contains("\t// @m1:fmt(off)\n\ty   =   2 ;\n\t// @m1:fmt(on)"), "region inside block not preserved:\n{out}");
    assert!(out.contains("\tx = 1;\n"), "{out}");
    assert!(out.contains("\tz = 3;\n"), "{out}");
}

#[test]
fn idempotent_and_check_clean_when_only_region_is_unformatted() {
    let src = "a = 1;\n// @m1:fmt(off)\nb   =    2 ;\n// @m1:fmt(on)\nc = 3;\n";
    let once = fmt(src);
    assert_eq!(once, src);
    assert!(!format_with(src, &FormatOptions::default()).changed);
    assert_eq!(fmt(&once), once);
}

#[test]
fn trailing_marker_is_not_a_region_marker() {
    let src = "b   =    2 ; // @m1:fmt(off)\nc=3;\n";
    let out = fmt(src);
    assert!(out.contains("b = 2;  // @m1:fmt(off)\n"), "{out}");
    assert!(out.contains("c = 3;\n"), "{out}");
}

#[test]
fn on_without_off_is_inert() {
    let src = "// @m1:fmt(on)\nb   =   2 ;\n";
    let out = fmt(src);
    assert_eq!(out, "// @m1:fmt(on)\nb = 2;\n");
}

#[test]
fn second_off_inside_region_is_part_of_the_region() {
    let src = "// @m1:fmt(off)\na   =1;\n// @m1:fmt(off)\nb   =2;\n// @m1:fmt(on)\nc=3;\n";
    let out = fmt(src);
    assert!(out.starts_with("// @m1:fmt(off)\na   =1;\n// @m1:fmt(off)\nb   =2;\n// @m1:fmt(on)\n"), "{out}");
    assert!(out.ends_with("c = 3;\n"), "{out}");
}

#[test]
fn crlf_document_with_off_region_round_trips() {
    let src = "a=1;\r\n// @m1:fmt(off)\r\nb   =   2 ;\r\n// @m1:fmt(on)\r\nc=4;\r\n";
    let out = fmt(src);
    assert!(out.contains("// @m1:fmt(off)\r\nb   =   2 ;\r\n// @m1:fmt(on)\r\n"), "{out:?}");
    assert!(out.starts_with("a = 1;\r\n"), "{out:?}");
    assert!(out.ends_with("c = 4;\r\n"), "{out:?}");
    assert_eq!(fmt(&out), out);
}

#[test]
fn line_too_long_warnings_are_suppressed_inside_off_regions() {
    let long = "x".repeat(120);
    let src = format!("// @m1:fmt(off)\nlocal {long} = 1;\n// @m1:fmt(on)\na=1;\n");
    let result = format_with(&src, &FormatOptions::default());
    assert!(result.warnings.is_empty(), "off-region lines are deliberate; got {:?}", result.warnings);
}

#[test]
fn format_range_overlapping_an_off_region_declines() {
    let src = "a=1;\n// @m1:fmt(off)\nb   =    2 ;\n// @m1:fmt(on)\nc=3;\n";
    let r = range(src, 2, 2, &FormatOptions::default());
    assert!(r.is_none(), "range inside an off region must be left alone");
    let r = range(src, 0, 0, &FormatOptions::default()).expect("outside the region formats");
    assert_eq!(r.output.trim_end(), "a = 1;");
}

#[test]
fn marker_text_inside_a_block_comment_is_not_a_marker() {
    let src = "/*\n// @m1:fmt(off)\n*/\nb   =   2 ;\n";
    let out = fmt(src);
    assert!(out.ends_with("b = 2;\n"), "block-comment text tripped the marker:\n{out}");
}

#[test]
fn options_apply_outside_but_not_inside_the_region() {
    let src = "if (a)\n{\n    s=1;\n    // @m1:fmt(off)\n    t    =     2;\n    // @m1:fmt(on)\n}\n";
    let out = fmt(src);
    assert!(out.contains("\ts = 1;\n"), "{out}");
    assert!(out.contains("    // @m1:fmt(off)\n    t    =     2;\n    // @m1:fmt(on)\n"), "{out}");
}

// ---------------------------------------------------------------------------
// Range formatting
// ---------------------------------------------------------------------------

#[test]
fn formats_only_the_targeted_statement() {
    let src = "local a=1;\nlocal b   =   2;\nlocal c=3;\n";
    let r = range(src, 1, 1, &FormatOptions::default()).unwrap();
    assert_eq!((r.start_line, r.end_line), (1, 1));
    assert_eq!(r.output, "local b = 2;\n");
    assert!(r.changed);
}

#[test]
fn snaps_outward_to_a_multiline_statement() {
    let src = "local x = Foo(\n  a,b);\nlocal y=2;\n";
    let r = range(src, 0, 0, &FormatOptions::default()).unwrap();
    assert_eq!(r.start_line, 0);
    assert_eq!(r.end_line, 1, "range should snap to cover the whole statement");
    assert!(!r.output.contains("local y"));
    assert!(r.output.starts_with("local x = Foo("));
}

#[test]
fn no_overlap_returns_none() {
    let src = "local a = 1;\n\n\n";
    assert!(range(src, 2, 2, &FormatOptions::default()).is_none());
}

#[test]
fn already_formatted_region_reports_no_change() {
    let src = "local a = 1;\nlocal b = 2;\n";
    let r = range(src, 0, 0, &FormatOptions::default()).unwrap();
    assert!(!r.changed, "clean region should not be marked changed");
    assert_eq!(r.output, "local a = 1;\n");
}

#[test]
fn syntax_error_buffer_is_left_alone() {
    let src = "local a = (1 +;\n";
    assert!(range(src, 0, 0, &FormatOptions::default()).is_none());
}

#[test]
fn crlf_range_preserves_crlf_line_endings() {
    let src = "local x = 1;\r\nlocal y   =   2;\r\nlocal z = 3;\r\n";
    let r = range(src, 1, 1, &FormatOptions::default()).unwrap();
    assert!(r.output.contains("\r\n"), "CRLF must be preserved in range output, got {:?}", r.output);
    assert!(
        !r.output.contains('\n') || r.output.replace("\r\n", "").matches('\n').count() == 0,
        "no bare LF should remain in range output, got {:?}",
        r.output
    );
    assert_eq!(r.output, "local y = 2;\r\n");
    assert!(r.changed);
}

#[test]
fn crlf_range_already_formatted_reports_no_change() {
    let src = "local a = 1;\r\nlocal b = 2;\r\n";
    let r = range(src, 0, 0, &FormatOptions::default()).unwrap();
    assert!(!r.changed, "clean CRLF region should not be marked changed, got output {:?}", r.output);
}

#[test]
fn range_warnings_use_file_line_numbers() {
    let src = "X = 1;\nY = 2;\nif (A)\n{\n\t// aaaaaaaaaaaaaaaaaaaaaaaaaaaaaaaaaaaaaaaaaaaa\n}\n";
    let mut o = FormatOptions::default();
    o.line_width = 20;
    let r = range(src, 4, 4, &o).unwrap();
    let whole = format_with(src, &o);
    assert!(!whole.warnings.is_empty(), "expected an over-width warning");
    assert!(
        r.warnings.iter().any(|w| w.line == 5),
        "range warnings must be file-relative, got {:?}",
        r.warnings.iter().map(|w| w.line).collect::<Vec<_>>()
    );
}

#[test]
fn range_touching_a_header_falls_back_to_top_level() {
    let src = "when (Mode)\n{\n\tis (Off)\n\t{\n\t\tx=1;\n\t}\n}\n";
    let r = range(src, 2, 2, &FormatOptions::default()).expect("falls back to the top-level statement");
    assert_eq!((r.start_line, r.end_line), (0, 6));
}

#[test]
fn range_out_of_bounds_lines() {
    let src = "x = 1;\ny = 2;\n";
    assert!(range(src, 100, 200, &FormatOptions::default()).is_none());
    let _ = range(src, 0, 0, &FormatOptions::default());
}

#[test]
fn range_crlf_preserved() {
    let src = "x=1;\r\ny=2;\r\n";
    if let Some(rr) = range(src, 0, 0, &FormatOptions::default()) {
        assert!(rr.output.contains("\r\n") || !rr.changed, "CRLF lost in range output: {:?}", rr.output);
    }
}

#[test]
fn range_node_end_line_beyond_split() {
    let src = "x = 1;\ny = 2;";
    let _ = range(src, 1, 1, &FormatOptions::default());
    let _ = range(src, 0, 1, &FormatOptions::default());
}

// ---------------------------------------------------------------------------
// Blank line after top-level `when`, alignment, comment reflow
// ---------------------------------------------------------------------------

#[test]
fn inserts_blank_after_top_level_when() {
    let src = "when (Mode)\n{\n\tis (Off)\n\t{\n\t\tx = 1;\n\t}\n}\ny = 2;\n";
    let out = idempotent(src, &FormatOptions::default());
    assert!(out.contains("}\n\ny = 2;"), "blank line missing after when block:\n{out}");
}

#[test]
fn no_trailing_blank_when_when_ends_the_file() {
    let src = "when (Mode)\n{\n\tis (Off)\n\t{\n\t\tx = 1;\n\t}\n}\n";
    let out = idempotent(src, &FormatOptions::default());
    assert!(out.ends_with("}\n"), "no blank at EOF:\n{out}");
    assert!(!out.ends_with("\n\n"));
}

#[test]
fn existing_blank_after_when_is_kept_single() {
    let src = "when (Mode)\n{\n\tis (Off)\n\t{\n\t\tx = 1;\n\t}\n}\n\ny = 2;\n";
    let out = idempotent(src, &FormatOptions::default());
    assert!(out.contains("}\n\ny = 2;"));
    assert!(!out.contains("}\n\n\ny = 2;"));
}

#[test]
fn nested_when_inside_if_gets_no_blank() {
    let src = "if (a)\n{\n\twhen (Mode)\n\t{\n\t\tis (Off)\n\t\t{\n\t\t\tx = 1;\n\t\t}\n\t}\n\ty = 2;\n}\n";
    let out = idempotent(src, &FormatOptions::default());
    assert!(!out.contains("\t}\n\n\ty = 2;"), "no blank for nested when:\n{out}");
}

#[test]
fn blank_after_when_in_kr_style() {
    let opts = FormatOptions { brace_style: BraceStyle::Kr, ..Default::default() };
    let src = "when (Mode)\n{\n\tis (Off)\n\t{\n\t\tx = 1;\n\t}\n}\ny = 2;\n";
    let out = idempotent(src, &opts);
    assert!(out.contains("}\n\ny = 2;"), "K&R too:\n{out}");
}

#[test]
fn stray_close_brace_in_comment_does_not_split_when_block() {
    let src = "when (Mode)\n{\n\tis (Off)\n\t{\n\t\t// disabled: extra closing }\n\t\tx = 1;\n\t}\n}\ny = 2;\n";
    let out = idempotent(src, &FormatOptions::default());
    assert!(!out.contains("\t}\n\n}"), "spurious blank inserted inside when block:\n{out}");
    assert!(out.contains("}\n\ny = 2;"), "blank line missing after when block:\n{out}");
}

#[test]
fn stray_open_brace_in_comment_still_gets_blank_after_when() {
    let src = "when (Mode)\n{\n\tis (Off)\n\t{\n\t\t// opening brace { mentioned\n\t\tx = 1;\n\t}\n}\ny = 2;\n";
    let out = idempotent(src, &FormatOptions::default());
    assert!(out.contains("}\n\ny = 2;"), "blank line missing after when block:\n{out}");
}

#[test]
fn brace_in_string_literal_does_not_corrupt_depth() {
    let src = "when (Mode)\n{\n\tis (Off)\n\t{\n\t\tName = \"close } here\";\n\t}\n}\ny = 2;\n";
    let out = idempotent(src, &FormatOptions::default());
    assert!(!out.contains("\t}\n\n}"), "spurious blank inserted inside when block:\n{out}");
    assert!(out.contains("}\n\ny = 2;"), "blank line missing after when block:\n{out}");
}

#[test]
fn comment_ending_in_brace_is_not_a_block_opener() {
    let src = "x = 1;\n// some comment ending in a brace {\n\ny = 2;\n";
    let out = idempotent(src, &FormatOptions::default());
    assert!(out.contains("brace {\n\ny = 2;"), "author blank after comment was deleted:\n{out}");
}

fn align_opts() -> FormatOptions {
    FormatOptions { align_assignments: true, ..Default::default() }
}

#[test]
fn aligns_a_simple_run() {
    let src = "A = 1;\nLong Name = 2;\nMid = 3;\n";
    let out = idempotent(src, &align_opts());
    assert_eq!(out, "A         = 1;\nLong Name = 2;\nMid       = 3;\n");
}

#[test]
fn off_by_default() {
    let src = "A = 1;\nLong Name = 2;\n";
    let out = fmt(src);
    assert_eq!(out, src, "no alignment without the opt-in");
}

#[test]
fn blank_line_breaks_the_group() {
    let src = "A = 1;\nLong Name = 2;\n\nB = 3;\nC = 4;\n";
    let out = idempotent(src, &align_opts());
    assert!(out.contains("A         = 1;"));
    assert!(out.contains("\nB = 3;"), "second group aligns separately:\n{out}");
}

#[test]
fn compound_assignment_is_not_aligned() {
    let src = "A = 1;\nLong Name += 2;\nB = 3;\n";
    let out = idempotent(src, &align_opts());
    assert!(out.contains("Long Name += 2;"), "compound untouched:\n{out}");
    assert!(out.contains("A = 1;") || out.contains("A  = 1;"));
}

#[test]
fn indented_groups_align_within_their_block() {
    let src = "if (a)\n{\n\tX = 1;\n\tLonger = 2;\n}\n";
    let out = idempotent(src, &align_opts());
    assert!(out.contains("\tX      = 1;\n\tLonger = 2;"), "block-scoped alignment:\n{out}");
}

#[test]
fn group_that_would_overflow_is_left_alone() {
    let long_lhs = "L".repeat(80);
    let src = format!("{long_lhs} = 1;\nA = 22222;\n");
    let out = idempotent(&src, &align_opts());
    assert!(out.contains("\nA = 22222;"), "overflow group skipped:\n{out}");
}

fn reflow_opts() -> FormatOptions {
    FormatOptions { reflow_comments: true, ..Default::default() }
}

#[test]
fn splits_an_over_width_line_comment() {
    let long = format!("// {}\nx = 1;\n", "word ".repeat(30).trim_end());
    let out = idempotent(&long, &reflow_opts());
    for line in out.lines() {
        assert!(line.chars().count() <= 88, "still over width: {line:?}");
    }
    assert!(out.matches("// ").count() >= 2, "split into several:\n{out}");
}

#[test]
fn short_comment_lines_are_never_joined() {
    let src = "// one\n// two\nx = 1;\n";
    let out = idempotent(src, &reflow_opts());
    assert!(out.contains("// one\n// two\n"), "no joining:\n{out}");
}

#[test]
fn annotation_comments_are_never_split() {
    let ann = format!("// @m1:allow(L001) {}\nx = 1;\n", "padding ".repeat(20).trim_end());
    let out = fmt_opts(&ann, &reflow_opts());
    assert_eq!(out.lines().filter(|l| l.contains("@m1:allow")).count(), 1, "annotation must stay on one line:\n{out}");
}

#[test]
fn reflow_off_by_default() {
    let long = format!("// {}\nx = 1;\n", "word ".repeat(30).trim_end());
    let out = fmt(&long);
    assert_eq!(out.lines().filter(|l| l.starts_with("// ")).count(), 1, "no reflow without the opt-in");
}

// ---------------------------------------------------------------------------
// More layouts and laws on concrete values
// ---------------------------------------------------------------------------

#[test]
fn max_blank_lines_collapses_runs() {
    let one = FormatOptions { max_blank_lines: 1, ..Default::default() };
    assert_eq!(fmt_opts("a = 1;\n\n\n\nb = 2;\n", &one), "a = 1;\n\nb = 2;\n");
    let none = FormatOptions { max_blank_lines: 0, ..Default::default() };
    assert_eq!(fmt_opts("a = 1;\n\n\n\nb = 2;\n", &none), "a = 1;\nb = 2;\n");
    assert_eq!(fmt("a = 1;\n\n\n\n\nb = 2;\n"), "a = 1;\n\n\nb = 2;\n");
}

#[test]
fn long_line_warning_reports_width_and_column() {
    let name = "x".repeat(90);
    let r = format_with(&format!("local {name} = 1;\n"), &FormatOptions::default());
    assert_eq!(r.warnings.len(), 1);
    let w = &r.warnings[0];
    assert_eq!(w.line, 1);
    assert_eq!(w.col, 89);
    assert_eq!(w.message, "line is 101 characters (max 88)");
}

#[test]
fn expand_statement_layout() {
    let out = fmt("expand (i=1 to 6) { x = i; }\n");
    assert_eq!(out, "expand (i = 1 to 6)\n{\n\tx = i;\n}\n");
}

#[test]
fn when_and_is_clauses_in_kr_style() {
    let opts = FormatOptions { brace_style: BraceStyle::Kr, ..Default::default() };
    let out = fmt_opts("when (Mode) { is (Off) { x = 1; } is (On) { x = 2; } }\n", &opts);
    assert_eq!(out, "when (Mode) {\n\tis (Off) {\n\t\tx = 1;\n\t}\n\tis (On) {\n\t\tx = 2;\n\t}\n}\n");
}

#[test]
fn trailing_comment_on_an_is_clause_stays_on_its_line() {
    let out = fmt("when (Mode)\n{\n\tis (Off)\n\t{\n\t\tx = 1;\n\t} // idle\n}\n");
    assert!(out.contains("\t}  // idle\n}"), "{out}");
}

#[test]
fn operators_and_keywords_are_spaced() {
    assert_eq!(fmt("x=not a and b  ==  -c;\n"), "x = not a and b == -c;\n");
    assert_eq!(fmt("x+=Foo.Bar( 1 ,2 );\n"), "x += Foo.Bar(1, 2);\n");
    assert_eq!(fmt("local <Integer> n=( a+b )*2;\n"), "local <Integer> n = (a + b) * 2;\n");
    assert_eq!(fmt("x = c ? 1 : 2;\n"), "x = c ? 1 : 2;\n");
}

#[test]
fn else_if_chain_in_kr_style() {
    let opts = FormatOptions { brace_style: BraceStyle::Kr, ..Default::default() };
    let out = fmt_opts("if (a) { x = 1; } else if (b) { x = 2; } else { x = 3; }\n", &opts);
    assert_eq!(out, "if (a) {\n\tx = 1;\n} else if (b) {\n\tx = 2;\n} else {\n\tx = 3;\n}\n");
}

#[test]
fn comments_keep_their_blank_lines_and_order() {
    let src = "// head\n\n\nx = 1;\n/* tail\n */\n";
    assert_eq!(fmt(src), "// head\n\n\nx = 1;\n/* tail\n */\n");
}

#[test]
fn comment_before_closing_brace_stays_inside_the_block() {
    let out = fmt("if (a)\n{\nx = 1;\n// last\n}\n");
    assert_eq!(out, "if (a)\n{\n\tx = 1;\n\t// last\n}\n");
}

#[test]
fn final_blank_line_with_reflow_and_alignment() {
    let opts = FormatOptions {
        final_blank_line: true,
        align_assignments: true,
        reflow_comments: true,
        ..Default::default()
    };
    let out = fmt_opts("A = 1;\nLong = 2;\n", &opts);
    assert_eq!(out, "A    = 1;\nLong = 2;\n\n");
}

#[test]
fn long_assignment_without_break_point_breaks_after_equals() {
    let src = "Driveline.Accumulator.BMS Version = DBC.BMU.ExtendedPackStatus.BmuHardwareVersion.GetUnsignedInteger();\n";
    let result = format_with(src, &FormatOptions::default());
    assert_eq!(
        result.output,
        "Driveline.Accumulator.BMS Version =\n\tDBC.BMU.ExtendedPackStatus.BmuHardwareVersion.GetUnsignedInteger();\n",
        "got:\n{}",
        result.output
    );
    assert!(result.warnings.is_empty(), "unexpected warnings: {:?}", result.warnings);
    assert_eq!(fmt(&result.output), result.output, "not idempotent");
}

#[test]
fn wrappable_value_is_not_broken_after_equals() {
    let src = "x = Compute(argumentNumberOne, argumentNumberTwo, argumentNumberThree, argumentNumberFour, five);\n";
    let out = fmt(src);
    assert!(out.starts_with("x = Compute(argumentNumberOne,"), "{out}");
    assert_eq!(fmt(&out), out, "not idempotent");
}

#[test]
fn range_format_snaps_to_the_inner_statement() {
    let src = "when (Mode)\n{\n\tis (Off)\n\t{\n\t\tx=1   ;\n\t\ty   =2;\n\t}\n}\n";
    let r = range(src, 4, 4, &FormatOptions::default()).expect("range must format");
    assert_eq!(r.start_line, 4);
    assert_eq!(r.end_line, 4);
    assert_eq!(r.output, "\t\tx = 1;\n", "re-indented inner statement");
}

#[test]
fn nested_range_respects_width_after_reindent() {
    let long_rhs = "Aaaa + ".repeat(12);
    let src = format!("when (Mode)\n{{\n\tis (Off)\n\t{{\n\t\tTarget Channel = {}Bbbb;\n\t}}\n}}\n", long_rhs);
    let r = range(&src, 4, 4, &FormatOptions::default()).expect("range must format");
    for line in r.output.lines() {
        let cols: usize = line.chars().map(|c| if c == '\t' { 4 } else { 1 }).sum();
        assert!(cols <= 88, "re-indented line over budget ({cols}): {line:?}");
    }
}

#[test]
fn inner_range_in_an_if_block_keeps_its_indentation() {
    let src = "if (a)\n{\n\tx=1;\n\ty=2;\n}\n";
    let r = range(src, 2, 3, &FormatOptions::default()).expect("range must format");
    assert_eq!((r.start_line, r.end_line), (2, 3));
    assert_eq!(r.output, "\tx = 1;\n\ty = 2;\n");
    let spaces = FormatOptions { indent_style: IndentStyle::Spaces, ..Default::default() };
    let r = range(src, 3, 3, &spaces).expect("range must format");
    assert_eq!(r.output, "    y = 2;\n");
}

#[test]
fn collect_trivia_finds_comments() {
    let cst = parse("// header\nx = 1;\n");
    let trivia = m1_fmt::trivia::collect_trivia(&cst);
    assert_eq!(trivia.len(), 1);
    assert_eq!(trivia[0].text, "// header");
    assert_eq!(trivia[0].source_line, 0);
}

#[test]
fn collect_trivia_eol_comment() {
    let cst = parse("x = 1; // note\n");
    let trivia = m1_fmt::trivia::collect_trivia(&cst);
    assert_eq!(trivia.len(), 1);
    assert_eq!(trivia[0].source_line, 0);
}

#[test]
fn collect_trivia_orders_comments_by_offset() {
    let cst = parse("/* a */ x = 1; // b\n// c\n");
    let trivia = m1_fmt::trivia::collect_trivia(&cst);
    let texts: Vec<&str> = trivia.iter().map(|t| t.text.as_str()).collect();
    assert_eq!(texts, vec!["/* a */", "// b", "// c"]);
    assert!(trivia.windows(2).all(|w| w[0].byte_offset <= w[1].byte_offset));
}

// ---------------------------------------------------------------------------
// Only whitespace moves
// ---------------------------------------------------------------------------

fn non_ws(s: &str) -> String {
    s.chars().filter(|c| !c.is_whitespace()).collect()
}

#[test]
fn formatting_moves_only_whitespace() {
    for src in [
        "local x=1;\nif(a>b){y=f(1,2,3);}else if(c){z=-d;}\n",
        "when (Mode) { is (Off) { x = not a ? 1 : 2; } }\nexpand (i=1 to 6) { v.w = (i + 1) * 2; }\n",
        "static local <Integer> n = Outer.Compute(Inner.Deep(aaaaaaaaaaaaaaaaaaaa, bbbbbbbbbbbbbbbbbbbbbbbbbbbb, cccccccccccccccccccccccccc, dddddddddd));\n",
        "// head\nx = 1; // tail\n/* block\n   more */\ny += 2;\n",
    ] {
        let out = fmt(src);
        assert_eq!(non_ws(&out), non_ws(src), "tokens changed for {src:?}:\n{out}");
        let aligned = fmt_opts(src, &FormatOptions { align_assignments: true, ..Default::default() });
        assert_eq!(non_ws(&aligned), non_ws(src));
    }
}

#[test]
fn a_comment_inside_a_statement_moves_but_is_kept() {
    let src = "x = a /* c */ + b;\ny = 2;\n";
    let out = fmt(src);
    assert_eq!(out, "x = a + b;\n/* c */\ny = 2;\n");
    let mut got: Vec<char> = non_ws(&out).chars().collect();
    let mut want: Vec<char> = non_ws(src).chars().collect();
    got.sort();
    want.sort();
    assert_eq!(got, want);
}

#[test]
fn decode_preserving_bom_restores_a_stripped_bom() {
    let bytes = b"\xEF\xBB\xBFlocal x=1;\n".to_vec();
    assert!(m1_fmt::starts_with_bom(&bytes));
    // The decoder drops the mark; it is put back.
    let decoded = m1_fmt::keep_bom(true, "local x=1;\n".to_string());
    assert_eq!(decoded, "\u{FEFF}local x=1;\n");
    // A mark the decoder kept is not doubled.
    assert_eq!(m1_fmt::keep_bom(true, "\u{FEFF}x".to_string()), "\u{FEFF}x");
}

#[test]
fn decode_preserving_bom_leaves_bom_less_input_untouched() {
    let bytes = b"local x=1;\n".to_vec();
    assert!(!m1_fmt::starts_with_bom(&bytes));
    assert_eq!(m1_fmt::keep_bom(false, "local x=1;\n".to_string()), "local x=1;\n");
}

#[test]
fn reflow_keeps_the_code_and_adds_only_comment_markers() {
    let src = format!("x=1;\n// {}\ny = f(a,b);\n", "word ".repeat(30).trim_end());
    let out = fmt_opts(&src, &reflow_opts());
    assert!(out.matches("// ").count() >= 2, "split into several:\n{out}");
    let strip = |s: &str| non_ws(s).chars().filter(|c| *c != '/').collect::<String>();
    assert_eq!(strip(&out), strip(&src));
    let added = non_ws(&out).len() - non_ws(&src).len();
    assert_eq!(added, 2 * (out.matches("// ").count() - 1));
}

#[test]
fn bom_stays_in_front_of_the_same_tokens() {
    let src = "\u{FEFF}x=1;// c\ny  =  2;\n";
    let out = fmt(src);
    assert!(out.starts_with('\u{FEFF}'));
    assert_eq!(non_ws(&out), non_ws(src));
}

#[test]
fn output_depends_on_the_tree_not_the_layout() {
    let a = fmt("x=1;\ny=f(a,b);\n");
    let b = fmt("x =   1 ;\ny = f( a , b ) ;\n");
    assert_eq!(a, b);
}

#[test]
fn crlf_with_bom_and_off_region_is_the_lf_output_with_crlf() {
    let lf = "\u{FEFF}x=1;\n// @m1:fmt(off)\ny   =   2;\n// @m1:fmt(on)\nz=3;\n";
    let crlf = lf.replace('\n', "\r\n");
    assert_eq!(fmt(&crlf), fmt(lf).replace('\n', "\r\n"));
}

#[test]
fn formatting_the_output_again_keeps_it() {
    let once = format_with("x=1;\n\n\n\ny = f(a,b);\n", &FormatOptions::default());
    let twice = format_with(&once.output, &FormatOptions::default());
    assert_eq!(twice.output, once.output);
    assert!(!twice.changed);
}
