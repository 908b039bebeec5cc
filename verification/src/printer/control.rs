//! Control-flow and block printing for the [`Printer`](super::Printer):
//! brace placement (Allman / K&R), blocks, and the `if` / `else` / `when` /
//! `is` / `expand` constructs.

use vstd::prelude::*;
use super::infra::{eol_st, inject_st};
use super::statements::{expr_st, ind_st, stmt_lines_st};
use super::{Cfg, Printer, St, app, geom_of, indent_text};
use crate::cst::{Kind, Node, is_comment, kind_is_comment};
use crate::text::{chars_of, sat_add};
use crate::BraceStyle;

verus! {

/// The first child of kind `k`, if any.
pub open spec fn child_of_kind(items: Seq<Node>, k: Kind) -> Option<Node>
    decreases items.len(),
{
    if items.len() == 0 {
        None
    } else if items[0].kind == k {
        Some(items[0])
    } else {
        child_of_kind(items.drop_first(), k)
    }
}

/// The next pending comment starts before offset `b`.
pub open spec fn pending_before(s: St, c: Cfg, b: usize) -> bool {
    0 <= s.tpos < c.trivia.len() && c.trivia[s.tpos].byte_offset < b
}

/// The opening brace: a bare block's `{` at the cursor; an attached block's
/// on its own line (Allman) or after a space (K&R).
pub open spec fn open_st(s: St, c: Cfg, attached: bool) -> St {
    if !attached {
        app(s, seq!['{'])
    } else {
        match c.brace {
            BraceStyle::Allman => app(s, seq!['\n'] + indent_text(geom_of(s, c)) + seq!['{']),
            BraceStyle::Kr => app(s, seq![' ', '{']),
        }
    }
}

/// A line break, the comments before offset `b` on their own lines (with
/// no blank line between the opener and the first of them), then `tok` on
/// its own line at the indentation.
pub open spec fn lead_then_st(s: St, c: Cfg, b: usize, tok: Seq<char>) -> St {
    let s1 = app(s, seq!['\n']);
    let s2 = if 0 <= s1.tpos < c.trivia.len() {
        St { prev: Some(c.trivia[s1.tpos].source_line), ..s1 }
    } else {
        s1
    };
    app(ind_st(inject_st(s2, c, b), c), tok)
}

/// Width kept free after an `if` condition: `)` under Allman, `) {` under
/// K&R.
pub open spec fn paren_reserve(b: BraceStyle) -> usize {
    match b {
        BraceStyle::Allman => 1,
        BraceStyle::Kr => 3,
    }
}

pub open spec fn sat_sub(a: usize, b: usize) -> usize {
    if a >= b {
        (a - b) as usize
    } else {
        0
    }
}

/// A `{ ... }` block: the opening brace (after any comments that precede
/// it, when attached), the statements one level deeper, the comments left
/// before the `}`, and the `}` at the block's own indentation. Blank lines
/// inside are measured from the opening line, and after it from the `}` line.
pub open spec fn block_st(s: St, c: Cfg, n: Node, attached: bool) -> St
    decreases n, 3int,
{
    let lb = child_of_kind(n.children@, Kind::LBrace);
    let rb = child_of_kind(n.children@, Kind::RBrace);
    let s1 = if attached && lb is Some && pending_before(s, c, lb.unwrap().start) {
        lead_then_st(s, c, lb.unwrap().start, seq!['{'])
    } else {
        open_st(s, c, attached)
    };
    let s2 = St { indent: sat_add(s.indent, 1), prev: Some(n.start_line), ..app(s1, seq!['\n']) };
    let s3 = stmt_lines_st(s2, c, n.children@, true);
    let s4 = match rb {
        Some(r) => inject_st(s3, c, r.start),
        None => s3,
    };
    let s5 = app(ind_st(St { indent: s.indent, ..s4 }, c), seq!['}']);
    match rb {
        Some(r) => St { prev: Some(r.start_line), ..s5 },
        None => s5,
    }
}

/// A block hands the indentation back as it found it, and ends with its
/// closing brace.
pub proof fn block_restores_indent(s: St, c: Cfg, n: Node, attached: bool)
    ensures
        block_st(s, c, n, attached).indent == s.indent,
        block_st(s, c, n, attached).out.len() > 0,
        block_st(s, c, n, attached).out.last() == '}',
{
    let lb = child_of_kind(n.children@, Kind::LBrace);
    let rb = child_of_kind(n.children@, Kind::RBrace);
    let s1 = if attached && lb is Some && pending_before(s, c, lb.unwrap().start) {
        lead_then_st(s, c, lb.unwrap().start, seq!['{'])
    } else {
        open_st(s, c, attached)
    };
    let s2 = St { indent: sat_add(s.indent, 1), prev: Some(n.start_line), ..app(s1, seq!['\n']) };
    let s3 = stmt_lines_st(s2, c, n.children@, true);
    let s4 = match rb {
        Some(r) => inject_st(s3, c, r.start),
        None => s3,
    };
    let s5 = app(ind_st(St { indent: s.indent, ..s4 }, c), seq!['}']);
    assert(s5.out.last() == '}');
    assert(block_st(s, c, n, attached).out == s5.out);
}

/// `if (condition)` with its block and else clause; the condition is laid
/// out with the width of what follows it on the line held back.
pub open spec fn if_st(s: St, c: Cfg, n: Node) -> St
    decreases n, 3int,
{
    if_items_st(app(s, seq!['i', 'f', ' ', '(']), c, n.children@, false)
}

pub open spec fn cond_st(s: St, c: Cfg, ch: Node) -> St {
    let s1 = expr_st(St { width: sat_sub(s.width, paren_reserve(c.brace)), ..s }, c, ch);
    St { width: s.width, ..s1 }
}

pub open spec fn if_item_st(s: St, c: Cfg, ch: Node, seen_lparen: bool) -> St
    decreases ch, 4int,
{
    if ch.kind == Kind::If || ch.kind == Kind::LParen || is_comment(ch.kind) {
        s
    } else if ch.kind == Kind::RParen {
        app(s, seq![')'])
    } else if ch.kind == Kind::Block {
        block_st(s, c, ch, true)
    } else if ch.kind == Kind::ElseClause {
        else_st(s, c, ch)
    } else if seen_lparen {
        cond_st(s, c, ch)
    } else {
        s
    }
}

pub open spec fn if_items_st(s: St, c: Cfg, items: Seq<Node>, seen_lparen: bool) -> St
    decreases items, 0int,
{
    if items.len() == 0 {
        s
    } else {
        if_items_st(
            if_item_st(s, c, items[0], seen_lparen),
            c,
            items.drop_first(),
            seen_lparen || items[0].kind == Kind::LParen,
        )
    }
}

/// `else` and its block or `if`: on a new line under Allman, after `} `
/// under K&R, and on its own line after any comment that precedes it.
pub open spec fn else_st(s: St, c: Cfg, n: Node) -> St
    decreases n, 3int,
{
    let es = match child_of_kind(n.children@, Kind::Else) {
        Some(e) => e.start,
        None => n.start,
    };
    let s1 = if pending_before(s, c, es) {
        lead_then_st(s, c, es, seq!['e', 'l', 's', 'e'])
    } else {
        match c.brace {
            BraceStyle::Allman => app(
                s,
                seq!['\n'] + indent_text(geom_of(s, c)) + seq!['e', 'l', 's', 'e'],
            ),
            BraceStyle::Kr => app(s, seq![' ', 'e', 'l', 's', 'e']),
        }
    };
    else_items_st(s1, c, n.children@)
}

pub open spec fn else_item_st(s: St, c: Cfg, ch: Node) -> St
    decreases ch, 4int,
{
    if ch.kind == Kind::Block {
        block_st(s, c, ch, true)
    } else if ch.kind == Kind::IfStatement {
        if_st(app(s, seq![' ']), c, ch)
    } else {
        s
    }
}

pub open spec fn else_items_st(s: St, c: Cfg, items: Seq<Node>) -> St
    decreases items, 0int,
{
    if items.len() == 0 {
        s
    } else {
        else_items_st(else_item_st(s, c, items[0]), c, items.drop_first())
    }
}

/// `when (subject) { is-clauses }`.
pub open spec fn when_st(s: St, c: Cfg, n: Node) -> St
    decreases n, 3int,
{
    let rb = child_of_kind(n.children@, Kind::RBrace);
    let s1 = when_items_st(
        app(s, seq!['w', 'h', 'e', 'n', ' ', '(']),
        c,
        n.children@,
        false,
        false,
    );
    let s2 = match rb {
        Some(r) => inject_st(s1, c, r.start),
        None => s1,
    };
    app(ind_st(St { indent: s.indent, ..s2 }, c), seq!['}'])
}

pub open spec fn when_item_st(s: St, c: Cfg, ch: Node, seen_lparen: bool, in_body: bool) -> St
    decreases ch, 4int,
{
    if ch.kind == Kind::When || ch.kind == Kind::LParen || ch.kind == Kind::RBrace || is_comment(
        ch.kind,
    ) {
        s
    } else if ch.kind == Kind::RParen {
        app(s, seq![')'])
    } else if ch.kind == Kind::LBrace {
        let s1 = if pending_before(s, c, ch.start) {
            lead_then_st(s, c, ch.start, seq!['{'])
        } else {
            open_st(s, c, true)
        };
        St { indent: sat_add(s1.indent, 1), ..app(s1, seq!['\n']) }
    } else if ch.kind == Kind::IsClause {
        is_st(s, c, ch)
    } else if seen_lparen && !in_body {
        expr_st(s, c, ch)
    } else {
        s
    }
}

pub open spec fn when_items_st(
    s: St,
    c: Cfg,
    items: Seq<Node>,
    seen_lparen: bool,
    in_body: bool,
) -> St
    decreases items, 0int,
{
    if items.len() == 0 {
        s
    } else {
        when_items_st(
            when_item_st(s, c, items[0], seen_lparen, in_body),
            c,
            items.drop_first(),
            seen_lparen || items[0].kind == Kind::LParen,
            in_body || items[0].kind == Kind::LBrace,
        )
    }
}

/// `is (state)` and its block, on its own line after the comments before
/// it, with its trailing comment.
pub open spec fn is_st(s: St, c: Cfg, n: Node) -> St
    decreases n, 3int,
{
    let s1 = app(ind_st(inject_st(s, c, n.start), c), seq!['i', 's', ' ', '(']);
    let s2 = is_items_st(s1, c, n.children@, false);
    app(eol_st(s2, c, n.end_line, n.end, usize::MAX), seq!['\n'])
}

pub open spec fn is_item_st(s: St, c: Cfg, ch: Node, seen_lparen: bool) -> St
    decreases ch, 4int,
{
    if ch.kind == Kind::Is || ch.kind == Kind::LParen || is_comment(ch.kind) {
        s
    } else if ch.kind == Kind::RParen {
        app(s, seq![')'])
    } else if ch.kind == Kind::Block {
        block_st(s, c, ch, true)
    } else if seen_lparen {
        expr_st(s, c, ch)
    } else {
        s
    }
}

pub open spec fn is_items_st(s: St, c: Cfg, items: Seq<Node>, seen_lparen: bool) -> St
    decreases items, 0int,
{
    if items.len() == 0 {
        s
    } else {
        is_items_st(
            is_item_st(s, c, items[0], seen_lparen),
            c,
            items.drop_first(),
            seen_lparen || items[0].kind == Kind::LParen,
        )
    }
}

/// `expand (variable = start to end)` and its block.
pub open spec fn expand_st(s: St, c: Cfg, n: Node) -> St
    decreases n, 3int,
{
    expand_items_st(
        app(s, seq!['e', 'x', 'p', 'a', 'n', 'd', ' ', '(']),
        c,
        n.children@,
        false,
        false,
    )
}

/// A child of an `expand` that is one of its three operands.
pub open spec fn expand_operand(k: Kind) -> bool {
    !(k == Kind::Expand || k == Kind::LParen || k == Kind::Assign || k == Kind::To || k
        == Kind::RParen || k == Kind::Block || is_comment(k))
}

pub open spec fn expand_item_st(s: St, c: Cfg, ch: Node, seen_lparen: bool, var_done: bool) -> St
    decreases ch, 4int,
{
    if ch.kind == Kind::Expand || ch.kind == Kind::LParen || is_comment(ch.kind) {
        s
    } else if ch.kind == Kind::Assign {
        app(s, seq![' ', '=', ' '])
    } else if ch.kind == Kind::To {
        app(s, seq![' ', 't', 'o', ' '])
    } else if ch.kind == Kind::RParen {
        app(s, seq![')'])
    } else if ch.kind == Kind::Block {
        block_st(s, c, ch, true)
    } else if ch.kind == Kind::Identifier && seen_lparen && !var_done {
        app(s, ch.text@)
    } else if seen_lparen {
        expr_st(s, c, ch)
    } else {
        s
    }
}

pub open spec fn expand_items_st(
    s: St,
    c: Cfg,
    items: Seq<Node>,
    seen_lparen: bool,
    var_done: bool,
) -> St
    decreases items, 0int,
{
    if items.len() == 0 {
        s
    } else {
        expand_items_st(
            expand_item_st(s, c, items[0], seen_lparen, var_done),
            c,
            items.drop_first(),
            seen_lparen || items[0].kind == Kind::LParen,
            var_done || (seen_lparen && expand_operand(items[0].kind)),
        )
    }
}

impl Printer {
    /// Index of the first child of kind `k`.
    pub fn find_child_of_kind(items: &Vec<Node>, k: Kind) -> (r: Option<usize>)
        ensures
            match r {
                Some(i) => i < items.len() && child_of_kind(items@, k) == Some(items@[i as int]),
                None => child_of_kind(items@, k) is None,
            },
    {
        let mut i: usize = 0;
        assert(items@.skip(0) =~= items@);
        while i < items.len()
            invariant
                i <= items.len(),
                child_of_kind(items@, k) == child_of_kind(items@.skip(i as int), k),
            decreases items.len() - i,
        {
            assert(items@.skip(i as int)[0] == items@[i as int]);
            assert(items@.skip(i as int).drop_first() =~= items@.skip(i + 1));
            if items[i].kind == k {
                return Some(i);
            }
            i += 1;
        }
        None
    }

    /// Whether the next pending comment starts before offset `b`.
    pub fn has_pending_before(&self, b: usize) -> (r: bool)
        requires
            self.wf(),
        ensures
            r == pending_before(self.st(), self.cfg(), b),
    {
        self.tpos < self.trivia.len() && self.trivia[self.tpos].byte_offset < b
    }

    /// The opening brace of a block (see [`open_st`]).
    pub fn emit_block_open(&mut self, attached: bool)
        ensures
            final(self).st() == open_st(old(self).st(), old(self).cfg(), attached),
            final(self).cfg() == old(self).cfg(),
    {
        if !attached {
            self.emit_char('{');
            return;
        }
        match self.brace_style {
            BraceStyle::Allman => {
                self.emit_newline();
                self.emit_indent();
                self.emit_char('{');
                assert(self.output@ =~= old(self).output@ + (seq!['\n'] + indent_text(
                    old(self).geom(),
                ) + seq!['{']));
            },
            BraceStyle::Kr => {
                self.emit_char(' ');
                self.emit_char('{');
                assert(self.output@ =~= old(self).output@ + seq![' ', '{']);
            },
        }
    }

    /// Flush the comments that sit between an opener and `token` (an opening
    /// brace or `else`), then put `token` on its own line.
    pub fn flush_leading_comment_then(&mut self, before_byte: usize, token: &[char])
        requires
            old(self).wf(),
        ensures
            final(self).st() == lead_then_st(old(self).st(), old(self).cfg(), before_byte, token@),
            final(self).cfg() == old(self).cfg(),
            final(self).wf(),
    {
        self.emit_newline();
        if self.tpos < self.trivia.len() {
            self.prev_end_line = Some(self.trivia[self.tpos].source_line);
        }
        self.flush_trivia_before(before_byte);
        self.emit_indent();
        self.emit(token);
    }

    pub fn close_paren_reserve(&self) -> (r: usize)
        ensures
            r == paren_reserve(self.brace_style),
    {
        match self.brace_style {
            BraceStyle::Allman => 1,
            BraceStyle::Kr => 3,
        }
    }

    /// A `{ ... }` block (see [`block_st`]); the cursor is left after `}`.
    pub fn print_block(&mut self, n: &Node, attached: bool)
        requires
            old(self).wf(),
        ensures
            final(self).st() == block_st(old(self).st(), old(self).cfg(), *n, attached),
            final(self).cfg() == old(self).cfg(),
            final(self).wf(),
        decreases n, 3int,
    {
        let saved = self.indent;
        let lb = Self::find_child_of_kind(&n.children, Kind::LBrace);
        let rb = Self::find_child_of_kind(&n.children, Kind::RBrace);
        let lead = match lb {
            Some(i) => attached && self.has_pending_before(n.children[i].start),
            None => false,
        };
        if lead {
            let i = lb.unwrap();
            let t = ['{'];
            assert(t@ =~= seq!['{']);
            self.flush_leading_comment_then(n.children[i].start, t.as_slice());
        } else {
            self.emit_block_open(attached);
        }
        self.emit_newline();
        self.indent = saved.saturating_add(1);
        self.prev_end_line = Some(n.start_line);
        self.print_statement_lines(&n.children, true);
        if let Some(i) = rb {
            self.flush_trivia_before(n.children[i].start);
        }
        self.indent = saved;
        self.emit_indent();
        self.emit_char('}');
        if let Some(i) = rb {
            self.prev_end_line = Some(n.children[i].start_line);
        }
    }

    pub fn print_if(&mut self, n: &Node)
        requires
            old(self).wf(),
        ensures
            final(self).st() == if_st(old(self).st(), old(self).cfg(), *n),
            final(self).cfg() == old(self).cfg(),
            final(self).wf(),
        decreases n, 3int,
    {
        let t = ['i', 'f', ' ', '('];
        assert(t@ =~= seq!['i', 'f', ' ', '(']);
        self.emit(t.as_slice());
        self.print_if_items(&n.children);
    }

    fn print_if_items(&mut self, items: &Vec<Node>)
        requires
            old(self).wf(),
        ensures
            final(self).st() == if_items_st(old(self).st(), old(self).cfg(), items@, false),
            final(self).cfg() == old(self).cfg(),
            final(self).wf(),
        decreases items@, 0int,
    {
        let ghost c = self.cfg();
        let ghost s0 = self.st();
        let mut i: usize = 0;
        let mut seen_lparen = false;
        assert(items@.skip(0) =~= items@);
        while i < items.len()
            invariant
                i <= items.len(),
                self.wf(),
                self.cfg() == c,
                if_items_st(s0, c, items@, false) == if_items_st(
                    self.st(),
                    c,
                    items@.skip(i as int),
                    seen_lparen,
                ),
            decreases items.len() - i,
        {
            assert(items@.skip(i as int)[0] == items@[i as int]);
            assert(items@.skip(i as int).drop_first() =~= items@.skip(i + 1));
            proof {
                reveal_with_fuel(if_items_st, 2);
            }
            let ch = &items[i];
            let k = ch.kind;
            if k == Kind::If || k == Kind::LParen || kind_is_comment(k) {
            } else if k == Kind::RParen {
                self.emit_char(')');
            } else if k == Kind::Block {
                self.print_block(ch, true);
            } else if k == Kind::ElseClause {
                self.print_else_clause(ch);
            } else if seen_lparen {
                let saved = self.width;
                self.width = self.width.saturating_sub(self.close_paren_reserve());
                self.print_expr(ch);
                self.width = saved;
            }
            if k == Kind::LParen {
                seen_lparen = true;
            }
            i += 1;
        }
    }

    pub fn print_else_clause(&mut self, n: &Node)
        requires
            old(self).wf(),
        ensures
            final(self).st() == else_st(old(self).st(), old(self).cfg(), *n),
            final(self).cfg() == old(self).cfg(),
            final(self).wf(),
        decreases n, 3int,
    {
        let es = match Self::find_child_of_kind(&n.children, Kind::Else) {
            Some(i) => n.children[i].start,
            None => n.start,
        };
        if self.has_pending_before(es) {
            let t = ['e', 'l', 's', 'e'];
            assert(t@ =~= seq!['e', 'l', 's', 'e']);
            self.flush_leading_comment_then(es, t.as_slice());
        } else {
            match self.brace_style {
                BraceStyle::Allman => {
                    self.emit_newline();
                    self.emit_indent();
                    let t = ['e', 'l', 's', 'e'];
                    self.emit(t.as_slice());
                    assert(self.output@ =~= old(self).output@ + (seq!['\n'] + indent_text(
                        old(self).geom(),
                    ) + seq!['e', 'l', 's', 'e']));
                },
                BraceStyle::Kr => {
                    let t = [' ', 'e', 'l', 's', 'e'];
                    self.emit(t.as_slice());
                    assert(t@ =~= seq![' ', 'e', 'l', 's', 'e']);
                },
            }
        }
        self.print_else_items(&n.children);
    }

    fn print_else_items(&mut self, items: &Vec<Node>)
        requires
            old(self).wf(),
        ensures
            final(self).st() == else_items_st(old(self).st(), old(self).cfg(), items@),
            final(self).cfg() == old(self).cfg(),
            final(self).wf(),
        decreases items@, 0int,
    {
        let ghost c = self.cfg();
        let ghost s0 = self.st();
        let mut i: usize = 0;
        assert(items@.skip(0) =~= items@);
        while i < items.len()
            invariant
                i <= items.len(),
                self.wf(),
                self.cfg() == c,
                else_items_st(s0, c, items@) == else_items_st(self.st(), c, items@.skip(i as int)),
            decreases items.len() - i,
        {
            assert(items@.skip(i as int)[0] == items@[i as int]);
            assert(items@.skip(i as int).drop_first() =~= items@.skip(i + 1));
            proof {
                reveal_with_fuel(else_items_st, 2);
            }
            let ch = &items[i];
            if ch.kind == Kind::Block {
                self.print_block(ch, true);
            } else if ch.kind == Kind::IfStatement {
                self.emit_char(' ');
                self.print_if(ch);
            }
            i += 1;
        }
    }

    pub fn print_when(&mut self, n: &Node)
        requires
            old(self).wf(),
        ensures
            final(self).st() == when_st(old(self).st(), old(self).cfg(), *n),
            final(self).cfg() == old(self).cfg(),
            final(self).wf(),
        decreases n, 3int,
    {
        let saved = self.indent;
        let t = ['w', 'h', 'e', 'n', ' ', '('];
        assert(t@ =~= seq!['w', 'h', 'e', 'n', ' ', '(']);
        self.emit(t.as_slice());
        let rb = Self::find_child_of_kind(&n.children, Kind::RBrace);
        self.print_when_items(&n.children);
        if let Some(i) = rb {
            self.flush_trivia_before(n.children[i].start);
        }
        self.indent = saved;
        self.emit_indent();
        self.emit_char('}');
    }

    fn print_when_items(&mut self, items: &Vec<Node>)
        requires
            old(self).wf(),
        ensures
            final(self).st() == when_items_st(old(self).st(), old(self).cfg(), items@, false, false),
            final(self).cfg() == old(self).cfg(),
            final(self).wf(),
        decreases items@, 0int,
    {
        let ghost c = self.cfg();
        let ghost s0 = self.st();
        let mut i: usize = 0;
        let mut seen_lparen = false;
        let mut in_body = false;
        assert(items@.skip(0) =~= items@);
        while i < items.len()
            invariant
                i <= items.len(),
                self.wf(),
                self.cfg() == c,
                when_items_st(s0, c, items@, false, false) == when_items_st(
                    self.st(),
                    c,
                    items@.skip(i as int),
                    seen_lparen,
                    in_body,
                ),
            decreases items.len() - i,
        {
            assert(items@.skip(i as int)[0] == items@[i as int]);
            assert(items@.skip(i as int).drop_first() =~= items@.skip(i + 1));
            proof {
                reveal_with_fuel(when_items_st, 2);
            }
            let ch = &items[i];
            let k = ch.kind;
            if k == Kind::When || k == Kind::LParen || k == Kind::RBrace || kind_is_comment(k) {
            } else if k == Kind::RParen {
                self.emit_char(')');
            } else if k == Kind::LBrace {
                if self.has_pending_before(ch.start) {
                    let t = ['{'];
                    assert(t@ =~= seq!['{']);
                    self.flush_leading_comment_then(ch.start, t.as_slice());
                } else {
                    self.emit_block_open(true);
                }
                self.emit_newline();
                self.indent = self.indent.saturating_add(1);
            } else if k == Kind::IsClause {
                self.print_is_clause(ch);
            } else if seen_lparen && !in_body {
                self.print_expr(ch);
            }
            if k == Kind::LParen {
                seen_lparen = true;
            }
            if k == Kind::LBrace {
                in_body = true;
            }
            i += 1;
        }
    }

    pub fn print_is_clause(&mut self, n: &Node)
        requires
            old(self).wf(),
        ensures
            final(self).st() == is_st(old(self).st(), old(self).cfg(), *n),
            final(self).cfg() == old(self).cfg(),
            final(self).wf(),
        decreases n, 3int,
    {
        let ghost c = self.cfg();
        let ghost s0 = self.st();
        self.inject_trivia_before(n.start);
        self.emit_indent_st();
        let t = ['i', 's', ' ', '('];
        assert(t@ =~= seq!['i', 's', ' ', '(']);
        self.emit_st(t.as_slice());
        let ghost s1 = self.st();
        assert(s1 == app(ind_st(inject_st(s0, c, n.start), c), seq!['i', 's', ' ', '(']));
        self.print_is_items(&n.children);
        let ghost s2 = self.st();
        assert(s2 == is_items_st(s1, c, n.children@, false));
        self.trailing_comment(n.end_line, n.end, usize::MAX);
        self.emit_newline();
    }

    fn print_is_items(&mut self, items: &Vec<Node>)
        requires
            old(self).wf(),
        ensures
            final(self).st() == is_items_st(old(self).st(), old(self).cfg(), items@, false),
            final(self).cfg() == old(self).cfg(),
            final(self).wf(),
        decreases items@, 0int,
    {
        let ghost c = self.cfg();
        let ghost s0 = self.st();
        let mut i: usize = 0;
        let mut seen_lparen = false;
        assert(items@.skip(0) =~= items@);
        while i < items.len()
            invariant
                i <= items.len(),
                self.wf(),
                self.cfg() == c,
                is_items_st(s0, c, items@, false) == is_items_st(
                    self.st(),
                    c,
                    items@.skip(i as int),
                    seen_lparen,
                ),
            decreases items.len() - i,
        {
            assert(items@.skip(i as int)[0] == items@[i as int]);
            assert(items@.skip(i as int).drop_first() =~= items@.skip(i + 1));
            proof {
                reveal_with_fuel(is_items_st, 2);
            }
            let ch = &items[i];
            let k = ch.kind;
            if k == Kind::Is || k == Kind::LParen || kind_is_comment(k) {
            } else if k == Kind::RParen {
                self.emit_char(')');
            } else if k == Kind::Block {
                self.print_block(ch, true);
            } else if seen_lparen {
                self.print_expr(ch);
            }
            if k == Kind::LParen {
                seen_lparen = true;
            }
            i += 1;
        }
    }

    pub fn print_expand(&mut self, n: &Node)
        requires
            old(self).wf(),
        ensures
            final(self).st() == expand_st(old(self).st(), old(self).cfg(), *n),
            final(self).cfg() == old(self).cfg(),
            final(self).wf(),
        decreases n, 3int,
    {
        let t = ['e', 'x', 'p', 'a', 'n', 'd', ' ', '('];
        assert(t@ =~= seq!['e', 'x', 'p', 'a', 'n', 'd', ' ', '(']);
        self.emit(t.as_slice());
        self.print_expand_items(&n.children);
    }

    fn print_expand_items(&mut self, items: &Vec<Node>)
        requires
            old(self).wf(),
        ensures
            final(self).st() == expand_items_st(old(self).st(), old(self).cfg(), items@, false, false),
            final(self).cfg() == old(self).cfg(),
            final(self).wf(),
        decreases items@, 0int,
    {
        let ghost c = self.cfg();
        let ghost s0 = self.st();
        let mut i: usize = 0;
        let mut seen_lparen = false;
        let mut var_done = false;
        assert(items@.skip(0) =~= items@);
        while i < items.len()
            invariant
                i <= items.len(),
                self.wf(),
                self.cfg() == c,
                expand_items_st(s0, c, items@, false, false) == expand_items_st(
                    self.st(),
                    c,
                    items@.skip(i as int),
                    seen_lparen,
                    var_done,
                ),
            decreases items.len() - i,
        {
            assert(items@.skip(i as int)[0] == items@[i as int]);
            assert(items@.skip(i as int).drop_first() =~= items@.skip(i + 1));
            proof {
                reveal_with_fuel(expand_items_st, 2);
            }
            let ch = &items[i];
            let k = ch.kind;
            if k == Kind::Expand || k == Kind::LParen || kind_is_comment(k) {
            } else if k == Kind::Assign {
                let t = [' ', '=', ' '];
                assert(t@ =~= seq![' ', '=', ' ']);
                self.emit_st(t.as_slice());
            } else if k == Kind::To {
                let t = [' ', 't', 'o', ' '];
                assert(t@ =~= seq![' ', 't', 'o', ' ']);
                self.emit_st(t.as_slice());
            } else if k == Kind::RParen {
                self.emit_char(')');
            } else if k == Kind::Block {
                self.print_block(ch, true);
            } else if k == Kind::Identifier && seen_lparen && !var_done {
                let tx = chars_of(ch.text.as_str());
                self.emit_st(tx.as_slice());
            } else if seen_lparen {
                self.print_expr(ch);
            }
            let operand = !(k == Kind::Expand || k == Kind::LParen || k == Kind::Assign || k
                == Kind::To || k == Kind::RParen || k == Kind::Block || kind_is_comment(k));
            if seen_lparen && operand {
                var_done = true;
            }
            if k == Kind::LParen {
                seen_lparen = true;
            }
            i += 1;
        }
    }
}

} // verus!
