//! Statement-level printing for the [`Printer`](super::Printer): statement
//! dispatch with own-line comments, indentation and the trailing
//! end-of-line comment, plus the simple statements (local declarations, type
//! annotations, assignments and expression statements).
//!
//! Each printing function is specified as a transformation of the printer
//! state ([`St`]) by a spec function of the node.

use vstd::prelude::*;
use super::control::{block_st, expand_st, if_st, when_st};
use super::expressions::{cont_col, emit_spec, flat_of};
use super::infra::exceeds;
use super::infra::{eol_st, flush_all_st, gap_st, inject_st, pending_eol};
use super::{
    Cfg, Printer, St, app, col_of, cont_text, ends_with_semicolon, ends_with_semicolon_exec, geom_of,
    indent_text, lemma_col_of_add,
};
use crate::cst::{
    Kind, Node, flat, is_comment, is_compound_assign, kind_is_comment, kind_is_compound_assign,
};
use crate::text::{
    chars_eq, chars_of, has_char, sat_add, sub_vec, trim_end, trim_end_len_exec, vwidth,
};

verus! {

/// `n` printed as an expression at the current column.
pub open spec fn expr_st(s: St, c: Cfg, n: Node) -> St {
    app(s, emit_spec(n, col_of(s.out, c.iw), geom_of(s, c)))
}

/// The current block indentation appended.
pub open spec fn ind_st(s: St, c: Cfg) -> St {
    app(s, indent_text(geom_of(s, c)))
}

/// Whether a child is left out of a statement run: the braces of a block.
pub open spec fn is_brace_skip(k: Kind, braces: bool) -> bool {
    braces && (k == Kind::LBrace || k == Kind::RBrace)
}

/// Where the next statement of `items` starts (comments and, in a block,
/// its braces are not statements), or `usize::MAX` when none follows.
pub open spec fn next_start(items: Seq<Node>, braces: bool) -> usize
    decreases items.len(),
{
    if items.len() == 0 {
        usize::MAX
    } else if is_comment(items[0].kind) || is_brace_skip(items[0].kind, braces) {
        next_start(items.drop_first(), braces)
    } else {
        items[0].start
    }
}

/// A run of sibling statements, each on its own line(s).
pub open spec fn stmt_lines_st(s: St, c: Cfg, items: Seq<Node>, braces: bool) -> St
    decreases items, 0int,
{
    if items.len() == 0 {
        s
    } else {
        let s1 = if is_brace_skip(items[0].kind, braces) {
            s
        } else {
            stmt_line_st(s, c, items[0], next_start(items.drop_first(), braces))
        };
        stmt_lines_st(s1, c, items.drop_first(), braces)
    }
}

/// One statement line: the pending comments before it, the author's blank
/// lines, the indentation, the statement (with the width of its `;` and of a
/// trailing comment reserved), the trailing comment and a line break.
/// Comments among the statements are printed through the comment list.
pub open spec fn stmt_line_st(s: St, c: Cfg, n: Node, next: usize) -> St
    decreases n, 5int,
{
    if is_comment(n.kind) {
        s
    } else {
        let s1 = ind_st(gap_st(inject_st(s, c, n.start), n.start_line), c);
        let semi: usize = if ends_with_semicolon(n.kind) {
            1
        } else {
            0
        };
        let s2 = St {
            eol_reserve: sat_add(pending_eol(s1, c, n.end_line, n.end, next), semi),
            ..s1
        };
        let s3 = St { eol_reserve: 0, ..stmt_st(s2, c, n) };
        let s4 = app(eol_st(s3, c, n.end_line, n.end, next), seq!['\n']);
        St { prev: Some(n.end_line), ..s4 }
    }
}

/// A statement, by its kind; an unknown kind is printed verbatim (trailing
/// whitespace trimmed).
pub open spec fn stmt_st(s: St, c: Cfg, n: Node) -> St
    decreases n, 4int,
{
    if n.kind == Kind::LocalDeclaration {
        local_items_st(s, c, n.children@, false)
    } else if n.kind == Kind::AssignmentStatement {
        assign_items_st(s, c, n.children@, false)
    } else if n.kind == Kind::ExpressionStatement {
        expr_items_st(s, c, n.children@)
    } else if n.kind == Kind::IfStatement {
        if_st(s, c, n)
    } else if n.kind == Kind::WhenStatement {
        when_st(s, c, n)
    } else if n.kind == Kind::ExpandStatement {
        expand_st(s, c, n)
    } else if n.kind == Kind::Block {
        block_st(s, c, n, false)
    } else if n.kind == Kind::EmptyStatement {
        app(s, seq![';'])
    } else {
        app(s, trim_end(n.text@))
    }
}

/// The identifiers among `items`, concatenated.
pub open spec fn idents_text(items: Seq<Node>) -> Seq<char>
    decreases items.len(),
{
    if items.len() == 0 {
        seq![]
    } else {
        (if items[0].kind == Kind::Identifier {
            items[0].text@
        } else {
            seq![]
        }) + idents_text(items.drop_first())
    }
}

/// A type annotation: `<`, its identifier, `>`.
pub open spec fn type_ann_text(n: Node) -> Seq<char> {
    seq!['<'] + idents_text(n.children@) + seq!['>']
}

/// One child of a local declaration; `seen_assign` tells whether the `=`
/// came before it (after it, an identifier is the value expression).
pub open spec fn local_item_st(s: St, c: Cfg, ch: Node, seen_assign: bool) -> St {
    if ch.kind == Kind::Static {
        app(s, seq!['s', 't', 'a', 't', 'i', 'c', ' '])
    } else if ch.kind == Kind::Local {
        app(s, seq!['l', 'o', 'c', 'a', 'l'])
    } else if ch.kind == Kind::TypeAnnotation {
        app(s, seq![' '] + type_ann_text(ch))
    } else if ch.kind == Kind::Identifier && !seen_assign {
        app(s, seq![' '] + ch.text@)
    } else if ch.kind == Kind::Assign {
        app(s, seq![' ', '=', ' '])
    } else if ch.kind == Kind::Semicolon {
        app(s, seq![';'])
    } else if is_comment(ch.kind) {
        s
    } else {
        expr_st(s, c, ch)
    }
}

pub open spec fn local_items_st(s: St, c: Cfg, items: Seq<Node>, seen_assign: bool) -> St
    decreases items.len(),
{
    if items.len() == 0 {
        s
    } else {
        local_items_st(
            local_item_st(s, c, items[0], seen_assign),
            c,
            items.drop_first(),
            seen_assign || items[0].kind == Kind::Assign,
        )
    }
}

/// The value of an assignment breaks onto a continuation line after the
/// operator: placed after a space it would overflow the line, it has no
/// break point of its own (it would be printed flat there), and the
/// continuation line starts further left.
pub open spec fn value_breaks(s: St, c: Cfg, ch: Node) -> bool {
    let g = geom_of(s, c);
    let col = sat_add(col_of(s.out, c.iw), 1);
    exceeds(col, flat(ch), g) && emit_spec(ch, col, g) == flat(ch) && cont_col(g) < col
}

/// The value of an assignment: after a space, or on a continuation line
/// when it [breaks](value_breaks).
pub open spec fn value_st(s: St, c: Cfg, ch: Node) -> St {
    if value_breaks(s, c, ch) {
        expr_st(app(s, seq!['\n'] + cont_text(geom_of(s, c))), c, ch)
    } else {
        expr_st(app(s, seq![' ']), c, ch)
    }
}

/// One child of an assignment: the operator after a space, the `;`, the
/// target, or (the first expression after the operator) the value.
pub open spec fn assign_item_st(s: St, c: Cfg, ch: Node, after_op: bool) -> St {
    if ch.kind == Kind::Assign || is_compound_assign(ch.kind) {
        app(s, seq![' '] + ch.text@)
    } else if ch.kind == Kind::Semicolon {
        app(s, seq![';'])
    } else if is_comment(ch.kind) {
        s
    } else if after_op {
        value_st(s, c, ch)
    } else {
        expr_st(s, c, ch)
    }
}

/// Whether the item after `ch` follows the operator directly (comments
/// aside).
pub open spec fn next_after_op(ch: Node, after_op: bool) -> bool {
    if ch.kind == Kind::Assign || is_compound_assign(ch.kind) {
        true
    } else if is_comment(ch.kind) {
        after_op
    } else {
        false
    }
}

pub open spec fn assign_items_st(s: St, c: Cfg, items: Seq<Node>, after_op: bool) -> St
    decreases items.len(),
{
    if items.len() == 0 {
        s
    } else {
        assign_items_st(
            assign_item_st(s, c, items[0], after_op),
            c,
            items.drop_first(),
            next_after_op(items[0], after_op),
        )
    }
}

/// One child of an expression statement.
pub open spec fn expr_item_st(s: St, c: Cfg, ch: Node) -> St {
    if ch.kind == Kind::Semicolon {
        app(s, seq![';'])
    } else if is_comment(ch.kind) {
        s
    } else {
        expr_st(s, c, ch)
    }
}

pub open spec fn expr_items_st(s: St, c: Cfg, items: Seq<Node>) -> St
    decreases items.len(),
{
    if items.len() == 0 {
        s
    } else {
        expr_items_st(expr_item_st(s, c, items[0]), c, items.drop_first())
    }
}

impl Printer {
    /// The state form of [`Printer::emit_expr`].
    pub fn print_expr(&mut self, n: &Node)
        ensures
            final(self).st() == expr_st(old(self).st(), old(self).cfg(), *n),
            final(self).cfg() == old(self).cfg(),
    {
        self.emit_expr(n);
    }

    /// `s` appended, in state form.
    pub fn emit_st(&mut self, s: &[char])
        ensures
            final(self).st() == app(old(self).st(), s@),
            final(self).cfg() == old(self).cfg(),
    {
        self.emit(s);
    }

    pub fn emit_indent_st(&mut self)
        ensures
            final(self).st() == ind_st(old(self).st(), old(self).cfg()),
            final(self).cfg() == old(self).cfg(),
    {
        self.emit_indent();
    }

    /// The whole file: its statements, then any comments left over; every
    /// comment has been printed at the end.
    pub fn print_source_file(&mut self, root: &Node)
        requires
            old(self).wf(),
        ensures
            final(self).st() == flush_all_st(
                stmt_lines_st(old(self).st(), old(self).cfg(), root.children@, false),
                old(self).cfg(),
            ),
            final(self).cfg() == old(self).cfg(),
            final(self).wf(),
            final(self).tpos == final(self).trivia@.len(),
    {
        self.print_statement_lines(&root.children, false);
        self.flush_remaining_trivia();
    }

    /// Where the next statement of `items[from..]` starts.
    pub fn next_start_exec(items: &Vec<Node>, from: usize, braces: bool) -> (r: usize)
        requires
            from <= items.len(),
        ensures
            r == next_start(items@.skip(from as int), braces),
    {
        let mut i = from;
        while i < items.len()
            invariant
                from <= i <= items.len(),
                next_start(items@.skip(from as int), braces) == next_start(
                    items@.skip(i as int),
                    braces,
                ),
            decreases items.len() - i,
        {
            assert(items@.skip(i as int)[0] == items@[i as int]);
            assert(items@.skip(i as int).drop_first() =~= items@.skip(i + 1));
            let k = items[i].kind;
            if !(kind_is_comment(k) || (braces && (k == Kind::LBrace || k == Kind::RBrace))) {
                return items[i].start;
            }
            i += 1;
        }
        assert(items@.skip(i as int).len() == 0);
        usize::MAX
    }

    /// Print a run of sibling statements; each statement's trailing-comment
    /// window ends where the next statement starts.
    pub fn print_statement_lines(&mut self, items: &Vec<Node>, braces: bool)
        requires
            old(self).wf(),
        ensures
            final(self).st() == stmt_lines_st(old(self).st(), old(self).cfg(), items@, braces),
            final(self).cfg() == old(self).cfg(),
            final(self).wf(),
        decreases items@, 0int,
    {
        let ghost c = self.cfg();
        let ghost s0 = self.st();
        let mut i: usize = 0;
        assert(items@.skip(0) =~= items@);
        while i < items.len()
            invariant
                i <= items.len(),
                self.wf(),
                self.cfg() == c,
                stmt_lines_st(s0, c, items@, braces) == stmt_lines_st(
                    self.st(),
                    c,
                    items@.skip(i as int),
                    braces,
                ),
            decreases items.len() - i,
        {
            assert(items@.skip(i as int)[0] == items@[i as int]);
            assert(items@.skip(i as int).drop_first() =~= items@.skip(i + 1));
            let k = items[i].kind;
            if !(braces && (k == Kind::LBrace || k == Kind::RBrace)) {
                let next = Self::next_start_exec(items, i + 1, braces);
                self.print_statement_line(&items[i], next);
            }
            i += 1;
        }
    }

    /// A statement at file scope or inside a block.
    pub fn print_statement_line(&mut self, n: &Node, next: usize)
        requires
            old(self).wf(),
        ensures
            final(self).st() == stmt_line_st(old(self).st(), old(self).cfg(), *n, next),
            final(self).cfg() == old(self).cfg(),
            final(self).wf(),
        decreases n, 5int,
    {
        if kind_is_comment(n.kind) {
            return;
        }
        self.inject_trivia_before(n.start);
        self.emit_blank_gap(n.start_line);
        self.emit_indent_st();
        let semi: usize = if ends_with_semicolon_exec(n.kind) {
            1
        } else {
            0
        };
        let w = self.pending_eol_width(n.end_line, n.end, next);
        self.eol_reserve = w.saturating_add(semi);
        self.print_statement(n);
        self.eol_reserve = 0;
        self.trailing_comment(n.end_line, n.end, next);
        self.emit_newline();
        self.prev_end_line = Some(n.end_line);
    }

    pub fn print_statement(&mut self, n: &Node)
        requires
            old(self).wf(),
        ensures
            final(self).st() == stmt_st(old(self).st(), old(self).cfg(), *n),
            final(self).cfg() == old(self).cfg(),
            final(self).wf(),
        decreases n, 4int,
    {
        let k = n.kind;
        if k == Kind::LocalDeclaration {
            self.print_local_decl(&n.children);
        } else if k == Kind::AssignmentStatement {
            self.print_assignment(&n.children);
        } else if k == Kind::ExpressionStatement {
            self.print_expression_stmt(&n.children);
        } else if k == Kind::IfStatement {
            self.print_if(n);
        } else if k == Kind::WhenStatement {
            self.print_when(n);
        } else if k == Kind::ExpandStatement {
            self.print_expand(n);
        } else if k == Kind::Block {
            self.print_block(n, false);
        } else if k == Kind::EmptyStatement {
            self.emit_char(';');
        } else {
            self.emit_verbatim(n);
        }
    }

    /// A node's source text, trailing whitespace trimmed.
    pub fn emit_verbatim(&mut self, n: &Node)
        ensures
            final(self).st() == app(old(self).st(), trim_end(n.text@)),
            final(self).cfg() == old(self).cfg(),
    {
        let t = chars_of(n.text.as_str());
        let e = trim_end_len_exec(t.as_slice());
        let tt = sub_vec(t.as_slice(), 0, e);
        self.emit(tt.as_slice());
    }

    /// `[static] local [<Type>] name [= value];`
    pub fn print_local_decl(&mut self, items: &Vec<Node>)
        ensures
            final(self).st() == local_items_st(old(self).st(), old(self).cfg(), items@, false),
            final(self).cfg() == old(self).cfg(),
            final(self).tpos == old(self).tpos,
    {
        let ghost c = self.cfg();
        let ghost s0 = self.st();
        let mut i: usize = 0;
        let mut seen_assign = false;
        assert(items@.skip(0) =~= items@);
        while i < items.len()
            invariant
                i <= items.len(),
                self.cfg() == c,
                self.tpos == old(self).tpos,
                local_items_st(s0, c, items@, false) == local_items_st(
                    self.st(),
                    c,
                    items@.skip(i as int),
                    seen_assign,
                ),
            decreases items.len() - i,
        {
            assert(items@.skip(i as int)[0] == items@[i as int]);
            assert(items@.skip(i as int).drop_first() =~= items@.skip(i + 1));
            let ch = &items[i];
            let k = ch.kind;
            if k == Kind::Static {
                let t = ['s', 't', 'a', 't', 'i', 'c', ' '];
                self.emit_st(t.as_slice());
                assert(t@ =~= seq!['s', 't', 'a', 't', 'i', 'c', ' ']);
            } else if k == Kind::Local {
                let t = ['l', 'o', 'c', 'a', 'l'];
                self.emit_st(t.as_slice());
                assert(t@ =~= seq!['l', 'o', 'c', 'a', 'l']);
            } else if k == Kind::TypeAnnotation {
                let ghost before = self.st();
                self.emit_char(' ');
                self.print_type_annotation(ch);
                assert(self.output@ =~= before.out + (seq![' '] + type_ann_text(*ch)));
            } else if k == Kind::Identifier && !seen_assign {
                let ghost before = self.st();
                self.emit_char(' ');
                let t = chars_of(ch.text.as_str());
                self.emit(t.as_slice());
                assert(self.output@ =~= before.out + (seq![' '] + ch.text@));
            } else if k == Kind::Assign {
                let t = [' ', '=', ' '];
                self.emit_st(t.as_slice());
                assert(t@ =~= seq![' ', '=', ' ']);
            } else if k == Kind::Semicolon {
                self.emit_char(';');
            } else if kind_is_comment(k) {
            } else {
                self.print_expr(ch);
            }
            if k == Kind::Assign {
                seen_assign = true;
            }
            i += 1;
        }
    }

    /// `<Type>`: the annotation's identifier between angle brackets.
    pub fn print_type_annotation(&mut self, n: &Node)
        ensures
            final(self).st() == app(old(self).st(), type_ann_text(*n)),
            final(self).cfg() == old(self).cfg(),
    {
        self.emit_char('<');
        let ghost out1 = self.output@;
        let items = &n.children;
        let mut i: usize = 0;
        assert(items@.skip(0) =~= items@);
        while i < items.len()
            invariant
                i <= items.len(),
                self.only_output_changed(*old(self)),
                out1 + idents_text(items@) == self.output@ + idents_text(items@.skip(i as int)),
            decreases items.len() - i,
        {
            assert(items@.skip(i as int)[0] == items@[i as int]);
            assert(items@.skip(i as int).drop_first() =~= items@.skip(i + 1));
            let ghost before = self.output@;
            if items[i].kind == Kind::Identifier {
                let t = chars_of(items[i].text.as_str());
                self.emit(t.as_slice());
            }
            assert(before + idents_text(items@.skip(i as int)) =~= self.output@ + idents_text(
                items@.skip(i + 1),
            ));
            i += 1;
        }
        assert(idents_text(items@.skip(i as int)) =~= Seq::<char>::empty());
        self.emit_char('>');
        assert(self.output@ =~= old(self).output@ + type_ann_text(*n));
    }

    /// The value of an assignment (see [`value_st`]).
    pub fn print_value(&mut self, ch: &Node)
        ensures
            final(self).st() == value_st(old(self).st(), old(self).cfg(), *ch),
            final(self).cfg() == old(self).cfg(),
    {
        let ghost s0 = self.st();
        let ghost c = self.cfg();
        let ghost g = self.geom();
        let mark = self.output.len();
        let col = self.current_col().saturating_add(1);
        self.emit_char(' ');
        proof {
            lemma_col_of_add(s0.out, seq![' '], c.iw);
            assert(vwidth(seq![' '], c.iw) == 1) by {
                assert(seq![' '].drop_last() =~= Seq::<char>::empty());
                assert(seq![' '].last() == ' ');
                assert(vwidth(Seq::<char>::empty(), c.iw) == 0);
            }
            assert(!has_char(seq![' '], '\n')) by {
                if has_char(seq![' '], '\n') {
                    let i = choose|i: int| 0 <= i < 1 && seq![' '][i] == '\n';
                }
            }
            assert(col_of(self.output@, c.iw) == col);
        }
        let start = self.output.len();
        self.print_expr(ch);
        let ghost e = emit_spec(*ch, col, g);
        assert(self.output@ == s0.out + seq![' '] + e);
        let printed = sub_vec(self.output.as_slice(), start, self.output.len());
        assert(printed@ =~= e);
        let flat = flat_of(ch);
        let brk = chars_eq(printed.as_slice(), flat.as_slice()) && self.exceeds_limit(
            col,
            flat.as_slice(),
        ) && self.cont_col_exec() < col;
        assert(brk == value_breaks(s0, c, *ch));
        if brk {
            self.output.truncate(mark);
            assert(self.output@ =~= s0.out);
            self.emit_newline();
            self.emit_continuation_indent();
            let ghost s1 = self.st();
            assert(s1 == app(s0, seq!['\n'] + cont_text(g))) by {
                assert(s1.out =~= s0.out + (seq!['\n'] + cont_text(g)));
            }
            self.print_expr(ch);
        } else {
            assert(self.st() == expr_st(app(s0, seq![' ']), c, *ch)) by {
                assert(self.output@ =~= s0.out + seq![' '] + e);
            }
        }
    }

    /// `target op value;`
    pub fn print_assignment(&mut self, items: &Vec<Node>)
        ensures
            final(self).st() == assign_items_st(old(self).st(), old(self).cfg(), items@, false),
            final(self).cfg() == old(self).cfg(),
            final(self).tpos == old(self).tpos,
    {
        let ghost c = self.cfg();
        let ghost s0 = self.st();
        let mut i: usize = 0;
        let mut after_op = false;
        assert(items@.skip(0) =~= items@);
        while i < items.len()
            invariant
                i <= items.len(),
                self.cfg() == c,
                self.tpos == old(self).tpos,
                assign_items_st(s0, c, items@, false) == assign_items_st(
                    self.st(),
                    c,
                    items@.skip(i as int),
                    after_op,
                ),
            decreases items.len() - i,
        {
            assert(items@.skip(i as int)[0] == items@[i as int]);
            assert(items@.skip(i as int).drop_first() =~= items@.skip(i + 1));
            let ch = &items[i];
            let k = ch.kind;
            if k == Kind::Assign || kind_is_compound_assign(k) {
                let ghost before = self.st();
                self.emit_char(' ');
                let t = chars_of(ch.text.as_str());
                self.emit(t.as_slice());
                assert(self.output@ =~= before.out + (seq![' '] + ch.text@));
                after_op = true;
            } else if k == Kind::Semicolon {
                self.emit_char(';');
                after_op = false;
            } else if kind_is_comment(k) {
            } else if after_op {
                self.print_value(ch);
                after_op = false;
            } else {
                self.print_expr(ch);
            }
            i += 1;
        }
    }

    /// `expression;`
    pub fn print_expression_stmt(&mut self, items: &Vec<Node>)
        ensures
            final(self).st() == expr_items_st(old(self).st(), old(self).cfg(), items@),
            final(self).cfg() == old(self).cfg(),
            final(self).tpos == old(self).tpos,
    {
        let ghost c = self.cfg();
        let ghost s0 = self.st();
        let mut i: usize = 0;
        assert(items@.skip(0) =~= items@);
        while i < items.len()
            invariant
                i <= items.len(),
                self.cfg() == c,
                self.tpos == old(self).tpos,
                expr_items_st(s0, c, items@) == expr_items_st(self.st(), c, items@.skip(i as int)),
            decreases items.len() - i,
        {
            assert(items@.skip(i as int)[0] == items@[i as int]);
            assert(items@.skip(i as int).drop_first() =~= items@.skip(i + 1));
            let ch = &items[i];
            let k = ch.kind;
            if k == Kind::Semicolon {
                self.emit_char(';');
            } else if kind_is_comment(k) {
            } else {
                self.print_expr(ch);
            }
            i += 1;
        }
    }
}

} // verus!
