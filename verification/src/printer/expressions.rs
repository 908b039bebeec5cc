//! Expression printing for the [`Printer`](super::Printer): the flat
//! (single-line) form of every expression, and the flat-vs-wrap emitters for
//! member access, calls and argument lists, unary, binary chains (with
//! precedence-aware flattening), ternaries and parenthesized expressions.
//!
//! Each emitter's output is specified exactly by a spec function of the node,
//! the column it starts at and the layout parameters ([`emit_spec`]).

use vstd::prelude::*;
use super::infra::{exceeds, exceeds_lines};
use super::{
    Geom, Printer, binary_op_text, col_after, col_of, cont_text, count_nc_exec, lemma_col_of_add,
    lemma_nc_index, nc_index, nc_index_exec, op_prec, op_prec_exec,
};
use crate::cst::{
    Kind, Node, arglist_flat, count_nc, flat, flat_child, flat_items, is_atom, is_comment,
    kind_is_comment,
};
use crate::text::{
    chars_of, has_char, nl_index, nl_index_exec, push_all, sat_add, sat_mul, sat_mul_exec,
    split_lines, sub_vec, trim_end, trim_end_len_exec, vwidth,
};

verus! {

// ---------------------------------------------------------------------------
// Flat forms
// ---------------------------------------------------------------------------

fn flat_child_into(pk: Kind, c: &Node, seen: usize, out: &mut Vec<char>)
    ensures
        final(out)@ == old(out)@ + flat_child(pk, *c, seen as int),
    decreases c, 2int,
{
    if kind_is_comment(c.kind) {
        assert(old(out)@ + Seq::<char>::empty() =~= old(out)@);
    } else if pk == Kind::CallExpression && c.kind == Kind::ArgumentList {
        arglist_flat_into(c, out);
    } else if pk == Kind::ArgumentList && (c.kind == Kind::LParen || c.kind == Kind::RParen) {
        assert(old(out)@ + Seq::<char>::empty() =~= old(out)@);
    } else if pk == Kind::ArgumentList && c.kind == Kind::Comma {
        out.push(',');
        out.push(' ');
        assert(out@ =~= old(out)@ + seq![',', ' ']);
    } else if pk == Kind::MemberExpression && c.kind == Kind::Dot {
        out.push('.');
        assert(out@ =~= old(out)@ + seq!['.']);
    } else if pk == Kind::UnaryExpression && (c.kind == Kind::Minus || c.kind == Kind::Bang) {
        let t = chars_of(c.text.as_str());
        push_all(out, t.as_slice());
    } else if pk == Kind::UnaryExpression && c.kind == Kind::Not {
        let t = ['n', 'o', 't', ' '];
        push_all(out, t.as_slice());
        assert(out@ =~= old(out)@ + seq!['n', 'o', 't', ' ']);
    } else if pk == Kind::ParenthesizedExpression && (c.kind == Kind::LParen || c.kind
        == Kind::RParen) {
        assert(old(out)@ + Seq::<char>::empty() =~= old(out)@);
    } else if pk == Kind::TernaryExpression && c.kind == Kind::Question {
        let t = [' ', '?', ' '];
        push_all(out, t.as_slice());
        assert(out@ =~= old(out)@ + seq![' ', '?', ' ']);
    } else if pk == Kind::TernaryExpression && c.kind == Kind::Colon {
        let t = [' ', ':', ' '];
        push_all(out, t.as_slice());
        assert(out@ =~= old(out)@ + seq![' ', ':', ' ']);
    } else if pk == Kind::BinaryExpression && seen == 1 {
        out.push(' ');
        let t = chars_of(c.text.as_str());
        push_all(out, t.as_slice());
        out.push(' ');
        assert(out@ =~= old(out)@ + (seq![' '] + c.text@ + seq![' ']));
    } else {
        flat_node_into(c, out);
    }
}

fn flat_items_into(pk: Kind, items: &Vec<Node>, out: &mut Vec<char>)
    ensures
        final(out)@ == old(out)@ + flat_items(pk, items@, 0),
    decreases items@, 0int,
{
    let mut i: usize = 0;
    let mut seen: usize = 0;
    assert(items@.skip(0) =~= items@);
    while i < items.len()
        invariant
            i <= items.len(),
            seen <= i,
            old(out)@ + flat_items(pk, items@, 0) == out@ + flat_items(
                pk,
                items@.skip(i as int),
                seen as int,
            ),
        decreases items.len() - i,
    {
        assert(items@.skip(i as int)[0] == items@[i as int]);
        assert(items@.skip(i as int).drop_first() =~= items@.skip(i + 1));
        let ghost before = out@;
        flat_child_into(pk, &items[i], seen, out);
        if !kind_is_comment(items[i].kind) {
            seen += 1;
        }
        i += 1;
    }
    assert(flat_items(pk, items@.skip(i as int), seen as int) =~= Seq::<char>::empty());
    assert(out@ + Seq::<char>::empty() =~= out@);
}

fn arglist_flat_into(a: &Node, out: &mut Vec<char>)
    ensures
        final(out)@ == old(out)@ + arglist_flat(*a),
    decreases a, 1int,
{
    out.push('(');
    flat_items_into(Kind::ArgumentList, &a.children, out);
    out.push(')');
    assert(out@ =~= old(out)@ + arglist_flat(*a));
}

fn flat_node_into(n: &Node, out: &mut Vec<char>)
    ensures
        final(out)@ == old(out)@ + flat(*n),
    decreases n, 1int,
{
    let k = n.kind;
    if k == Kind::Identifier || k == Kind::Number || k == Kind::StringLiteral || k
        == Kind::Boolean || k == Kind::True || k == Kind::False {
        let t = chars_of(n.text.as_str());
        push_all(out, t.as_slice());
    } else if k == Kind::MemberExpression || k == Kind::CallExpression || k
        == Kind::UnaryExpression || k == Kind::BinaryExpression || k == Kind::TernaryExpression {
        flat_items_into(k, &n.children, out);
    } else if k == Kind::ParenthesizedExpression {
        out.push('(');
        flat_items_into(k, &n.children, out);
        out.push(')');
        assert(out@ =~= old(out)@ + flat(*n));
    } else {
        let t = chars_of(n.text.as_str());
        let e = trim_end_len_exec(t.as_slice());
        let tt = sub_vec(t.as_slice(), 0, e);
        push_all(out, tt.as_slice());
    }
}

/// The flat form of `n`.
pub fn flat_of(n: &Node) -> (r: Vec<char>)
    ensures
        r@ == flat(*n),
{
    let mut out: Vec<char> = Vec::new();
    flat_node_into(n, &mut out);
    assert(out@ =~= flat(*n));
    out
}

/// The flat form of an argument list.
pub fn arglist_flat_of(a: &Node) -> (r: Vec<char>)
    ensures
        r@ == arglist_flat(*a),
{
    let mut out: Vec<char> = Vec::new();
    arglist_flat_into(a, &mut out);
    assert(out@ =~= arglist_flat(*a));
    out
}

// ---------------------------------------------------------------------------
// Layout specification
// ---------------------------------------------------------------------------

/// The column a continuation line starts at.
pub open spec fn cont_col(g: Geom) -> usize {
    sat_mul(sat_add(g.indent, g.cont), g.iw)
}

/// An argument of an argument list (not punctuation, not a comment).
pub open spec fn is_arg(k: Kind) -> bool {
    !(k == Kind::LParen || k == Kind::RParen || k == Kind::Comma || is_comment(k))
}

pub open spec fn count_args(s: Seq<Node>) -> nat
    decreases s.len(),
{
    if s.len() == 0 {
        0
    } else {
        (if is_arg(s[0].kind) {
            1nat
        } else {
            0nat
        }) + count_args(s.drop_first())
    }
}

/// Length of the first line of `s`.
pub open spec fn first_line_len(s: Seq<char>) -> usize {
    nl_index(s) as usize
}

/// The text a child `c` of a `pk` node (member, call, unary, parenthesized)
/// prints as, starting at column `col`.
pub open spec fn child_spec(pk: Kind, c: Node, col: usize, g: Geom) -> Seq<char>
    decreases c, 4int,
{
    if is_comment(c.kind) {
        seq![]
    } else if pk == Kind::CallExpression && c.kind == Kind::ArgumentList {
        arglist_spec(c, col, g)
    } else if pk == Kind::MemberExpression && c.kind == Kind::Dot {
        seq!['.']
    } else if pk == Kind::UnaryExpression && (c.kind == Kind::Minus || c.kind == Kind::Bang) {
        c.text@
    } else if pk == Kind::UnaryExpression && c.kind == Kind::Not {
        seq!['n', 'o', 't', ' ']
    } else if pk == Kind::ParenthesizedExpression && (c.kind == Kind::LParen || c.kind
        == Kind::RParen) {
        seq![]
    } else {
        emit_spec(c, col, g)
    }
}

/// `items` printed one after the other from column `col`.
pub open spec fn items_spec(pk: Kind, items: Seq<Node>, col: usize, g: Geom) -> Seq<char>
    decreases items, 0int,
{
    if items.len() == 0 {
        seq![]
    } else {
        let a = child_spec(pk, items[0], col, g);
        a + items_spec(pk, items.drop_first(), col_after(col, a, g.iw), g)
    }
}

/// Whether the argument after which `seen` arguments were printed breaks
/// onto a continuation line: it would overflow, and the continuation line
/// starts further left.
pub open spec fn arg_breaks(seen: int, col: usize, fl: usize, tail: usize, g: Geom) -> bool {
    if seen == 0 {
        sat_add(sat_add(col, fl), tail) > g.width && cont_col(g) < col
    } else {
        sat_add(sat_add(sat_add(col, 1), fl), tail) > g.width && cont_col(g) < col
    }
}

/// One argument of a wrapped list with what precedes and follows it: the
/// separator (nothing, a space, or a line break and continuation indent),
/// the argument, and its comma unless it is the last.
pub open spec fn arg_piece(c: Node, seen: int, last: bool, col: usize, g: Geom) -> Seq<char>
    decreases c, 4int,
{
    let fl = first_line_len(flat(c));
    let tail = if last {
        sat_add(1, g.eol_reserve)
    } else {
        1
    };
    let sep = if arg_breaks(seen, col, fl, tail, g) {
        seq!['\n'] + cont_text(g)
    } else if seen == 0 {
        seq![]
    } else {
        seq![' ']
    };
    let e = emit_spec(c, col_after(col, sep, g.iw), g);
    let comma = if last {
        seq![]
    } else {
        seq![',']
    };
    sep + e + comma
}

/// The arguments of a wrapped argument list, greedily filled: an argument
/// stays on the current line (after `", "`) unless it would overflow, in
/// which case it starts a continuation line; the first argument moves to a
/// continuation line only when that line starts further left.
pub open spec fn args_spec(items: Seq<Node>, seen: int, col: usize, g: Geom) -> Seq<char>
    decreases items, 0int,
{
    if items.len() == 0 {
        seq![]
    } else if !is_arg(items[0].kind) {
        args_spec(items.drop_first(), seen, col, g)
    } else {
        let last = count_args(items.drop_first()) == 0;
        let a = arg_piece(items[0], seen, last, col, g);
        a + args_spec(items.drop_first(), seen + 1, col_after(col, a, g.iw), g)
    }
}

/// An argument list: flat when it fits, wrapped otherwise.
pub open spec fn arglist_spec(a: Node, col: usize, g: Geom) -> Seq<char>
    decreases a, 2int,
{
    let f = arglist_flat(a);
    if exceeds(col, f, g) {
        seq!['('] + args_spec(a.children@, 0, col_after(col, seq!['('], g.iw), g) + seq![')']
    } else {
        f
    }
}

/// The `k`-th non-comment child of a binary expression.
pub open spec fn bin_part(n: Node, k: int) -> Node {
    n.children@[nc_index(n.children@, k)]
}

/// The chain continues into the left operand: it is a complete binary
/// expression whose operator has the same precedence.
pub open spec fn chain_continues(n: Node) -> bool {
    let l = bin_part(n, 0);
    l.kind == Kind::BinaryExpression && count_nc(l.children@) >= 3 && op_prec(binary_op_text(l))
        == op_prec(bin_part(n, 1).text@)
}

/// One `operator operand` pair of a wrapped chain: kept on the line when it
/// fits (the last pair also carrying the reserved end-of-line width), else
/// broken before the operator onto a continuation line, provided that line
/// starts further left.
pub open spec fn pair_spec(op: Seq<char>, r: Node, col: usize, g: Geom, outer: bool) -> Seq<char>
    decreases r, 4int,
{
    let fl = first_line_len(flat(r));
    let tail = if outer {
        sat_add(1, g.eol_reserve)
    } else {
        0
    };
    let same = sat_add(
        sat_add(sat_add(sat_add(sat_add(col, 1), op.len() as usize), 1), fl),
        tail,
    );
    let lead = if same > g.width && cont_col(g) < col {
        seq!['\n'] + cont_text(g) + op + seq![' ']
    } else {
        seq![' '] + op + seq![' ']
    };
    lead + emit_spec(r, col_after(col, lead, g.iw), g)
}

/// A wrapped binary chain: the same-precedence left spine flattened into its
/// first operand followed by `operator operand` pairs.
pub open spec fn chain_spec(n: Node, col: usize, g: Geom, outer: bool) -> Seq<char>
    decreases n, 1int,
{
    if count_nc(n.children@) < 3 {
        seq![]
    } else {
        proof {
            lemma_nc_index(n.children@, 0);
            lemma_nc_index(n.children@, 1);
            lemma_nc_index(n.children@, 2);
        }
        let head = if chain_continues(n) {
            chain_spec(bin_part(n, 0), col, g, false)
        } else {
            emit_spec(bin_part(n, 0), col, g)
        };
        head + pair_spec(bin_part(n, 1).text@, bin_part(n, 2), col_after(col, head, g.iw), g, outer)
    }
}

/// A binary expression: flat when it fits (or is incomplete), else wrapped.
pub open spec fn binary_spec(n: Node, col: usize, g: Geom) -> Seq<char>
    decreases n, 2int,
{
    let f = flat(n);
    if exceeds(col, f, g) && count_nc(n.children@) >= 3 {
        chain_spec(n, col, g, true)
    } else {
        f
    }
}

/// A wrapped ternary: the condition stays on the line, `?` and `:` each
/// start a continuation line (when that line starts further left).
pub open spec fn tern_spec(items: Seq<Node>, col: usize, g: Geom) -> Seq<char>
    decreases items, 0int,
{
    if items.len() == 0 {
        seq![]
    } else {
        let c = items[0];
        let a = if c.kind == Kind::Question || c.kind == Kind::Colon {
            let mark = if c.kind == Kind::Question {
                '?'
            } else {
                ':'
            };
            if cont_col(g) < col {
                seq!['\n'] + cont_text(g) + seq![mark, ' ']
            } else {
                seq![' ', mark, ' ']
            }
        } else if is_comment(c.kind) {
            seq![]
        } else {
            emit_spec(c, col, g)
        };
        a + tern_spec(items.drop_first(), col_after(col, a, g.iw), g)
    }
}

pub open spec fn ternary_spec(n: Node, col: usize, g: Geom) -> Seq<char>
    decreases n, 2int,
{
    let f = flat(n);
    if exceeds(col, f, g) {
        tern_spec(n.children@, col, g)
    } else {
        f
    }
}

/// What an expression prints as when it starts at column `col`.
pub open spec fn emit_spec(n: Node, col: usize, g: Geom) -> Seq<char>
    decreases n, 3int,
{
    if is_atom(n.kind) {
        n.text@
    } else if n.kind == Kind::MemberExpression || n.kind == Kind::CallExpression || n.kind
        == Kind::UnaryExpression {
        items_spec(n.kind, n.children@, col, g)
    } else if n.kind == Kind::BinaryExpression {
        binary_spec(n, col, g)
    } else if n.kind == Kind::TernaryExpression {
        ternary_spec(n, col, g)
    } else if n.kind == Kind::ParenthesizedExpression {
        seq!['('] + items_spec(n.kind, n.children@, col_after(col, seq!['('], g.iw), g) + seq![
            ')',
        ]
    } else {
        trim_end(n.text@)
    }
}

// ---------------------------------------------------------------------------
// What fits stays flat
// ---------------------------------------------------------------------------

/// Width of the single line `f` placed at column `col`, with the reserved
/// end-of-line width.
pub open spec fn line_need(col: usize, f: Seq<char>, g: Geom) -> usize {
    sat_add(sat_add(vwidth(f, g.iw), col), g.eol_reserve)
}

proof fn lemma_single_line(f: Seq<char>)
    requires
        !has_char(f, '\n'),
    ensures
        split_lines(f) == seq![f],
{
    assert forall|j: int| 0 <= j < f.len() implies f[j] != '\n' by {
        if f[j] == '\n' {
            assert(has_char(f, '\n'));
        }
    }
    crate::text::lemma_nl_index(f, f.len() as int);
    assert(f.take(f.len() as int) =~= f);
}

proof fn lemma_exceeds_single(col: usize, f: Seq<char>, g: Geom)
    requires
        !has_char(f, '\n'),
    ensures
        exceeds(col, f, g) == (line_need(col, f, g) > g.width),
{
    lemma_single_line(f);
    let ls = split_lines(f);
    assert(ls.len() == 1);
    assert(!exceeds_lines(ls, 1, col, g));
}

proof fn lemma_no_nl_split(a: Seq<char>, b: Seq<char>)
    requires
        !has_char(a + b, '\n'),
    ensures
        !has_char(a, '\n'),
        !has_char(b, '\n'),
{
    if has_char(a, '\n') {
        let i = choose|i: int| 0 <= i < a.len() && a[i] == '\n';
        assert((a + b)[i] == '\n');
    }
    if has_char(b, '\n') {
        let i = choose|i: int| 0 <= i < b.len() && b[i] == '\n';
        assert((a + b)[a.len() + i] == '\n');
    }
}

/// Placing `a` then `b` needs as much as placing `a + b`; `a` alone needs no
/// more.
proof fn lemma_need_split(col: usize, a: Seq<char>, b: Seq<char>, g: Geom)
    ensures
        line_need(col, a, g) <= line_need(col, a + b, g),
        line_need(sat_add(col, vwidth(a, g.iw)), b, g) == line_need(col, a + b, g),
{
    crate::text::lemma_vwidth_add(a, b, g.iw);
}

proof fn lemma_items_flat(pk: Kind, items: Seq<Node>, seen: int, col: usize, g: Geom)
    requires
        pk == Kind::MemberExpression || pk == Kind::CallExpression || pk == Kind::UnaryExpression
            || pk == Kind::ParenthesizedExpression,
        !has_char(flat_items(pk, items, seen), '\n'),
        line_need(col, flat_items(pk, items, seen), g) <= g.width,
    ensures
        items_spec(pk, items, col, g) == flat_items(pk, items, seen),
    decreases items, 0int,
{
    if items.len() > 0 {
        let c = items[0];
        let fc = flat_child(pk, c, seen);
        let seen2 = seen + if is_comment(c.kind) {
            0int
        } else {
            1int
        };
        let rest = flat_items(pk, items.drop_first(), seen2);
        assert(flat_items(pk, items, seen) == fc + rest);
        lemma_no_nl_split(fc, rest);
        lemma_need_split(col, fc, rest, g);
        lemma_child_flat(pk, c, seen, col, g);
        assert(col_after(col, fc, g.iw) == sat_add(col, vwidth(fc, g.iw)));
        lemma_items_flat(pk, items.drop_first(), seen2, sat_add(col, vwidth(fc, g.iw)), g);
    }
}

proof fn lemma_child_flat(pk: Kind, c: Node, seen: int, col: usize, g: Geom)
    requires
        pk == Kind::MemberExpression || pk == Kind::CallExpression || pk == Kind::UnaryExpression
            || pk == Kind::ParenthesizedExpression,
        !has_char(flat_child(pk, c, seen), '\n'),
        line_need(col, flat_child(pk, c, seen), g) <= g.width,
    ensures
        child_spec(pk, c, col, g) == flat_child(pk, c, seen),
    decreases c, 4int,
{
    if is_comment(c.kind) {
    } else if pk == Kind::CallExpression && c.kind == Kind::ArgumentList {
        lemma_exceeds_single(col, arglist_flat(c), g);
    } else if pk == Kind::MemberExpression && c.kind == Kind::Dot {
    } else if pk == Kind::UnaryExpression && (c.kind == Kind::Minus || c.kind == Kind::Bang) {
    } else if pk == Kind::UnaryExpression && c.kind == Kind::Not {
    } else if pk == Kind::ParenthesizedExpression && (c.kind == Kind::LParen || c.kind
        == Kind::RParen) {
    } else {
        lemma_fits_stays_flat(c, col, g);
    }
}

proof fn lemma_fits_stays_flat(n: Node, col: usize, g: Geom)
    requires
        !has_char(flat(n), '\n'),
        line_need(col, flat(n), g) <= g.width,
    ensures
        emit_spec(n, col, g) == flat(n),
    decreases n, 3int,
{
    if is_atom(n.kind) {
    } else if n.kind == Kind::MemberExpression || n.kind == Kind::CallExpression || n.kind
        == Kind::UnaryExpression {
        lemma_items_flat(n.kind, n.children@, 0, col, g);
    } else if n.kind == Kind::BinaryExpression || n.kind == Kind::TernaryExpression {
        lemma_exceeds_single(col, flat(n), g);
    } else if n.kind == Kind::ParenthesizedExpression {
        let fi = flat_items(n.kind, n.children@, 0);
        assert(flat(n) == seq!['('] + (fi + seq![')']));
        lemma_no_nl_split(seq!['('], fi + seq![')']);
        lemma_no_nl_split(fi, seq![')']);
        lemma_need_split(col, seq!['('], fi + seq![')'], g);
        let col1 = sat_add(col, vwidth(seq!['('], g.iw));
        lemma_need_split(col1, fi, seq![')'], g);
        assert(!has_char(seq!['('], '\n')) by {
            if has_char(seq!['('], '\n') {
                let i = choose|i: int| 0 <= i < 1 && seq!['('][i] == '\n';
            }
        }
        assert(col_after(col, seq!['('], g.iw) == col1);
        lemma_items_flat(n.kind, n.children@, 0, col1, g);
    } else {
    }
}

/// An expression whose flat (single-line) form fits on the line from
/// column `col` (with the reserved end-of-line width) is printed flat: the
/// printer wraps only what does not fit.
pub proof fn fitting_expression_stays_flat(n: Node, col: usize, g: Geom)
    requires
        !has_char(flat(n), '\n'),
        !exceeds(col, flat(n), g),
    ensures
        emit_spec(n, col, g) == flat(n),
{
    lemma_exceeds_single(col, flat(n), g);
    lemma_fits_stays_flat(n, col, g);
}

/// An argument list is printed flat when its flat form fits, and otherwise
/// as `(`, its arguments filled onto continuation lines, and `)`.
pub proof fn arglist_flat_or_wrapped(a: Node, col: usize, g: Geom)
    ensures
        !exceeds(col, arglist_flat(a), g) ==> arglist_spec(a, col, g) == arglist_flat(a),
        exceeds(col, arglist_flat(a), g) ==> arglist_spec(a, col, g) == seq!['('] + args_spec(
            a.children@,
            0,
            col_after(col, seq!['('], g.iw),
            g,
        ) + seq![')'],
{
}

/// A wrapped argument list breaks lines only between arguments: each
/// argument is preceded by nothing (the first one, kept on the line), a
/// space, or a line break and the continuation indentation, and followed by
/// its comma unless it is the last.
pub proof fn wrapped_args_break_between_arguments(c: Node, seen: int, last: bool, col: usize, g: Geom)
    ensures
        exists|sep: Seq<char>|
            {
                &&& #[trigger] arg_piece(c, seen, last, col, g) == sep + emit_spec(
                    c,
                    col_after(col, sep, g.iw),
                    g,
                ) + if last {
                    seq![]
                } else {
                    seq![',']
                }
                &&& (seen == 0 && sep == Seq::<char>::empty()) || (seen != 0 && sep == seq![' '])
                    || sep == seq!['\n'] + cont_text(g)
            },
{
    let fl = first_line_len(flat(c));
    let tail = if last {
        sat_add(1, g.eol_reserve)
    } else {
        1
    };
    let sep = if arg_breaks(seen, col, fl, tail, g) {
        seq!['\n'] + cont_text(g)
    } else if seen == 0 {
        seq![]
    } else {
        seq![' ']
    };
    assert(arg_piece(c, seen, last, col, g) == sep + emit_spec(c, col_after(col, sep, g.iw), g)
        + if last {
        seq![]
    } else {
        seq![',']
    });
}

/// A wrapped binary chain breaks lines only before an operator: each
/// `operator operand` pair is led by the operator between spaces, or by a
/// line break, the continuation indentation and the operator.
pub proof fn chains_break_before_operators(op: Seq<char>, r: Node, col: usize, g: Geom, outer: bool)
    ensures
        exists|lead: Seq<char>|
            {
                &&& #[trigger] pair_spec(op, r, col, g, outer) == lead + emit_spec(
                    r,
                    col_after(col, lead, g.iw),
                    g,
                )
                &&& lead == seq![' '] + op + seq![' '] || lead == seq!['\n'] + cont_text(g) + op
                    + seq![' ']
            },
{
    let fl = first_line_len(flat(r));
    let tail = if outer {
        sat_add(1, g.eol_reserve)
    } else {
        0
    };
    let same = sat_add(
        sat_add(sat_add(sat_add(sat_add(col, 1), op.len() as usize), 1), fl),
        tail,
    );
    let lead = if same > g.width && cont_col(g) < col {
        seq!['\n'] + cont_text(g) + op + seq![' ']
    } else {
        seq![' '] + op + seq![' ']
    };
    assert(pair_spec(op, r, col, g, outer) == lead + emit_spec(r, col_after(col, lead, g.iw), g));
}

// ---------------------------------------------------------------------------
// Emitters
// ---------------------------------------------------------------------------

impl Printer {
    /// The column a continuation line starts at.
    pub fn cont_col_exec(&self) -> (r: usize)
        ensures
            r == cont_col(self.geom()),
    {
        sat_mul_exec(self.indent.saturating_add(self.continuation_indent), self.indent_width)
    }

    pub fn emit_expr(&mut self, n: &Node)
        ensures
            final(self).output@ == old(self).output@ + emit_spec(
                *n,
                col_of(old(self).output@, old(self).indent_width),
                old(self).geom(),
            ),
            final(self).only_output_changed(*old(self)),
        decreases n, 3int,
    {
        let k = n.kind;
        if k == Kind::Identifier || k == Kind::Number || k == Kind::StringLiteral || k
            == Kind::Boolean || k == Kind::True || k == Kind::False {
            let t = chars_of(n.text.as_str());
            self.emit(t.as_slice());
        } else if k == Kind::MemberExpression || k == Kind::CallExpression || k
            == Kind::UnaryExpression {
            self.emit_items(k, &n.children);
        } else if k == Kind::BinaryExpression {
            self.emit_binary(n);
        } else if k == Kind::TernaryExpression {
            self.emit_ternary(n);
        } else if k == Kind::ParenthesizedExpression {
            let ghost out0 = self.output@;
            self.emit_char('(');
            proof {
                lemma_col_of_add(out0, seq!['('], self.indent_width);
            }
            self.emit_items(k, &n.children);
            self.emit_char(')');
            assert(self.output@ =~= out0 + emit_spec(
                *n,
                col_of(out0, self.indent_width),
                self.geom(),
            ));
        } else {
            let t = chars_of(n.text.as_str());
            let e = trim_end_len_exec(t.as_slice());
            let tt = sub_vec(t.as_slice(), 0, e);
            self.emit(tt.as_slice());
        }
    }

    pub fn emit_items(&mut self, pk: Kind, items: &Vec<Node>)
        ensures
            final(self).output@ == old(self).output@ + items_spec(
                pk,
                items@,
                col_of(old(self).output@, old(self).indent_width),
                old(self).geom(),
            ),
            final(self).only_output_changed(*old(self)),
        decreases items@, 0int,
    {
        let ghost p0 = *self;
        let ghost out0 = self.output@;
        let ghost g = self.geom();
        let ghost iw = self.indent_width;
        let mut i: usize = 0;
        assert(items@.skip(0) =~= items@);
        while i < items.len()
            invariant
                i <= items.len(),
                self.only_output_changed(p0),
                g == self.geom(),
                iw == self.indent_width,
                out0 + items_spec(pk, items@, col_of(out0, iw), g) == self.output@ + items_spec(
                    pk,
                    items@.skip(i as int),
                    col_of(self.output@, iw),
                    g,
                ),
            decreases items.len() - i,
        {
            assert(items@.skip(i as int)[0] == items@[i as int]);
            assert(items@.skip(i as int).drop_first() =~= items@.skip(i + 1));
            let ghost before = self.output@;
            self.emit_child(pk, &items[i]);
            proof {
                let a = child_spec(pk, items@[i as int], col_of(before, iw), g);
                lemma_col_of_add(before, a, iw);
                assert(self.output@ == before + a);
            }
            i += 1;
        }
        assert(items_spec(pk, items@.skip(i as int), col_of(self.output@, iw), g)
            =~= Seq::<char>::empty());
        assert(self.output@ + Seq::<char>::empty() =~= self.output@);
    }

    pub fn emit_child(&mut self, pk: Kind, c: &Node)
        ensures
            final(self).output@ == old(self).output@ + child_spec(
                pk,
                *c,
                col_of(old(self).output@, old(self).indent_width),
                old(self).geom(),
            ),
            final(self).only_output_changed(*old(self)),
        decreases c, 4int,
    {
        if kind_is_comment(c.kind) {
            assert(self.output@ + Seq::<char>::empty() =~= self.output@);
        } else if pk == Kind::CallExpression && c.kind == Kind::ArgumentList {
            self.emit_arg_list(c);
        } else if pk == Kind::MemberExpression && c.kind == Kind::Dot {
            self.emit_char('.');
        } else if pk == Kind::UnaryExpression && (c.kind == Kind::Minus || c.kind == Kind::Bang) {
            let t = chars_of(c.text.as_str());
            self.emit(t.as_slice());
        } else if pk == Kind::UnaryExpression && c.kind == Kind::Not {
            let t = ['n', 'o', 't', ' '];
            assert(t@ =~= seq!['n', 'o', 't', ' ']);
            self.emit(t.as_slice());
        } else if pk == Kind::ParenthesizedExpression && (c.kind == Kind::LParen || c.kind
            == Kind::RParen) {
            assert(self.output@ + Seq::<char>::empty() =~= self.output@);
        } else {
            self.emit_expr(c);
        }
    }

    pub fn emit_arg_list(&mut self, a: &Node)
        ensures
            final(self).output@ == old(self).output@ + arglist_spec(
                *a,
                col_of(old(self).output@, old(self).indent_width),
                old(self).geom(),
            ),
            final(self).only_output_changed(*old(self)),
        decreases a, 2int,
    {
        let start_col = self.current_col();
        let flat = arglist_flat_of(a);
        if self.exceeds_limit(start_col, flat.as_slice()) {
            let ghost out0 = self.output@;
            self.emit_char('(');
            proof {
                lemma_col_of_add(out0, seq!['('], self.indent_width);
            }
            self.emit_args(&a.children);
            self.emit_char(')');
            assert(self.output@ =~= out0 + arglist_spec(
                *a,
                col_of(out0, self.indent_width),
                self.geom(),
            ));
        } else {
            self.emit(flat.as_slice());
        }
    }

    /// Wrapped argument list body: greedy fill, continuation lines at the
    /// continuation indent, no trailing comma.
    pub fn emit_args(&mut self, items: &Vec<Node>)
        ensures
            final(self).output@ == old(self).output@ + args_spec(
                items@,
                0,
                col_of(old(self).output@, old(self).indent_width),
                old(self).geom(),
            ),
            final(self).only_output_changed(*old(self)),
        decreases items@, 0int,
    {
        let ghost p0 = *self;
        let ghost out0 = self.output@;
        let ghost g = self.geom();
        let ghost iw = self.indent_width;
        // Count the arguments.
        let mut n_args: usize = 0;
        let mut j: usize = 0;
        assert(items@.skip(0) =~= items@);
        while j < items.len()
            invariant
                j <= items.len(),
                n_args <= j,
                count_args(items@) == n_args + count_args(items@.skip(j as int)),
            decreases items.len() - j,
        {
            assert(items@.skip(j as int).drop_first() =~= items@.skip(j + 1));
            assert(items@.skip(j as int)[0] == items@[j as int]);
            let k = items[j].kind;
            if !(k == Kind::LParen || k == Kind::RParen || k == Kind::Comma || kind_is_comment(k)) {
                n_args += 1;
            }
            j += 1;
        }
        assert(count_args(items@.skip(j as int)) == 0);
        let mut seen: usize = 0;
        let mut i: usize = 0;
        while i < items.len()
            invariant
                i <= items.len(),
                seen <= n_args,
                count_args(items@) == n_args,
                count_args(items@.skip(i as int)) + seen == n_args,
                self.only_output_changed(p0),
                g == self.geom(),
                iw == self.indent_width,
                out0 + args_spec(items@, 0, col_of(out0, iw), g) == self.output@ + args_spec(
                    items@.skip(i as int),
                    seen as int,
                    col_of(self.output@, iw),
                    g,
                ),
            decreases items.len() - i,
        {
            assert(items@.skip(i as int)[0] == items@[i as int]);
            assert(items@.skip(i as int).drop_first() =~= items@.skip(i + 1));
            let arg = &items[i];
            let k = arg.kind;
            if !(k == Kind::LParen || k == Kind::RParen || k == Kind::Comma || kind_is_comment(k)) {
                let ghost before = self.output@;
                let last = seen + 1 == n_args;
                self.emit_arg(arg, seen, last);
                proof {
                    lemma_col_of_add(before, arg_piece(*arg, seen as int, last, col_of(before, iw), g), iw);
                }
                seen += 1;
            }
            i += 1;
        }
        assert(args_spec(items@.skip(i as int), seen as int, col_of(self.output@, iw), g)
            =~= Seq::<char>::empty());
        assert(self.output@ + Seq::<char>::empty() =~= self.output@);
    }

    pub fn emit_arg(&mut self, arg: &Node, seen: usize, last: bool)
        ensures
            final(self).output@ == old(self).output@ + arg_piece(
                *arg,
                seen as int,
                last,
                col_of(old(self).output@, old(self).indent_width),
                old(self).geom(),
            ),
            final(self).only_output_changed(*old(self)),
        decreases arg, 4int,
    {
        let ghost before = self.output@;
        let ghost g = self.geom();
        let ghost iw = self.indent_width;
        let flat = flat_of(arg);
        let first_line = nl_index_exec(flat.as_slice());
        let tail: usize = if last {
            1usize.saturating_add(self.eol_reserve)
        } else {
            1
        };
        let col = self.current_col();
        let cont_col = self.cont_col_exec();
        let brk = if seen == 0 {
            col.saturating_add(first_line).saturating_add(tail) > self.width && cont_col < col
        } else {
            col.saturating_add(1).saturating_add(first_line).saturating_add(tail) > self.width
                && cont_col < col
        };
        assert(brk == arg_breaks(seen as int, col, first_line, tail, g));
        if brk {
            self.emit_newline();
            self.emit_continuation_indent();
        } else if seen > 0 {
            self.emit_char(' ');
        }
        let ghost sep = if brk {
            seq!['\n'] + cont_text(g)
        } else if seen == 0 {
            seq![]
        } else {
            seq![' ']
        };
        assert(self.output@ =~= before + sep);
        proof {
            lemma_col_of_add(before, sep, iw);
        }
        let ghost mid = self.output@;
        self.emit_expr(arg);
        let ghost e = emit_spec(*arg, col_of(mid, iw), g);
        let ghost mid2 = self.output@;
        if !last {
            self.emit_char(',');
        }
        let ghost comma = if last {
            seq![]
        } else {
            seq![',']
        };
        assert(self.output@ =~= mid2 + comma);
        assert(self.output@ =~= before + (sep + e + comma));
    }

    pub fn emit_binary(&mut self, n: &Node)
        ensures
            final(self).output@ == old(self).output@ + binary_spec(
                *n,
                col_of(old(self).output@, old(self).indent_width),
                old(self).geom(),
            ),
            final(self).only_output_changed(*old(self)),
        decreases n, 2int,
    {
        let start_col = self.current_col();
        let flat = flat_of(n);
        if self.exceeds_limit(start_col, flat.as_slice()) && count_nc_exec(&n.children) >= 3 {
            self.emit_chain(n, true);
        } else {
            self.emit(flat.as_slice());
        }
    }

    pub fn emit_chain(&mut self, n: &Node, outer: bool)
        requires
            count_nc(n.children@) >= 3,
        ensures
            final(self).output@ == old(self).output@ + chain_spec(
                *n,
                col_of(old(self).output@, old(self).indent_width),
                old(self).geom(),
                outer,
            ),
            final(self).only_output_changed(*old(self)),
        decreases n, 1int,
    {
        proof {
            lemma_nc_index(n.children@, 0);
            lemma_nc_index(n.children@, 1);
            lemma_nc_index(n.children@, 2);
        }
        let ghost out0 = self.output@;
        let ghost iw = self.indent_width;
        let ghost g = self.geom();
        let i0 = nc_index_exec(&n.children, 0);
        let i1 = nc_index_exec(&n.children, 1);
        let i2 = nc_index_exec(&n.children, 2);
        let left = &n.children[i0];
        let op = &n.children[i1];
        let right = &n.children[i2];
        let mut cont = false;
        if left.kind == Kind::BinaryExpression && count_nc_exec(&left.children) >= 3 {
            let li = nc_index_exec(&left.children, 1);
            proof {
                lemma_nc_index(left.children@, 1);
            }
            let lt = chars_of(left.children[li].text.as_str());
            let ot = chars_of(op.text.as_str());
            assert(lt@ == binary_op_text(*left));
            cont = op_prec_exec(lt.as_slice()) == op_prec_exec(ot.as_slice());
        }
        assert(cont == chain_continues(*n));
        if cont {
            self.emit_chain(left, false);
        } else {
            self.emit_expr(left);
        }
        let ghost head = if cont {
            chain_spec(*left, col_of(out0, iw), g, false)
        } else {
            emit_spec(*left, col_of(out0, iw), g)
        };
        proof {
            lemma_col_of_add(out0, head, iw);
        }
        self.emit_pair(op, right, outer);
        assert(self.output@ =~= out0 + chain_spec(*n, col_of(out0, iw), g, outer));
    }

    pub fn emit_pair(&mut self, op: &Node, r: &Node, outer: bool)
        ensures
            final(self).output@ == old(self).output@ + pair_spec(
                op.text@,
                *r,
                col_of(old(self).output@, old(self).indent_width),
                old(self).geom(),
                outer,
            ),
            final(self).only_output_changed(*old(self)),
        decreases r, 4int,
    {
        let ghost out0 = self.output@;
        let ghost iw = self.indent_width;
        let ghost g = self.geom();
        let op_text = chars_of(op.text.as_str());
        let flat = flat_of(r);
        let first_line = nl_index_exec(flat.as_slice());
        let tail: usize = if outer {
            1usize.saturating_add(self.eol_reserve)
        } else {
            0
        };
        let col = self.current_col();
        let same = col.saturating_add(1).saturating_add(op_text.len()).saturating_add(
            1,
        ).saturating_add(first_line).saturating_add(tail);
        let brk = same > self.width && self.cont_col_exec() < col;
        if brk {
            self.emit_newline();
            self.emit_continuation_indent();
            self.emit(op_text.as_slice());
            self.emit_char(' ');
        } else {
            self.emit_char(' ');
            self.emit(op_text.as_slice());
            self.emit_char(' ');
        }
        let ghost lead = if brk {
            seq!['\n'] + cont_text(g) + op.text@ + seq![' ']
        } else {
            seq![' '] + op.text@ + seq![' ']
        };
        assert(self.output@ =~= out0 + lead);
        proof {
            lemma_col_of_add(out0, lead, iw);
        }
        self.emit_expr(r);
        assert(self.output@ =~= out0 + pair_spec(op.text@, *r, col_of(out0, iw), g, outer));
    }

    pub fn emit_ternary(&mut self, n: &Node)
        ensures
            final(self).output@ == old(self).output@ + ternary_spec(
                *n,
                col_of(old(self).output@, old(self).indent_width),
                old(self).geom(),
            ),
            final(self).only_output_changed(*old(self)),
        decreases n, 2int,
    {
        let start_col = self.current_col();
        let flat = flat_of(n);
        if self.exceeds_limit(start_col, flat.as_slice()) {
            self.emit_tern_items(&n.children);
        } else {
            self.emit(flat.as_slice());
        }
    }

    pub fn emit_tern_items(&mut self, items: &Vec<Node>)
        ensures
            final(self).output@ == old(self).output@ + tern_spec(
                items@,
                col_of(old(self).output@, old(self).indent_width),
                old(self).geom(),
            ),
            final(self).only_output_changed(*old(self)),
        decreases items@, 0int,
    {
        let ghost p0 = *self;
        let ghost out0 = self.output@;
        let ghost g = self.geom();
        let ghost iw = self.indent_width;
        let mut i: usize = 0;
        assert(items@.skip(0) =~= items@);
        while i < items.len()
            invariant
                i <= items.len(),
                self.only_output_changed(p0),
                g == self.geom(),
                iw == self.indent_width,
                out0 + tern_spec(items@, col_of(out0, iw), g) == self.output@ + tern_spec(
                    items@.skip(i as int),
                    col_of(self.output@, iw),
                    g,
                ),
            decreases items.len() - i,
        {
            assert(items@.skip(i as int)[0] == items@[i as int]);
            assert(items@.skip(i as int).drop_first() =~= items@.skip(i + 1));
            let ghost before = self.output@;
            let c = &items[i];
            if c.kind == Kind::Question || c.kind == Kind::Colon {
                let mark = if c.kind == Kind::Question {
                    '?'
                } else {
                    ':'
                };
                if self.cont_col_exec() < self.current_col() {
                    self.emit_newline();
                    self.emit_continuation_indent();
                } else {
                    self.emit_char(' ');
                }
                self.emit_char(mark);
                self.emit_char(' ');
            } else if kind_is_comment(c.kind) {
            } else {
                self.emit_expr(c);
            }
            proof {
                let a = if c.kind == Kind::Question || c.kind == Kind::Colon {
                    let mark = if c.kind == Kind::Question {
                        '?'
                    } else {
                        ':'
                    };
                    if cont_col(g) < col_of(before, iw) {
                        seq!['\n'] + cont_text(g) + seq![mark, ' ']
                    } else {
                        seq![' ', mark, ' ']
                    }
                } else if is_comment(c.kind) {
                    seq![]
                } else {
                    emit_spec(*c, col_of(before, iw), g)
                };
                assert(self.output@ =~= before + a);
                lemma_col_of_add(before, a, iw);
            }
            i += 1;
        }
        assert(tern_spec(items@.skip(i as int), col_of(self.output@, iw), g)
            =~= Seq::<char>::empty());
        assert(self.output@ + Seq::<char>::empty() =~= self.output@);
    }
}

} // verus!
