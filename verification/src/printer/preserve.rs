//! Printing keeps the tokens: what each statement printer appends holds,
//! in order, the statement's tokens interleaved with the comments it
//! consumes, and the whole-output passes add and remove only whitespace.

use vstd::prelude::*;
use super::infra::{
    bc_rest, comment_text, eol_pending, eol_rendered, eol_st,
    flush_all_st, gap_st, inject_st, javadoc_open, line_open, own_line_st,
};
use super::control::{child_of_kind, pending_before};
use super::tokens::{
    code, code_list, group_tokens, is_leaf, lemma_cont_ws, lemma_emit, lemma_nws_one,
    lemma_nws_trim, lemma_nws_ws, nws, spelled, expr_ok, verbatim_ok,
};
use super::{Cfg, St, app, col_of, cont_text, geom_of, indent_text};
use super::control::{
    block_st, cond_st, else_item_st, else_items_st, else_st, expand_item_st, expand_items_st,
    expand_st, if_item_st, if_items_st, if_st, is_item_st, is_items_st, is_st, lead_then_st,
    open_st, when_item_st, when_items_st, when_st,
};
use super::expressions::emit_spec;
use super::statements::{
    assign_item_st, assign_items_st, expr_item_st, expr_items_st, expr_st, idents_text, ind_st,
    local_item_st, local_items_st, stmt_line_st, stmt_lines_st, stmt_st, type_ann_text, value_st,
};
use crate::cst::{Cst, Kind, Node, is_comment};
use crate::trivia::trivia_of;
use crate::FormatOptions;
use super::{cfg_of, normalized_output, print_spec, printed, start_st};
use super::normalize::{
    all_slashes, blank_after_top_when, reflow_comments, reflow_drops_no_line, reflow_only_adds_slashes,
    strip_brace_blanks,
};
use crate::text::{
    all_ws, is_ws, join_lines, lemma_nl_index_bound, nl_index, split_lines, starts_with, trim,
    trim_end, trim_start,
};
use crate::trivia::{line_comment_norm, slashes};

verus! {

// ---------------------------------------------------------------------------
// Interleavings
// ---------------------------------------------------------------------------

/// `x` interleaves `a` and `b`: both appear in `x` in their own order, and
/// nothing else does.
pub open spec fn shuffle(x: Seq<char>, a: Seq<char>, b: Seq<char>) -> bool
    decreases x.len(),
{
    if x.len() == 0 {
        a.len() == 0 && b.len() == 0
    } else {
        (a.len() > 0 && x[0] == a[0] && shuffle(x.drop_first(), a.drop_first(), b)) || (b.len() > 0
            && x[0] == b[0] && shuffle(x.drop_first(), a, b.drop_first()))
    }
}

pub proof fn lemma_shuffle_left(x: Seq<char>)
    ensures
        shuffle(x, x, Seq::<char>::empty()),
    decreases x.len(),
{
    if x.len() > 0 {
        lemma_shuffle_left(x.drop_first());
    }
}

pub proof fn lemma_shuffle_right(x: Seq<char>)
    ensures
        shuffle(x, Seq::<char>::empty(), x),
    decreases x.len(),
{
    if x.len() > 0 {
        lemma_shuffle_right(x.drop_first());
    }
}

pub proof fn lemma_shuffle_cat(x1: Seq<char>, a1: Seq<char>, b1: Seq<char>, x2: Seq<char>, a2: Seq<char>, b2: Seq<char>)
    requires
        shuffle(x1, a1, b1),
        shuffle(x2, a2, b2),
    ensures
        shuffle(x1 + x2, a1 + a2, b1 + b2),
    decreases x1.len(),
{
    if x1.len() == 0 {
        assert(x1 + x2 =~= x2);
        assert(a1 + a2 =~= a2);
        assert(b1 + b2 =~= b2);
    } else {
        assert((x1 + x2).drop_first() =~= x1.drop_first() + x2);
        assert((x1 + x2)[0] == x1[0]);
        if a1.len() > 0 && x1[0] == a1[0] && shuffle(x1.drop_first(), a1.drop_first(), b1) {
            lemma_shuffle_cat(x1.drop_first(), a1.drop_first(), b1, x2, a2, b2);
            assert((a1 + a2).drop_first() =~= a1.drop_first() + a2);
            assert((a1 + a2)[0] == a1[0]);
        } else {
            lemma_shuffle_cat(x1.drop_first(), a1, b1.drop_first(), x2, a2, b2);
            assert((b1 + b2).drop_first() =~= b1.drop_first() + b2);
            assert((b1 + b2)[0] == b1[0]);
        }
    }
}

// ---------------------------------------------------------------------------
// Comments keep their characters
// ---------------------------------------------------------------------------

/// The non-whitespace characters of the comments `i .. j`, in order.
pub open spec fn comment_chars(c: Cfg, i: int, j: int) -> Seq<char>
    decreases j - i,
{
    if i >= j || i < 0 || j > c.trivia.len() {
        seq![]
    } else {
        nws(c.trivia[i].text@) + comment_chars(c, i + 1, j)
    }
}

proof fn lemma_comment_chars_cat(c: Cfg, i: int, j: int, k: int)
    requires
        0 <= i <= j <= k <= c.trivia.len(),
    ensures
        comment_chars(c, i, j) + comment_chars(c, j, k) == comment_chars(c, i, k),
    decreases j - i,
{
    broadcast use group_tokens;

    if i < j {
        lemma_comment_chars_cat(c, i + 1, j, k);
        assert(comment_chars(c, i, j) + comment_chars(c, j, k) =~= nws(c.trivia[i].text@) + (
        comment_chars(c, i + 1, j) + comment_chars(c, j, k)));
    } else {
        assert(comment_chars(c, i, j) == Seq::<char>::empty());
    }
}

proof fn lemma_nws_join(ls: Seq<Seq<char>>)
    ensures
        nws(join_lines(ls)) == nws_lines(ls),
    decreases ls.len(),
{
    broadcast use group_tokens;

    lemma_nws_one('\n');
    assert(nws_lines(Seq::<Seq<char>>::empty()) == Seq::<char>::empty());
    assert(nws(Seq::<char>::empty()) == Seq::<char>::empty());
    if ls.len() > 1 {
        lemma_nws_join(ls.drop_first());
        assert(join_lines(ls) == ls[0] + seq!['\n'] + join_lines(ls.drop_first()));
    } else if ls.len() == 1 {
        assert(ls.drop_first() =~= Seq::<Seq<char>>::empty());
        assert(join_lines(ls) == ls[0]);
    }
}

/// The non-whitespace characters of the lines `ls`.
pub open spec fn nws_lines(ls: Seq<Seq<char>>) -> Seq<char>
    decreases ls.len(),
{
    if ls.len() == 0 {
        seq![]
    } else {
        nws(ls[0]) + nws_lines(ls.drop_first())
    }
}

proof fn lemma_join_split(s: Seq<char>)
    ensures
        join_lines(split_lines(s)) == s,
    decreases s.len(),
{
    lemma_nl_index_bound(s);
    let k = nl_index(s);
    if k < s.len() {
        lemma_join_split(s.skip(k + 1));
        let rest = split_lines(s.skip(k + 1));
        assert(rest.len() >= 1) by {
            lemma_nl_index_bound(s.skip(k + 1));
        }
        assert(split_lines(s) == seq![s.take(k)] + rest);
        assert((seq![s.take(k)] + rest).drop_first() =~= rest);
        assert(s =~= s.take(k) + seq!['\n'] + s.skip(k + 1));
    } else {
        assert(s.take(k) =~= s);
    }
}

proof fn lemma_bc_rest(ls: Seq<Seq<char>>, ind: Seq<char>, jd: bool)
    requires
        nws(ind) == Seq::<char>::empty(),
    ensures
        nws(bc_rest(ls, ind, jd)) == nws_lines(ls),
    decreases ls.len(),
{
    broadcast use group_tokens;

    lemma_nws_one('\n');
    lemma_nws_one(' ');
    if ls.len() > 0 {
        lemma_bc_rest(ls.drop_first(), ind, jd);
        let l = ls[0];
        lemma_nws_trim(l);
        lemma_nws_trim(trim_start(l));
        if !(jd && trim_start(l).len() > 0 && trim_start(l)[0] == '*') && all_ws(l) {
            lemma_nws_ws(l);
        }
    }
}

/// A comment as printed has the comment's characters.
pub proof fn lemma_comment_text(t: Seq<char>, ind: Seq<char>)
    requires
        nws(ind) == Seq::<char>::empty(),
    ensures
        nws(comment_text(t, ind)) == nws(t),
        nws(eol_rendered(t)) == nws(t),
{
    broadcast use group_tokens;

    lemma_nws_trim(t);
    if starts_with(t, line_open()) {
        lemma_line_norm(t);
    } else {
        let ls = split_lines(t);
        lemma_join_split(t);
        lemma_nws_join(ls);
        lemma_bc_rest(ls.drop_first(), ind, starts_with(t, javadoc_open()));
        lemma_nl_index_bound(t);
        assert(ls.len() > 0);
        lemma_nws_trim(ls[0]);
        assert(nws_lines(ls) == nws(ls[0]) + nws_lines(ls.drop_first()));
    }
}

proof fn lemma_line_norm(t: Seq<char>)
    requires
        starts_with(t, line_open()),
    ensures
        nws(line_comment_norm(t)) == nws(t),
{
    let body = t.skip(2);
    let sl = seq!['/', '/'];
    assert(t.take(2) == sl);
    assert(t =~= sl + body);
    assert(starts_with(t, slashes()));
    super::tokens::lemma_nws_add(sl, body);
    lemma_nws_trim(body);
    lemma_nws_trim(trim_end(body));
    let tb = trim(body);
    assert(nws(tb) == nws(body));
    lemma_nws_one('/');
    lemma_nws_one(' ');
    assert(sl =~= seq!['/'] + seq!['/']);
    super::tokens::lemma_nws_add(seq!['/'], seq!['/']);
    if tb.len() == 0 {
        assert(line_comment_norm(t) == sl);
        assert(nws(tb) == Seq::<char>::empty());
        assert(nws(t) =~= nws(sl));
    } else {
        assert(line_comment_norm(t) == sl + seq![' '] + tb);
        super::tokens::lemma_nws_add(sl, seq![' ']);
        super::tokens::lemma_nws_add(sl + seq![' '], tb);
        assert(nws(sl + seq![' ']) =~= nws(sl));
    }
}

// ---------------------------------------------------------------------------
// States
// ---------------------------------------------------------------------------

/// From `s0` to `s1` the printer only appended, consumed comments in order,
/// and what it appended interleaves `tokens` with those comments'
/// characters (whitespace aside).
pub open spec fn keeps(s0: St, s1: St, c: Cfg, tokens: Seq<char>) -> bool {
    &&& 0 <= s0.tpos <= s1.tpos <= c.trivia.len()
    &&& s0.out.len() <= s1.out.len()
    &&& s1.out.take(s0.out.len() as int) == s0.out
    &&& shuffle(
        nws(s1.out.skip(s0.out.len() as int)),
        tokens,
        comment_chars(c, s0.tpos, s1.tpos),
    )
}

pub proof fn lemma_keeps_trans(s0: St, s1: St, s2: St, c: Cfg, a: Seq<char>, b: Seq<char>)
    requires
        keeps(s0, s1, c, a),
        keeps(s1, s2, c, b),
    ensures
        keeps(s0, s2, c, a + b),
{
    broadcast use group_tokens;

    let d1 = s1.out.skip(s0.out.len() as int);
    let d2 = s2.out.skip(s1.out.len() as int);
    assert(s2.out.take(s0.out.len() as int) =~= s1.out.take(s0.out.len() as int));
    assert(s2.out.skip(s0.out.len() as int) =~= d1 + d2);
    lemma_comment_chars_cat(c, s0.tpos, s1.tpos, s2.tpos);
    lemma_shuffle_cat(
        nws(d1),
        a,
        comment_chars(c, s0.tpos, s1.tpos),
        nws(d2),
        b,
        comment_chars(c, s1.tpos, s2.tpos),
    );
}

/// Appending text keeps its non-whitespace characters as tokens.
pub proof fn lemma_keeps_app(s: St, c: Cfg, t: Seq<char>)
    requires
        0 <= s.tpos <= c.trivia.len(),
    ensures
        keeps(s, app(s, t), c, nws(t)),
{
    broadcast use group_tokens;

    assert((s.out + t).take(s.out.len() as int) =~= s.out);
    assert((s.out + t).skip(s.out.len() as int) =~= t);
    assert(comment_chars(c, s.tpos, s.tpos) == Seq::<char>::empty());
    lemma_shuffle_left(nws(t));
}

/// A state whose output and comment cursor did not move.
pub proof fn lemma_keeps_same(s: St, s1: St, c: Cfg)
    requires
        0 <= s.tpos <= c.trivia.len(),
        s1.out == s.out,
        s1.tpos == s.tpos,
    ensures
        keeps(s, s1, c, Seq::<char>::empty()),
{
    lemma_keeps_app(s, c, Seq::<char>::empty());
    assert(app(s, Seq::<char>::empty()).out =~= s.out);
    lemma_nws_ws(Seq::<char>::empty());
}

proof fn lemma_keeps_refl(s: St, c: Cfg)
    requires
        0 <= s.tpos <= c.trivia.len(),
    ensures
        keeps(s, s, c, Seq::<char>::empty()),
{
    lemma_keeps_same(s, s, c);
}

pub proof fn lemma_gap(s: St, c: Cfg, line: usize)
    requires
        0 <= s.tpos <= c.trivia.len(),
    ensures
        keeps(s, gap_st(s, line), c, Seq::<char>::empty()),
        gap_st(s, line).tpos == s.tpos,
        gap_st(s, line).indent == s.indent,
{
    match s.prev {
        Some(p) => if line > p && line - p > 1 {
            let t = crate::text::repeat_char('\n', (line - p - 1) as nat);
            assert forall|i: int| 0 <= i < t.len() implies is_ws(#[trigger] t[i]) by {
                assert(t[i] == '\n');
            }
            lemma_nws_ws(t);
            lemma_keeps_app(s, c, t);
        } else {
            lemma_keeps_refl(s, c);
        },
        None => lemma_keeps_refl(s, c),
    }
}

/// Printing the next comment on its own line consumes it.
proof fn lemma_own_line(s: St, c: Cfg)
    requires
        0 <= s.tpos < c.trivia.len(),
    ensures
        keeps(
            s,
            St { tpos: s.tpos + 1, ..own_line_st(s, c, c.trivia[s.tpos]) },
            c,
            Seq::<char>::empty(),
        ),
{
    broadcast use group_tokens;

    let item = c.trivia[s.tpos];
    let s1 = gap_st(s, item.source_line);
    lemma_gap(s, c, item.source_line);
    let ind = indent_text(geom_of(s1, c));
    lemma_cont_ws(geom_of(s1, c));
    lemma_comment_text(item.text@, ind);
    lemma_nws_one('\n');
    let t = ind + comment_text(item.text@, ind) + seq!['\n'];
    let s3 = St { tpos: s.tpos + 1, ..own_line_st(s, c, item) };
    assert(s3.out == s1.out + t);
    let d = s3.out.skip(s.out.len() as int);
    assert(s1.out.take(s.out.len() as int) == s.out);
    assert(s3.out.take(s.out.len() as int) =~= s.out);
    assert(d =~= s1.out.skip(s.out.len() as int) + t);
    assert(nws(s1.out.skip(s.out.len() as int)) == Seq::<char>::empty()) by {
        assert(comment_chars(c, s.tpos, s.tpos) == Seq::<char>::empty());
        lemma_shuffle_empty(nws(s1.out.skip(s.out.len() as int)));
    }
    assert(comment_chars(c, s.tpos, s.tpos + 1) == nws(item.text@)) by {
        assert(comment_chars(c, s.tpos + 1, s.tpos + 1) == Seq::<char>::empty());
    }
    lemma_shuffle_right(nws(item.text@));
}

/// Only the empty text interleaves two empty texts.
proof fn lemma_shuffle_empty(x: Seq<char>)
    requires
        shuffle(x, Seq::<char>::empty(), Seq::<char>::empty()),
    ensures
        x == Seq::<char>::empty(),
{
}

pub proof fn lemma_inject(s: St, c: Cfg, before: usize)
    requires
        0 <= s.tpos <= c.trivia.len(),
    ensures
        keeps(s, inject_st(s, c, before), c, Seq::<char>::empty()),
        inject_st(s, c, before).indent == s.indent,
    decreases c.trivia.len() - s.tpos,
{
    broadcast use group_tokens;

    if 0 <= s.tpos < c.trivia.len() && c.trivia[s.tpos].byte_offset < before {
        let s1 = St { tpos: s.tpos + 1, ..own_line_st(s, c, c.trivia[s.tpos]) };
        lemma_own_line(s, c);
        lemma_inject(s1, c, before);
        lemma_keeps_trans(s, s1, inject_st(s1, c, before), c, Seq::<char>::empty(), Seq::<char>::empty());
    } else {
        lemma_keeps_refl(s, c);
    }
}

pub proof fn lemma_flush_all(s: St, c: Cfg)
    requires
        0 <= s.tpos <= c.trivia.len(),
    ensures
        keeps(s, flush_all_st(s, c), c, Seq::<char>::empty()),
        flush_all_st(s, c).tpos == c.trivia.len(),
    decreases c.trivia.len() - s.tpos,
{
    broadcast use group_tokens;

    if 0 <= s.tpos < c.trivia.len() {
        let s1 = St { tpos: s.tpos + 1, ..own_line_st(s, c, c.trivia[s.tpos]) };
        lemma_own_line(s, c);
        lemma_flush_all(s1, c);
        lemma_keeps_trans(s, s1, flush_all_st(s1, c), c, Seq::<char>::empty(), Seq::<char>::empty());
    } else {
        lemma_keeps_refl(s, c);
    }
}

pub proof fn lemma_eol(s: St, c: Cfg, el: usize, eb: usize, ns: usize)
    requires
        0 <= s.tpos <= c.trivia.len(),
    ensures
        keeps(s, eol_st(s, c, el, eb, ns), c, Seq::<char>::empty()),
        eol_st(s, c, el, eb, ns).indent == s.indent,
{
    broadcast use group_tokens;

    if eol_pending(s, c, el, eb, ns) {
        let item = c.trivia[s.tpos];
        let t = seq![' ', ' '] + eol_rendered(item.text@);
        lemma_comment_text(item.text@, Seq::<char>::empty());
        lemma_nws_one(' ');
        assert(seq![' ', ' '] =~= seq![' '] + seq![' ']);
        let s1 = St { tpos: s.tpos + 1, ..s };
        let s2 = eol_st(s, c, el, eb, ns);
        assert(s2 == app(s1, t));
        assert(s2.out.take(s.out.len() as int) =~= s.out);
        assert(s2.out.skip(s.out.len() as int) =~= t);
        assert(comment_chars(c, s.tpos, s.tpos + 1) == nws(item.text@)) by {
            assert(comment_chars(c, s.tpos + 1, s.tpos + 1) == Seq::<char>::empty());
        }
        lemma_shuffle_right(nws(item.text@));
    } else {
        lemma_keeps_refl(s, c);
    }
}

/// The non-whitespace characters of the fixed texts the printer writes.
pub proof fn lemma_nws_lits()
    ensures
        nws(seq!['s', 't', 'a', 't', 'i', 'c', ' ']) == seq!['s', 't', 'a', 't', 'i', 'c'],
        nws(seq!['l', 'o', 'c', 'a', 'l']) == seq!['l', 'o', 'c', 'a', 'l'],
        nws(seq![' ', '=', ' ']) == seq!['='],
        nws(seq![';']) == seq![';'],
        nws(seq!['i', 'f', ' ', '(']) == seq!['i', 'f', '('],
        nws(seq![')']) == seq![')'],
        nws(seq!['e', 'l', 's', 'e']) == seq!['e', 'l', 's', 'e'],
        nws(seq![' ', 'e', 'l', 's', 'e']) == seq!['e', 'l', 's', 'e'],
        nws(seq!['w', 'h', 'e', 'n', ' ', '(']) == seq!['w', 'h', 'e', 'n', '('],
        nws(seq!['i', 's', ' ', '(']) == seq!['i', 's', '('],
        nws(seq!['e', 'x', 'p', 'a', 'n', 'd', ' ', '(']) == seq!['e', 'x', 'p', 'a', 'n', 'd', '('],
        nws(seq![' ', 't', 'o', ' ']) == seq!['t', 'o'],
        nws(seq!['{']) == seq!['{'],
        nws(seq![' ', '{']) == seq!['{'],
        nws(seq!['}']) == seq!['}'],
        nws(seq![' ']) == Seq::<char>::empty(),
        nws(seq!['\n']) == Seq::<char>::empty(),
        nws(seq!['<']) == seq!['<'],
        nws(seq!['>']) == seq!['>'],
{
    broadcast use group_tokens;

    lemma_nws_one('}');
    lemma_nws_one('{');
    lemma_nws_one('x');
    lemma_nws_one('w');
    lemma_nws_one('t');
    lemma_nws_one('s');
    lemma_nws_one('p');
    lemma_nws_one('o');
    lemma_nws_one('n');
    lemma_nws_one('l');
    lemma_nws_one('i');
    lemma_nws_one('h');
    lemma_nws_one('f');
    lemma_nws_one('e');
    lemma_nws_one('d');
    lemma_nws_one('c');
    lemma_nws_one('a');
    lemma_nws_one('>');
    lemma_nws_one('=');
    lemma_nws_one('<');
    lemma_nws_one(';');
    lemma_nws_one(')');
    lemma_nws_one('(');
    lemma_nws_one(' ');
    lemma_nws_one('\n');
    assert(seq!['s', 't', 'a', 't', 'i', 'c', ' '] =~= seq!['s'] + seq!['t'] + seq!['a'] + seq!['t'] + seq!['i'] + seq!['c'] + seq![' ']);
    assert(seq!['s', 't', 'a', 't', 'i', 'c'] =~= seq!['s'] + seq!['t'] + seq!['a'] + seq!['t'] + seq!['i'] + seq!['c']);
    assert(seq!['l', 'o', 'c', 'a', 'l'] =~= seq!['l'] + seq!['o'] + seq!['c'] + seq!['a'] + seq!['l']);
    assert(seq!['l', 'o', 'c', 'a', 'l'] =~= seq!['l'] + seq!['o'] + seq!['c'] + seq!['a'] + seq!['l']);
    assert(seq![' ', '=', ' '] =~= seq![' '] + seq!['='] + seq![' ']);
    assert(seq![';'] =~= seq![';']);
    assert(seq!['i', 'f', ' ', '('] =~= seq!['i'] + seq!['f'] + seq![' '] + seq!['(']);
    assert(seq!['i', 'f', '('] =~= seq!['i'] + seq!['f'] + seq!['(']);
    assert(seq![')'] =~= seq![')']);
    assert(seq!['e', 'l', 's', 'e'] =~= seq!['e'] + seq!['l'] + seq!['s'] + seq!['e']);
    assert(seq!['e', 'l', 's', 'e'] =~= seq!['e'] + seq!['l'] + seq!['s'] + seq!['e']);
    assert(seq![' ', 'e', 'l', 's', 'e'] =~= seq![' '] + seq!['e'] + seq!['l'] + seq!['s'] + seq!['e']);
    assert(seq!['e', 'l', 's', 'e'] =~= seq!['e'] + seq!['l'] + seq!['s'] + seq!['e']);
    assert(seq!['w', 'h', 'e', 'n', ' ', '('] =~= seq!['w'] + seq!['h'] + seq!['e'] + seq!['n'] + seq![' '] + seq!['(']);
    assert(seq!['w', 'h', 'e', 'n', '('] =~= seq!['w'] + seq!['h'] + seq!['e'] + seq!['n'] + seq!['(']);
    assert(seq!['i', 's', ' ', '('] =~= seq!['i'] + seq!['s'] + seq![' '] + seq!['(']);
    assert(seq!['i', 's', '('] =~= seq!['i'] + seq!['s'] + seq!['(']);
    assert(seq!['e', 'x', 'p', 'a', 'n', 'd', ' ', '('] =~= seq!['e'] + seq!['x'] + seq!['p'] + seq!['a'] + seq!['n'] + seq!['d'] + seq![' '] + seq!['(']);
    assert(seq!['e', 'x', 'p', 'a', 'n', 'd', '('] =~= seq!['e'] + seq!['x'] + seq!['p'] + seq!['a'] + seq!['n'] + seq!['d'] + seq!['(']);
    assert(seq![' ', 't', 'o', ' '] =~= seq![' '] + seq!['t'] + seq!['o'] + seq![' ']);
    assert(seq!['t', 'o'] =~= seq!['t'] + seq!['o']);
    assert(seq!['{'] =~= seq!['{']);
    assert(seq![' ', '{'] =~= seq![' '] + seq!['{']);
    assert(seq!['}'] =~= seq!['}']);
    assert(seq![' '] =~= seq![' ']);
    assert(seq!['\n'] =~= seq!['\n']);
    assert(seq!['<'] =~= seq!['<']);
    assert(seq!['>'] =~= seq!['>']);
}

// ---------------------------------------------------------------------------
// Statements in shape
// ---------------------------------------------------------------------------

/// A statement has the parser's shape.
pub open spec fn stmt_ok(n: Node) -> bool
    decreases n, 6int,
{
    let s = n.children@;
    if n.kind == Kind::LocalDeclaration {
        s.len() > 0 && local_ok(s, false)
    } else if n.kind == Kind::AssignmentStatement {
        s.len() > 0 && assign_ok(s)
    } else if n.kind == Kind::ExpressionStatement {
        s.len() > 0 && exprstmt_ok(s)
    } else if n.kind == Kind::IfStatement {
        if_ok(n)
    } else if n.kind == Kind::WhenStatement {
        s.len() >= 2 && s[0].kind == Kind::When && spelled(s[0], seq!['w', 'h', 'e', 'n'])
            && s[1].kind == Kind::LParen && spelled(s[1], seq!['(']) && when_rest_ok(
            s.drop_first().drop_first(),
            false,
        )
    } else if n.kind == Kind::ExpandStatement {
        s.len() >= 2 && s[0].kind == Kind::Expand && spelled(
            s[0],
            seq!['e', 'x', 'p', 'a', 'n', 'd'],
        ) && s[1].kind == Kind::LParen && spelled(s[1], seq!['(']) && expand_rest_ok(
            s.drop_first().drop_first(),
        )
    } else if n.kind == Kind::Block {
        block_ok(n)
    } else if n.kind == Kind::EmptyStatement {
        code(n) == seq![';']
    } else {
        verbatim_ok(n)
    }
}

/// Statements (and comments) of a statement list.
pub open spec fn stmts_ok(s: Seq<Node>) -> bool
    decreases s, 0int,
{
    s.len() == 0 || ((is_comment(s[0].kind) || stmt_ok(s[0])) && stmts_ok(s.drop_first()))
}

/// `{`, statements, `}`.
pub open spec fn block_ok(b: Node) -> bool
    decreases b, 5int,
{
    let s = b.children@;
    s.len() >= 2 && s[0].kind == Kind::LBrace && spelled(s[0], seq!['{']) && block_rest_ok(
        s.drop_first(),
    )
}

/// The rest of a block after `{`: statements and comments, then `}` last.
pub open spec fn block_rest_ok(s: Seq<Node>) -> bool
    decreases s, 0int,
{
    if s.len() == 0 {
        false
    } else if s.len() == 1 {
        s[0].kind == Kind::RBrace && spelled(s[0], seq!['}'])
    } else {
        s[0].kind != Kind::LBrace && s[0].kind != Kind::RBrace && (is_comment(s[0].kind)
            || stmt_ok(s[0])) && block_rest_ok(s.drop_first())
    }
}

/// A part of a local declaration, `seen_assign` telling whether its `=`
/// came before.
pub open spec fn local_item_ok(c: Node, seen_assign: bool) -> bool {
    if c.kind == Kind::Static {
        spelled(c, seq!['s', 't', 'a', 't', 'i', 'c'])
    } else if c.kind == Kind::Local {
        spelled(c, seq!['l', 'o', 'c', 'a', 'l'])
    } else if c.kind == Kind::TypeAnnotation {
        ta_ok(c)
    } else if c.kind == Kind::Identifier && !seen_assign {
        is_leaf(c)
    } else if c.kind == Kind::Assign {
        spelled(c, seq!['='])
    } else if c.kind == Kind::Semicolon {
        spelled(c, seq![';'])
    } else if is_comment(c.kind) {
        true
    } else {
        expr_ok(c)
    }
}

/// The parts of a local declaration.
pub open spec fn local_ok(s: Seq<Node>, seen_assign: bool) -> bool
    decreases s, 0int,
{
    s.len() == 0 || (local_item_ok(s[0], seen_assign) && local_ok(
        s.drop_first(),
        seen_assign || s[0].kind == Kind::Assign,
    ))
}

/// `<`, the type's identifier, `>`.
pub open spec fn ta_ok(t: Node) -> bool {
    let s = t.children@;
    s.len() >= 2 && s[0].kind != Kind::Identifier && !is_comment(s[0].kind) && spelled(
        s[0],
        seq!['<'],
    ) && ta_rest_ok(s.drop_first())
}

pub open spec fn ta_rest_ok(s: Seq<Node>) -> bool
    decreases s.len(),
{
    if s.len() == 0 {
        false
    } else if s.len() == 1 {
        s[0].kind != Kind::Identifier && !is_comment(s[0].kind) && spelled(s[0], seq!['>'])
    } else {
        (is_comment(s[0].kind) || (s[0].kind == Kind::Identifier && is_leaf(s[0]))) && ta_rest_ok(
            s.drop_first(),
        )
    }
}

pub open spec fn assign_ok(s: Seq<Node>) -> bool
    decreases s, 0int,
{
    if s.len() == 0 {
        true
    } else {
        let c = s[0];
        (if c.kind == Kind::Assign || crate::cst::is_compound_assign(c.kind) {
            is_leaf(c)
        } else if c.kind == Kind::Semicolon {
            spelled(c, seq![';'])
        } else if is_comment(c.kind) {
            true
        } else {
            expr_ok(c)
        }) && assign_ok(s.drop_first())
    }
}

pub open spec fn exprstmt_ok(s: Seq<Node>) -> bool
    decreases s, 0int,
{
    if s.len() == 0 {
        true
    } else {
        let c = s[0];
        (if c.kind == Kind::Semicolon {
            spelled(c, seq![';'])
        } else if is_comment(c.kind) {
            true
        } else {
            expr_ok(c)
        }) && exprstmt_ok(s.drop_first())
    }
}

/// `if`, `(`, then the condition, `)`, the block and an else clause.
pub open spec fn if_ok(n: Node) -> bool
    decreases n, 5int,
{
    let s = n.children@;
    s.len() >= 2 && s[0].kind == Kind::If && spelled(s[0], seq!['i', 'f']) && s[1].kind
        == Kind::LParen && spelled(s[1], seq!['(']) && if_rest_ok(s.drop_first().drop_first())
}

pub open spec fn if_rest_ok(s: Seq<Node>) -> bool
    decreases s, 0int,
{
    if s.len() == 0 {
        true
    } else {
        let c = s[0];
        (if c.kind == Kind::If || c.kind == Kind::LParen {
            false
        } else if c.kind == Kind::RParen {
            spelled(c, seq![')'])
        } else if c.kind == Kind::Block {
            block_ok(c)
        } else if c.kind == Kind::ElseClause {
            else_ok(c)
        } else if is_comment(c.kind) {
            true
        } else {
            expr_ok(c)
        }) && if_rest_ok(s.drop_first())
    }
}

/// `else` and a block or an `if`.
pub open spec fn else_ok(n: Node) -> bool
    decreases n, 5int,
{
    let s = n.children@;
    s.len() >= 1 && s[0].kind == Kind::Else && spelled(s[0], seq!['e', 'l', 's', 'e'])
        && else_rest_ok(s.drop_first())
}

pub open spec fn else_rest_ok(s: Seq<Node>) -> bool
    decreases s, 0int,
{
    if s.len() == 0 {
        true
    } else {
        let c = s[0];
        (if c.kind == Kind::Block {
            block_ok(c)
        } else if c.kind == Kind::IfStatement {
            if_ok(c)
        } else {
            is_comment(c.kind)
        }) && else_rest_ok(s.drop_first())
    }
}

/// After `when (`: the subject and `)`, `{`, `is` clauses, then `}` last.
pub open spec fn when_rest_ok(s: Seq<Node>, in_body: bool) -> bool
    decreases s, 0int,
{
    if s.len() == 0 {
        false
    } else if s.len() == 1 {
        in_body && s[0].kind == Kind::RBrace && spelled(s[0], seq!['}'])
    } else {
        let c = s[0];
        if is_comment(c.kind) {
            when_rest_ok(s.drop_first(), in_body)
        } else if in_body {
            c.kind == Kind::IsClause && is_ok(c) && when_rest_ok(s.drop_first(), true)
        } else if c.kind == Kind::RParen {
            spelled(c, seq![')']) && when_rest_ok(s.drop_first(), false)
        } else if c.kind == Kind::LBrace {
            spelled(c, seq!['{']) && when_rest_ok(s.drop_first(), true)
        } else if c.kind == Kind::When || c.kind == Kind::LParen || c.kind == Kind::RBrace
            || c.kind == Kind::IsClause {
            false
        } else {
            expr_ok(c) && when_rest_ok(s.drop_first(), false)
        }
    }
}

/// `is`, `(`, the state, `)`, the block.
pub open spec fn is_ok(n: Node) -> bool
    decreases n, 5int,
{
    let s = n.children@;
    s.len() >= 2 && s[0].kind == Kind::Is && spelled(s[0], seq!['i', 's']) && s[1].kind
        == Kind::LParen && spelled(s[1], seq!['(']) && is_rest_ok(s.drop_first().drop_first())
}

pub open spec fn is_rest_ok(s: Seq<Node>) -> bool
    decreases s, 0int,
{
    if s.len() == 0 {
        true
    } else {
        let c = s[0];
        (if c.kind == Kind::Is || c.kind == Kind::LParen {
            false
        } else if c.kind == Kind::RParen {
            spelled(c, seq![')'])
        } else if c.kind == Kind::Block {
            block_ok(c)
        } else if is_comment(c.kind) {
            true
        } else {
            expr_ok(c)
        }) && is_rest_ok(s.drop_first())
    }
}

/// After `expand (`: variable, `=`, start, `to`, end, `)`, block.
pub open spec fn expand_rest_ok(s: Seq<Node>) -> bool
    decreases s, 0int,
{
    if s.len() == 0 {
        true
    } else {
        let c = s[0];
        (if c.kind == Kind::Expand || c.kind == Kind::LParen {
            false
        } else if c.kind == Kind::Assign {
            spelled(c, seq!['='])
        } else if c.kind == Kind::To {
            spelled(c, seq!['t', 'o'])
        } else if c.kind == Kind::RParen {
            spelled(c, seq![')'])
        } else if c.kind == Kind::Block {
            block_ok(c)
        } else if is_comment(c.kind) {
            true
        } else {
            expr_ok(c)
        }) && expand_rest_ok(s.drop_first())
    }
}

// ---------------------------------------------------------------------------
// Statements keep their tokens
// ---------------------------------------------------------------------------

proof fn lemma_expr_st(s: St, c: Cfg, n: Node)
    requires
        0 <= s.tpos <= c.trivia.len(),
        expr_ok(n),
    ensures
        keeps(s, expr_st(s, c, n), c, code(n)),
{
    let g = geom_of(s, c);
    lemma_emit(n, col_of(s.out, c.iw), g);
    lemma_keeps_app(s, c, emit_spec(n, col_of(s.out, c.iw), g));
}

proof fn lemma_ind(s: St, c: Cfg)
    requires
        0 <= s.tpos <= c.trivia.len(),
    ensures
        keeps(s, ind_st(s, c), c, Seq::<char>::empty()),
{
    lemma_cont_ws(geom_of(s, c));
    lemma_keeps_app(s, c, indent_text(geom_of(s, c)));
}

/// Three steps, the middle one with tokens.
proof fn lemma_keeps3(s0: St, s1: St, s2: St, s3: St, c: Cfg, t: Seq<char>)
    requires
        keeps(s0, s1, c, Seq::<char>::empty()),
        keeps(s1, s2, c, t),
        keeps(s2, s3, c, Seq::<char>::empty()),
    ensures
        keeps(s0, s3, c, t),
{
    broadcast use group_tokens;

    lemma_keeps_trans(s0, s1, s2, c, Seq::<char>::empty(), t);
    lemma_keeps_trans(s0, s2, s3, c, t, Seq::<char>::empty());
}

proof fn lemma_ta_rest(t: Seq<Node>)
    requires
        ta_rest_ok(t),
    ensures
        nws(idents_text(t)) + seq!['>'] == code_list(t),
    decreases t.len(),
{
    broadcast use group_tokens;

    reveal_with_fuel(code_list, 2);
    if t.len() == 1 {
        assert(t.drop_first() =~= Seq::<Node>::empty());
        assert(idents_text(t.drop_first()) == Seq::<char>::empty());
        assert(code(t[0]) == seq!['>']);
    } else {
        lemma_ta_rest(t.drop_first());
        if !is_comment(t[0].kind) {
            assert(code(t[0]) == nws(t[0].text@));
        }
        assert(nws(idents_text(t)) + seq!['>'] =~= code(t[0]) + (nws(idents_text(t.drop_first()))
            + seq!['>']));
    }
}

proof fn lemma_type_ann(s: St, c: Cfg, ch: Node)
    requires
        0 <= s.tpos <= c.trivia.len(),
        ch.kind == Kind::TypeAnnotation,
        ta_ok(ch),
    ensures
        keeps(s, app(s, seq![' '] + type_ann_text(ch)), c, code(ch)),
{
    broadcast use group_tokens;

    reveal_with_fuel(code_list, 2);
    let k = ch.children@;
    lemma_ta_rest(k.drop_first());
    assert(idents_text(k) == idents_text(k.drop_first()));
    assert(code(ch) == code_list(k));
    assert(code_list(k) == code(k[0]) + code_list(k.drop_first()));
    lemma_nws_one('<');
    lemma_nws_one('>');
    lemma_nws_one(' ');
    assert(seq![' '] + type_ann_text(ch) =~= seq![' '] + seq!['<'] + idents_text(k) + seq!['>']);
    assert(code(k[0]) == seq!['<']);
    assert(nws(seq![' '] + type_ann_text(ch)) =~= seq!['<'] + (nws(idents_text(k.drop_first()))
        + seq!['>']));
    lemma_keeps_app(s, c, seq![' '] + type_ann_text(ch));
}

proof fn lemma_local_item(s: St, c: Cfg, ch: Node, seen: bool)
    requires
        0 <= s.tpos <= c.trivia.len(),
        local_item_ok(ch, seen),
    ensures
        keeps(s, local_item_st(s, c, ch, seen), c, code(ch)),
{
    lemma_nws_lits();
    if ch.kind == Kind::Static {
        lemma_keeps_app(s, c, seq!['s', 't', 'a', 't', 'i', 'c', ' ']);
    } else if ch.kind == Kind::Local {
        lemma_keeps_app(s, c, seq!['l', 'o', 'c', 'a', 'l']);
    } else if ch.kind == Kind::TypeAnnotation {
        lemma_type_ann(s, c, ch);
    } else if ch.kind == Kind::Identifier && !seen {
        super::tokens::lemma_nws_add(seq![' '], ch.text@);
        lemma_keeps_app(s, c, seq![' '] + ch.text@);
        assert(nws(seq![' '] + ch.text@) =~= nws(ch.text@));
    } else if ch.kind == Kind::Assign {
        lemma_keeps_app(s, c, seq![' ', '=', ' ']);
    } else if ch.kind == Kind::Semicolon {
        lemma_keeps_app(s, c, seq![';']);
    } else if is_comment(ch.kind) {
        lemma_keeps_refl(s, c);
    } else {
        lemma_expr_st(s, c, ch);
    }
}

proof fn lemma_local_items(s: St, c: Cfg, items: Seq<Node>, seen: bool)
    requires
        0 <= s.tpos <= c.trivia.len(),
        local_ok(items, seen),
    ensures
        keeps(s, local_items_st(s, c, items, seen), c, code_list(items)),
    decreases items.len(),
{
    reveal_with_fuel(code_list, 2);
    if items.len() == 0 {
        lemma_keeps_refl(s, c);
        assert(code_list(items) == Seq::<char>::empty());
    } else {
        let ch = items[0];
        let s1 = local_item_st(s, c, ch, seen);
        lemma_local_item(s, c, ch, seen);
        lemma_local_items(s1, c, items.drop_first(), seen || ch.kind == Kind::Assign);
        lemma_keeps_trans(
            s,
            s1,
            local_items_st(s1, c, items.drop_first(), seen || ch.kind == Kind::Assign),
            c,
            code(ch),
            code_list(items.drop_first()),
        );
    }
}

proof fn lemma_value(s: St, c: Cfg, ch: Node)
    requires
        0 <= s.tpos <= c.trivia.len(),
        expr_ok(ch),
    ensures
        keeps(s, value_st(s, c, ch), c, code(ch)),
{
    broadcast use group_tokens;

    lemma_nws_lits();
    lemma_cont_ws(geom_of(s, c));
    let t = if super::statements::value_breaks(s, c, ch) {
        seq!['\n'] + cont_text(geom_of(s, c))
    } else {
        seq![' ']
    };
    lemma_keeps_app(s, c, t);
    lemma_expr_st(app(s, t), c, ch);
    lemma_keeps_trans(s, app(s, t), expr_st(app(s, t), c, ch), c, Seq::<char>::empty(), code(ch));
}

proof fn lemma_assign_items(s: St, c: Cfg, items: Seq<Node>, after_op: bool)
    requires
        0 <= s.tpos <= c.trivia.len(),
        assign_ok(items),
    ensures
        keeps(s, assign_items_st(s, c, items, after_op), c, code_list(items)),
    decreases items.len(),
{
    broadcast use group_tokens;

    reveal_with_fuel(code_list, 2);
    lemma_nws_lits();
    if items.len() == 0 {
        lemma_keeps_refl(s, c);
    } else {
        let ch = items[0];
        let s1 = assign_item_st(s, c, ch, after_op);
        if ch.kind == Kind::Assign || crate::cst::is_compound_assign(ch.kind) {
            lemma_keeps_app(s, c, seq![' '] + ch.text@);
        } else if ch.kind == Kind::Semicolon {
            lemma_keeps_app(s, c, seq![';']);
        } else if is_comment(ch.kind) {
            lemma_keeps_refl(s, c);
        } else if after_op {
            lemma_value(s, c, ch);
        } else {
            lemma_expr_st(s, c, ch);
        }
        assert(keeps(s, s1, c, code(ch)));
        let f = super::statements::next_after_op(ch, after_op);
        lemma_assign_items(s1, c, items.drop_first(), f);
        lemma_keeps_trans(
            s,
            s1,
            assign_items_st(s1, c, items.drop_first(), f),
            c,
            code(ch),
            code_list(items.drop_first()),
        );
    }
}

proof fn lemma_expr_items(s: St, c: Cfg, items: Seq<Node>)
    requires
        0 <= s.tpos <= c.trivia.len(),
        exprstmt_ok(items),
    ensures
        keeps(s, expr_items_st(s, c, items), c, code_list(items)),
    decreases items.len(),
{
    broadcast use group_tokens;

    reveal_with_fuel(code_list, 2);
    lemma_nws_lits();
    if items.len() == 0 {
        lemma_keeps_refl(s, c);
    } else {
        let ch = items[0];
        let s1 = expr_item_st(s, c, ch);
        if ch.kind == Kind::Semicolon {
            lemma_keeps_app(s, c, seq![';']);
        } else if is_comment(ch.kind) {
            lemma_keeps_refl(s, c);
        } else {
            lemma_expr_st(s, c, ch);
        }
        lemma_expr_items(s1, c, items.drop_first());
        lemma_keeps_trans(
            s,
            s1,
            expr_items_st(s1, c, items.drop_first()),
            c,
            code(ch),
            code_list(items.drop_first()),
        );
    }
}

/// A line break, the comments before `b`, the indentation, then `tok`.
proof fn lemma_lead_then(s: St, c: Cfg, b: usize, tok: Seq<char>)
    requires
        0 <= s.tpos <= c.trivia.len(),
    ensures
        keeps(s, lead_then_st(s, c, b, tok), c, nws(tok)),
        lead_then_st(s, c, b, tok).indent == s.indent,
{
    broadcast use group_tokens;

    lemma_nws_lits();
    let s1 = app(s, seq!['\n']);
    let s2 = if 0 <= s1.tpos < c.trivia.len() {
        St { prev: Some(c.trivia[s1.tpos].source_line), ..s1 }
    } else {
        s1
    };
    lemma_keeps_app(s, c, seq!['\n']);
    lemma_keeps_same(s1, s2, c);
    lemma_keeps_trans(s, s1, s2, c, Seq::<char>::empty(), Seq::<char>::empty());
    let s3 = inject_st(s2, c, b);
    lemma_inject(s2, c, b);
    lemma_keeps_trans(s, s2, s3, c, Seq::<char>::empty(), Seq::<char>::empty());
    let s4 = ind_st(s3, c);
    lemma_ind(s3, c);
    lemma_keeps_trans(s, s3, s4, c, Seq::<char>::empty(), Seq::<char>::empty());
    lemma_keeps_app(s4, c, tok);
    lemma_keeps_trans(s, s4, app(s4, tok), c, Seq::<char>::empty(), nws(tok));
}

proof fn lemma_open(s: St, c: Cfg, attached: bool)
    requires
        0 <= s.tpos <= c.trivia.len(),
    ensures
        keeps(s, open_st(s, c, attached), c, seq!['{']),
        open_st(s, c, attached).indent == s.indent,
{
    broadcast use group_tokens;

    lemma_nws_lits();
    lemma_cont_ws(geom_of(s, c));
    if !attached {
        lemma_keeps_app(s, c, seq!['{']);
    } else {
        match c.brace {
            crate::BraceStyle::Allman => lemma_keeps_app(
                s,
                c,
                seq!['\n'] + indent_text(geom_of(s, c)) + seq!['{'],
            ),
            crate::BraceStyle::Kr => lemma_keeps_app(s, c, seq![' ', '{']),
        }
    }
}

/// The tokens of a list but its last element.
pub open spec fn code_but_last(t: Seq<Node>) -> Seq<char> {
    code_list(t.take(t.len() - 1))
}

proof fn lemma_code_but_last(t: Seq<Node>)
    requires
        t.len() >= 1,
    ensures
        code_list(t) == code_but_last(t) + code(t.last()),
        t.len() >= 2 ==> code_but_last(t) == code(t[0]) + code_but_last(t.drop_first()),
{
    broadcast use group_tokens;

    assert(t =~= t.take(t.len() - 1) + seq![t.last()]);
    super::tokens::lemma_code_one(t.last());
    if t.len() >= 2 {
        assert(t.take(t.len() - 1) =~= seq![t[0]] + t.drop_first().take(t.drop_first().len() - 1));
        super::tokens::lemma_code_one(t[0]);
    }
}

/// The statements of the file keep their tokens.
proof fn lemma_top_lines(s: St, c: Cfg, items: Seq<Node>)
    requires
        0 <= s.tpos <= c.trivia.len(),
        stmts_ok(items),
    ensures
        keeps(s, stmt_lines_st(s, c, items, false), c, code_list(items)),
    decreases items, 0int,
{
    reveal_with_fuel(code_list, 2);
    if items.len() == 0 {
        lemma_keeps_refl(s, c);
        assert(code_list(items) == Seq::<char>::empty());
    } else {
        let rest = items.drop_first();
        let next = super::statements::next_start(rest, false);
        let s1 = stmt_line_st(s, c, items[0], next);
        lemma_stmt_line(s, c, items[0], next);
        lemma_top_lines(s1, c, rest);
        lemma_keeps_trans(s, s1, stmt_lines_st(s1, c, rest, false), c, code(items[0]), code_list(rest));
    }
}

/// The statements of a block after its `{` keep their tokens but the
/// closing `}`, which the block prints itself.
proof fn lemma_block_lines(s: St, c: Cfg, t: Seq<Node>)
    requires
        0 <= s.tpos <= c.trivia.len(),
        block_rest_ok(t),
    ensures
        keeps(s, stmt_lines_st(s, c, t, true), c, code_but_last(t)),
        code_list(t) == code_but_last(t) + seq!['}'],
    decreases t, 0int,
{
    lemma_code_but_last(t);
    if t.len() == 1 {
        assert(t.drop_first() =~= Seq::<Node>::empty());
        assert(stmt_lines_st(s, c, t, true) == stmt_lines_st(s, c, t.drop_first(), true));
        lemma_keeps_refl(s, c);
        assert(t.take(0) =~= Seq::<Node>::empty());
        assert(code_but_last(t) == Seq::<char>::empty());
    } else {
        let rest = t.drop_first();
        let next = super::statements::next_start(rest, true);
        let s1 = stmt_line_st(s, c, t[0], next);
        lemma_stmt_line(s, c, t[0], next);
        lemma_block_lines(s1, c, rest);
        assert(rest.last() == t.last());
        lemma_keeps_trans(s, s1, stmt_lines_st(s1, c, rest, true), c, code(t[0]), code_but_last(rest));
    }
}

proof fn lemma_stmt_line(s: St, c: Cfg, n: Node, next: usize)
    requires
        0 <= s.tpos <= c.trivia.len(),
        is_comment(n.kind) || stmt_ok(n),
    ensures
        keeps(s, stmt_line_st(s, c, n, next), c, code(n)),
    decreases n, 7int,
{
    broadcast use group_tokens;

    if is_comment(n.kind) {
        lemma_keeps_refl(s, c);
    } else {
        lemma_nws_lits();
        let s0 = inject_st(s, c, n.start);
        lemma_inject(s, c, n.start);
        let s0b = gap_st(s0, n.start_line);
        lemma_gap(s0, c, n.start_line);
        lemma_keeps_trans(s, s0, s0b, c, Seq::<char>::empty(), Seq::<char>::empty());
        let s1 = ind_st(s0b, c);
        lemma_ind(s0b, c);
        lemma_keeps_trans(s, s0b, s1, c, Seq::<char>::empty(), Seq::<char>::empty());
        let semi: usize = if super::ends_with_semicolon(n.kind) {
            1
        } else {
            0
        };
        let s2 = St {
            eol_reserve: crate::text::sat_add(
                super::infra::pending_eol(s1, c, n.end_line, n.end, next),
                semi,
            ),
            ..s1
        };
        lemma_keeps_same(s1, s2, c);
        lemma_keeps_trans(s, s1, s2, c, Seq::<char>::empty(), Seq::<char>::empty());
        let s3a = stmt_st(s2, c, n);
        lemma_stmt(s2, c, n);
        lemma_keeps_trans(s, s2, s3a, c, Seq::<char>::empty(), code(n));
        let s3 = St { eol_reserve: 0, ..s3a };
        lemma_keeps_same(s3a, s3, c);
        lemma_keeps_trans(s, s3a, s3, c, code(n), Seq::<char>::empty());
        let s4a = eol_st(s3, c, n.end_line, n.end, next);
        lemma_eol(s3, c, n.end_line, n.end, next);
        lemma_keeps_trans(s, s3, s4a, c, code(n), Seq::<char>::empty());
        let s4 = app(s4a, seq!['\n']);
        lemma_keeps_app(s4a, c, seq!['\n']);
        lemma_keeps_trans(s, s4a, s4, c, code(n), Seq::<char>::empty());
        let s5 = St { prev: Some(n.end_line), ..s4 };
        lemma_keeps_same(s4, s5, c);
        lemma_keeps_trans(s, s4, s5, c, code(n), Seq::<char>::empty());
    }
}

proof fn lemma_stmt(s: St, c: Cfg, n: Node)
    requires
        0 <= s.tpos <= c.trivia.len(),
        !is_comment(n.kind),
        stmt_ok(n),
    ensures
        keeps(s, stmt_st(s, c, n), c, code(n)),
    decreases n, 6int,
{
    lemma_nws_lits();
    let k = n.children@;
    if n.kind == Kind::LocalDeclaration {
        lemma_local_items(s, c, k, false);
    } else if n.kind == Kind::AssignmentStatement {
        lemma_assign_items(s, c, k, false);
    } else if n.kind == Kind::ExpressionStatement {
        lemma_expr_items(s, c, k);
    } else if n.kind == Kind::IfStatement {
        lemma_if(s, c, n);
    } else if n.kind == Kind::WhenStatement {
        lemma_when(s, c, n);
    } else if n.kind == Kind::ExpandStatement {
        lemma_expand(s, c, n);
    } else if n.kind == Kind::Block {
        lemma_block(s, c, n, false);
    } else if n.kind == Kind::EmptyStatement {
        lemma_keeps_app(s, c, seq![';']);
    } else {
        lemma_nws_trim(n.text@);
        lemma_keeps_app(s, c, trim_end(n.text@));
    }
}

proof fn lemma_block(s: St, c: Cfg, n: Node, attached: bool)
    requires
        0 <= s.tpos <= c.trivia.len(),
        n.kind == Kind::Block,
        block_ok(n),
    ensures
        keeps(s, block_st(s, c, n, attached), c, code(n)),
    decreases n, 5int,
{
    broadcast use group_tokens;

    reveal_with_fuel(code_list, 2);
    lemma_nws_lits();
    let k = n.children@;
    let lb = child_of_kind(k, Kind::LBrace);
    let rb = child_of_kind(k, Kind::RBrace);
    assert(lb == Some(k[0]));
    let s1 = if attached && lb is Some && pending_before(s, c, lb.unwrap().start) {
        lemma_lead_then(s, c, lb.unwrap().start, seq!['{']);
        lead_then_st(s, c, lb.unwrap().start, seq!['{'])
    } else {
        lemma_open(s, c, attached);
        open_st(s, c, attached)
    };
    assert(keeps(s, s1, c, seq!['{']));
    let s2a = app(s1, seq!['\n']);
    lemma_keeps_app(s1, c, seq!['\n']);
    let s2 = St { indent: crate::text::sat_add(s.indent, 1), prev: Some(n.start_line), ..s2a };
    lemma_keeps_same(s2a, s2, c);
    lemma_keeps_trans(s1, s2a, s2, c, Seq::<char>::empty(), Seq::<char>::empty());
    lemma_keeps_trans(s, s1, s2, c, seq!['{'], Seq::<char>::empty());
    let rest = k.drop_first();
    assert(stmt_lines_st(s2, c, k, true) == stmt_lines_st(s2, c, rest, true));
    let s3 = stmt_lines_st(s2, c, k, true);
    lemma_block_lines(s2, c, rest);
    lemma_keeps_trans(s, s2, s3, c, seq!['{'], code_but_last(rest));
    let s4 = match rb {
        Some(r) => inject_st(s3, c, r.start),
        None => s3,
    };
    match rb {
        Some(r) => lemma_inject(s3, c, r.start),
        None => lemma_keeps_refl(s3, c),
    }
    let t = seq!['{'] + code_but_last(rest);
    lemma_keeps_trans(s, s3, s4, c, t, Seq::<char>::empty());
    let s4b = St { indent: s.indent, ..s4 };
    lemma_keeps_same(s4, s4b, c);
    lemma_keeps_trans(s, s4, s4b, c, t, Seq::<char>::empty());
    let s4c = ind_st(s4b, c);
    lemma_ind(s4b, c);
    lemma_keeps_trans(s, s4b, s4c, c, t, Seq::<char>::empty());
    let s5 = app(s4c, seq!['}']);
    lemma_keeps_app(s4c, c, seq!['}']);
    lemma_keeps_trans(s, s4c, s5, c, t, seq!['}']);
    match rb {
        Some(r) => {
            lemma_keeps_same(s5, St { prev: Some(r.start_line), ..s5 }, c);
            lemma_keeps_trans(
                s,
                s5,
                St { prev: Some(r.start_line), ..s5 },
                c,
                t + seq!['}'],
                Seq::<char>::empty(),
            );
        },
        None => {},
    }
    assert(code(n) == code_list(k));
    assert(code_list(k) == code(k[0]) + code_list(rest));
    assert(code(n) =~= t + seq!['}']);
}

proof fn lemma_code_head2(k: Seq<Node>)
    requires
        k.len() >= 2,
    ensures
        code_list(k) == code(k[0]) + code(k[1]) + code_list(k.drop_first().drop_first()),
{
    reveal_with_fuel(code_list, 3);
    assert(k.drop_first()[0] == k[1]);
    assert(code_list(k) == code(k[0]) + code_list(k.drop_first()));
    assert(code_list(k.drop_first()) == code(k[1]) + code_list(k.drop_first().drop_first()));
    assert(code(k[0]) + (code(k[1]) + code_list(k.drop_first().drop_first())) =~= code(k[0]) + code(k[1])
        + code_list(k.drop_first().drop_first()));
}

#[verifier::spinoff_prover]
#[verifier::rlimit(100)]
proof fn lemma_if_head(s0: St, c: Cfg, k: Seq<Node>)
    requires
        k.len() >= 2,
        k[0].kind == Kind::If,
        k[1].kind == Kind::LParen,
    ensures
        if_items_st(s0, c, k, false) == if_items_st(s0, c, k.drop_first().drop_first(), true),
{
    reveal_with_fuel(if_items_st, 3);
    assert(if_item_st(s0, c, k[0], false) == s0);
    assert(k.drop_first()[0] == k[1]);
    assert(if_item_st(s0, c, k[1], false) == s0);
}

#[verifier::spinoff_prover]
#[verifier::rlimit(100)]
proof fn lemma_when_head(s0: St, c: Cfg, k: Seq<Node>)
    requires
        k.len() >= 2,
        k[0].kind == Kind::When,
        k[1].kind == Kind::LParen,
    ensures
        when_items_st(s0, c, k, false, false) == when_items_st(s0, c, k.drop_first().drop_first(), true, false),
{
    reveal_with_fuel(when_items_st, 3);
    assert(when_item_st(s0, c, k[0], false, false) == s0);
    assert(k.drop_first()[0] == k[1]);
    assert(when_item_st(s0, c, k[1], false, false) == s0);
}

#[verifier::spinoff_prover]
#[verifier::rlimit(100)]
proof fn lemma_is_head(s0: St, c: Cfg, k: Seq<Node>)
    requires
        k.len() >= 2,
        k[0].kind == Kind::Is,
        k[1].kind == Kind::LParen,
    ensures
        is_items_st(s0, c, k, false) == is_items_st(s0, c, k.drop_first().drop_first(), true),
{
    reveal_with_fuel(is_items_st, 3);
    assert(is_item_st(s0, c, k[0], false) == s0);
    assert(k.drop_first()[0] == k[1]);
    assert(is_item_st(s0, c, k[1], false) == s0);
}

#[verifier::spinoff_prover]
#[verifier::rlimit(100)]
proof fn lemma_expand_head(s0: St, c: Cfg, k: Seq<Node>)
    requires
        k.len() >= 2,
        k[0].kind == Kind::Expand,
        k[1].kind == Kind::LParen,
    ensures
        expand_items_st(s0, c, k, false, false) == expand_items_st(s0, c, k.drop_first().drop_first(), true, false),
{
    reveal_with_fuel(expand_items_st, 3);
    assert(expand_item_st(s0, c, k[0], false, false) == s0);
    assert(k.drop_first()[0] == k[1]);
    assert(expand_item_st(s0, c, k[1], false, false) == s0);
}

proof fn lemma_when_lbrace(s: St, c: Cfg, ch: Node, in_body: bool)
    requires
        0 <= s.tpos <= c.trivia.len(),
        ch.kind == Kind::LBrace,
    ensures
        keeps(s, when_item_st(s, c, ch, true, in_body), c, seq!['{']),
{
    lemma_nws_one('\n');
    let sa = if pending_before(s, c, ch.start) {
        lemma_lead_then(s, c, ch.start, seq!['{']);
        lemma_nws_one('{');
        lead_then_st(s, c, ch.start, seq!['{'])
    } else {
        lemma_open(s, c, true);
        open_st(s, c, true)
    };
    lemma_keeps_app(sa, c, seq!['\n']);
    let sb = app(sa, seq!['\n']);
    let s1 = St { indent: crate::text::sat_add(sa.indent, 1), ..sb };
    lemma_keeps_same(sb, s1, c);
    lemma_keeps_trans(s, sa, sb, c, seq!['{'], Seq::<char>::empty());
    lemma_keeps_trans(s, sb, s1, c, seq!['{'], Seq::<char>::empty());
    assert(seq!['{'] + Seq::<char>::empty() =~= seq!['{']);
}

#[verifier::spinoff_prover]
#[verifier::rlimit(100)]
proof fn lemma_if(s: St, c: Cfg, n: Node)
    requires
        0 <= s.tpos <= c.trivia.len(),
        n.kind == Kind::IfStatement,
        if_ok(n),
    ensures
        keeps(s, if_st(s, c, n), c, code(n)),
    decreases n, 5int,
{
    broadcast use group_tokens;

    reveal_with_fuel(code_list, 3);
    lemma_nws_lits();
    let k = n.children@;
    let s1 = app(s, seq!['i', 'f', ' ', '(']);
    lemma_keeps_app(s, c, seq!['i', 'f', ' ', '(']);
    lemma_if_head(s1, c, k);
    lemma_if_rest(s1, c, k.drop_first().drop_first());
    lemma_keeps_trans(
        s,
        s1,
        if_st(s, c, n),
        c,
        seq!['i', 'f', '('],
        code_list(k.drop_first().drop_first()),
    );
    lemma_code_head2(k);
    assert(code(n) == code_list(k));
    assert(code(n) =~= seq!['i', 'f', '('] + code_list(k.drop_first().drop_first()));
}

proof fn lemma_if_rest(s: St, c: Cfg, t: Seq<Node>)
    requires
        0 <= s.tpos <= c.trivia.len(),
        if_rest_ok(t),
    ensures
        keeps(s, if_items_st(s, c, t, true), c, code_list(t)),
    decreases t, 0int,
{
    reveal_with_fuel(code_list, 2);
    lemma_nws_lits();
    if t.len() == 0 {
        lemma_keeps_refl(s, c);
        assert(code_list(t) == Seq::<char>::empty());
    } else {
        let ch = t[0];
        let s1 = if_item_st(s, c, ch, true);
        if is_comment(ch.kind) {
            lemma_keeps_refl(s, c);
        } else if ch.kind == Kind::RParen {
            lemma_keeps_app(s, c, seq![')']);
        } else if ch.kind == Kind::Block {
            lemma_block(s, c, ch, true);
        } else if ch.kind == Kind::ElseClause {
            lemma_else(s, c, ch);
        } else {
            let w = St { width: super::control::sat_sub(s.width, super::control::paren_reserve(c.brace)), ..s };
            lemma_keeps_same(s, w, c);
            lemma_expr_st(w, c, ch);
            let e = expr_st(w, c, ch);
            lemma_keeps_same(e, St { width: s.width, ..e }, c);
            lemma_keeps3(s, w, e, St { width: s.width, ..e }, c, code(ch));
            assert(s1 == cond_st(s, c, ch));
        }
        assert(keeps(s, s1, c, code(ch)));
        lemma_if_rest(s1, c, t.drop_first());
        lemma_keeps_trans(s, s1, if_items_st(s1, c, t.drop_first(), true), c, code(ch), code_list(t.drop_first()));
    }
}

#[verifier::spinoff_prover]
#[verifier::rlimit(100)]
proof fn lemma_else(s: St, c: Cfg, n: Node)
    requires
        0 <= s.tpos <= c.trivia.len(),
        n.kind == Kind::ElseClause,
        else_ok(n),
    ensures
        keeps(s, else_st(s, c, n), c, code(n)),
    decreases n, 5int,
{
    broadcast use group_tokens;

    reveal_with_fuel(code_list, 2);
    lemma_nws_lits();
    lemma_cont_ws(geom_of(s, c));
    let k = n.children@;
    let es = match child_of_kind(k, Kind::Else) {
        Some(e) => e.start,
        None => n.start,
    };
    let word = seq!['e', 'l', 's', 'e'];
    let s1 = if pending_before(s, c, es) {
        lemma_lead_then(s, c, es, word);
        lead_then_st(s, c, es, word)
    } else {
        match c.brace {
            crate::BraceStyle::Allman => {
                lemma_keeps_app(s, c, seq!['\n'] + indent_text(geom_of(s, c)) + word);
                app(s, seq!['\n'] + indent_text(geom_of(s, c)) + word)
            },
            crate::BraceStyle::Kr => {
                lemma_keeps_app(s, c, seq![' ', 'e', 'l', 's', 'e']);
                app(s, seq![' ', 'e', 'l', 's', 'e'])
            },
        }
    };
    assert(keeps(s, s1, c, word));
    assert(else_item_st(s1, c, k[0]) == s1);
    assert(else_items_st(s1, c, k) == else_items_st(s1, c, k.drop_first()));
    lemma_else_rest(s1, c, k.drop_first());
    lemma_keeps_trans(s, s1, else_st(s, c, n), c, word, code_list(k.drop_first()));
    assert(code(n) == code_list(k));
}

proof fn lemma_else_rest(s: St, c: Cfg, t: Seq<Node>)
    requires
        0 <= s.tpos <= c.trivia.len(),
        else_rest_ok(t),
    ensures
        keeps(s, else_items_st(s, c, t), c, code_list(t)),
    decreases t, 0int,
{
    broadcast use group_tokens;

    reveal_with_fuel(code_list, 2);
    lemma_nws_lits();
    if t.len() == 0 {
        lemma_keeps_refl(s, c);
        assert(code_list(t) == Seq::<char>::empty());
    } else {
        let ch = t[0];
        let s1 = else_item_st(s, c, ch);
        if ch.kind == Kind::Block {
            lemma_block(s, c, ch, true);
        } else if ch.kind == Kind::IfStatement {
            lemma_keeps_app(s, c, seq![' ']);
            lemma_if(app(s, seq![' ']), c, ch);
            lemma_keeps_trans(s, app(s, seq![' ']), s1, c, Seq::<char>::empty(), code(ch));
        } else {
            lemma_keeps_refl(s, c);
        }
        lemma_else_rest(s1, c, t.drop_first());
        lemma_keeps_trans(s, s1, else_items_st(s1, c, t.drop_first()), c, code(ch), code_list(t.drop_first()));
    }
}

#[verifier::spinoff_prover]
#[verifier::rlimit(100)]
proof fn lemma_when(s: St, c: Cfg, n: Node)
    requires
        0 <= s.tpos <= c.trivia.len(),
        n.kind == Kind::WhenStatement,
        stmt_ok(n),
    ensures
        keeps(s, when_st(s, c, n), c, code(n)),
    decreases n, 5int,
{
    lemma_nws_lits();
    let k = n.children@;
    let rb = child_of_kind(k, Kind::RBrace);
    let s0 = app(s, seq!['w', 'h', 'e', 'n', ' ', '(']);
    lemma_keeps_app(s, c, seq!['w', 'h', 'e', 'n', ' ', '(']);
    lemma_when_head(s0, c, k);
    let rest = k.drop_first().drop_first();
    let s1 = when_items_st(s0, c, rest, true, false);
    lemma_when_rest(s0, c, rest, false);
    let w = seq!['w', 'h', 'e', 'n', '('];
    lemma_keeps_trans(s, s0, s1, c, w, code_but_last(rest));
    let t = w + code_but_last(rest);
    let s2 = match rb {
        Some(r) => inject_st(s1, c, r.start),
        None => s1,
    };
    match rb {
        Some(r) => lemma_inject(s1, c, r.start),
        None => lemma_keeps_refl(s1, c),
    }
    let s2b = St { indent: s.indent, ..s2 };
    lemma_keeps_same(s2, s2b, c);
    let s3 = ind_st(s2b, c);
    lemma_ind(s2b, c);
    lemma_keeps_trans(s2, s2b, s3, c, Seq::<char>::empty(), Seq::<char>::empty());
    lemma_keeps_trans(s1, s2, s3, c, Seq::<char>::empty(), Seq::<char>::empty());
    lemma_keeps_app(s3, c, seq!['}']);
    lemma_keeps_trans(s1, s3, app(s3, seq!['}']), c, Seq::<char>::empty(), seq!['}']);
    lemma_keeps_trans(s, s1, app(s3, seq!['}']), c, t, Seq::<char>::empty() + seq!['}']);
    lemma_code_head2(k);
    assert(code(n) == code_list(k));
    assert(Seq::<char>::empty() + seq!['}'] =~= seq!['}']);
    assert(code(n) =~= t + seq!['}']);
}

#[verifier::spinoff_prover]
#[verifier::rlimit(100)]
proof fn lemma_when_rest(s: St, c: Cfg, t: Seq<Node>, in_body: bool)
    requires
        0 <= s.tpos <= c.trivia.len(),
        when_rest_ok(t, in_body),
    ensures
        keeps(s, when_items_st(s, c, t, true, in_body), c, code_but_last(t)),
        code_list(t) == code_but_last(t) + seq!['}'],
    decreases t, 0int,
{
    reveal_with_fuel(when_items_st, 2);
    lemma_code_but_last(t);
    let ch = t[0];
    if t.len() == 1 {
        assert(t.drop_first() =~= Seq::<Node>::empty());
        assert(when_item_st(s, c, ch, true, in_body) == s);
        lemma_keeps_refl(s, c);
        assert(t.take(0) =~= Seq::<Node>::empty());
        assert(code_but_last(t) == Seq::<char>::empty());
    } else {
        let s1 = when_item_st(s, c, ch, true, in_body);
        if is_comment(ch.kind) {
            lemma_keeps_refl(s, c);
        } else if in_body {
            lemma_is(s, c, ch);
        } else if ch.kind == Kind::RParen {
            lemma_nws_one(')');
            lemma_keeps_app(s, c, seq![')']);
        } else if ch.kind == Kind::LBrace {
            lemma_when_lbrace(s, c, ch, in_body);
        } else {
            lemma_expr_st(s, c, ch);
        }
        assert(keeps(s, s1, c, code(ch)));
        let f = in_body || ch.kind == Kind::LBrace;
        lemma_when_rest(s1, c, t.drop_first(), f);
        assert(t.drop_first().last() == t.last());
        lemma_keeps_trans(s, s1, when_items_st(s1, c, t.drop_first(), true, f), c, code(ch), code_but_last(t.drop_first()));
    }
}

#[verifier::spinoff_prover]
#[verifier::rlimit(100)]
proof fn lemma_is(s: St, c: Cfg, n: Node)
    requires
        0 <= s.tpos <= c.trivia.len(),
        n.kind == Kind::IsClause,
        is_ok(n),
    ensures
        keeps(s, is_st(s, c, n), c, code(n)),
    decreases n, 5int,
{
    lemma_nws_lits();
    let k = n.children@;
    let sa = inject_st(s, c, n.start);
    lemma_inject(s, c, n.start);
    let sb = ind_st(sa, c);
    lemma_ind(sa, c);
    lemma_keeps_trans(s, sa, sb, c, Seq::<char>::empty(), Seq::<char>::empty());
    let s1 = app(sb, seq!['i', 's', ' ', '(']);
    lemma_keeps_app(sb, c, seq!['i', 's', ' ', '(']);
    let w = seq!['i', 's', '('];
    lemma_keeps_trans(s, sb, s1, c, Seq::<char>::empty(), w);
    lemma_is_head(s1, c, k);
    let rest = k.drop_first().drop_first();
    let s2 = is_items_st(s1, c, rest, true);
    lemma_is_rest(s1, c, rest);
    let s3 = eol_st(s2, c, n.end_line, n.end, usize::MAX);
    lemma_eol(s2, c, n.end_line, n.end, usize::MAX);
    lemma_keeps_app(s3, c, seq!['\n']);
    lemma_keeps_trans(s2, s3, app(s3, seq!['\n']), c, Seq::<char>::empty(), Seq::<char>::empty());
    lemma_keeps_trans(s1, s2, app(s3, seq!['\n']), c, code_list(rest), Seq::<char>::empty() + Seq::<char>::empty());
    assert(code_list(rest) + (Seq::<char>::empty() + Seq::<char>::empty()) =~= code_list(rest));
    lemma_keeps_trans(s, s1, app(s3, seq!['\n']), c, Seq::<char>::empty() + w, code_list(rest));
    lemma_code_head2(k);
    assert(code(n) == code_list(k));
    assert(code(n) =~= Seq::<char>::empty() + w + code_list(rest));
}

proof fn lemma_is_rest(s: St, c: Cfg, t: Seq<Node>)
    requires
        0 <= s.tpos <= c.trivia.len(),
        is_rest_ok(t),
    ensures
        keeps(s, is_items_st(s, c, t, true), c, code_list(t)),
    decreases t, 0int,
{
    reveal_with_fuel(code_list, 2);
    lemma_nws_lits();
    if t.len() == 0 {
        lemma_keeps_refl(s, c);
        assert(code_list(t) == Seq::<char>::empty());
    } else {
        let ch = t[0];
        let s1 = is_item_st(s, c, ch, true);
        if is_comment(ch.kind) {
            lemma_keeps_refl(s, c);
        } else if ch.kind == Kind::RParen {
            lemma_keeps_app(s, c, seq![')']);
        } else if ch.kind == Kind::Block {
            lemma_block(s, c, ch, true);
        } else {
            lemma_expr_st(s, c, ch);
        }
        lemma_is_rest(s1, c, t.drop_first());
        lemma_keeps_trans(s, s1, is_items_st(s1, c, t.drop_first(), true), c, code(ch), code_list(t.drop_first()));
    }
}

#[verifier::spinoff_prover]
#[verifier::rlimit(100)]
proof fn lemma_expand(s: St, c: Cfg, n: Node)
    requires
        0 <= s.tpos <= c.trivia.len(),
        n.kind == Kind::ExpandStatement,
        stmt_ok(n),
    ensures
        keeps(s, expand_st(s, c, n), c, code(n)),
    decreases n, 5int,
{
    lemma_nws_lits();
    let k = n.children@;
    let w0 = seq!['e', 'x', 'p', 'a', 'n', 'd', ' ', '('];
    let s1 = app(s, w0);
    lemma_keeps_app(s, c, w0);
    lemma_expand_head(s1, c, k);
    let rest = k.drop_first().drop_first();
    lemma_expand_rest(s1, c, rest, false);
    let w = seq!['e', 'x', 'p', 'a', 'n', 'd', '('];
    lemma_keeps_trans(s, s1, expand_st(s, c, n), c, w, code_list(rest));
    lemma_code_head2(k);
    assert(code(n) == code_list(k));
    assert(code(n) =~= w + code_list(rest));
}

proof fn lemma_expand_rest(s: St, c: Cfg, t: Seq<Node>, var_done: bool)
    requires
        0 <= s.tpos <= c.trivia.len(),
        expand_rest_ok(t),
    ensures
        keeps(s, expand_items_st(s, c, t, true, var_done), c, code_list(t)),
    decreases t, 0int,
{
    reveal_with_fuel(code_list, 2);
    lemma_nws_lits();
    if t.len() == 0 {
        lemma_keeps_refl(s, c);
        assert(code_list(t) == Seq::<char>::empty());
    } else {
        let ch = t[0];
        let s1 = expand_item_st(s, c, ch, true, var_done);
        if is_comment(ch.kind) {
            lemma_keeps_refl(s, c);
        } else if ch.kind == Kind::Assign {
            lemma_keeps_app(s, c, seq![' ', '=', ' ']);
        } else if ch.kind == Kind::To {
            lemma_keeps_app(s, c, seq![' ', 't', 'o', ' ']);
        } else if ch.kind == Kind::RParen {
            lemma_keeps_app(s, c, seq![')']);
        } else if ch.kind == Kind::Block {
            lemma_block(s, c, ch, true);
        } else if ch.kind == Kind::Identifier && !var_done {
            lemma_keeps_app(s, c, ch.text@);
            assert(code(ch) == nws(ch.text@));
        } else {
            lemma_expr_st(s, c, ch);
        }
        let f = var_done || (true && super::control::expand_operand(ch.kind));
        lemma_expand_rest(s1, c, t.drop_first(), f);
        lemma_keeps_trans(s, s1, expand_items_st(s1, c, t.drop_first(), true, f), c, code(ch), code_list(t.drop_first()));
    }
}

// ---------------------------------------------------------------------------
// The document
// ---------------------------------------------------------------------------

/// The non-whitespace characters of every comment of the tree, in offset
/// order.
pub open spec fn all_comment_chars(cst: Cst) -> Seq<char> {
    comment_chars(super::cfg_of(cst, crate::default_options()), 0, trivia_of(cst).len() as int)
}

/// Interleavings compose: when `x` interleaves `y` with `s`, and `y`
/// interleaves `a` with `b`, then `x` interleaves `a` with a sequence that
/// itself interleaves `b` with `s`.
pub proof fn lemma_shuffle_assoc(x: Seq<char>, y: Seq<char>, s: Seq<char>, a: Seq<char>, b: Seq<char>) -> (c:
    Seq<char>)
    requires
        shuffle(x, y, s),
        shuffle(y, a, b),
    ensures
        shuffle(x, a, c),
        shuffle(c, b, s),
    decreases x.len(),
{
    if x.len() == 0 {
        Seq::<char>::empty()
    } else if y.len() > 0 && x[0] == y[0] && shuffle(x.drop_first(), y.drop_first(), s) {
        if a.len() > 0 && y[0] == a[0] && shuffle(y.drop_first(), a.drop_first(), b) {
            lemma_shuffle_assoc(x.drop_first(), y.drop_first(), s, a.drop_first(), b)
        } else {
            let c0 = lemma_shuffle_assoc(x.drop_first(), y.drop_first(), s, a, b.drop_first());
            let c = seq![x[0]] + c0;
            assert(c.drop_first() =~= c0);
            c
        }
    } else {
        let c0 = lemma_shuffle_assoc(x.drop_first(), y, s.drop_first(), a, b);
        let c = seq![x[0]] + c0;
        assert(c.drop_first() =~= c0);
        c
    }
}

/// The statements and whole-output passes move only whitespace: before the
/// opt-in passes, the non-whitespace characters of the document are the
/// tree's tokens interleaved with its comments' characters.
proof fn lemma_normalized_tokens(cst: Cst, opts: FormatOptions)
    requires
        stmts_ok(cst.root.children@),
    ensures
        shuffle(nws(normalized_output(cst, opts)), code_list(cst.root.children@), all_comment_chars(cst)),
{
    let c = cfg_of(cst, opts);
    let s0 = start_st(opts);
    let s1 = stmt_lines_st(s0, c, cst.root.children@, false);
    lemma_top_lines(s0, c, cst.root.children@);
    let s2 = flush_all_st(s1, c);
    lemma_flush_all(s1, c);
    lemma_keeps_trans(s0, s1, s2, c, code_list(cst.root.children@), Seq::<char>::empty());
    assert(code_list(cst.root.children@) + Seq::<char>::empty() =~= code_list(cst.root.children@));
    assert(s2.out.skip(0) =~= s2.out);
    assert(s2.out == printed(cst, opts));
    let o1 = strip_brace_blanks(printed(cst, opts));
    let o1b = blank_after_top_when(o1);
    super::normalize::passes_keep_the_tokens(printed(cst, opts), opts.max_blank_lines as nat, opts.final_blank_line, opts.line_width as int);
    super::normalize::passes_keep_the_tokens(o1, opts.max_blank_lines as nat, opts.final_blank_line, opts.line_width as int);
    super::normalize::passes_keep_the_tokens(o1b, opts.max_blank_lines as nat, opts.final_blank_line, opts.line_width as int);
    assert(nws(normalized_output(cst, opts)) == nws(printed(cst, opts)));
    assert(comment_chars(c, 0, trivia_of(cst).len() as int) == all_comment_chars(cst)) by {
        lemma_comment_chars_cfg(c, super::cfg_of(cst, crate::default_options()), 0, trivia_of(cst).len() as int);
    }
}

/// Printing moves only whitespace. For a tree of the parser's shape, the
/// non-whitespace characters of the formatted document are the tree's
/// tokens, in order, interleaved with the comment characters `w.0`: no
/// token is dropped, added or reordered. The comment characters are those
/// of the tree's comments, each comment in offset order, interleaved with
/// the slashes `w.1` that comment reflow puts at the head of each line it
/// splits off; with reflow off there are none, and comments are kept whole
/// (though a comment inside a statement moves onto its own line). Reflow
/// is taken to drop no line.
pub proof fn printing_keeps_the_tokens(cst: Cst, opts: FormatOptions) -> (w: (Seq<char>, Seq<char>))
    requires
        stmts_ok(cst.root.children@),
        opts.reflow_comments ==> reflow_drops_no_line(normalized_output(cst, opts), opts.line_width as int),
    ensures
        shuffle(nws(print_spec(cst, opts)), code_list(cst.root.children@), w.0),
        shuffle(w.0, all_comment_chars(cst), w.1),
        all_slashes(w.1),
        !opts.reflow_comments ==> w.0 == all_comment_chars(cst) && w.1.len() == 0,
{
    let o2 = normalized_output(cst, opts);
    let width = opts.line_width as int;
    let code = code_list(cst.root.children@);
    let comments = all_comment_chars(cst);
    lemma_normalized_tokens(cst, opts);
    let o3 = if opts.reflow_comments {
        reflow_comments(o2, width)
    } else {
        o2
    };
    super::normalize::passes_keep_the_tokens(o3, opts.max_blank_lines as nat, opts.final_blank_line, width);
    assert(nws(print_spec(cst, opts)) == nws(o3));
    if opts.reflow_comments {
        let ss = reflow_only_adds_slashes(o2, width);
        let c = lemma_shuffle_assoc(nws(o3), nws(o2), ss, code, comments);
        (c, ss)
    } else {
        lemma_shuffle_left(comments);
        (comments, Seq::<char>::empty())
    }
}

/// Comment characters depend on the comments alone.
proof fn lemma_comment_chars_cfg(c1: Cfg, c2: Cfg, i: int, j: int)
    requires
        c1.trivia == c2.trivia,
    ensures
        comment_chars(c1, i, j) == comment_chars(c2, i, j),
    decreases j - i,
{
    if !(i >= j || i < 0 || j > c1.trivia.len()) {
        lemma_comment_chars_cfg(c1, c2, i + 1, j);
    }
}

} // verus!
