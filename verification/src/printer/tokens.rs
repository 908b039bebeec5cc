//! The printer moves only whitespace: the non-whitespace characters of what
//! it prints are the tree's tokens in order, its comments interleaved in
//! offset order.
//!
//! This module holds the expression half: the tree must have the shape the
//! parser gives ([`expr_ok`]): punctuation and keyword leaves spell
//! themselves, argument lists alternate arguments and commas, and a node
//! printed as written has no comment inside. The statement half and the
//! whole-document law are in `preserve`.

use vstd::prelude::*;
use super::expressions::{
    arg_piece, arglist_spec, args_spec, bin_part, chain_continues, chain_spec, child_spec,
    count_args, emit_spec, items_spec, pair_spec, tern_spec, };
use super::{lemma_count_nc_first, lemma_nc_index, nc_index};
use crate::cst::{Kind, Node, arglist_flat, count_nc, flat, flat_child, flat_items, is_atom, is_comment};
use crate::text::{all_ws, is_ws, lemma_trim_end, lemma_trim_start, trim_end, trim_start};
use super::{Geom, cont_text, indent_text, levels};
use crate::IndentStyle;
use crate::text::sat_add;

verus! {

// ---------------------------------------------------------------------------
// Non-whitespace characters
// ---------------------------------------------------------------------------

/// The non-whitespace characters of `s`, in order.
pub open spec fn nws(s: Seq<char>) -> Seq<char>
    decreases s.len(),
{
    if s.len() == 0 {
        seq![]
    } else {
        (if is_ws(s[0]) {
            seq![]
        } else {
            seq![s[0]]
        }) + nws(s.drop_first())
    }
}

pub broadcast proof fn lemma_empty_add(x: Seq<char>)
    ensures
        #[trigger] (Seq::<char>::empty() + x) == x,
        #[trigger] (x + Seq::<char>::empty()) == x,
{
    assert(Seq::<char>::empty() + x =~= x);
    assert(x + Seq::<char>::empty() =~= x);
}

pub broadcast group group_tokens {
    lemma_empty_add,
    lemma_nws_add,
    lemma_code_list_add,
}

pub broadcast proof fn lemma_nws_add(a: Seq<char>, b: Seq<char>)
    ensures
        #[trigger] nws(a + b) == nws(a) + nws(b),
    decreases a.len(),
{
    if a.len() == 0 {
        assert(a + b =~= b);
    } else {
        lemma_nws_add(a.drop_first(), b);
        assert((a + b).drop_first() =~= a.drop_first() + b);
        assert((a + b)[0] == a[0]);
    }
}

pub proof fn lemma_nws_ws(s: Seq<char>)
    requires
        all_ws(s),
    ensures
        nws(s) == Seq::<char>::empty(),
    decreases s.len(),
{
    if s.len() > 0 {
        assert(is_ws(s[0]));
        assert forall|i: int| 0 <= i < s.drop_first().len() implies is_ws(
            #[trigger] s.drop_first()[i],
        ) by {
            assert(s.drop_first()[i] == s[i + 1]);
        }
        lemma_nws_ws(s.drop_first());
    }
}

pub proof fn lemma_nws_trim(s: Seq<char>)
    ensures
        nws(trim_end(s)) == nws(s),
        nws(trim_start(s)) == nws(s),
{
    broadcast use group_tokens;

    lemma_trim_end(s);
    let k = crate::text::trim_end_len(s);
    assert(s == s.take(k) + s.skip(k));
    assert forall|i: int| 0 <= i < s.skip(k).len() implies is_ws(#[trigger] s.skip(k)[i]) by {
        assert(s.skip(k)[i] == s[k + i]);
    }
    lemma_nws_ws(s.skip(k));
    lemma_trim_start(s);
    let l = crate::text::lead_ws(s);
    assert(s == s.take(l) + s.skip(l));
    assert forall|i: int| 0 <= i < s.take(l).len() implies is_ws(#[trigger] s.take(l)[i]) by {
        assert(s.take(l)[i] == s[i]);
    }
    lemma_nws_ws(s.take(l));
}

/// The non-whitespace characters of a single character.
pub proof fn lemma_nws_one(c: char)
    ensures
        nws(seq![c]) == if is_ws(c) {
            Seq::<char>::empty()
        } else {
            seq![c]
        },
{
    assert(seq![c].drop_first() =~= Seq::<char>::empty());
    assert(nws(Seq::<char>::empty()) == Seq::<char>::empty());
    assert(seq![c][0] == c);
}

// ---------------------------------------------------------------------------
// The tokens of a tree
// ---------------------------------------------------------------------------

/// The token characters of a subtree: its leaves' non-whitespace characters
/// in order, comments left out.
pub open spec fn code(n: Node) -> Seq<char>
    decreases n, 1int,
{
    if is_comment(n.kind) {
        seq![]
    } else if n.children@.len() == 0 {
        nws(n.text@)
    } else {
        code_list(n.children@)
    }
}

pub open spec fn code_list(s: Seq<Node>) -> Seq<char>
    decreases s, 0int,
{
    if s.len() == 0 {
        seq![]
    } else {
        code(s[0]) + code_list(s.drop_first())
    }
}

pub open spec fn is_leaf(n: Node) -> bool {
    n.children@.len() == 0
}

/// A leaf that spells `t`.
pub open spec fn spelled(n: Node, t: Seq<char>) -> bool {
    is_leaf(n) && !is_comment(n.kind) && nws(n.text@) == t
}

/// A node printed as written: its text holds exactly its tokens (no
/// comment inside).
pub open spec fn verbatim_ok(n: Node) -> bool {
    nws(n.text@) == code(n)
}

/// A child of a member, call, unary, parenthesized or ternary expression
/// `pk` is in shape.
pub open spec fn child_ok(pk: Kind, c: Node) -> bool
    decreases c, 4int,
{
    if is_comment(c.kind) {
        true
    } else if pk == Kind::CallExpression && c.kind == Kind::ArgumentList {
        arglist_ok(c)
    } else if pk == Kind::MemberExpression && c.kind == Kind::Dot {
        spelled(c, seq!['.'])
    } else if pk == Kind::UnaryExpression && (c.kind == Kind::Minus || c.kind == Kind::Bang) {
        is_leaf(c)
    } else if pk == Kind::UnaryExpression && c.kind == Kind::Not {
        spelled(c, seq!['n', 'o', 't'])
    } else if pk == Kind::ParenthesizedExpression && (c.kind == Kind::LParen || c.kind
        == Kind::RParen) {
        false
    } else if pk == Kind::TernaryExpression && c.kind == Kind::Question {
        spelled(c, seq!['?'])
    } else if pk == Kind::TernaryExpression && c.kind == Kind::Colon {
        spelled(c, seq![':'])
    } else {
        expr_ok(c)
    }
}

pub open spec fn children_ok(pk: Kind, s: Seq<Node>) -> bool
    decreases s, 0int,
{
    s.len() == 0 || (child_ok(pk, s[0]) && children_ok(pk, s.drop_first()))
}

/// The parts of a binary expression: the operator (the second non-comment
/// part) a leaf, the operands in shape.
pub open spec fn bin_children_ok(s: Seq<Node>, seen: int) -> bool
    decreases s, 0int,
{
    if s.len() == 0 {
        true
    } else if is_comment(s[0].kind) {
        bin_children_ok(s.drop_first(), seen)
    } else {
        (if seen == 1 {
            is_leaf(s[0])
        } else {
            expr_ok(s[0])
        }) && bin_children_ok(s.drop_first(), seen + 1)
    }
}

/// The rest of an argument list after its `(`: arguments separated by
/// single commas, then the closing `)` last; `state` is 0 at the start, 1
/// after an argument, 2 after a comma.
pub open spec fn args_ok(s: Seq<Node>, state: int) -> bool
    decreases s, 0int,
{
    if s.len() == 0 {
        false
    } else {
        let c = s[0];
        if s.len() == 1 {
            c.kind == Kind::RParen && spelled(c, seq![')']) && state != 2
        } else if is_comment(c.kind) {
            args_ok(s.drop_first(), state)
        } else if c.kind == Kind::Comma {
            state == 1 && spelled(c, seq![',']) && args_ok(s.drop_first(), 2)
        } else if c.kind == Kind::LParen || c.kind == Kind::RParen {
            false
        } else {
            state != 1 && expr_ok(c) && args_ok(s.drop_first(), 1)
        }
    }
}

/// `(`, arguments separated by commas, `)`.
pub open spec fn arglist_ok(a: Node) -> bool
    decreases a, 2int,
{
    let s = a.children@;
    s.len() >= 2 && s[0].kind == Kind::LParen && spelled(s[0], seq!['(']) && args_ok(
        s.drop_first(),
        0,
    )
}

/// The rest of a parenthesized expression after its `(`: parts in shape,
/// then the closing `)` last.
pub open spec fn paren_rest_ok(s: Seq<Node>) -> bool
    decreases s, 0int,
{
    if s.len() == 0 {
        false
    } else if s.len() == 1 {
        s[0].kind == Kind::RParen && spelled(s[0], seq![')'])
    } else {
        child_ok(Kind::ParenthesizedExpression, s[0]) && paren_rest_ok(s.drop_first())
    }
}

/// An expression has the parser's shape.
pub open spec fn expr_ok(n: Node) -> bool
    decreases n, 3int,
{
    let s = n.children@;
    if is_atom(n.kind) {
        is_leaf(n)
    } else if n.kind == Kind::MemberExpression || n.kind == Kind::CallExpression || n.kind
        == Kind::UnaryExpression || n.kind == Kind::TernaryExpression {
        s.len() > 0 && children_ok(n.kind, s)
    } else if n.kind == Kind::BinaryExpression {
        count_nc(s) == 3 && bin_children_ok(s, 0)
    } else if n.kind == Kind::ParenthesizedExpression {
        s.len() >= 2 && s[0].kind == Kind::LParen && spelled(s[0], seq!['(']) && paren_rest_ok(
            s.drop_first(),
        )
    } else {
        verbatim_ok(n)
    }
}

// ---------------------------------------------------------------------------
// Lemmas on token lists
// ---------------------------------------------------------------------------

pub broadcast proof fn lemma_code_list_add(a: Seq<Node>, b: Seq<Node>)
    ensures
        #[trigger] code_list(a + b) == code_list(a) + code_list(b),
    decreases a.len(),
{
    if a.len() == 0 {
        assert(a + b =~= b);
    } else {
        lemma_code_list_add(a.drop_first(), b);
        assert((a + b).drop_first() =~= a.drop_first() + b);
        assert((a + b)[0] == a[0]);
    }
}

pub proof fn lemma_code_one(x: Node)
    ensures
        code_list(seq![x]) == code(x),
{
    assert(seq![x].drop_first() =~= Seq::<Node>::empty());
    assert(code_list(Seq::<Node>::empty()) == Seq::<char>::empty());
    assert(seq![x][0] == x);
}

// ---------------------------------------------------------------------------
// Flat forms keep the tokens
// ---------------------------------------------------------------------------

proof fn lemma_flat_child(pk: Kind, c: Node, seen: int)
    requires
        pk == Kind::MemberExpression || pk == Kind::CallExpression || pk == Kind::UnaryExpression
            || pk == Kind::TernaryExpression || pk == Kind::ParenthesizedExpression,
        child_ok(pk, c),
    ensures
        nws(flat_child(pk, c, seen)) == code(c),
    decreases c, 2int,
{
    broadcast use group_tokens;

    reveal_with_fuel(flat_items, 2);
    reveal_with_fuel(code_list, 2);

    if is_comment(c.kind) {
    } else if pk == Kind::CallExpression && c.kind == Kind::ArgumentList {
        lemma_arglist_flat(c);
    } else if pk == Kind::MemberExpression && c.kind == Kind::Dot {
        lemma_nws_one('.');
    } else if pk == Kind::UnaryExpression && (c.kind == Kind::Minus || c.kind == Kind::Bang) {
    } else if pk == Kind::UnaryExpression && c.kind == Kind::Not {
        assert(seq!['n', 'o', 't', ' '] =~= seq!['n'] + seq!['o'] + seq!['t'] + seq![' ']);
        assert(seq!['n', 'o', 't'] =~= seq!['n'] + seq!['o'] + seq!['t']);
        lemma_nws_one('n');
        lemma_nws_one('o');
        lemma_nws_one('t');
        lemma_nws_one(' ');
    } else if pk == Kind::TernaryExpression && (c.kind == Kind::Question || c.kind == Kind::Colon) {
        let m = if c.kind == Kind::Question {
            '?'
        } else {
            ':'
        };
        assert(seq![' ', m, ' '] =~= seq![' '] + seq![m] + seq![' ']);
        lemma_nws_one(' ');
        lemma_nws_one(m);
    } else {
        lemma_flat(c);
    }
}

proof fn lemma_flat_items(pk: Kind, s: Seq<Node>, seen: int)
    requires
        pk == Kind::MemberExpression || pk == Kind::CallExpression || pk == Kind::UnaryExpression
            || pk == Kind::TernaryExpression || pk == Kind::ParenthesizedExpression,
        children_ok(pk, s),
    ensures
        nws(flat_items(pk, s, seen)) == code_list(s),
    decreases s, 0int,
{
    broadcast use group_tokens;

    reveal_with_fuel(flat_items, 2);
    reveal_with_fuel(code_list, 2);

    if s.len() > 0 {
        lemma_flat_child(pk, s[0], seen);
        lemma_flat_items(
            pk,
            s.drop_first(),
            seen + if is_comment(s[0].kind) {
                0int
            } else {
                1int
            },
        );
    }
}

proof fn lemma_flat_bin_items(s: Seq<Node>, seen: int)
    requires
        bin_children_ok(s, seen),
    ensures
        nws(flat_items(Kind::BinaryExpression, s, seen)) == code_list(s),
    decreases s, 0int,
{
    broadcast use group_tokens;

    reveal_with_fuel(flat_items, 2);
    reveal_with_fuel(code_list, 2);

    if s.len() > 0 {
        let c = s[0];
        if is_comment(c.kind) {
            lemma_flat_bin_items(s.drop_first(), seen);
        } else {
            if seen == 1 {
                lemma_nws_one(' ');
            } else {
                lemma_flat(c);
            }
            lemma_flat_bin_items(s.drop_first(), seen + 1);
        }
    }
}

/// The rest of an argument list after `(`: the flat items hold its tokens
/// but the closing `)`.
proof fn lemma_flat_args_rest(s: Seq<Node>, state: int, seen: int)
    requires
        args_ok(s, state),
    ensures
        nws(flat_items(Kind::ArgumentList, s, seen)) + seq![')'] == code_list(s),
    decreases s, 0int,
{
    broadcast use group_tokens;

    reveal_with_fuel(flat_items, 2);
    reveal_with_fuel(code_list, 2);

    let c = s[0];
    let seen2 = seen + if is_comment(c.kind) {
        0int
    } else {
        1int
    };
    if s.len() == 1 {
        assert(s.drop_first() =~= Seq::<Node>::empty());
        assert(flat_items(Kind::ArgumentList, s.drop_first(), seen2) == Seq::<char>::empty());
        assert(code_list(s.drop_first()) == Seq::<char>::empty());
        assert(nws(Seq::<char>::empty()) == Seq::<char>::empty());
        assert(Seq::<char>::empty() + seq![')'] =~= seq![')']);
        assert(seq![')'] + Seq::<char>::empty() =~= seq![')']);
    } else if is_comment(c.kind) {
        lemma_flat_args_rest(s.drop_first(), state, seen2);
        assert(nws(Seq::<char>::empty()) == Seq::<char>::empty());
    } else if c.kind == Kind::Comma {
        assert(seq![',', ' '] =~= seq![','] + seq![' ']);
        lemma_nws_one(',');
        lemma_nws_one(' ');
        lemma_flat_args_rest(s.drop_first(), 2, seen2);
    } else {
        lemma_flat(c);
        lemma_flat_args_rest(s.drop_first(), 1, seen2);
    }
}

/// The rest of a parenthesized expression after `(`: the flat items hold
/// its tokens but the closing `)`.
proof fn lemma_flat_paren_rest(s: Seq<Node>, seen: int)
    requires
        paren_rest_ok(s),
    ensures
        nws(flat_items(Kind::ParenthesizedExpression, s, seen)) + seq![')'] == code_list(s),
    decreases s, 0int,
{
    broadcast use group_tokens;

    reveal_with_fuel(flat_items, 2);
    reveal_with_fuel(code_list, 2);

    let c = s[0];
    let seen2 = seen + if is_comment(c.kind) {
        0int
    } else {
        1int
    };
    if s.len() == 1 {
        assert(s.drop_first() =~= Seq::<Node>::empty());
        assert(flat_items(Kind::ParenthesizedExpression, s.drop_first(), seen2)
            == Seq::<char>::empty());
        assert(code_list(s.drop_first()) == Seq::<char>::empty());
        assert(nws(Seq::<char>::empty()) == Seq::<char>::empty());
        assert(Seq::<char>::empty() + seq![')'] =~= seq![')']);
        assert(seq![')'] + Seq::<char>::empty() =~= seq![')']);
    } else {
        lemma_flat_child(Kind::ParenthesizedExpression, c, seen);
        lemma_flat_paren_rest(s.drop_first(), seen2);
        assert(nws(flat_items(Kind::ParenthesizedExpression, s, seen)) + seq![')'] =~= nws(
            flat_child(Kind::ParenthesizedExpression, c, seen),
        ) + (nws(flat_items(Kind::ParenthesizedExpression, s.drop_first(), seen2)) + seq![')']));
    }
}

proof fn lemma_arglist_flat(a: Node)
    requires
        arglist_ok(a),
        a.kind == Kind::ArgumentList,
    ensures
        nws(arglist_flat(a)) == code(a),
    decreases a, 1int,
{
    broadcast use group_tokens;

    reveal_with_fuel(flat_items, 2);
    reveal_with_fuel(code_list, 2);

    let s = a.children@;
    lemma_flat_args_rest(s.drop_first(), 0, 1);
    lemma_nws_one('(');
    lemma_nws_one(')');
    assert(flat_items(Kind::ArgumentList, s, 0) == flat_items(Kind::ArgumentList, s.drop_first(), 1));
    assert(nws(arglist_flat(a)) =~= seq!['('] + (nws(flat_items(Kind::ArgumentList, s.drop_first(), 1))
        + seq![')']));
    assert(code(s[0]) == seq!['(']);
    assert(code(a) == code_list(s));
    assert(code_list(s) == code(s[0]) + code_list(s.drop_first()));
}

/// The flat form of an expression in shape holds exactly its tokens.
pub proof fn lemma_flat(n: Node)
    requires
        expr_ok(n),
    ensures
        nws(flat(n)) == code(n),
    decreases n, 1int,
{
    broadcast use group_tokens;

    reveal_with_fuel(flat_items, 2);
    reveal_with_fuel(code_list, 2);

    let s = n.children@;
    if is_atom(n.kind) {
    } else if n.kind == Kind::MemberExpression || n.kind == Kind::CallExpression || n.kind
        == Kind::UnaryExpression || n.kind == Kind::TernaryExpression {
        lemma_flat_items(n.kind, s, 0);
    } else if n.kind == Kind::BinaryExpression {
        assert(s.len() > 0) by {
            if s.len() == 0 {
                assert(count_nc(s) == 0);
            }
        }
        lemma_flat_bin_items(s, 0);
    } else if n.kind == Kind::ParenthesizedExpression {
        lemma_flat_paren_rest(s.drop_first(), 1);
        lemma_nws_one('(');
        lemma_nws_one(')');
        assert(flat_items(n.kind, s, 0) == flat_items(n.kind, s.drop_first(), 1));
        assert(nws(flat(n)) =~= seq!['('] + (nws(flat_items(n.kind, s.drop_first(), 1)) + seq![')']));
        assert(code(s[0]) == seq!['(']);
        assert(code(n) == code_list(s));
        assert(code_list(s) == code(s[0]) + code_list(s.drop_first()));
    } else {
        lemma_nws_trim(n.text@);
    }
}

// ---------------------------------------------------------------------------
// Indentation is whitespace
// ---------------------------------------------------------------------------

pub proof fn lemma_levels_ws(n: usize, style: IndentStyle, iw: usize)
    ensures
        nws(levels(n, style, iw)) == Seq::<char>::empty(),
{
    let l = levels(n, style, iw);
    assert forall|i: int| 0 <= i < l.len() implies is_ws(#[trigger] l[i]) by {
        match style {
            IndentStyle::Tab => assert(l[i] == '\t'),
            IndentStyle::Spaces => assert(l[i] == ' '),
        }
    }
    lemma_nws_ws(l);
}

pub proof fn lemma_cont_ws(g: Geom)
    ensures
        nws(cont_text(g)) == Seq::<char>::empty(),
        nws(indent_text(g)) == Seq::<char>::empty(),
{
    lemma_levels_ws(sat_add(g.indent, g.cont), g.style, g.iw);
    lemma_levels_ws(g.indent, g.style, g.iw);
}

// ---------------------------------------------------------------------------
// The k-th non-comment parts
// ---------------------------------------------------------------------------

/// The tokens of the non-comment parts `k .. k + m` of `s`.
pub open spec fn nc_code(s: Seq<Node>, k: int, m: nat) -> Seq<char>
    decreases m,
{
    if m == 0 {
        seq![]
    } else {
        code(s[nc_index(s, k)]) + nc_code(s, k + 1, (m - 1) as nat)
    }
}

proof fn lemma_nc_code_shift(s: Seq<Node>, k: int, m: nat)
    requires
        s.len() > 0,
        k >= 0,
        k + m <= count_nc(s.drop_first()),
    ensures
        is_comment(s[0].kind) ==> nc_code(s, k, m) == nc_code(s.drop_first(), k, m),
        !is_comment(s[0].kind) ==> nc_code(s, k + 1, m) == nc_code(s.drop_first(), k, m),
    decreases m,
{
    if m > 0 {
        lemma_nc_code_shift(s, k + 1, (m - 1) as nat);
        let rest = s.drop_first();
        let j = if is_comment(s[0].kind) {
            k
        } else {
            k + 1
        };
        assert(nc_index(s, j) == 1 + nc_index(rest, k));
        lemma_nc_index(rest, k);
        assert(s[nc_index(s, j)] == rest[nc_index(rest, k)]);
    }
}

proof fn lemma_code_nc(s: Seq<Node>)
    ensures
        code_list(s) == nc_code(s, 0, count_nc(s)),
    decreases s.len(),
{
    broadcast use group_tokens;

    reveal_with_fuel(code_list, 2);
    if s.len() > 0 {
        let rest = s.drop_first();
        lemma_code_nc(rest);
        lemma_count_nc_first(s);
        lemma_nc_code_shift(s, 0, count_nc(rest));
        assert(code_list(s) == code(s[0]) + code_list(rest));
        if !is_comment(s[0].kind) {
            assert(nc_index(s, 0) == 0);
            assert(nc_code(s, 0, count_nc(s)) == code(s[0]) + nc_code(s, 1, count_nc(rest)));
        } else {
            assert(code(s[0]) == Seq::<char>::empty());
            assert(count_nc(s) == count_nc(rest));
        }
    } else {
        assert(count_nc(s) == 0);
        assert(nc_code(s, 0, 0) == Seq::<char>::empty());
    }
}

proof fn lemma_bin_parts(s: Seq<Node>, seen: int, k: int)
    requires
        bin_children_ok(s, seen),
        0 <= k < count_nc(s),
    ensures
        nc_index(s, k) < s.len(),
        seen + k == 1 ==> is_leaf(s[nc_index(s, k)]),
        seen + k != 1 ==> expr_ok(s[nc_index(s, k)]),
        !is_comment(s[nc_index(s, k)].kind),
    decreases s.len(),
{
    lemma_nc_index(s, k);
    lemma_count_nc_first(s);
    if is_comment(s[0].kind) {
        lemma_bin_parts(s.drop_first(), seen, k);
        lemma_nc_index(s.drop_first(), k);
        assert(nc_index(s, k) == 1 + nc_index(s.drop_first(), k));
        assert(s[nc_index(s, k)] == s.drop_first()[nc_index(s.drop_first(), k)]);
    } else if k > 0 {
        lemma_bin_parts(s.drop_first(), seen + 1, k - 1);
        lemma_nc_index(s.drop_first(), k - 1);
        assert(nc_index(s, k) == 1 + nc_index(s.drop_first(), k - 1));
        assert(s[nc_index(s, k)] == s.drop_first()[nc_index(s.drop_first(), k - 1)]);
    } else {
        assert(nc_index(s, k) == 0);
    }
}

// ---------------------------------------------------------------------------
// Printed expressions keep the tokens
// ---------------------------------------------------------------------------

proof fn lemma_pair(op: Seq<char>, r: Node, col: usize, g: Geom, outer: bool)
    requires
        expr_ok(r),
    ensures
        nws(pair_spec(op, r, col, g, outer)) == nws(op) + code(r),
    decreases r, 5int,
{
    broadcast use group_tokens;

    let fl = super::expressions::first_line_len(flat(r));
    let tail = if outer {
        sat_add(1, g.eol_reserve)
    } else {
        0
    };
    let same = sat_add(
        sat_add(sat_add(sat_add(sat_add(col, 1), op.len() as usize), 1), fl),
        tail,
    );
    let lead = if same > g.width && super::expressions::cont_col(g) < col {
        seq!['\n'] + cont_text(g) + op + seq![' ']
    } else {
        seq![' '] + op + seq![' ']
    };
    lemma_cont_ws(g);
    lemma_nws_one('\n');
    lemma_nws_one(' ');
    lemma_emit(r, super::col_after(col, lead, g.iw), g);
}

proof fn lemma_chain(n: Node, col: usize, g: Geom, outer: bool)
    requires
        n.kind == Kind::BinaryExpression,
        expr_ok(n),
    ensures
        nws(chain_spec(n, col, g, outer)) == code(n),
    decreases n, 1int,
{
    broadcast use group_tokens;

    reveal_with_fuel(nc_code, 4);
    let s = n.children@;
    lemma_bin_parts(s, 0, 0);
    lemma_bin_parts(s, 0, 1);
    lemma_bin_parts(s, 0, 2);
    lemma_nc_index(s, 0);
    lemma_nc_index(s, 1);
    lemma_nc_index(s, 2);
    lemma_code_nc(s);
    assert(s.len() > 0) by {
        if s.len() == 0 {
            assert(count_nc(s) == 0);
        }
    }
    assert(code(n) == code_list(s));
    let p0 = s[nc_index(s, 0)];
    let p1 = s[nc_index(s, 1)];
    let p2 = s[nc_index(s, 2)];
    assert(p0 == bin_part(n, 0));
    assert(p1 == bin_part(n, 1));
    assert(p2 == bin_part(n, 2));
    assert(code(n) == code(p0) + code(p1) + code(p2));
    let head = if chain_continues(n) {
        chain_spec(p0, col, g, false)
    } else {
        emit_spec(p0, col, g)
    };
    if chain_continues(n) {
        lemma_chain(p0, col, g, false);
    } else {
        lemma_emit(p0, col, g);
    }
    lemma_pair(p1.text@, p2, super::col_after(col, head, g.iw), g, outer);
    assert(code(p1) == nws(p1.text@));
}

proof fn lemma_child_emit(pk: Kind, c: Node, col: usize, g: Geom)
    requires
        pk == Kind::MemberExpression || pk == Kind::CallExpression || pk == Kind::UnaryExpression
            || pk == Kind::ParenthesizedExpression,
        child_ok(pk, c),
    ensures
        nws(child_spec(pk, c, col, g)) == code(c),
    decreases c, 4int,
{
    broadcast use group_tokens;

    if is_comment(c.kind) {
    } else if pk == Kind::CallExpression && c.kind == Kind::ArgumentList {
        lemma_arglist_emit(c, col, g);
    } else if pk == Kind::MemberExpression && c.kind == Kind::Dot {
        lemma_nws_one('.');
    } else if pk == Kind::UnaryExpression && (c.kind == Kind::Minus || c.kind == Kind::Bang) {
    } else if pk == Kind::UnaryExpression && c.kind == Kind::Not {
        assert(seq!['n', 'o', 't', ' '] =~= seq!['n'] + seq!['o'] + seq!['t'] + seq![' ']);
        assert(seq!['n', 'o', 't'] =~= seq!['n'] + seq!['o'] + seq!['t']);
        lemma_nws_one('n');
        lemma_nws_one('o');
        lemma_nws_one('t');
        lemma_nws_one(' ');
    } else {
        lemma_emit(c, col, g);
    }
}

proof fn lemma_items_emit(pk: Kind, s: Seq<Node>, col: usize, g: Geom)
    requires
        pk == Kind::MemberExpression || pk == Kind::CallExpression || pk == Kind::UnaryExpression,
        children_ok(pk, s),
    ensures
        nws(items_spec(pk, s, col, g)) == code_list(s),
    decreases s, 0int,
{
    broadcast use group_tokens;

    reveal_with_fuel(code_list, 2);
    if s.len() > 0 {
        lemma_child_emit(pk, s[0], col, g);
        let a = child_spec(pk, s[0], col, g);
        lemma_items_emit(pk, s.drop_first(), super::col_after(col, a, g.iw), g);
    }
}

proof fn lemma_paren_items_emit(s: Seq<Node>, col: usize, g: Geom)
    requires
        paren_rest_ok(s),
    ensures
        nws(items_spec(Kind::ParenthesizedExpression, s, col, g)) + seq![')'] == code_list(s),
    decreases s, 0int,
{
    broadcast use group_tokens;

    reveal_with_fuel(code_list, 2);
    reveal_with_fuel(items_spec, 2);
    let pk = Kind::ParenthesizedExpression;
    if s.len() == 1 {
        assert(s.drop_first() =~= Seq::<Node>::empty());
        assert(code(s[0]) == seq![')']);
    } else {
        lemma_child_emit(pk, s[0], col, g);
        let a = child_spec(pk, s[0], col, g);
        lemma_paren_items_emit(s.drop_first(), super::col_after(col, a, g.iw), g);
        assert(nws(items_spec(pk, s, col, g)) + seq![')'] =~= nws(a) + (nws(
            items_spec(pk, s.drop_first(), super::col_after(col, a, g.iw), g),
        ) + seq![')']));
    }
}

proof fn lemma_tern_emit(s: Seq<Node>, col: usize, g: Geom)
    requires
        children_ok(Kind::TernaryExpression, s),
    ensures
        nws(tern_spec(s, col, g)) == code_list(s),
    decreases s, 0int,
{
    broadcast use group_tokens;

    reveal_with_fuel(code_list, 2);
    reveal_with_fuel(children_ok, 2);
    if s.len() > 0 {
        let c = s[0];
        assert(child_ok(Kind::TernaryExpression, c));
        lemma_cont_ws(g);
        lemma_nws_one('\n');
        lemma_nws_one(' ');
        let a = if c.kind == Kind::Question || c.kind == Kind::Colon {
            let mark = if c.kind == Kind::Question {
                '?'
            } else {
                ':'
            };
            lemma_nws_one(mark);
            if super::expressions::cont_col(g) < col {
                seq!['\n'] + cont_text(g) + seq![mark, ' ']
            } else {
                seq![' ', mark, ' ']
            }
        } else if is_comment(c.kind) {
            seq![]
        } else {
            lemma_emit(c, col, g);
            emit_spec(c, col, g)
        };
        if c.kind == Kind::Question || c.kind == Kind::Colon {
            let mark = if c.kind == Kind::Question {
                '?'
            } else {
                ':'
            };
            assert(seq![mark, ' '] =~= seq![mark] + seq![' ']);
            assert(seq![' ', mark, ' '] =~= seq![' '] + seq![mark] + seq![' ']);
        }
        lemma_tern_emit(s.drop_first(), super::col_after(col, a, g.iw), g);
    }
}

/// The wrapped arguments after `(`: every argument's tokens, a comma
/// after each but the last, as the source has them; in state 1 the comma
/// after the argument just printed (if another follows) is already out.
proof fn lemma_args_emit(s: Seq<Node>, state: int, seen: int, col: usize, g: Geom)
    requires
        args_ok(s, state),
    ensures
        state == 2 ==> count_args(s) > 0,
        state != 1 ==> nws(args_spec(s, seen, col, g)) + seq![')'] == code_list(s),
        state == 1 ==> (if count_args(s) > 0 {
            seq![',']
        } else {
            Seq::<char>::empty()
        }) + nws(args_spec(s, seen, col, g)) + seq![')'] == code_list(s),
    decreases s, 0int,
{
    broadcast use group_tokens;

    reveal_with_fuel(code_list, 2);
    reveal_with_fuel(args_spec, 2);
    let c = s[0];
    if s.len() == 1 {
        assert(s.drop_first() =~= Seq::<Node>::empty());
        assert(code(c) == seq![')']);
        assert(count_args(s) == 0) by {
            assert(count_args(s.drop_first()) == 0);
        }
    } else if is_comment(c.kind) {
        lemma_args_emit(s.drop_first(), state, seen, col, g);
    } else if c.kind == Kind::Comma {
        lemma_args_emit(s.drop_first(), 2, seen, col, g);
        assert(code(c) == seq![',']);
        assert(seq![','] + nws(args_spec(s, seen, col, g)) + seq![')'] =~= seq![','] + (nws(
            args_spec(s.drop_first(), seen, col, g),
        ) + seq![')']));
    } else {
        let rest = s.drop_first();
        let last = count_args(rest) == 0;
        let a = arg_piece(c, seen, last, col, g);
        let col2 = super::col_after(col, a, g.iw);
        lemma_args_emit(rest, 1, seen + 1, col2, g);
        lemma_arg_piece(c, seen, last, col, g);
        assert(nws(args_spec(s, seen, col, g)) + seq![')'] =~= code(c) + ((if !last {
            seq![',']
        } else {
            Seq::<char>::empty()
        }) + nws(args_spec(rest, seen + 1, col2, g)) + seq![')']));
    }
}

proof fn lemma_arg_piece(c: Node, seen: int, last: bool, col: usize, g: Geom)
    requires
        expr_ok(c),
    ensures
        nws(arg_piece(c, seen, last, col, g)) == code(c) + if last {
            Seq::<char>::empty()
        } else {
            seq![',']
        },
    decreases c, 5int,
{
    broadcast use group_tokens;

    lemma_cont_ws(g);
    lemma_nws_one('\n');
    lemma_nws_one(' ');
    lemma_nws_one(',');
    let fl = super::expressions::first_line_len(flat(c));
    let tail = if last {
        sat_add(1, g.eol_reserve)
    } else {
        1
    };
    let sep = if super::expressions::arg_breaks(seen, col, fl, tail, g) {
        seq!['\n'] + cont_text(g)
    } else if seen == 0 {
        seq![]
    } else {
        seq![' ']
    };
    lemma_emit(c, super::col_after(col, sep, g.iw), g);
}

proof fn lemma_arglist_emit(a: Node, col: usize, g: Geom)
    requires
        arglist_ok(a),
        a.kind == Kind::ArgumentList,
    ensures
        nws(arglist_spec(a, col, g)) == code(a),
    decreases a, 2int,
{
    broadcast use group_tokens;

    reveal_with_fuel(code_list, 2);
    let s = a.children@;
    lemma_arglist_flat(a);
    lemma_nws_one('(');
    lemma_nws_one(')');
    let col1 = super::col_after(col, seq!['('], g.iw);
    lemma_args_emit(s.drop_first(), 0, 0, col1, g);
    assert(args_spec(s, 0, col1, g) == args_spec(s.drop_first(), 0, col1, g));
    assert(code(s[0]) == seq!['(']);
    assert(code(a) == code_list(s));
}

/// A printed expression in shape holds exactly its tokens, however it is
/// laid out.
pub proof fn lemma_emit(n: Node, col: usize, g: Geom)
    requires
        expr_ok(n),
    ensures
        nws(emit_spec(n, col, g)) == code(n),
    decreases n, 3int,
{
    broadcast use group_tokens;

    reveal_with_fuel(code_list, 2);
    let s = n.children@;
    lemma_flat(n);
    if is_atom(n.kind) {
    } else if n.kind == Kind::MemberExpression || n.kind == Kind::CallExpression || n.kind
        == Kind::UnaryExpression {
        lemma_items_emit(n.kind, s, col, g);
    } else if n.kind == Kind::BinaryExpression {
        lemma_chain(n, col, g, true);
    } else if n.kind == Kind::TernaryExpression {
        lemma_tern_emit(s, col, g);
    } else if n.kind == Kind::ParenthesizedExpression {
        lemma_nws_one('(');
        lemma_nws_one(')');
        let col1 = super::col_after(col, seq!['('], g.iw);
        lemma_paren_items_emit(s.drop_first(), col1, g);
        reveal_with_fuel(items_spec, 2);
        assert(items_spec(n.kind, s, col1, g) == items_spec(n.kind, s.drop_first(), col1, g));
        assert(code(s[0]) == seq!['(']);
        assert(code(n) == code_list(s));
    } else {
        lemma_nws_trim(n.text@);
    }
}

} // verus!
