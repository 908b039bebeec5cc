//! Where a range format lands: the statements it covers, snapped outward to
//! whole statements, at the deepest block whose statements cover the range,
//! and how deep that block is.

use vstd::prelude::*;
use crate::cst::{Cst, Kind, Node, is_comment};
use crate::text::sat_add;

verus! {

/// A statement of a statement list: not a comment, not a brace.
pub open spec fn is_stmt(k: Kind) -> bool {
    !(is_comment(k) || k == Kind::LBrace || k == Kind::RBrace)
}

pub fn is_stmt_exec(k: Kind) -> (r: bool)
    ensures
        r == is_stmt(k),
{
    !(k == Kind::LineComment || k == Kind::BlockComment || k == Kind::LBrace || k == Kind::RBrace)
}

/// The statement `n` meets lines `a..=b`.
pub open spec fn meets(n: Node, a: usize, b: usize) -> bool {
    is_stmt(n.kind) && n.start_line <= b && n.end_line >= a
}

/// The span of the statements among `items` that meet lines `a..=b`,
/// widened by `acc`.
pub open spec fn covered_span(items: Seq<Node>, a: usize, b: usize, acc: Option<(usize, usize)>) -> Option<
    (usize, usize),
>
    decreases items.len(),
{
    if items.len() == 0 {
        acc
    } else {
        let n = items[0];
        let acc1 = if meets(n, a, b) {
            match acc {
                Some((cs, ce)) => Some(
                    (
                        if n.start_line < cs {
                            n.start_line
                        } else {
                            cs
                        },
                        if n.end_line > ce {
                            n.end_line
                        } else {
                            ce
                        },
                    ),
                ),
                None => Some((n.start_line, n.end_line)),
            }
        } else {
            acc
        };
        covered_span(items.drop_first(), a, b, acc1)
    }
}

/// How many statements of `items` meet lines `a..=b`.
pub open spec fn count_meeting(items: Seq<Node>, a: usize, b: usize) -> nat
    decreases items.len(),
{
    if items.len() == 0 {
        0
    } else {
        (if meets(items[0], a, b) {
            1nat
        } else {
            0nat
        }) + count_meeting(items.drop_first(), a, b)
    }
}

/// Index of the first statement of `items` that meets lines `a..=b`
/// (`items.len()` when none does).
pub open spec fn first_meeting(items: Seq<Node>, a: usize, b: usize) -> int
    decreases items.len(),
{
    if items.len() == 0 {
        0
    } else if meets(items[0], a, b) {
        0
    } else {
        1 + first_meeting(items.drop_first(), a, b)
    }
}

/// The innermost run of statements inside statement `n` (printed at depth
/// `d`) that covers lines `a..=b`: its span and its depth.
pub open spec fn inner_of(n: Node, a: usize, b: usize, d: usize) -> Option<(usize, usize, usize)>
    decreases n, 2int,
{
    if n.kind == Kind::Block {
        try_block(n, a, b, sat_add(d, 1))
    } else {
        blocks_in(n.children@, a, b, d)
    }
}

/// The first block among `items` (the parts of a statement at depth `d`)
/// whose statements cover lines `a..=b`.
pub open spec fn blocks_in(items: Seq<Node>, a: usize, b: usize, d: usize) -> Option<
    (usize, usize, usize),
>
    decreases items, 0int,
{
    if items.len() == 0 {
        None
    } else {
        match inner_child(items[0], a, b, d) {
            Some(r) => Some(r),
            None => blocks_in(items.drop_first(), a, b, d),
        }
    }
}

/// A part of a statement at depth `d`: its block (one level deeper), an
/// `else` clause or an `if` after `else` (the same depth), or an `is`
/// clause (whose block is two levels deeper).
pub open spec fn inner_child(ch: Node, a: usize, b: usize, d: usize) -> Option<(usize, usize, usize)>
    decreases ch, 4int,
{
    if ch.kind == Kind::Block {
        try_block(ch, a, b, sat_add(d, 1))
    } else if ch.kind == Kind::ElseClause || ch.kind == Kind::IfStatement {
        blocks_in(ch.children@, a, b, d)
    } else if ch.kind == Kind::IsClause {
        blocks_in(ch.children@, a, b, sat_add(d, 1))
    } else {
        None
    }
}

/// The block `blk`, whose statements are at depth `d`, when they cover
/// lines `a..=b`: the span of those meeting the range, or deeper still when
/// a single one does and one of its own blocks covers the range.
pub open spec fn try_block(blk: Node, a: usize, b: usize, d: usize) -> Option<(usize, usize, usize)>
    decreases blk, 1int,
{
    let items = blk.children@;
    match covered_span(items, a, b, None) {
        Some((s, e)) => if s <= a && b <= e {
            if count_meeting(items, a, b) == 1 && 0 <= first_meeting(items, a, b) < items.len() {
                match inner_of(items[first_meeting(items, a, b)], a, b, d) {
                    Some(r) => Some(r),
                    None => Some((s, e, d)),
                }
            } else {
                Some((s, e, d))
            }
        } else {
            None
        },
        None => None,
    }
}

/// Where a range format of lines `a..=b` lands: the span of the top-level
/// statements meeting the range at depth 0, or, when a single top-level
/// statement does, the innermost run of statements inside it that covers
/// the range.
pub open spec fn range_target(cst: Cst, a: usize, b: usize) -> Option<(usize, usize, usize)> {
    let items = cst.root.children@;
    match covered_span(items, a, b, None) {
        Some((s, e)) => if count_meeting(items, a, b) == 1 && 0 <= first_meeting(items, a, b)
            < items.len() {
            match inner_of(items[first_meeting(items, a, b)], a, b, 0) {
                Some(r) => Some(r),
                None => Some((s, e, 0)),
            }
        } else {
            Some((s, e, 0))
        },
        None => None,
    }
}

proof fn lemma_covered_meets(items: Seq<Node>, a: usize, b: usize, acc: Option<(usize, usize)>)
    requires
        acc matches Some((cs, ce)) ==> cs <= b && ce >= a,
    ensures
        covered_span(items, a, b, acc) matches Some((s, e)) ==> s <= b && e >= a,
    decreases items.len(),
{
    if items.len() > 0 {
        let n = items[0];
        let acc1 = if meets(n, a, b) {
            match acc {
                Some((cs, ce)) => Some(
                    (
                        if n.start_line < cs {
                            n.start_line
                        } else {
                            cs
                        },
                        if n.end_line > ce {
                            n.end_line
                        } else {
                            ce
                        },
                    ),
                ),
                None => Some((n.start_line, n.end_line)),
            }
        } else {
            acc
        };
        lemma_covered_meets(items.drop_first(), a, b, acc1);
    }
}

proof fn lemma_inner_covers(n: Node, a: usize, b: usize, d: usize)
    ensures
        inner_of(n, a, b, d) matches Some((s, e, _)) ==> s <= a && b <= e,
    decreases n, 2int,
{
    if n.kind == Kind::Block {
        lemma_block_covers(n, a, b, sat_add(d, 1));
    } else {
        lemma_blocks_cover(n.children@, a, b, d);
    }
}

proof fn lemma_blocks_cover(items: Seq<Node>, a: usize, b: usize, d: usize)
    ensures
        blocks_in(items, a, b, d) matches Some((s, e, _)) ==> s <= a && b <= e,
    decreases items, 0int,
{
    if items.len() > 0 {
        lemma_child_covers(items[0], a, b, d);
        lemma_blocks_cover(items.drop_first(), a, b, d);
    }
}

proof fn lemma_child_covers(ch: Node, a: usize, b: usize, d: usize)
    ensures
        inner_child(ch, a, b, d) matches Some((s, e, _)) ==> s <= a && b <= e,
    decreases ch, 4int,
{
    if ch.kind == Kind::Block {
        lemma_block_covers(ch, a, b, sat_add(d, 1));
    } else if ch.kind == Kind::ElseClause || ch.kind == Kind::IfStatement {
        lemma_blocks_cover(ch.children@, a, b, d);
    } else if ch.kind == Kind::IsClause {
        lemma_blocks_cover(ch.children@, a, b, sat_add(d, 1));
    }
}

proof fn lemma_block_covers(blk: Node, a: usize, b: usize, d: usize)
    ensures
        try_block(blk, a, b, d) matches Some((s, e, _)) ==> s <= a && b <= e,
    decreases blk, 1int,
{
    let items = blk.children@;
    let k = first_meeting(items, a, b);
    if 0 <= k < items.len() {
        lemma_inner_covers(items[k], a, b, d);
    }
}

/// A range format of lines `a..=b` lands on statements that meet them: the
/// snapped span reaches from at or before the range's end to at or after
/// its start, and when it lands inside a block it covers the whole range.
pub proof fn range_target_meets_request(cst: Cst, a: usize, b: usize)
    requires
        a <= b,
    ensures
        range_target(cst, a, b) matches Some((s, e, d)) ==> s <= b && a <= e && (d > 0 ==> s <= a
            && b <= e),
{
    let items = cst.root.children@;
    lemma_covered_meets(items, a, b, None);
    let k = first_meeting(items, a, b);
    if 0 <= k < items.len() {
        lemma_inner_covers(items[k], a, b, 0);
    }
}

/// The span, count and first index of the statements of `items` meeting
/// lines `a..=b`.
pub fn meeting_exec(items: &Vec<Node>, a: usize, b: usize) -> (r: (Option<(usize, usize)>, usize, usize))
    ensures
        r.0 == covered_span(items@, a, b, None),
        r.1 == count_meeting(items@, a, b),
        r.2 == first_meeting(items@, a, b),
        r.2 <= items@.len(),
{
    let mut acc: Option<(usize, usize)> = None;
    let mut count: usize = 0;
    let mut first: usize = items.len();
    let mut i: usize = 0;
    assert(items@.skip(0) =~= items@);
    while i < items.len()
        invariant
            i <= items.len(),
            count <= i,
            first <= items.len(),
            covered_span(items@, a, b, None) == covered_span(items@.skip(i as int), a, b, acc),
            count_meeting(items@, a, b) == count + count_meeting(items@.skip(i as int), a, b),
            first == items.len() ==> first_meeting(items@, a, b) == i + first_meeting(
                items@.skip(i as int),
                a,
                b,
            ),
            first < items.len() ==> first_meeting(items@, a, b) == first,
            count == 0 <==> first == items.len(),
        decreases items.len() - i,
    {
        assert(items@.skip(i as int)[0] == items@[i as int]);
        assert(items@.skip(i as int).drop_first() =~= items@.skip(i + 1));
        let n = &items[i];
        if is_stmt_exec(n.kind) && n.start_line <= b && n.end_line >= a {
            acc = match acc {
                Some((cs, ce)) => Some(
                    (
                        if n.start_line < cs {
                            n.start_line
                        } else {
                            cs
                        },
                        if n.end_line > ce {
                            n.end_line
                        } else {
                            ce
                        },
                    ),
                ),
                None => Some((n.start_line, n.end_line)),
            };
            if count == 0 {
                first = i;
            }
            count = count + 1;
        }
        i += 1;
    }
    proof {
        if first == items.len() {
            assert(first_meeting(items@.skip(i as int), a, b) == 0);
        }
    }
    (acc, count, first)
}

pub fn inner_of_exec(n: &Node, a: usize, b: usize, d: usize) -> (r: Option<(usize, usize, usize)>)
    ensures
        r == inner_of(*n, a, b, d),
    decreases n, 2int,
{
    if n.kind == Kind::Block {
        try_block_exec(n, a, b, d.saturating_add(1))
    } else {
        blocks_in_exec(&n.children, a, b, d)
    }
}

pub fn blocks_in_exec(items: &Vec<Node>, a: usize, b: usize, d: usize) -> (r: Option<
    (usize, usize, usize),
>)
    ensures
        r == blocks_in(items@, a, b, d),
    decreases items@, 0int,
{
    let mut i: usize = 0;
    assert(items@.skip(0) =~= items@);
    while i < items.len()
        invariant
            i <= items.len(),
            blocks_in(items@, a, b, d) == blocks_in(items@.skip(i as int), a, b, d),
        decreases items.len() - i,
    {
        assert(items@.skip(i as int)[0] == items@[i as int]);
        assert(items@.skip(i as int).drop_first() =~= items@.skip(i + 1));
        let r = inner_child_exec(&items[i], a, b, d);
        if r.is_some() {
            return r;
        }
        i += 1;
    }
    None
}

pub fn inner_child_exec(ch: &Node, a: usize, b: usize, d: usize) -> (r: Option<(usize, usize, usize)>)
    ensures
        r == inner_child(*ch, a, b, d),
    decreases ch, 4int,
{
    if ch.kind == Kind::Block {
        try_block_exec(ch, a, b, d.saturating_add(1))
    } else if ch.kind == Kind::ElseClause || ch.kind == Kind::IfStatement {
        blocks_in_exec(&ch.children, a, b, d)
    } else if ch.kind == Kind::IsClause {
        blocks_in_exec(&ch.children, a, b, d.saturating_add(1))
    } else {
        None
    }
}

pub fn try_block_exec(blk: &Node, a: usize, b: usize, d: usize) -> (r: Option<(usize, usize, usize)>)
    ensures
        r == try_block(*blk, a, b, d),
    decreases blk, 1int,
{
    let items = &blk.children;
    let (span, count, first) = meeting_exec(items, a, b);
    match span {
        Some((s, e)) => if s <= a && b <= e {
            if count == 1 && first < items.len() {
                match inner_of_exec(&items[first], a, b, d) {
                    Some(r) => Some(r),
                    None => Some((s, e, d)),
                }
            } else {
                Some((s, e, d))
            }
        } else {
            None
        },
        None => None,
    }
}

/// Where a range format of lines `a..=b` lands (see [`range_target`]).
pub fn range_target_exec(cst: &Cst, a: usize, b: usize) -> (r: Option<(usize, usize, usize)>)
    ensures
        r == range_target(*cst, a, b),
{
    let items = &cst.root.children;
    let (span, count, first) = meeting_exec(items, a, b);
    match span {
        Some((s, e)) => if count == 1 && first < items.len() {
            match inner_of_exec(&items[first], a, b, 0) {
                Some(r) => Some(r),
                None => Some((s, e, 0)),
            }
        } else {
            Some((s, e, 0))
        },
        None => None,
    }
}

} // verus!
