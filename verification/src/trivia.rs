//! Comments ("trivia"): collected from the tree in source order, normalized,
//! and attached to statements as end-of-line comments.

use vstd::prelude::*;
use crate::cst::{Cst, Node, is_comment, kind_is_comment};
use crate::text::{
    chars_of, is_ws, lead_ws_exec, lemma_trim_end, lemma_trim_start, push_all, starts_with,
    string_of, sub_vec, trim, trim_end, trim_end_len, trim_end_len_exec, trim_start,
};

verus! {

/// A comment: its span (character offsets), its text, and its 0-based line.
#[derive(Debug)]
pub struct TriviaItem {
    pub byte_offset: usize,
    pub end_offset: usize,
    pub text: String,
    pub source_line: usize,
}

impl Clone for TriviaItem {
    fn clone(&self) -> (r: Self)
        ensures
            r == *self,
    {
        TriviaItem {
            byte_offset: self.byte_offset,
            end_offset: self.end_offset,
            text: self.text.clone(),
            source_line: self.source_line,
        }
    }
}

/// The trivia item for a comment node.
pub open spec fn item_of(n: Node) -> TriviaItem {
    TriviaItem {
        byte_offset: n.start,
        end_offset: n.end,
        text: n.text,
        source_line: n.start_line,
    }
}

/// The comments of a subtree in tree order.
pub open spec fn comments_of(n: Node) -> Seq<TriviaItem>
    decreases n, 1int,
{
    if is_comment(n.kind) {
        seq![item_of(n)]
    } else {
        comments_in(n.children@)
    }
}

pub open spec fn comments_in(s: Seq<Node>) -> Seq<TriviaItem>
    decreases s, 0int,
{
    if s.len() == 0 {
        seq![]
    } else {
        comments_of(s[0]) + comments_in(s.drop_first())
    }
}

/// `x` inserted into `s` after every item whose offset is not greater
/// (a stable insertion).
pub open spec fn insert_by_offset(s: Seq<TriviaItem>, x: TriviaItem) -> Seq<TriviaItem>
    decreases s.len(),
{
    if s.len() == 0 {
        seq![x]
    } else if s.last().byte_offset <= x.byte_offset {
        s.push(x)
    } else {
        insert_by_offset(s.drop_last(), x).push(s.last())
    }
}

/// A stable sort by `byte_offset`.
pub open spec fn sort_by_offset(s: Seq<TriviaItem>) -> Seq<TriviaItem>
    decreases s.len(),
{
    if s.len() == 0 {
        seq![]
    } else {
        insert_by_offset(sort_by_offset(s.drop_last()), s.last())
    }
}

/// Every comment of the tree, ordered by offset (ties in tree order).
pub open spec fn trivia_of(cst: Cst) -> Seq<TriviaItem> {
    sort_by_offset(comments_of(cst.root))
}

fn collect_node(n: &Node, out: &mut Vec<TriviaItem>)
    ensures
        final(out)@ == old(out)@ + comments_of(*n),
    decreases n, 1int,
{
    if kind_is_comment(n.kind) {
        out.push(
            TriviaItem {
                byte_offset: n.start,
                end_offset: n.end,
                text: n.text.clone(),
                source_line: n.start_line,
            },
        );
    } else {
        collect_items(&n.children, out);
    }
}

fn collect_items(s: &Vec<Node>, out: &mut Vec<TriviaItem>)
    ensures
        final(out)@ == old(out)@ + comments_in(s@),
    decreases s@, 0int,
{
    let mut i: usize = 0;
    assert(s@.skip(0) =~= s@);
    while i < s.len()
        invariant
            i <= s.len(),
            old(out)@ + comments_in(s@) == out@ + comments_in(s@.skip(i as int)),
        decreases s.len() - i,
    {
        assert(s@.skip(i as int).drop_first() =~= s@.skip(i + 1));
        assert(s@.skip(i as int)[0] == s@[i as int]);
        let ghost before = out@;
        collect_node(&s[i], out);
        assert(before + comments_in(s@.skip(i as int)) == out@ + comments_in(s@.skip(i + 1)));
        i += 1;
    }
    assert(comments_in(s@.skip(i as int)) =~= Seq::<TriviaItem>::empty());
    assert(out@ + Seq::<TriviaItem>::empty() =~= out@);
}

proof fn lemma_insert_at(s: Seq<TriviaItem>, x: TriviaItem, j: int)
    requires
        0 <= j <= s.len(),
        forall|k: int| j <= k < s.len() ==> s[k].byte_offset > x.byte_offset,
        j == 0 || s[j - 1].byte_offset <= x.byte_offset,
    ensures
        insert_by_offset(s, x) == s.take(j) + seq![x] + s.skip(j),
    decreases s.len(),
{
    if s.len() == 0 {
        assert(s.take(j) + seq![x] + s.skip(j) =~= seq![x]);
    } else if j == s.len() {
        assert(s.take(j) + seq![x] + s.skip(j) =~= s.push(x));
    } else {
        lemma_insert_at(s.drop_last(), x, j);
        assert(s.drop_last().take(j) + seq![x] + s.drop_last().skip(j) + seq![s.last()] =~= s.take(
            j,
        ) + seq![x] + s.skip(j));
    }
}

/// Collect every comment of the tree, ordered by offset.
pub fn collect_trivia(cst: &Cst) -> (r: Vec<TriviaItem>)
    ensures
        r@ == trivia_of(*cst),
{
    let mut items: Vec<TriviaItem> = Vec::new();
    collect_node(&cst.root, &mut items);
    assert(items@ =~= comments_of(cst.root));
    let ghost all = items@;
    // Stable insertion sort by offset.
    let mut sorted: Vec<TriviaItem> = Vec::new();
    let ghost n = all.len();
    let mut i: usize = 0;
    while i < items.len()
        invariant
            i <= n,
            items@ == all,
            sorted@ == sort_by_offset(all.take(i as int)),
            n == all.len(),
        decreases n - i,
    {
        let x = items[i].clone();
        assert(x == all[i as int]);
        let mut j = sorted.len();
        while j > 0 && sorted[j - 1].byte_offset > x.byte_offset
            invariant
                j <= sorted@.len(),
                forall|k: int| j <= k < sorted@.len() ==> sorted@[k].byte_offset > x.byte_offset,
            decreases j,
        {
            j -= 1;
        }
        proof {
            lemma_insert_at(sorted@, x, j as int);
            assert(all.take(i + 1).drop_last() =~= all.take(i as int));
            assert(all.take(i + 1).last() == x);
        }
        sorted.insert(j, x);
        assert(sorted@ =~= insert_by_offset(sort_by_offset(all.take(i as int)), all[i as int]));
        i += 1;
    }
    assert(all.take(n as int) =~= all);
    sorted
}

// ---------------------------------------------------------------------------
// Line-comment normalization
// ---------------------------------------------------------------------------

pub open spec fn slashes() -> Seq<char> {
    seq!['/', '/']
}

/// `//` + one space + the comment's text with surrounding whitespace
/// removed; a comment with no text is just `//`.
pub open spec fn line_comment_norm(raw: Seq<char>) -> Seq<char> {
    let body = if starts_with(raw, slashes()) {
        raw.skip(2)
    } else {
        raw
    };
    let t = trim(body);
    if t.len() == 0 {
        slashes()
    } else {
        slashes() + seq![' '] + t
    }
}

/// `trim` as an exec copy.
pub fn trim_exec(s: &[char]) -> (r: Vec<char>)
    ensures
        r@ == trim(s@),
{
    let k = trim_end_len_exec(s);
    let e = sub_vec(s, 0, k);
    let a = lead_ws_exec(e.as_slice());
    sub_vec(e.as_slice(), a, e.len())
}

pub fn line_comment_chars(raw: &[char]) -> (r: Vec<char>)
    ensures
        r@ == line_comment_norm(raw@),
{
    let sl = ['/', '/'];
    assert(sl@ =~= slashes());
    let body = if raw.len() >= 2 && raw[0] == '/' && raw[1] == '/' {
        assert(raw@.take(2) =~= slashes());
        sub_vec(raw, 2, raw.len())
    } else {
        proof {
            if starts_with(raw@, slashes()) {
                assert(raw@.take(2)[0] == '/');
                assert(raw@.take(2)[1] == '/');
            }
        }
        sub_vec(raw, 0, raw.len())
    };
    assert(body@ =~= if starts_with(raw@, slashes()) {
        raw@.skip(2)
    } else {
        raw@
    });
    let t = trim_exec(body.as_slice());
    let mut r: Vec<char> = Vec::new();
    r.push('/');
    r.push('/');
    if t.len() > 0 {
        r.push(' ');
        push_all(&mut r, t.as_slice());
    }
    assert(r@ =~= line_comment_norm(raw@));
    r
}

/// A trimmed text starts and ends with non-whitespace.
proof fn lemma_trimmed_ends(s: Seq<char>)
    ensures
        trim(s).len() > 0 ==> !is_ws(trim(s)[0]) && !is_ws(trim(s).last()),
{
    let e = trim_end(s);
    lemma_trim_end(s);
    lemma_trim_start(e);
    if trim(s).len() > 0 {
        let k = trim_end_len(s);
        assert(trim(s).last() == e[e.len() - 1]);
        assert(e[e.len() - 1] == s[k - 1]);
    }
}

/// Normalizing a line comment twice changes nothing: `// text` is already
/// in normal form.
pub proof fn line_comment_norm_is_idempotent(raw: Seq<char>)
    ensures
        line_comment_norm(line_comment_norm(raw)) == line_comment_norm(raw),
{
    let body = if starts_with(raw, slashes()) {
        raw.skip(2)
    } else {
        raw
    };
    let t = trim(body);
    let n = line_comment_norm(raw);
    assert(n.take(2) =~= slashes());
    if t.len() == 0 {
        assert(n.skip(2) =~= Seq::<char>::empty());
        assert(trim(Seq::<char>::empty()) =~= Seq::<char>::empty());
    } else {
        lemma_trimmed_ends(body);
        let b2 = seq![' '] + t;
        assert(n.skip(2) =~= b2);
        assert(b2.last() == t.last());
        assert(trim_end(b2) == b2);
        assert(b2.drop_first() =~= t);
        assert(trim_start(b2) == trim_start(t));
        assert(trim_end(t) == t);
        assert(trim(t) == t) by {
            assert(trim_start(t) == t);
        }
    }
}

/// Normalize a raw line comment: strip the `//` prefix, then `// ` + body
/// with all surrounding whitespace (spaces and tabs) removed.
pub fn format_line_comment(raw: &str) -> (r: String)
    ensures
        r@ == line_comment_norm(raw@),
{
    let c = chars_of(raw);
    let v = line_comment_chars(c.as_slice());
    string_of(v.as_slice())
}

/// Whether `item` attaches as an end-of-line comment to a statement ending on
/// `stmt_end_line` at offset `stmt_end_byte`, the next statement starting at
/// `next_stmt_start` (`usize::MAX` for the last one): it must be on the
/// statement's end line and fall in the statement's slot on that line.
pub open spec fn eol_attaches(
    item: TriviaItem,
    stmt_end_line: usize,
    stmt_end_byte: usize,
    next_stmt_start: usize,
) -> bool {
    item.source_line == stmt_end_line && item.byte_offset >= stmt_end_byte && item.byte_offset
        < next_stmt_start
}

pub fn is_eol_comment(
    item: &TriviaItem,
    stmt_end_line: usize,
    stmt_end_byte: usize,
    next_stmt_start: usize,
) -> (r: bool)
    ensures
        r == eol_attaches(*item, stmt_end_line, stmt_end_byte, next_stmt_start),
{
    item.source_line == stmt_end_line && item.byte_offset >= stmt_end_byte && item.byte_offset
        < next_stmt_start
}

} // verus!
