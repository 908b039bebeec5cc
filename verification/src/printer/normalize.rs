//! Whole-output post-processing passes run after the printer has emitted the
//! document: strip brace-adjacent blank lines, collapse blank runs, normalize
//! the trailing newline, separate top-level `when` blocks, and the opt-in
//! assignment alignment and comment reflow.
//!
//! Each pass works on the `split_inclusive('\n')` pieces of the text (see
//! [`crate::text::split_incl`]) and is specified piece by piece.

use vstd::prelude::*;
use super::tokens::{group_tokens, lemma_nws_add, lemma_nws_one, lemma_nws_trim, lemma_nws_ws, nws};
use super::preserve::{lemma_shuffle_cat, lemma_shuffle_left, lemma_shuffle_right, shuffle};
use crate::text::{
    all_ws, char_is_ws, contains_exec, contains_seq, count_char, count_char_exec, ends_with,
    find_from, is_blank, is_ws, lead_ws, lead_ws_exec, lemma_trim_start,
    lemma_split_incl, occurs_at, push_all, push_repeat, repeat_char, split_incl, trim_start,
    split_inclusive_lines, starts_with, starts_with_exec, strip_nl, strip_nl_len, sub_vec,
    trim_end, trim_end_len_exec, views,
};

verus! {

// ---------------------------------------------------------------------------
// Shared piece-level helpers
// ---------------------------------------------------------------------------

/// A line that is blank: nothing but whitespace (its `'\n'` included).
pub open spec fn blank(piece: Seq<char>) -> bool {
    all_ws(piece)
}

pub proof fn lemma_flatten_take_len(ps: Seq<Seq<char>>, i: int)
    requires
        0 <= i <= ps.len(),
    ensures
        ps.take(i).flatten().len() <= ps.flatten().len(),
    decreases ps.len() - i,
{
    if i < ps.len() {
        lemma_flatten_take_len(ps, i + 1);
        assert(ps.take(i + 1) =~= ps.take(i).push(ps[i]));
        ps.take(i).lemma_flatten_push(ps[i]);
    } else {
        assert(ps.take(i) =~= ps);
    }
}

/// The blank flag of every piece.
fn blank_flags(ps: &Vec<Vec<char>>) -> (r: Vec<bool>)
    ensures
        r@.len() == ps@.len(),
        forall|i: int| 0 <= i < ps@.len() ==> r@[i] == blank(#[trigger] ps@[i]@),
{
    let mut r = Vec::new();
    let mut i: usize = 0;
    while i < ps.len()
        invariant
            i <= ps.len(),
            r@.len() == i,
            forall|j: int| 0 <= j < i ==> r@[j] == blank(#[trigger] ps@[j]@),
        decreases ps.len() - i,
    {
        r.push(is_blank(ps[i].as_slice()));
        i += 1;
    }
    r
}

// ---------------------------------------------------------------------------
// collapse_blank_lines
// ---------------------------------------------------------------------------

/// Length of the run of blank pieces ending at piece `i` (0 when `i` is not
/// blank).
pub open spec fn blank_run(p: Seq<Seq<char>>, i: int) -> nat
    decreases i,
{
    if i < 0 || !blank(p[i]) {
        0
    } else if i == 0 {
        1
    } else {
        blank_run(p, i - 1) + 1
    }
}

/// Piece `i` survives the collapse: it is not blank, or is among the first
/// `max_blank` blanks of its run.
pub open spec fn collapse_keeps(p: Seq<Seq<char>>, max_blank: nat, i: int) -> bool {
    !blank(p[i]) || blank_run(p, i) <= max_blank
}

pub open spec fn collapse_upto(p: Seq<Seq<char>>, max_blank: nat, n: int) -> Seq<char>
    decreases n,
{
    if n <= 0 {
        seq![]
    } else {
        collapse_upto(p, max_blank, n - 1) + if collapse_keeps(p, max_blank, n - 1) {
            p[n - 1]
        } else {
            seq![]
        }
    }
}

/// The text with every run of blank lines cut down to `max_blank` lines.
pub open spec fn collapse_blank(s: Seq<char>, max_blank: nat) -> Seq<char> {
    collapse_upto(split_incl(s), max_blank, split_incl(s).len() as int)
}

pub fn collapse_blank_lines(output: &[char], max_blank: usize) -> (r: Vec<char>)
    ensures
        r@ == collapse_blank(output@, max_blank as nat),
{
    let pieces = split_inclusive_lines(output);
    let ghost p = split_incl(output@);
    let mut result: Vec<char> = Vec::new();
    let mut run: usize = 0;
    let mut i: usize = 0;
    while i < pieces.len()
        invariant
            views(pieces@) == p,
            i <= pieces.len(),
            result@ == collapse_upto(p, max_blank as nat, i as int),
            run == blank_run(p, i - 1),
            run <= i,
        decreases pieces.len() - i,
    {
        let line = &pieces[i];
        assert(line@ == p[i as int]);
        if is_blank(line.as_slice()) {
            run += 1;
            if run <= max_blank {
                push_all(&mut result, line.as_slice());
            } else {
                assert(result@ + Seq::<char>::empty() =~= result@);
            }
        } else {
            run = 0;
            push_all(&mut result, line.as_slice());
        }
        i += 1;
    }
    result
}

// ---------------------------------------------------------------------------
// normalize_trailing
// ---------------------------------------------------------------------------

/// Drop trailing `'\n'`s until at most one remains.
pub open spec fn strip_extra_nl(s: Seq<char>) -> Seq<char>
    decreases s.len(),
{
    if s.len() >= 2 && s[s.len() - 1] == '\n' && s[s.len() - 2] == '\n' {
        strip_extra_nl(s.drop_last())
    } else {
        s
    }
}

/// Blank runs collapsed, then exactly one final newline (two with
/// `final_blank`), the empty document staying empty.
pub open spec fn normalized_trailing(s: Seq<char>, max_blank: nat, final_blank: bool) -> Seq<
    char,
> {
    let c = strip_extra_nl(collapse_blank(s, max_blank));
    if c.len() == 0 {
        c
    } else {
        let d = if c.last() == '\n' {
            c
        } else {
            c.push('\n')
        };
        if final_blank {
            d.push('\n')
        } else {
            d
        }
    }
}

proof fn lemma_strip_extra_nl(s: Seq<char>)
    ensures
        strip_extra_nl(s).len() <= s.len(),
        !(strip_extra_nl(s).len() >= 2 && strip_extra_nl(s).last() == '\n' && strip_extra_nl(
            s,
        )[strip_extra_nl(s).len() - 2] == '\n'),
    decreases s.len(),
{
    if s.len() >= 2 && s[s.len() - 1] == '\n' && s[s.len() - 2] == '\n' {
        lemma_strip_extra_nl(s.drop_last());
    }
}

/// Ensure exactly one final newline (or, with `final_blank`, one blank line)
/// and collapse blank runs to `max_blank`.
pub fn normalize_trailing(output: &mut Vec<char>, max_blank: usize, final_blank: bool)
    ensures
        final(output)@ == normalized_trailing(old(output)@, max_blank as nat, final_blank),
        final(output)@.len() > 0 ==> final(output)@.last() == '\n',
        final(output)@.len() > 0 && !final_blank ==> final(output)@.len() < 2
            || final(output)@[final(output)@.len() - 2] != '\n',
{
    let mut c = collapse_blank_lines(output.as_slice(), max_blank);
    let ghost c0 = c@;
    proof {
        lemma_strip_extra_nl(c0);
    }
    while c.len() >= 2 && c[c.len() - 1] == '\n' && c[c.len() - 2] == '\n'
        invariant
            strip_extra_nl(c@) == strip_extra_nl(c0),
        decreases c.len(),
    {
        c.pop();
    }
    assert(c@ == strip_extra_nl(c0));
    if c.len() > 0 {
        if c[c.len() - 1] != '\n' {
            c.push('\n');
        }
        if final_blank {
            c.push('\n');
        }
    }
    *output = c;
}

// ---------------------------------------------------------------------------
// Code text of a line
// ---------------------------------------------------------------------------

/// The characters of `s` that are code: outside string literals (whose
/// quotes and contents are dropped, a backslash escaping the next character)
/// and before a `//` comment. `in_str` and `esc` give the scanner's state at
/// the start of `s`.
pub open spec fn code_from(s: Seq<char>, in_str: bool, esc: bool) -> Seq<char>
    decreases s.len(),
{
    if s.len() == 0 {
        seq![]
    } else if in_str {
        if esc {
            code_from(s.drop_first(), true, false)
        } else if s[0] == '\\' {
            code_from(s.drop_first(), true, true)
        } else if s[0] == '"' {
            code_from(s.drop_first(), false, false)
        } else {
            code_from(s.drop_first(), true, false)
        }
    } else if s[0] == '"' {
        code_from(s.drop_first(), true, false)
    } else if s.len() >= 2 && s[0] == '/' && s[1] == '/' {
        seq![]
    } else {
        seq![s[0]] + code_from(s.drop_first(), false, false)
    }
}

/// The code of a line: braces in comments and string literals are text,
/// not block delimiters.
pub open spec fn code_of(s: Seq<char>) -> Seq<char> {
    code_from(s, false, false)
}

pub proof fn lemma_code_len(s: Seq<char>, in_str: bool, esc: bool)
    ensures
        code_from(s, in_str, esc).len() <= s.len(),
    decreases s.len(),
{
    if s.len() > 0 {
        lemma_code_len(s.drop_first(), true, false);
        lemma_code_len(s.drop_first(), true, true);
        lemma_code_len(s.drop_first(), false, false);
    }
}

fn code_of_exec(s: &[char]) -> (r: Vec<char>)
    ensures
        r@ == code_of(s@),
{
    let mut r: Vec<char> = Vec::new();
    let mut in_str = false;
    let mut esc = false;
    let mut i: usize = 0;
    assert(s@.skip(0) =~= s@);
    while i < s.len()
        invariant
            i <= s.len(),
            code_of(s@) == r@ + code_from(s@.skip(i as int), in_str, esc),
        decreases s.len() - i,
    {
        let ghost t = s@.skip(i as int);
        assert(t[0] == s[i as int]);
        assert(t.drop_first() =~= s@.skip(i + 1));
        let c = s[i];
        if in_str {
            if esc {
                esc = false;
            } else if c == '\\' {
                esc = true;
            } else if c == '"' {
                in_str = false;
            }
        } else if c == '"' {
            in_str = true;
            esc = false;
        } else if c == '/' && i + 1 < s.len() && s[i + 1] == '/' {
            assert(t[1] == s[i + 1]);
            assert(code_from(t, false, esc) =~= Seq::<char>::empty());
            assert(r@ + Seq::<char>::empty() =~= r@);
            return r;
        } else {
            r.push(c);
            assert(code_of(s@) == r@ + code_from(s@.skip(i + 1), false, false));
            esc = false;
        }
        i += 1;
    }
    assert(r@ + Seq::<char>::empty() =~= r@);
    r
}

// ---------------------------------------------------------------------------
// strip_brace_adjacent_blanks
// ---------------------------------------------------------------------------

/// Greatest index `<= j` of a non-blank piece, or -1.
pub open spec fn prev_nonblank(p: Seq<Seq<char>>, j: int) -> int
    decreases j + 1,
{
    if j < 0 {
        -1
    } else if !blank(p[j]) {
        j
    } else {
        prev_nonblank(p, j - 1)
    }
}

/// Least index `>= j` of a non-blank piece, or `p.len()`.
pub open spec fn next_nonblank(p: Seq<Seq<char>>, j: int) -> int
    decreases p.len() - j,
{
    if j >= p.len() {
        p.len() as int
    } else if !blank(p[j]) {
        j
    } else {
        next_nonblank(p, j + 1)
    }
}

/// A line's text without its newline and trailing whitespace.
pub open spec fn trimmed_end(piece: Seq<char>) -> Seq<char> {
    trim_end(strip_nl(piece))
}

/// Piece `i` survives: it is not blank, or it is neither in the leading run
/// of the file, nor right after a line whose code ends in `{`, nor right
/// before a line starting with `}`.
pub open spec fn brace_keeps(p: Seq<Seq<char>>, i: int) -> bool {
    let pr = prev_nonblank(p, i - 1);
    let nx = next_nonblank(p, i + 1);
    ||| !blank(p[i])
    ||| {
        &&& pr >= 0
        &&& !ends_with(trim_end(code_of(strip_nl(p[pr]))), seq!['{'])
        &&& !(nx < p.len() && starts_with(trimmed_end(p[nx]), seq!['}']))
    }
}

pub open spec fn filter_brace_upto(p: Seq<Seq<char>>, n: int) -> Seq<char>
    decreases n,
{
    if n <= 0 {
        seq![]
    } else {
        filter_brace_upto(p, n - 1) + if brace_keeps(p, n - 1) {
            p[n - 1]
        } else {
            seq![]
        }
    }
}

pub open spec fn strip_brace_blanks(s: Seq<char>) -> Seq<char> {
    filter_brace_upto(split_incl(s), split_incl(s).len() as int)
}

fn prev_nonblank_exec(flags: &Vec<bool>, j: usize, Ghost(p): Ghost<Seq<Seq<char>>>) -> (r: Option<
    usize,
>)
    requires
        j <= flags@.len() == p.len(),
        forall|i: int| 0 <= i < p.len() ==> flags@[i] == blank(#[trigger] p[i]),
    ensures
        match r {
            Some(k) => k == prev_nonblank(p, j - 1) && k < j,
            None => prev_nonblank(p, j - 1) == -1,
        },
{
    let mut k = j;
    while k > 0 && flags[k - 1]
        invariant
            k <= j <= flags@.len() == p.len(),
            forall|i: int| 0 <= i < p.len() ==> flags@[i] == blank(#[trigger] p[i]),
            prev_nonblank(p, j - 1) == prev_nonblank(p, k - 1),
        decreases k,
    {
        k -= 1;
    }
    if k == 0 {
        None
    } else {
        Some(k - 1)
    }
}

fn next_nonblank_exec(flags: &Vec<bool>, j: usize, Ghost(p): Ghost<Seq<Seq<char>>>) -> (r: usize)
    requires
        flags@.len() == p.len(),
        j <= p.len(),
        forall|i: int| 0 <= i < p.len() ==> flags@[i] == blank(#[trigger] p[i]),
    ensures
        r == next_nonblank(p, j as int),
        r <= p.len(),
{
    let mut k = j;
    while k < flags.len() && flags[k]
        invariant
            j <= k <= p.len(),
            flags@.len() == p.len(),
            forall|i: int| 0 <= i < p.len() ==> flags@[i] == blank(#[trigger] p[i]),
            next_nonblank(p, j as int) == next_nonblank(p, k as int),
        decreases flags.len() - k,
    {
        k += 1;
    }
    k
}

fn trimmed_end_exec(piece: &[char]) -> (r: Vec<char>)
    ensures
        r@ == trimmed_end(piece@),
{
    let k = strip_nl_len(piece);
    let body = sub_vec(piece, 0, k);
    assert(body@ == strip_nl(piece@));
    let m = trim_end_len_exec(body.as_slice());
    sub_vec(body.as_slice(), 0, m)
}

fn ends_with_char(s: &[char], c: char) -> (r: bool)
    ensures
        r == ends_with(s@, seq![c]),
{
    if s.len() == 0 {
        false
    } else {
        assert(s@.skip(s@.len() - 1) =~= seq![s@.last()]);
        let r = s[s.len() - 1] == c;
        proof {
            if !r {
                assert(s@.skip(s@.len() - 1)[0] != seq![c][0]);
            }
        }
        r
    }
}

fn starts_with_char(s: &[char], c: char) -> (r: bool)
    ensures
        r == starts_with(s@, seq![c]),
{
    if s.len() == 0 {
        false
    } else {
        assert(s@.take(1) =~= seq![s@[0]]);
        let r = s[0] == c;
        proof {
            if !r {
                assert(s@.take(1)[0] != seq![c][0]);
            }
        }
        r
    }
}

/// Remove blank lines that immediately follow a line ending in `{` or
/// immediately precede a line starting with `}`, plus the leading run of blank
/// lines at the very top of the file.
pub fn strip_brace_adjacent_blanks(output: &[char]) -> (r: Vec<char>)
    ensures
        r@ == strip_brace_blanks(output@),
{
    let pieces = split_inclusive_lines(output);
    let ghost p = split_incl(output@);
    let flags = blank_flags(&pieces);
    let mut result: Vec<char> = Vec::new();
    let mut i: usize = 0;
    while i < pieces.len()
        invariant
            views(pieces@) == p,
            flags@.len() == p.len(),
            forall|j: int| 0 <= j < p.len() ==> flags@[j] == blank(#[trigger] p[j]),
            i <= pieces.len(),
            result@ == filter_brace_upto(p, i as int),
        decreases pieces.len() - i,
    {
        assert(pieces@[i as int]@ == p[i as int]);
        let mut keep = true;
        if flags[i] {
            match prev_nonblank_exec(&flags, i, Ghost(p)) {
                None => {
                    keep = false;
                },
                Some(k) => {
                    assert(pieces@[k as int]@ == p[k as int]);
                    let kl = strip_nl_len(pieces[k].as_slice());
                    let body = sub_vec(pieces[k].as_slice(), 0, kl);
                    let code = code_of_exec(body.as_slice());
                    let ce = trim_end_len_exec(code.as_slice());
                    let te = sub_vec(code.as_slice(), 0, ce);
                    proof {
                        crate::text::lemma_trim_end(code@);
                    }
                    assert(te@ == trim_end(code_of(strip_nl(p[k as int]))));
                    if ends_with_char(te.as_slice(), '{') {
                        keep = false;
                    }
                },
            }
            let n = next_nonblank_exec(&flags, i + 1, Ghost(p));
            if n < pieces.len() {
                assert(pieces@[n as int]@ == p[n as int]);
                let te = trimmed_end_exec(pieces[n].as_slice());
                if starts_with_char(te.as_slice(), '}') {
                    keep = false;
                }
            }
        }
        assert(keep == brace_keeps(p, i as int));
        if keep {
            push_all(&mut result, pieces[i].as_slice());
        } else {
            assert(result@ + Seq::<char>::empty() =~= result@);
        }
        i += 1;
    }
    result
}

// ---------------------------------------------------------------------------
// ensure_blank_after_top_level_when
// ---------------------------------------------------------------------------

pub open spec fn when_kw() -> Seq<char> {
    seq!['w', 'h', 'e', 'n', ' ', '(']
}

pub open spec fn when_kw_tight() -> Seq<char> {
    seq!['w', 'h', 'e', 'n', '(']
}

/// A line that opens a `when` statement.
pub open spec fn opens_when(content: Seq<char>) -> bool {
    starts_with(content, when_kw()) || starts_with(content, when_kw_tight())
}

/// Brace depth after a line, from the depth before it (braces in comments
/// and string literals do not count).
pub open spec fn depth_after(d: int, content: Seq<char>) -> int {
    d + count_char(code_of(content), '{') - count_char(code_of(content), '}')
}

/// Depth and "inside a top-level `when`" flag before piece `i`.
pub open spec fn when_state(p: Seq<Seq<char>>, i: int) -> (int, bool)
    decreases i,
{
    if i <= 0 {
        (0, false)
    } else {
        let (d, w) = when_state(p, i - 1);
        let c = strip_nl(p[i - 1]);
        let w1 = w || (d == 0 && opens_when(c));
        let d2 = depth_after(d, c);
        let fire = w1 && d > 0 && d2 == 0;
        (d2, if fire {
            false
        } else {
            w1
        })
    }
}

/// Piece `i` closes a top-level `when` block (brings the depth back to 0).
pub open spec fn closes_top_when(p: Seq<Seq<char>>, i: int) -> bool {
    let (d, w) = when_state(p, i);
    let c = strip_nl(p[i]);
    let w1 = w || (d == 0 && opens_when(c));
    w1 && d > 0 && depth_after(d, c) == 0
}

/// A blank line is inserted after piece `i`.
pub open spec fn inserts_blank_after(p: Seq<Seq<char>>, i: int) -> bool {
    closes_top_when(p, i) && i + 1 < p.len() && !blank(p[i + 1])
}

pub open spec fn when_upto(p: Seq<Seq<char>>, n: int) -> Seq<char>
    decreases n,
{
    if n <= 0 {
        seq![]
    } else {
        when_upto(p, n - 1) + p[n - 1] + if inserts_blank_after(p, n - 1) {
            seq!['\n']
        } else {
            seq![]
        }
    }
}

pub open spec fn blank_after_top_when(s: Seq<char>) -> Seq<char> {
    when_upto(split_incl(s), split_incl(s).len() as int)
}

fn opens_when_exec(c: &[char]) -> (r: bool)
    ensures
        r == opens_when(c@),
{
    let a = ['w', 'h', 'e', 'n', ' ', '('];
    let b = ['w', 'h', 'e', 'n', '('];
    assert(a@ =~= when_kw());
    assert(b@ =~= when_kw_tight());
    starts_with_exec(c, a.as_slice()) || starts_with_exec(c, b.as_slice())
}

/// Insert one blank line after each top-level `when` block's closing line
/// when the author omitted it.
pub fn ensure_blank_after_top_level_when(output: &[char]) -> (r: Vec<char>)
    ensures
        r@ == blank_after_top_when(output@),
{
    let pieces = split_inclusive_lines(output);
    let ghost p = split_incl(output@);
    proof {
        lemma_split_incl(output@);
    }
    let flags = blank_flags(&pieces);
    let total = output.len();
    assert(output@.len() == total);
    let mut result: Vec<char> = Vec::new();
    let mut depth: i128 = 0;
    let mut in_top_when = false;
    let mut i: usize = 0;
    while i < pieces.len()
        invariant
            views(pieces@) == p,
            p.flatten() == output@,
            output@.len() <= usize::MAX,
            flags@.len() == p.len(),
            forall|j: int| 0 <= j < p.len() ==> flags@[j] == blank(#[trigger] p[j]),
            i <= pieces.len(),
            result@ == when_upto(p, i as int),
            when_state(p, i as int) == (depth as int, in_top_when),
            -(p.take(i as int).flatten().len() as int) <= depth <= p.take(
                i as int,
            ).flatten().len(),
        decreases pieces.len() - i,
    {
        let line = &pieces[i];
        assert(line@ == p[i as int]);
        proof {
            lemma_flatten_take_len(p, i + 1);
            assert(p.take(i + 1) =~= p.take(i as int).push(p[i as int]));
            p.take(i as int).lemma_flatten_push(p[i as int]);
        }
        push_all(&mut result, line.as_slice());
        let k = strip_nl_len(line.as_slice());
        let content = sub_vec(line.as_slice(), 0, k);
        assert(content@ == strip_nl(p[i as int]));
        if depth == 0 && opens_when_exec(content.as_slice()) {
            in_top_when = true;
        }
        let code = code_of_exec(content.as_slice());
        proof {
            lemma_code_len(content@, false, false);
        }
        let opens = count_char_exec(code.as_slice(), '{');
        let closes = count_char_exec(code.as_slice(), '}');
        assert(content@.len() <= p[i as int].len());
        assert(p.take(i + 1).flatten().len() == p.take(i as int).flatten().len() + p[i as int].len());
        assert(p.take(i + 1).flatten().len() <= usize::MAX);
        assert(-(p.take(i + 1).flatten().len() as int) <= depth + opens - closes <= p.take(i + 1).flatten().len());
        let before = depth;
        depth = depth + opens as i128 - closes as i128;
        if in_top_when && before > 0 && depth == 0 {
            in_top_when = false;
            if i + 1 < pieces.len() {
                assert(pieces@[i + 1]@ == p[i + 1]);
                if !flags[i + 1] {
                    result.push('\n');
                }
            }
        }
        proof {
            if !inserts_blank_after(p, i as int) {
                assert(result@ =~= when_upto(p, i as int) + p[i as int] + Seq::<char>::empty());
            }
        }
        i += 1;
    }
    result
}

// ---------------------------------------------------------------------------
// align_assignment_groups
// ---------------------------------------------------------------------------

/// What `char::is_alphanumeric` answers for `c`.
pub uninterp spec fn char_alphanumeric(c: char) -> bool;

/// `char::is_alphanumeric` (alphabetic or numeric in Unicode's sense). The
/// contract names its answer and states it for ASCII, where it is exactly the
/// letters and digits.
#[verifier::external_body]
fn is_alphanumeric(c: char) -> (r: bool)
    ensures
        r == char_alphanumeric(c),
        (c as u32) < 128 ==> (r <==> (('a' as u32 <= c as u32 <= 'z' as u32) || ('A' as u32
            <= c as u32 <= 'Z' as u32) || ('0' as u32 <= c as u32 <= '9' as u32))),
{
    c.is_alphanumeric()
}

/// Number of leading tabs and spaces.
pub open spec fn tabsp_lead(s: Seq<char>) -> int
    decreases s.len(),
{
    if s.len() > 0 && (s[0] == '\t' || s[0] == ' ') {
        1 + tabsp_lead(s.drop_first())
    } else {
        0
    }
}

pub open spec fn eq_pat() -> Seq<char> {
    seq![' ', '=', ' ']
}

/// First index `>= i` at which `p` occurs in `s`, or -1.
pub open spec fn first_occ_from(s: Seq<char>, p: Seq<char>, i: int) -> int
    decreases s.len() + 1 - i,
{
    if i < 0 || i > s.len() {
        -1
    } else if occurs_at(s, p, i) {
        i
    } else {
        first_occ_from(s, p, i + 1)
    }
}

/// Last index of `c` in `s`, or -1.
pub open spec fn last_index_of(s: Seq<char>, c: char) -> int
    decreases s.len(),
{
    if s.len() == 0 {
        -1
    } else if s.last() == c {
        s.len() - 1
    } else {
        last_index_of(s.drop_last(), c)
    }
}

/// The last character of a compound assignment operator.
pub open spec fn op_end_char(c: char) -> bool {
    c == '+' || c == '-' || c == '*' || c == '/' || c == '%' || c == '&' || c == '|' || c == '^'
        || c == '<' || c == '>' || c == '!'
}

/// An ASCII letter or digit.
pub open spec fn ascii_alphanumeric(c: char) -> bool {
    ||| ('a' as u32 <= c as u32 <= 'z' as u32)
    ||| ('A' as u32 <= c as u32 <= 'Z' as u32)
    ||| ('0' as u32 <= c as u32 <= '9' as u32)
}

/// A letter or digit: on ASCII exactly the ASCII letters and digits, beyond
/// it what `char::is_alphanumeric` answers.
pub open spec fn alphanumeric(c: char) -> bool {
    if (c as u32) < 128 {
        ascii_alphanumeric(c)
    } else {
        char_alphanumeric(c)
    }
}

/// A character allowed in the left-hand side (an object path).
pub open spec fn lhs_char(c: char) -> bool {
    alphanumeric(c) || c == ' ' || c == '.' || c == '_' || c == '$' || c == '(' || c == ')'
}

pub open spec fn comment_start() -> Seq<char> {
    seq!['/', '/']
}

/// The parts of a simple single-line assignment `<indent><lhs> = <rest>`
/// (`rest` ends in `;`, optionally followed by a `//` comment): the indent,
/// the trimmed left-hand side, and `rest`.
pub open spec fn simple_parts(piece: Seq<char>) -> Option<(Seq<char>, Seq<char>, Seq<char>)> {
    let content = strip_nl(piece);
    let il = tabsp_lead(content);
    let indent = content.take(il);
    let body = content.skip(il);
    let eq = first_occ_from(body, eq_pat(), 0);
    if eq < 0 {
        None
    } else {
        let lhs = trim_end(body.take(eq));
        let rest = body.skip(eq + 3);
        let semi = last_index_of(rest, ';');
        if lhs.len() == 0 || op_end_char(lhs.last()) {
            None
        } else if !(forall|i: int| 0 <= i < lhs.len() ==> lhs_char(#[trigger] lhs[i])) {
            None
        } else if semi < 0 {
            None
        } else {
            let after = trim_start(rest.skip(semi + 1));
            if after.len() == 0 || starts_with(after, comment_start()) {
                Some((indent, lhs, rest))
            } else {
                None
            }
        }
    }
}

/// Pieces `j` and `j + 1` are both simple assignments at the same indent.
pub open spec fn joined(p: Seq<Seq<char>>, j: int) -> bool {
    &&& 0 <= j
    &&& j + 1 < p.len()
    &&& simple_parts(p[j]) is Some
    &&& simple_parts(p[j + 1]) is Some
    &&& simple_parts(p[j]).unwrap().0 == simple_parts(p[j + 1]).unwrap().0
}

/// First piece of the run of simple assignments containing piece `i`.
pub open spec fn run_start(p: Seq<Seq<char>>, i: int) -> int
    decreases i,
{
    if i > 0 && joined(p, i - 1) {
        run_start(p, i - 1)
    } else {
        i
    }
}

/// One past the last piece of the run containing piece `i`.
pub open spec fn run_end(p: Seq<Seq<char>>, i: int) -> int
    decreases p.len() - i,
{
    if 0 <= i && i + 1 < p.len() && joined(p, i) {
        run_end(p, i + 1)
    } else {
        i + 1
    }
}

pub open spec fn lhs_width(p: Seq<Seq<char>>, m: int) -> int {
    simple_parts(p[m]).unwrap().1.len() as int
}

/// Widest left-hand side in pieces `a..b`.
pub open spec fn max_lhs(p: Seq<Seq<char>>, a: int, b: int) -> int
    decreases b - a,
{
    if b <= a {
        0
    } else {
        let m = max_lhs(p, a, b - 1);
        if lhs_width(p, b - 1) > m {
            lhs_width(p, b - 1)
        } else {
            m
        }
    }
}

/// Every line of the run `a..b` still fits in `width` once padded.
pub open spec fn group_fits(p: Seq<Seq<char>>, a: int, b: int, width: int) -> bool {
    forall|m: int|
        a <= m < b ==> strip_nl(#[trigger] p[m]).len() + (max_lhs(p, a, b) - lhs_width(p, m))
            <= width
}

/// The run containing piece `i` is aligned.
pub open spec fn aligned(p: Seq<Seq<char>>, i: int, width: int) -> bool {
    let a = run_start(p, i);
    let b = run_end(p, i);
    simple_parts(p[i]) is Some && b - a >= 2 && group_fits(p, a, b, width)
}

/// Piece `i` after alignment: `indent + lhs + padding + " = " + rest`, its
/// newline kept.
pub open spec fn aligned_piece(p: Seq<Seq<char>>, i: int, width: int) -> Seq<char> {
    if aligned(p, i, width) {
        let (indent, lhs, rest) = simple_parts(p[i]).unwrap();
        let target = max_lhs(p, run_start(p, i), run_end(p, i));
        indent + lhs + repeat_char(' ', (target - lhs.len()) as nat) + eq_pat() + rest + if p[i].len()
            > 0 && p[i].last() == '\n' {
            seq!['\n']
        } else {
            seq![]
        }
    } else {
        p[i]
    }
}

pub open spec fn align_upto(p: Seq<Seq<char>>, width: int, n: int) -> Seq<char>
    decreases n,
{
    if n <= 0 {
        seq![]
    } else {
        align_upto(p, width, n - 1) + aligned_piece(p, n - 1, width)
    }
}

pub open spec fn align_assignments(s: Seq<char>, width: int) -> Seq<char> {
    align_upto(split_incl(s), width, split_incl(s).len() as int)
}

#[verifier::spinoff_prover]
proof fn lemma_max_lhs(p: Seq<Seq<char>>, a: int, b: int)
    ensures
        forall|j: int| a <= j < b ==> lhs_width(p, j) <= max_lhs(p, a, b),
        max_lhs(p, a, b) >= 0,
        b > a ==> exists|j: int| a <= j < b && lhs_width(p, j) == max_lhs(p, a, b),
    decreases b - a,
{
    if b > a {
        lemma_max_lhs(p, a, b - 1);
        if b - 1 > a {
            let j0 = choose|j: int| a <= j < b - 1 && lhs_width(p, j) == max_lhs(p, a, b - 1);
            assert(a <= j0 < b);
        }
    }
}

proof fn lemma_first_occ(s: Seq<char>, p: Seq<char>, from: int, i: int)
    requires
        0 <= from <= i,
        occurs_at(s, p, i),
        forall|j: int| from <= j < i ==> !occurs_at(s, p, j),
    ensures
        first_occ_from(s, p, from) == i,
    decreases i - from,
{
    if from < i {
        lemma_first_occ(s, p, from + 1, i);
    }
}

proof fn lemma_first_occ_none(s: Seq<char>, p: Seq<char>, from: int)
    requires
        0 <= from,
        forall|j: int| from <= j ==> !occurs_at(s, p, j),
    ensures
        first_occ_from(s, p, from) == -1,
    decreases s.len() + 1 - from,
{
    if from <= s.len() {
        lemma_first_occ_none(s, p, from + 1);
    }
}

fn tabsp_lead_exec(s: &[char]) -> (k: usize)
    ensures
        k == tabsp_lead(s@),
        k <= s.len(),
{
    let mut k: usize = 0;
    assert(s@.skip(0) =~= s@);
    while k < s.len() && (s[k] == '\t' || s[k] == ' ')
        invariant
            k <= s.len(),
            tabsp_lead(s@) == k + tabsp_lead(s@.skip(k as int)),
        decreases s.len() - k,
    {
        assert(s@.skip(k as int).drop_first() =~= s@.skip(k + 1));
        k += 1;
    }
    k
}

fn last_index_of_exec(s: &[char], c: char) -> (r: Option<usize>)
    ensures
        match r {
            Some(i) => i == last_index_of(s@, c) && i < s.len(),
            None => last_index_of(s@, c) == -1,
        },
{
    let mut k = s.len();
    assert(s@.take(k as int) =~= s@);
    while k > 0 && s[k - 1] != c
        invariant
            k <= s.len(),
            last_index_of(s@, c) == last_index_of(s@.take(k as int), c),
        decreases k,
    {
        assert(s@.take(k as int).drop_last() =~= s@.take(k - 1));
        k -= 1;
    }
    if k == 0 {
        None
    } else {
        Some(k - 1)
    }
}

fn lhs_chars_ok(lhs: &[char]) -> (r: bool)
    ensures
        r == forall|j: int| 0 <= j < lhs@.len() ==> lhs_char(#[trigger] lhs@[j]),
{
    let mut i: usize = 0;
    while i < lhs.len()
        invariant
            i <= lhs.len(),
            forall|j: int| 0 <= j < i ==> lhs_char(#[trigger] lhs@[j]),
        decreases lhs.len() - i,
    {
        let c = lhs[i];
        if !(is_alphanumeric(c) || c == ' ' || c == '.' || c == '_' || c == '$' || c == '('
            || c == ')') {
            assert(!lhs_char(lhs@[i as int]));
            return false;
        }
        i += 1;
    }
    true
}

/// Exec form of [`simple_parts`].
fn split_simple(piece: &[char]) -> (r: Option<(Vec<char>, Vec<char>, Vec<char>)>)
    ensures
        match r {
            Some((a, b, c)) => simple_parts(piece@) == Some((a@, b@, c@)),
            None => simple_parts(piece@) is None,
        },
{
    let cl = strip_nl_len(piece);
    let content = sub_vec(piece, 0, cl);
    assert(content@ == strip_nl(piece@));
    let il = tabsp_lead_exec(content.as_slice());
    let indent = sub_vec(content.as_slice(), 0, il);
    let body = sub_vec(content.as_slice(), il, content.len());
    assert(body@ =~= content@.skip(il as int));
    let pat = [' ', '=', ' '];
    assert(pat@ =~= eq_pat());
    let eq = match find_from(body.as_slice(), pat.as_slice(), 0) {
        Some(e) => {
            proof {
                lemma_first_occ(body@, eq_pat(), 0, e as int);
            }
            e
        },
        None => {
            proof {
                lemma_first_occ_none(body@, eq_pat(), 0);
            }
            return None;
        },
    };
    let lhs_raw = sub_vec(body.as_slice(), 0, eq);
    assert(lhs_raw@ =~= body@.take(eq as int));
    let tl = trim_end_len_exec(lhs_raw.as_slice());
    let lhs = sub_vec(lhs_raw.as_slice(), 0, tl);
    assert(lhs@ == trim_end(body@.take(eq as int)));
    assert(indent@ == content@.take(il as int));
    let rest = sub_vec(body.as_slice(), eq + 3, body.len());
    assert(rest@ =~= body@.skip(eq + 3));
    if lhs.len() == 0 {
        return None;
    }
    let last = lhs[lhs.len() - 1];
    if last == '+' || last == '-' || last == '*' || last == '/' || last == '%' || last == '&'
        || last == '|' || last == '^' || last == '<' || last == '>' || last == '!' {
        return None;
    }
    if !lhs_chars_ok(lhs.as_slice()) {
        return None;
    }
    let semi = match last_index_of_exec(rest.as_slice(), ';') {
        Some(k) => k,
        None => {
            return None;
        },
    };
    let after_raw = sub_vec(rest.as_slice(), semi + 1, rest.len());
    assert(after_raw@ =~= rest@.skip(semi + 1));
    let al = lead_ws_exec(after_raw.as_slice());
    let after = sub_vec(after_raw.as_slice(), al, after_raw.len());
    assert(after@ =~= after_raw@.skip(al as int));
    let cs = ['/', '/'];
    assert(cs@ =~= comment_start());
    if after.len() == 0 || starts_with_exec(after.as_slice(), cs.as_slice()) {
        Some((indent, lhs, rest))
    } else {
        None
    }
}

/// The parts of every piece.
fn all_simple_parts(ps: &Vec<Vec<char>>) -> (r: Vec<Option<(Vec<char>, Vec<char>, Vec<char>)>>)
    ensures
        r@.len() == ps@.len(),
        forall|i: int|
            0 <= i < ps@.len() ==> match #[trigger] r@[i] {
                Some((a, b, c)) => simple_parts(ps@[i]@) == Some((a@, b@, c@)),
                None => simple_parts(ps@[i]@) is None,
            },
{
    let mut r: Vec<Option<(Vec<char>, Vec<char>, Vec<char>)>> = Vec::new();
    let mut i: usize = 0;
    while i < ps.len()
        invariant
            i <= ps.len(),
            r@.len() == i,
            forall|j: int|
                0 <= j < i ==> match #[trigger] r@[j] {
                    Some((a, b, c)) => simple_parts(ps@[j]@) == Some((a@, b@, c@)),
                    None => simple_parts(ps@[j]@) is None,
                },
        decreases ps.len() - i,
    {
        r.push(split_simple(ps[i].as_slice()));
        i += 1;
    }
    r
}

proof fn lemma_run_bounds(p: Seq<Seq<char>>, a: int, b: int, m: int)
    requires
        0 <= a <= m < b <= p.len(),
        a == 0 || !joined(p, a - 1),
        !joined(p, b - 1),
        forall|j: int| a <= j < b - 1 ==> joined(p, j),
    ensures
        run_start(p, m) == a,
        run_end(p, m) == b,
{
    lemma_run_start(p, a, b, m);
    lemma_run_end(p, a, b, m);
}

proof fn lemma_run_start(p: Seq<Seq<char>>, a: int, b: int, m: int)
    requires
        0 <= a <= m < b <= p.len(),
        a == 0 || !joined(p, a - 1),
        forall|j: int| a <= j < b - 1 ==> joined(p, j),
    ensures
        run_start(p, m) == a,
    decreases m - a,
{
    if m > a {
        lemma_run_start(p, a, b, m - 1);
    }
}

proof fn lemma_run_end(p: Seq<Seq<char>>, a: int, b: int, m: int)
    requires
        0 <= a <= m < b <= p.len(),
        !joined(p, b - 1),
        forall|j: int| a <= j < b - 1 ==> joined(p, j),
    ensures
        run_end(p, m) == b,
    decreases b - m,
{
    if m + 1 < b {
        lemma_run_end(p, a, b, m + 1);
    }
}

fn same_chars(a: &[char], b: &[char]) -> (r: bool)
    ensures
        r == (a@ == b@),
{
    if a.len() != b.len() {
        return false;
    }
    let mut i: usize = 0;
    while i < a.len()
        invariant
            a.len() == b.len(),
            i <= a.len(),
            forall|j: int| 0 <= j < i ==> a@[j] == b@[j],
        decreases a.len() - i,
    {
        if a[i] != b[i] {
            return false;
        }
        i += 1;
    }
    assert(a@ =~= b@);
    true
}

/// Align the `=` of each contiguous run of two or more simple single-line
/// assignments at the same indentation, unless padding would push a line of
/// the run past `width`.
#[verifier::rlimit(40)]
pub fn align_assignment_groups(output: &[char], width: usize) -> (r: Vec<char>)
    ensures
        r@ == align_assignments(output@, width as int),
{
    let pieces = split_inclusive_lines(output);
    let ghost p = split_incl(output@);
    let parts = all_simple_parts(&pieces);
    let n = pieces.len();
    let pat = [' ', '=', ' '];
    assert(pat@ =~= eq_pat());
    let mut result: Vec<char> = Vec::new();
    let mut i: usize = 0;
    while i < n
        invariant
            pat@ == eq_pat(),
            n == pieces@.len() == parts@.len() == p.len(),
            views(pieces@) == p,
            forall|k: int|
                0 <= k < n ==> match #[trigger] parts@[k] {
                    Some((a, b, c)) => simple_parts(pieces@[k]@) == Some((a@, b@, c@)),
                    None => simple_parts(pieces@[k]@) is None,
                },
            i <= n,
            i == 0 || !joined(p, i - 1),
            result@ == align_upto(p, width as int, i as int),
        decreases n - i,
    {
        assert(pieces@[i as int]@ == p[i as int]);
        if parts[i].is_none() {
            proof {
                assert(!aligned(p, i as int, width as int));
                if i + 1 < n {
                    assert(!joined(p, i as int));
                }
            }
            push_all(&mut result, pieces[i].as_slice());
            i += 1;
        } else {
            // Find the end of the run that starts at `i`.
            let mut b = i + 1;
            while b < n && parts[b].is_some() && same_chars(
                parts[b].as_ref().unwrap().0.as_slice(),
                parts[i].as_ref().unwrap().0.as_slice(),
            )
                invariant
                    n == pieces@.len() == parts@.len() == p.len(),
                    views(pieces@) == p,
                    forall|k: int|
                        0 <= k < n ==> match #[trigger] parts@[k] {
                            Some((a, b, c)) => simple_parts(pieces@[k]@) == Some((a@, b@, c@)),
                            None => simple_parts(pieces@[k]@) is None,
                        },
                    i < b <= n,
                    parts@[i as int] is Some,
                    forall|j: int| i <= j < b - 1 ==> joined(p, j),
                    forall|j: int|
                        i <= j < b ==> simple_parts(#[trigger] p[j]) is Some && simple_parts(
                            p[j],
                        ).unwrap().0 == simple_parts(p[i as int]).unwrap().0,
                decreases n - b,
            {
                assert(pieces@[b as int]@ == p[b as int]);
                assert(pieces@[b - 1]@ == p[b - 1]);
                b += 1;
            }
            proof {
                if b < n {
                    assert(pieces@[b as int]@ == p[b as int]);
                    assert(pieces@[b - 1]@ == p[b - 1]);
                }
                assert(!joined(p, b - 1));
            }
            // Widest left-hand side of the run.
            let mut target: usize = 0;
            let mut m = i;
            while m < b
                invariant
                    n == pieces@.len() == parts@.len() == p.len(),
                    views(pieces@) == p,
                    forall|k: int|
                        0 <= k < n ==> match #[trigger] parts@[k] {
                            Some((a, b, c)) => simple_parts(pieces@[k]@) == Some((a@, b@, c@)),
                            None => simple_parts(pieces@[k]@) is None,
                        },
                    i <= m <= b <= n,
                    forall|j: int| i <= j < b ==> simple_parts(#[trigger] p[j]) is Some,
                    target == max_lhs(p, i as int, m as int),
                decreases b - m,
            {
                assert(pieces@[m as int]@ == p[m as int]);
                let w = parts[m].as_ref().unwrap().1.len();
                assert(w == lhs_width(p, m as int));
                if w > target {
                    target = w;
                }
                m += 1;
            }
            proof {
                lemma_max_lhs(p, i as int, b as int);
            }
            // Does every line still fit once padded?
            let mut fits = true;
            let mut m = i;
            while m < b
                invariant
                    n == pieces@.len() == parts@.len() == p.len(),
                    views(pieces@) == p,
                    forall|k: int|
                        0 <= k < n ==> match #[trigger] parts@[k] {
                            Some((a, b, c)) => simple_parts(pieces@[k]@) == Some((a@, b@, c@)),
                            None => simple_parts(pieces@[k]@) is None,
                        },
                    i <= m <= b <= n,
                    forall|j: int| i <= j < b ==> simple_parts(#[trigger] p[j]) is Some,
                    target == max_lhs(p, i as int, b as int),
                    forall|j: int| i <= j < b ==> lhs_width(p, j) <= target,
                    fits == forall|j: int|
                        i <= j < m ==> strip_nl(#[trigger] p[j]).len() + (target - lhs_width(p, j))
                            <= width,
                decreases b - m,
            {
                assert(pieces@[m as int]@ == p[m as int]);
                let cl = strip_nl_len(pieces[m].as_slice());
                let w = parts[m].as_ref().unwrap().1.len();
                assert(w == lhs_width(p, m as int));
                let pad = target - w;
                if cl > width || pad > width - cl {
                    fits = false;
                }
                m += 1;
            }
            let do_align = b - i >= 2 && fits;
            let mut m = i;
            while m < b
                invariant
                    n == pieces@.len() == parts@.len() == p.len(),
                    views(pieces@) == p,
                    forall|k: int|
                        0 <= k < n ==> match #[trigger] parts@[k] {
                            Some((a, b, c)) => simple_parts(pieces@[k]@) == Some((a@, b@, c@)),
                            None => simple_parts(pieces@[k]@) is None,
                        },
                    i <= m <= b <= n,
                    i == 0 || !joined(p, i - 1),
                    !joined(p, b - 1),
                    forall|j: int| i <= j < b - 1 ==> joined(p, j),
                    forall|j: int| i <= j < b ==> simple_parts(#[trigger] p[j]) is Some,
                    target == max_lhs(p, i as int, b as int),
                    forall|j: int| i <= j < b ==> lhs_width(p, j) <= target,
                    do_align == (b - i >= 2 && group_fits(p, i as int, b as int, width as int)),
                    pat@ == eq_pat(),
                    result@ == align_upto(p, width as int, m as int),
                decreases b - m,
            {
                assert(pieces@[m as int]@ == p[m as int]);
                proof {
                    lemma_run_bounds(p, i as int, b as int, m as int);
                }
                if do_align {
                    let parts_m = parts[m].as_ref().unwrap();
                    push_all(&mut result, parts_m.0.as_slice());
                    push_all(&mut result, parts_m.1.as_slice());
                    push_repeat(&mut result, ' ', target - parts_m.1.len());
                    push_all(&mut result, pat.as_slice());
                    push_all(&mut result, parts_m.2.as_slice());
                    let pm = &pieces[m];
                    if pm.len() > 0 && pm[pm.len() - 1] == '\n' {
                        result.push('\n');
                    }
                    proof {
                        let nl = if p[m as int].len() > 0 && p[m as int].last() == '\n' {
                            seq!['\n']
                        } else {
                            seq![]
                        };
                        assert(result@ =~= align_upto(p, width as int, m as int)
                            + aligned_piece(p, m as int, width as int));
                    }
                } else {
                    push_all(&mut result, pieces[m].as_slice());
                }
                m += 1;
            }
            i = b;
        }
    }
    result
}


// ---------------------------------------------------------------------------
// reflow_long_line_comments
// ---------------------------------------------------------------------------

/// Number of leading non-whitespace characters.
pub open spec fn word_len(t: Seq<char>) -> int
    decreases t.len(),
{
    if t.len() > 0 && !is_ws(t[0]) {
        1 + word_len(t.drop_first())
    } else {
        0
    }
}

pub proof fn lemma_word_len(t: Seq<char>)
    ensures
        0 <= word_len(t) <= t.len(),
        t.len() > 0 && !is_ws(t[0]) ==> word_len(t) >= 1,
        forall|i: int| 0 <= i < word_len(t) ==> !is_ws(#[trigger] t[i]),
        word_len(t) < t.len() ==> is_ws(t[word_len(t)]),
    decreases t.len(),
{
    if t.len() > 0 && !is_ws(t[0]) {
        lemma_word_len(t.drop_first());
        assert forall|i: int| 0 <= i < word_len(t) implies !is_ws(#[trigger] t[i]) by {
            if i > 0 {
                assert(t[i] == t.drop_first()[i - 1]);
            }
        }
    }
}

/// The words of `s` (`str::split_whitespace`).
pub open spec fn words(s: Seq<char>) -> Seq<Seq<char>>
    decreases s.len(),
{
    let a = lead_ws(s);
    let t = s.skip(a);
    proof {
        lemma_trim_start(s);
        lemma_word_len(t);
    }
    if a >= s.len() {
        seq![]
    } else {
        let k = word_len(t);
        seq![t.take(k)] + words(t.skip(k))
    }
}

/// Greedy fill of `w[i..]` onto lines of at most `budget` characters, `cur`
/// being the line under construction (a word longer than the budget gets a
/// line of its own).
pub open spec fn greedy(w: Seq<Seq<char>>, i: int, cur: Seq<char>, budget: int) -> Seq<Seq<char>>
    decreases w.len() - i,
{
    if i < 0 || i >= w.len() {
        if cur.len() > 0 {
            seq![cur]
        } else {
            seq![]
        }
    } else if cur.len() > 0 && cur.len() + 1 + w[i].len() > budget {
        seq![cur] + greedy(w, i + 1, w[i], budget)
    } else {
        greedy(
            w,
            i + 1,
            if cur.len() > 0 {
                cur + seq![' '] + w[i]
            } else {
                w[i]
            },
            budget,
        )
    }
}

/// Each line as `prefix + line + '\n'`.
pub open spec fn emit_lines(prefix: Seq<char>, ls: Seq<Seq<char>>) -> Seq<char>
    decreases ls.len(),
{
    if ls.len() == 0 {
        seq![]
    } else {
        emit_lines(prefix, ls.drop_last()) + prefix + ls.last() + seq!['\n']
    }
}

pub open spec fn reflow_marker() -> Seq<char> {
    seq!['/', '/', ' ']
}

pub open spec fn doc_marker() -> Seq<char> {
    seq!['/', '/', '/']
}

pub open spec fn annotation_marker() -> Seq<char> {
    seq!['@', 'm', '1', ':']
}

/// A `//` comment line that is over `width` and may be split: not a `///`
/// doc line and not an `@m1:` annotation.
pub open spec fn reflow_eligible(piece: Seq<char>, width: int) -> bool {
    let content = strip_nl(piece);
    let trimmed = content.skip(lead_ws(content));
    &&& starts_with(trimmed, reflow_marker())
    &&& !starts_with(trimmed, doc_marker())
    &&& !contains_seq(trimmed, annotation_marker())
    &&& content.len() > width
}

/// The width a continuation line's text may use.
pub open spec fn reflow_budget(prefix_len: int, width: int) -> int {
    let b = if width >= prefix_len {
        width - prefix_len
    } else {
        0
    };
    if b > 8 {
        b
    } else {
        8
    }
}

pub open spec fn reflow_piece(piece: Seq<char>, width: int) -> Seq<char> {
    if reflow_eligible(piece, width) {
        let content = strip_nl(piece);
        let lw = lead_ws(content);
        let prefix = content.take(lw) + reflow_marker();
        let text = content.skip(lw + 3);
        emit_lines(prefix, greedy(words(text), 0, seq![], reflow_budget(prefix.len() as int, width)))
    } else {
        piece
    }
}

pub open spec fn reflow_upto(p: Seq<Seq<char>>, width: int, n: int) -> Seq<char>
    decreases n,
{
    if n <= 0 {
        seq![]
    } else {
        reflow_upto(p, width, n - 1) + reflow_piece(p[n - 1], width)
    }
}

pub open spec fn reflow_comments(s: Seq<char>, width: int) -> Seq<char> {
    reflow_upto(split_incl(s), width, split_incl(s).len() as int)
}

#[verifier::rlimit(30)]
fn split_words(s: &[char]) -> (r: Vec<Vec<char>>)
    ensures
        views(r@) == words(s@),
{
    let mut r: Vec<Vec<char>> = Vec::new();
    let mut pos: usize = 0;
    assert(s@.skip(0) =~= s@);
    while pos < s.len()
        invariant
            pos <= s.len(),
            words(s@) == views(r@) + words(s@.skip(pos as int)),
        decreases s.len() - pos,
    {
        let ghost u = s@.skip(pos as int);
        proof {
            lemma_trim_start(u);
        }
        // Skip the whitespace before the next word.
        let mut a = pos;
        while a < s.len() && char_is_ws(s[a])
            invariant
                pos <= a <= s.len(),
                u == s@.skip(pos as int),
                lead_ws(u) == (a - pos) + lead_ws(s@.skip(a as int)),
            decreases s.len() - a,
        {
            assert(s@.skip(a as int).drop_first() =~= s@.skip(a + 1));
            a += 1;
        }
        proof {
            lemma_trim_start(s@.skip(a as int));
            if a < s.len() {
                assert(s@.skip(a as int)[0] == s@[a as int]);
            }
            assert(u.skip(lead_ws(u)) =~= s@.skip(a as int));
        }
        if a == s.len() {
            assert(words(u) == Seq::<Seq<char>>::empty());
            assert(views(r@) + Seq::<Seq<char>>::empty() =~= views(r@));
            pos = a;
        } else {
            let ghost t = s@.skip(a as int);
            proof {
                lemma_word_len(t);
            }
            let mut e = a;
            while e < s.len() && !char_is_ws(s[e])
                invariant
                    a <= e <= s.len(),
                    t == s@.skip(a as int),
                    word_len(t) == (e - a) + word_len(s@.skip(e as int)),
                decreases s.len() - e,
            {
                assert(s@.skip(e as int).drop_first() =~= s@.skip(e + 1));
                e += 1;
            }
            proof {
                if e < s.len() {
                    assert(s@.skip(e as int)[0] == s@[e as int]);
                }
                assert(t.take(e - a) =~= s@.subrange(a as int, e as int));
                assert(t.skip(e - a) =~= s@.skip(e as int));
            }
            let word = sub_vec(s, a, e);
            let ghost old_r = r@;
            r.push(word);
            assert(views(r@) =~= views(old_r) + seq![word@]);
            pos = e;
        }
    }
    assert(s@.skip(pos as int) =~= Seq::<char>::empty());
    assert(words(Seq::<char>::empty()) =~= Seq::<Seq<char>>::empty());
    assert(views(r@) + Seq::<Seq<char>>::empty() =~= views(r@));
    r
}

proof fn lemma_emit_lines_push(prefix: Seq<char>, ls: Seq<Seq<char>>, l: Seq<char>)
    ensures
        emit_lines(prefix, ls.push(l)) == emit_lines(prefix, ls) + prefix + l + seq!['\n'],
{
    assert(ls.push(l).drop_last() =~= ls);
}

proof fn lemma_greedy_end(w: Seq<Seq<char>>, cur: Seq<char>, budget: int)
    ensures
        cur.len() == 0 ==> greedy(w, w.len() as int, cur, budget) == Seq::<Seq<char>>::empty(),
        cur.len() > 0 ==> greedy(w, w.len() as int, cur, budget) == seq![cur],
{
}

/// Split over-width `//` comment lines onto continuation comment lines at the
/// same indent (split only: short lines are never joined).
pub fn reflow_long_line_comments(output: &[char], width: usize) -> (r: Vec<char>)
    ensures
        r@ == reflow_comments(output@, width as int),
{
    let pieces = split_inclusive_lines(output);
    let ghost p = split_incl(output@);
    let m_reflow = ['/', '/', ' '];
    let m_doc = ['/', '/', '/'];
    let m_annot = ['@', 'm', '1', ':'];
    assert(m_reflow@ =~= reflow_marker());
    assert(m_doc@ =~= doc_marker());
    assert(m_annot@ =~= annotation_marker());
    let mut result: Vec<char> = Vec::new();
    let mut i: usize = 0;
    while i < pieces.len()
        invariant
            views(pieces@) == p,
            i <= pieces.len(),
            result@ == reflow_upto(p, width as int, i as int),
            m_reflow@ == reflow_marker(),
            m_doc@ == doc_marker(),
            m_annot@ == annotation_marker(),
        decreases pieces.len() - i,
    {
        let line = &pieces[i];
        assert(line@ == p[i as int]);
        let cl = strip_nl_len(line.as_slice());
        let content = sub_vec(line.as_slice(), 0, cl);
        assert(content@ == strip_nl(line@));
        let lw = lead_ws_exec(content.as_slice());
        let trimmed = sub_vec(content.as_slice(), lw, content.len());
        assert(trimmed@ =~= content@.skip(lw as int));
        let eligible = starts_with_exec(trimmed.as_slice(), m_reflow.as_slice())
            && !starts_with_exec(trimmed.as_slice(), m_doc.as_slice())
            && !contains_exec(trimmed.as_slice(), m_annot.as_slice())
            && content.len() > width;
        assert(eligible == reflow_eligible(p[i as int], width as int));
        if !eligible {
            push_all(&mut result, line.as_slice());
        } else {
            let mut prefix = sub_vec(content.as_slice(), 0, lw);
            push_all(&mut prefix, m_reflow.as_slice());
            let text = sub_vec(content.as_slice(), lw + 3, content.len());
            assert(text@ =~= content@.skip(lw + 3));
            let b0 = width.saturating_sub(prefix.len());
            let budget = if b0 > 8 {
                b0
            } else {
                8
            };
            assert(budget == reflow_budget(prefix@.len() as int, width as int));
            let ws = split_words(text.as_slice());
            let ghost wv = views(ws@);
            let ghost start = result@;
            let ghost mut emitted: Seq<Seq<char>> = seq![];
            let mut current: Vec<char> = Vec::new();
            let mut k: usize = 0;
            while k < ws.len()
                invariant
                    k <= ws.len(),
                    wv == views(ws@),
                    greedy(wv, 0, seq![], budget as int) == emitted + greedy(
                        wv,
                        k as int,
                        current@,
                        budget as int,
                    ),
                    result@ == start + emit_lines(prefix@, emitted),
                decreases ws.len() - k,
            {
                let word = &ws[k];
                assert(word@ == wv[k as int]);
                if current.len() > 0 && current.len() as u128 + 1 + word.len() as u128
                    > budget as u128 {
                    push_all(&mut result, prefix.as_slice());
                    push_all(&mut result, current.as_slice());
                    result.push('\n');
                    proof {
                        lemma_emit_lines_push(prefix@, emitted, current@);
                        assert(seq![current@] + greedy(wv, k + 1, word@, budget as int)
                            == greedy(wv, k as int, current@, budget as int));
                        assert(emitted.push(current@) + greedy(wv, k + 1, word@, budget as int)
                            =~= emitted + greedy(wv, k as int, current@, budget as int));
                        emitted = emitted.push(current@);
                    }
                    current = sub_vec(word.as_slice(), 0, word.len());
                    assert(current@ =~= word@);
                } else {
                    let ghost oc = current@;
                    if current.len() > 0 {
                        current.push(' ');
                    }
                    push_all(&mut current, word.as_slice());
                    proof {
                        let nc = if oc.len() > 0 {
                            oc + seq![' '] + word@
                        } else {
                            word@
                        };
                        assert(current@ =~= nc);
                        assert(greedy(wv, k as int, oc, budget as int) == greedy(
                            wv,
                            k + 1,
                            nc,
                            budget as int,
                        ));
                    }
                }
                k += 1;
            }
            if current.len() > 0 {
                push_all(&mut result, prefix.as_slice());
                push_all(&mut result, current.as_slice());
                result.push('\n');
                proof {
                    lemma_emit_lines_push(prefix@, emitted, current@);
                    lemma_greedy_end(wv, current@, budget as int);
                    emitted = emitted.push(current@);
                }
            } else {
                proof {
                    lemma_greedy_end(wv, current@, budget as int);
                    assert(emitted + Seq::<Seq<char>>::empty() =~= emitted);
                }
            }
            assert(greedy(wv, 0, seq![], budget as int) == emitted);
        }
        i += 1;
    }
    result
}

/// Comment reflow only ever splits over-width `// ` comment lines: a line
/// within the width, an annotation comment (`@m1:`) and a `///` doc comment
/// are kept exactly as they are, so short lines are never joined.
pub proof fn reflow_keeps_other_lines(piece: Seq<char>, width: int)
    ensures
        strip_nl(piece).len() <= width ==> reflow_piece(piece, width) == piece,
        contains_seq(strip_nl(piece).skip(lead_ws(strip_nl(piece))), annotation_marker())
            ==> reflow_piece(piece, width) == piece,
        starts_with(strip_nl(piece).skip(lead_ws(strip_nl(piece))), doc_marker()) ==> reflow_piece(
            piece,
            width,
        ) == piece,
{
}

/// Assignment alignment leaves a line alone unless it is a simple
/// assignment in a run of at least two whose aligned rows all fit the width:
/// a group that would overflow is left as it was.
pub proof fn alignment_only_when_group_fits(p: Seq<Seq<char>>, i: int, width: int)
    requires
        0 <= i < p.len(),
    ensures
        !group_fits(p, run_start(p, i), run_end(p, i), width) ==> aligned_piece(p, i, width)
            == p[i],
        simple_parts(p[i]) is None ==> aligned_piece(p, i, width) == p[i],
        run_end(p, i) - run_start(p, i) < 2 ==> aligned_piece(p, i, width) == p[i],
{
}

/// Pieces as `split_inclusive('\n')` gives them: none empty, a `'\n'` only
/// as the last character of a piece, and every piece but the last ending in
/// one.
pub open spec fn line_pieces(ps: Seq<Seq<char>>) -> bool {
    &&& forall|i: int| 0 <= i < ps.len() ==> (#[trigger] ps[i]).len() > 0
    &&& forall|i: int, j: int| 0 <= i < ps.len() && 0 <= j < ps[i].len() - 1 ==> ps[i][j] != '\n'
    &&& forall|i: int| 0 <= i < ps.len() - 1 ==> (#[trigger] ps[i]).last() == '\n'
}

proof fn lemma_split_incl_pieces(s: Seq<char>)
    ensures
        line_pieces(split_incl(s)),
    decreases s.len(),
{
    lemma_split_incl(s);
    if s.len() > 0 {
        crate::text::lemma_nl_index_bound(s);
        let k = crate::text::nl_index(s);
        if k < s.len() {
            lemma_split_incl_pieces(s.skip(k + 1));
            let rest = split_incl(s.skip(k + 1));
            assert forall|i: int, j: int|
                0 <= i < split_incl(s).len() && 0 <= j < split_incl(s)[i].len() - 1 implies split_incl(
                s,
            )[i][j] != '\n' by {
                if i > 0 {
                    assert(split_incl(s)[i] == rest[i - 1]);
                } else {
                    assert(split_incl(s)[0] == s.take(k + 1));
                }
            }
        } else {
            assert forall|i: int, j: int|
                0 <= i < split_incl(s).len() && 0 <= j < split_incl(s)[i].len() - 1 implies split_incl(
                s,
            )[i][j] != '\n' by {
                assert(split_incl(s)[i] == s);
            }
        }
    }
}

proof fn lemma_split_flatten(ps: Seq<Seq<char>>)
    requires
        line_pieces(ps),
    ensures
        split_incl(ps.flatten()) == ps,
    decreases ps.len(),
{
    if ps.len() == 0 {
        assert(ps.flatten() =~= Seq::<char>::empty());
        assert(split_incl(ps.flatten()) =~= ps);
    } else {
        let a = ps[0];
        let rest = ps.drop_first();
        assert(ps.flatten() == a + rest.flatten());
        let s = ps.flatten();
        assert(a.len() > 0);
        if a.last() == '\n' {
            assert forall|j: int| 0 <= j < a.len() - 1 implies s[j] != '\n' by {
                assert(s[j] == a[j]);
            }
            assert(s[a.len() - 1] == '\n');
            crate::text::lemma_nl_index(s, a.len() - 1);
            assert(s.take(a.len() as int) =~= a);
            assert(s.skip(a.len() as int) =~= rest.flatten());
            assert forall|i: int| 0 <= i < rest.len() - 1 implies (#[trigger] rest[i]).last() == '\n' by {
                assert(rest[i] == ps[i + 1]);
            }
            assert forall|i: int| 0 <= i < rest.len() implies (#[trigger] rest[i]).len() > 0 by {
                assert(rest[i] == ps[i + 1]);
            }
            assert forall|i: int, j: int| 0 <= i < rest.len() && 0 <= j < rest[i].len() - 1 implies rest[i][j]
                != '\n' by {
                assert(rest[i] == ps[i + 1]);
            }
            lemma_split_flatten(rest);
            assert(split_incl(s) =~= seq![a] + rest);
        } else {
            assert(ps.len() == 1);
            assert(rest.flatten() =~= Seq::<char>::empty());
            assert(s =~= a);
            assert forall|j: int| 0 <= j < s.len() implies s[j] != '\n' by {
                if j < a.len() - 1 {
                } else {
                    assert(s[j] == a.last());
                }
            }
            crate::text::lemma_nl_index(s, s.len() as int);
            assert(split_incl(s) =~= ps);
        }
    }
}

/// The pieces that survive the collapse, among the first `n`.
pub open spec fn collapse_kept(p: Seq<Seq<char>>, max_blank: nat, n: int) -> Seq<Seq<char>>
    decreases n,
{
    if n <= 0 {
        seq![]
    } else {
        collapse_kept(p, max_blank, n - 1) + if collapse_keeps(p, max_blank, n - 1) {
            seq![p[n - 1]]
        } else {
            seq![]
        }
    }
}

/// Blank runs of a sequence do not change when a piece is appended.
proof fn lemma_blank_run_push(q: Seq<Seq<char>>, x: Seq<char>, j: int)
    requires
        0 <= j < q.len(),
    ensures
        blank_run(q.push(x), j) == blank_run(q, j),
    decreases j,
{
    if j > 0 {
        lemma_blank_run_push(q, x, j - 1);
    }
}

pub open spec fn min_nat(a: nat, b: nat) -> nat {
    if a < b {
        a
    } else {
        b
    }
}

proof fn lemma_collapse_kept(p: Seq<Seq<char>>, max_blank: nat, n: int)
    requires
        0 <= n <= p.len(),
        line_pieces(p),
    ensures
        collapse_upto(p, max_blank, n) == collapse_kept(p, max_blank, n).flatten(),
        line_pieces(collapse_kept(p, max_blank, n)),
        n < p.len() ==> forall|i: int|
            0 <= i < collapse_kept(p, max_blank, n).len() ==> (#[trigger] collapse_kept(
                p,
                max_blank,
                n,
            )[i]).last() == '\n',
        forall|i: int|
            0 <= i < collapse_kept(p, max_blank, n).len() ==> blank_run(
                collapse_kept(p, max_blank, n),
                i,
            ) <= max_blank,
        collapse_kept(p, max_blank, n).len() > 0 ==> blank_run(
            collapse_kept(p, max_blank, n),
            collapse_kept(p, max_blank, n).len() - 1,
        ) == min_nat(blank_run(p, n - 1), max_blank),
        collapse_kept(p, max_blank, n).len() == 0 ==> min_nat(blank_run(p, n - 1), max_blank) == 0,
    decreases n,
{
    if n == 0 {
        assert(collapse_upto(p, max_blank, 0) =~= Seq::<Seq<char>>::empty().flatten());
    } else {
        lemma_collapse_kept(p, max_blank, n - 1);
        let q = collapse_kept(p, max_blank, n - 1);
        let x = p[n - 1];
        if collapse_keeps(p, max_blank, n - 1) {
            let q2 = q.push(x);
            assert(collapse_kept(p, max_blank, n) =~= q2);
            q.lemma_flatten_push(x);
            assert forall|i: int| 0 <= i < q.len() implies blank_run(q2, i) <= max_blank by {
                lemma_blank_run_push(q, x, i);
            }
            if q.len() > 0 {
                lemma_blank_run_push(q, x, q.len() - 1);
            }
            assert(blank_run(q2, q.len() as int) <= max_blank);
            assert forall|i: int| 0 <= i < q2.len() - 1 implies (#[trigger] q2[i]).last() == '\n' by {
                assert(q2[i] == q[i]);
            }
            assert forall|i: int| 0 <= i < q2.len() implies (#[trigger] q2[i]).len() > 0 by {
                if i < q.len() {
                    assert(q2[i] == q[i]);
                }
            }
            assert forall|i: int, j: int| 0 <= i < q2.len() && 0 <= j < q2[i].len() - 1 implies q2[i][j]
                != '\n' by {
                if i < q.len() {
                    assert(q2[i] == q[i]);
                }
            }
            if n < p.len() {
                assert(x.last() == '\n');
                assert forall|i: int| 0 <= i < q2.len() implies (#[trigger] q2[i]).last() == '\n' by {
                    if i < q.len() {
                        assert(q2[i] == q[i]);
                    }
                }
            }
        } else {
            assert(collapse_kept(p, max_blank, n) =~= q);
            assert(collapse_upto(p, max_blank, n) =~= collapse_upto(p, max_blank, n - 1));
        }
    }
}

/// Blank-line runs are cut down to `max_blank`: no run of blank lines in
/// the collapsed text is longer.
pub proof fn collapse_bounds_blank_runs(s: Seq<char>, max_blank: nat)
    ensures
        forall|i: int|
            0 <= i < split_incl(collapse_blank(s, max_blank)).len() ==> blank_run(
                split_incl(collapse_blank(s, max_blank)),
                i,
            ) <= max_blank,
{
    let p = split_incl(s);
    lemma_split_incl_pieces(s);
    lemma_collapse_kept(p, max_blank, p.len() as int);
    lemma_split_flatten(collapse_kept(p, max_blank, p.len() as int));
}

proof fn lemma_collapse_all_kept(q: Seq<Seq<char>>, max_blank: nat, n: int)
    requires
        0 <= n <= q.len(),
        forall|i: int| 0 <= i < q.len() ==> blank_run(q, i) <= max_blank,
    ensures
        collapse_upto(q, max_blank, n) == q.take(n).flatten(),
    decreases n,
{
    if n == 0 {
        assert(q.take(0) =~= Seq::<Seq<char>>::empty());
    } else {
        lemma_collapse_all_kept(q, max_blank, n - 1);
        assert(q.take(n) =~= q.take(n - 1).push(q[n - 1]));
        q.take(n - 1).lemma_flatten_push(q[n - 1]);
    }
}

/// Collapsing blank runs is stable: a second collapse changes nothing.
pub proof fn collapse_is_idempotent(s: Seq<char>, max_blank: nat)
    ensures
        collapse_blank(collapse_blank(s, max_blank), max_blank) == collapse_blank(s, max_blank),
{
    let p = split_incl(s);
    lemma_split_incl_pieces(s);
    lemma_collapse_kept(p, max_blank, p.len() as int);
    let q = collapse_kept(p, max_blank, p.len() as int);
    lemma_split_flatten(q);
    lemma_collapse_all_kept(q, max_blank, q.len() as int);
    assert(q.take(q.len() as int) =~= q);
}

// ---------------------------------------------------------------------------
// The end of the text
// ---------------------------------------------------------------------------

/// A non-empty text ends with a line break.
pub open spec fn ends_in_newline(t: Seq<char>) -> bool {
    t.len() > 0 ==> t.last() == '\n'
}

/// The text does not end with a blank line.
pub open spec fn no_blank_end(t: Seq<char>) -> bool {
    !(t.len() >= 2 && t.last() == '\n' && t[t.len() - 2] == '\n')
}

pub proof fn lemma_normalized_end(s: Seq<char>, max_blank: nat, final_blank: bool)
    ensures
        ends_in_newline(normalized_trailing(s, max_blank, final_blank)),
        !final_blank ==> no_blank_end(normalized_trailing(s, max_blank, final_blank)),
{
    let c = strip_extra_nl(collapse_blank(s, max_blank));
    lemma_strip_extra_nl(collapse_blank(s, max_blank));
    if c.len() > 0 && c.last() != '\n' {
        let d = c.push('\n');
        assert(d[d.len() - 2] == c.last());
    }
}

/// `t` is its pieces' concatenation, the last piece last.
proof fn lemma_last_piece(t: Seq<char>)
    requires
        t.len() > 0,
    ensures
        split_incl(t).len() > 0,
        t == split_incl(t).drop_last().flatten() + split_incl(t).last(),
        line_pieces(split_incl(t)),
{
    lemma_split_incl(t);
    lemma_split_incl_pieces(t);
    let p = split_incl(t);
    if p.len() == 0 {
        assert(p.flatten() =~= Seq::<char>::empty());
    }
    assert(p.drop_last().push(p.last()) =~= p);
    p.drop_last().lemma_flatten_push(p.last());
}

proof fn lemma_first_occ_found(s: Seq<char>, p: Seq<char>, i: int)
    ensures
        first_occ_from(s, p, i) == -1 || (i <= first_occ_from(s, p, i) && occurs_at(
            s,
            p,
            first_occ_from(s, p, i),
        )),
    decreases s.len() + 1 - i,
{
    if 0 <= i <= s.len() && !occurs_at(s, p, i) {
        lemma_first_occ_found(s, p, i + 1);
    }
}

proof fn lemma_last_index_bound(s: Seq<char>, c: char)
    ensures
        last_index_of(s, c) < s.len(),
    decreases s.len(),
{
    if s.len() > 0 && s.last() != c {
        lemma_last_index_bound(s.drop_last(), c);
    }
}

/// The last character of an aligned line before its line break is the last
/// of its `rest`, which holds no line break.
proof fn lemma_simple_rest(piece: Seq<char>)
    requires
        simple_parts(piece) is Some,
        forall|j: int| 0 <= j < piece.len() - 1 ==> piece[j] != '\n',
    ensures
        simple_parts(piece).unwrap().2.len() > 0,
        simple_parts(piece).unwrap().2.last() != '\n',
{
    let content = strip_nl(piece);
    let il = tabsp_lead(content);
    let body = content.skip(il);
    let eq = first_occ_from(body, eq_pat(), 0);
    lemma_first_occ_found(body, eq_pat(), 0);
    let rest = body.skip(eq + 3);
    lemma_last_index_bound(rest, ';');
    assert(rest.len() > 0);
    assert(0 <= il <= content.len()) by {
        lemma_tabsp_lead_bound(content);
    }
    assert(rest.last() == content[content.len() - 1]);
    assert(content.len() - 1 < piece.len() - 1 || piece.last() != '\n');
}

proof fn lemma_tabsp_lead_bound(s: Seq<char>)
    ensures
        0 <= tabsp_lead(s) <= s.len(),
    decreases s.len(),
{
    if s.len() > 0 && (s[0] == '\t' || s[0] == ' ') {
        lemma_tabsp_lead_bound(s.drop_first());
    }
}

pub proof fn lemma_align_end(t: Seq<char>, width: int)
    requires
        ends_in_newline(t),
    ensures
        ends_in_newline(align_assignments(t, width)),
        no_blank_end(t) ==> no_blank_end(align_assignments(t, width)),
{
    if t.len() > 0 {
        lemma_last_piece(t);
        let p = split_incl(t);
        let n = p.len() as int;
        let x = p[n - 1];
        let a = align_upto(p, width, n - 1);
        let y = aligned_piece(p, n - 1, width);
        assert(align_assignments(t, width) == a + y);
        assert(x.last() == t.last());
        if aligned(p, n - 1, width) {
            lemma_simple_rest(x);
            let (indent, lhs, rest) = simple_parts(x).unwrap();
            let target = max_lhs(p, run_start(p, n - 1), run_end(p, n - 1));
            let head = indent + lhs + repeat_char(' ', (target - lhs.len()) as nat) + eq_pat() + rest;
            assert(y == head + seq!['\n']);
            assert(head.last() == rest.last());
            assert((a + y).last() == '\n');
            assert((a + y)[(a + y).len() - 2] == head.last());
        } else {
            assert(y == x);
            assert((a + y).last() == '\n');
            if no_blank_end(t) {
                if x.len() >= 2 {
                    assert((a + y)[(a + y).len() - 2] == x[x.len() - 2]);
                    assert(t[t.len() - 2] == x[x.len() - 2]);
                } else if n >= 2 {
                    let q = p.drop_last();
                    assert(q.last() == p[n - 2]);
                    assert(p[n - 2].last() == '\n');
                    assert(q.drop_last().push(q.last()) =~= q);
                    q.drop_last().lemma_flatten_push(q.last());
                    assert(t[t.len() - 2] == p[n - 2].last());
                } else {
                    assert(a == Seq::<char>::empty());
                }
            }
        }
    }
}

/// Each line of a greedy fill is non-empty and free of line breaks.
proof fn lemma_greedy_lines(w: Seq<Seq<char>>, i: int, cur: Seq<char>, budget: int)
    requires
        forall|k: int, j: int| 0 <= k < w.len() && 0 <= j < w[k].len() ==> w[k][j] != '\n',
        forall|j: int| 0 <= j < cur.len() ==> cur[j] != '\n',
    ensures
        forall|k: int| 0 <= k < greedy(w, i, cur, budget).len() ==> (#[trigger] greedy(w, i, cur, budget)[k]).len() > 0
            && forall|j: int| 0 <= j < greedy(w, i, cur, budget)[k].len() ==> greedy(w, i, cur, budget)[k][j] != '\n',
    decreases w.len() - i,
{
    let g = greedy(w, i, cur, budget);
    if i < 0 || i >= w.len() {
        if cur.len() > 0 {
            assert(g == seq![cur]);
            assert forall|k: int| 0 <= k < g.len() implies (#[trigger] g[k]).len() > 0 && forall|j: int|
                0 <= j < g[k].len() ==> g[k][j] != '\n' by {
                assert(g[k] == cur);
            }
        }
    } else if cur.len() > 0 && cur.len() + 1 + w[i].len() > budget {
        lemma_greedy_lines(w, i + 1, w[i], budget);
        assert forall|k: int| 0 <= k < g.len() implies (#[trigger] g[k]).len() > 0 && forall|j: int|
            0 <= j < g[k].len() ==> g[k][j] != '\n' by {
            if k > 0 {
                assert(g[k] == greedy(w, i + 1, w[i], budget)[k - 1]);
            } else {
                assert(g[0] == cur);
            }
        }
    } else {
        let c2 = if cur.len() > 0 {
            cur + seq![' '] + w[i]
        } else {
            w[i]
        };
        assert forall|j: int| 0 <= j < c2.len() implies c2[j] != '\n' by {
            if cur.len() > 0 {
                if j < cur.len() {
                    assert(c2[j] == cur[j]);
                } else if j > cur.len() {
                    assert(c2[j] == w[i][j - cur.len() - 1]);
                }
            }
        }
        lemma_greedy_lines(w, i + 1, c2, budget);
        assert(g == greedy(w, i + 1, c2, budget));
        assert forall|k: int| 0 <= k < g.len() implies (#[trigger] g[k]).len() > 0 && forall|j: int|
            0 <= j < g[k].len() ==> g[k][j] != '\n' by {
            assert(g[k] == greedy(w, i + 1, c2, budget)[k]);
        }
    }
}

/// No word holds a line break.
proof fn lemma_words_no_nl(s: Seq<char>)
    ensures
        forall|k: int, j: int| 0 <= k < words(s).len() && 0 <= j < words(s)[k].len() ==> words(s)[k][j] != '\n',
    decreases s.len(),
{
    let a = lead_ws(s);
    let t = s.skip(a);
    lemma_trim_start(s);
    lemma_word_len(t);
    if a < s.len() {
        let kk = word_len(t);
        lemma_words_no_nl(t.skip(kk));
        assert forall|k: int, j: int| 0 <= k < words(s).len() && 0 <= j < words(s)[k].len() implies words(s)[k][j]
            != '\n' by {
            if k == 0 {
                assert(words(s)[0] == t.take(kk));
                assert(!is_ws(t[j]));
            } else {
                assert(words(s)[k] == words(t.skip(kk))[k - 1]);
            }
        }
    }
}

pub proof fn lemma_reflow_end(t: Seq<char>, width: int)
    requires
        ends_in_newline(t),
    ensures
        ends_in_newline(reflow_comments(t, width)),
        no_blank_end(t) && (t.len() == 0 || reflow_piece(split_incl(t).last(), width).len() > 0)
            ==> no_blank_end(reflow_comments(t, width)),
{
    if t.len() > 0 {
        lemma_last_piece(t);
        let p = split_incl(t);
        let n = p.len() as int;
        let x = p[n - 1];
        let a = reflow_upto(p, width, n - 1);
        let y = reflow_piece(x, width);
        assert(reflow_comments(t, width) == a + y);
        assert(x.last() == t.last());
        lemma_reflow_upto_end(p, width, n - 1);
        if reflow_eligible(x, width) {
            let content = strip_nl(x);
            let lw = lead_ws(content);
            let prefix = content.take(lw) + reflow_marker();
            let text = content.skip(lw + 3);
            let ws = words(text);
            let budget = reflow_budget(prefix.len() as int, width);
            let ls = greedy(ws, 0, seq![], budget);
            lemma_words_no_nl(text);
            lemma_greedy_lines(ws, 0, seq![], budget);
            if ls.len() > 0 {
                let body = prefix + ls.last();
                assert(y == emit_lines(prefix, ls.drop_last()) + body + seq!['\n']);
                assert((a + y).last() == '\n');
                assert((a + y)[(a + y).len() - 2] == body.last());
                assert(body.last() == ls.last().last());
            } else {
                assert(y == Seq::<char>::empty());
                assert(a + y =~= a);
            }
        } else {
            assert(y == x);
            assert((a + y).last() == '\n');
            if no_blank_end(t) {
                if x.len() >= 2 {
                    assert((a + y)[(a + y).len() - 2] == x[x.len() - 2]);
                    assert(t[t.len() - 2] == x[x.len() - 2]);
                } else if n >= 2 {
                    let q = p.drop_last();
                    assert(q.last() == p[n - 2]);
                    assert(p[n - 2].last() == '\n');
                    assert(q.drop_last().push(q.last()) =~= q);
                    q.drop_last().lemma_flatten_push(q.last());
                    assert(t[t.len() - 2] == p[n - 2].last());
                } else {
                    assert(a == Seq::<char>::empty());
                }
            }
        }
    }
}

/// Reflowing pieces that end in line breaks gives a text ending in one.
proof fn lemma_reflow_upto_end(p: Seq<Seq<char>>, width: int, n: int)
    requires
        0 <= n <= p.len(),
        line_pieces(p),
    ensures
        n < p.len() ==> ends_in_newline(reflow_upto(p, width, n)),
    decreases n,
{
    if n > 0 {
        lemma_reflow_upto_end(p, width, n - 1);
        if n < p.len() {
            assert(p[n - 1].last() == '\n');
        }
    }
}

// ---------------------------------------------------------------------------
// The passes move only whitespace
// ---------------------------------------------------------------------------

proof fn lemma_blank_nws(piece: Seq<char>)
    requires
        blank(piece),
    ensures
        nws(piece) == Seq::<char>::empty(),
{
    lemma_nws_ws(piece);
}

proof fn lemma_take_push(p: Seq<Seq<char>>, n: int)
    requires
        1 <= n <= p.len(),
    ensures
        p.take(n).flatten() == p.take(n - 1).flatten() + p[n - 1],
{
    assert(p.take(n) =~= p.take(n - 1).push(p[n - 1]));
    p.take(n - 1).lemma_flatten_push(p[n - 1]);
}

proof fn lemma_strip_nws(p: Seq<Seq<char>>, n: int)
    requires
        0 <= n <= p.len(),
    ensures
        nws(filter_brace_upto(p, n)) == nws(p.take(n).flatten()),
    decreases n,
{
    broadcast use group_tokens;

    if n == 0 {
        assert(p.take(0) =~= Seq::<Seq<char>>::empty());
        assert(Seq::<Seq<char>>::empty().flatten() =~= Seq::<char>::empty());
    } else {
        lemma_strip_nws(p, n - 1);
        lemma_take_push(p, n);
        if !brace_keeps(p, n - 1) {
            lemma_blank_nws(p[n - 1]);
        }
    }
}

proof fn lemma_when_nws(p: Seq<Seq<char>>, n: int)
    requires
        0 <= n <= p.len(),
    ensures
        nws(when_upto(p, n)) == nws(p.take(n).flatten()),
    decreases n,
{
    broadcast use group_tokens;

    if n == 0 {
        assert(p.take(0) =~= Seq::<Seq<char>>::empty());
        assert(Seq::<Seq<char>>::empty().flatten() =~= Seq::<char>::empty());
    } else {
        lemma_when_nws(p, n - 1);
        lemma_take_push(p, n);
        lemma_nws_one('\n');
    }
}

proof fn lemma_collapse_nws(p: Seq<Seq<char>>, m: nat, n: int)
    requires
        0 <= n <= p.len(),
    ensures
        nws(collapse_upto(p, m, n)) == nws(p.take(n).flatten()),
    decreases n,
{
    broadcast use group_tokens;

    if n == 0 {
        assert(p.take(0) =~= Seq::<Seq<char>>::empty());
        assert(Seq::<Seq<char>>::empty().flatten() =~= Seq::<char>::empty());
    } else {
        lemma_collapse_nws(p, m, n - 1);
        lemma_take_push(p, n);
        if !collapse_keeps(p, m, n - 1) {
            lemma_blank_nws(p[n - 1]);
        }
    }
}

proof fn lemma_strip_extra_nws(s: Seq<char>)
    ensures
        nws(strip_extra_nl(s)) == nws(s),
    decreases s.len(),
{
    broadcast use group_tokens;

    if s.len() >= 2 && s[s.len() - 1] == '\n' && s[s.len() - 2] == '\n' {
        lemma_strip_extra_nws(s.drop_last());
        assert(s =~= s.drop_last() + seq!['\n']);
        lemma_nws_one('\n');
    }
}

proof fn lemma_tabsp_ws(s: Seq<char>)
    ensures
        0 <= tabsp_lead(s) <= s.len(),
        nws(s.take(tabsp_lead(s))) == Seq::<char>::empty(),
    decreases s.len(),
{
    if s.len() > 0 && (s[0] == '\t' || s[0] == ' ') {
        lemma_tabsp_ws(s.drop_first());
        let t = s.take(tabsp_lead(s));
        assert forall|i: int| 0 <= i < t.len() implies is_ws(#[trigger] t[i]) by {
            if i > 0 {
                assert(t[i] == s.drop_first().take(tabsp_lead(s.drop_first()))[i - 1]);
                lemma_nws_ws_rev(s.drop_first().take(tabsp_lead(s.drop_first())), i - 1);
            }
        }
        lemma_nws_ws(t);
    } else {
        assert(s.take(0) =~= Seq::<char>::empty());
    }
}

/// A text with no non-whitespace characters is all whitespace.
proof fn lemma_nws_ws_rev(t: Seq<char>, i: int)
    requires
        nws(t) == Seq::<char>::empty(),
        0 <= i < t.len(),
    ensures
        is_ws(t[i]),
    decreases t.len(),
{
    broadcast use group_tokens;

    assert(t =~= seq![t[0]] + t.drop_first());
    lemma_nws_one(t[0]);
    if i > 0 {
        lemma_nws_ws_rev(t.drop_first(), i - 1);
    }
}

proof fn lemma_aligned_nws(p: Seq<Seq<char>>, i: int, width: int)
    requires
        0 <= i < p.len(),
    ensures
        nws(aligned_piece(p, i, width)) == nws(p[i]),
{
    broadcast use group_tokens;

    if aligned(p, i, width) {
        let piece = p[i];
        let content = strip_nl(piece);
        let il = tabsp_lead(content);
        lemma_tabsp_ws(content);
        let indent = content.take(il);
        let body = content.skip(il);
        let eq = first_occ_from(body, eq_pat(), 0);
        lemma_first_occ_found(body, eq_pat(), 0);
        let lhs = trim_end(body.take(eq));
        let rest = body.skip(eq + 3);
        let (ind2, lhs2, rest2) = simple_parts(piece).unwrap();
        assert(ind2 == indent && lhs2 == lhs && rest2 == rest);
        let target = max_lhs(p, run_start(p, i), run_end(p, i));
        let pad = repeat_char(' ', (target - lhs.len()) as nat);
        assert forall|j: int| 0 <= j < pad.len() implies is_ws(#[trigger] pad[j]) by {
            assert(pad[j] == ' ');
        }
        lemma_nws_ws(pad);
        lemma_nws_trim(body.take(eq));
        let nl = if piece.len() > 0 && piece.last() == '\n' {
            seq!['\n']
        } else {
            seq![]
        };
        assert(piece =~= content + nl);
        assert(body.subrange(eq, eq + 3) == eq_pat());
        assert(content =~= indent + body.take(eq) + eq_pat() + rest);
        lemma_nws_one('\n');
        lemma_nws_one(' ');
        lemma_nws_one('=');
        assert(eq_pat() =~= seq![' '] + seq!['='] + seq![' ']);
        assert(nws(Seq::<char>::empty()) == Seq::<char>::empty());
    }
}

proof fn lemma_align_nws(p: Seq<Seq<char>>, width: int, n: int)
    requires
        0 <= n <= p.len(),
    ensures
        nws(align_upto(p, width, n)) == nws(p.take(n).flatten()),
    decreases n,
{
    broadcast use group_tokens;

    if n == 0 {
        assert(p.take(0) =~= Seq::<Seq<char>>::empty());
        assert(Seq::<Seq<char>>::empty().flatten() =~= Seq::<char>::empty());
    } else {
        lemma_align_nws(p, width, n - 1);
        lemma_take_push(p, n);
        lemma_aligned_nws(p, n - 1, width);
    }
}

/// Each whole-output pass but the comment reflow keeps the text's
/// non-whitespace characters: it only adds or drops whitespace.
pub proof fn passes_keep_the_tokens(s: Seq<char>, max_blank: nat, final_blank: bool, width: int)
    ensures
        nws(strip_brace_blanks(s)) == nws(s),
        nws(blank_after_top_when(s)) == nws(s),
        nws(collapse_blank(s, max_blank)) == nws(s),
        nws(normalized_trailing(s, max_blank, final_blank)) == nws(s),
        nws(align_assignments(s, width)) == nws(s),
{
    broadcast use group_tokens;

    let p = split_incl(s);
    lemma_split_incl(s);
    assert(p.take(p.len() as int) =~= p);
    lemma_strip_nws(p, p.len() as int);
    lemma_when_nws(p, p.len() as int);
    lemma_collapse_nws(p, max_blank, p.len() as int);
    lemma_align_nws(p, width, p.len() as int);
    let c = collapse_blank(s, max_blank);
    lemma_strip_extra_nws(c);
    lemma_nws_one('\n');
    let c2 = strip_extra_nl(c);
    if c2.len() > 0 && c2.last() != '\n' {
        assert(c2.push('\n') =~= c2 + seq!['\n']);
    }
    if c2.len() > 0 {
        let d = if c2.last() == '\n' {
            c2
        } else {
            c2.push('\n')
        };
        assert(d.push('\n') =~= d + seq!['\n']);
    }
}

// ---------------------------------------------------------------------------
// Comment reflow adds only the markers of the lines it opens
// ---------------------------------------------------------------------------

/// Every character of `ss` is a `/`.
pub open spec fn all_slashes(ss: Seq<char>) -> bool {
    forall|i: int| 0 <= i < ss.len() ==> ss[i] == '/'
}

/// The non-whitespace characters of the lines `ls`, in order.
pub open spec fn lines_nws(ls: Seq<Seq<char>>) -> Seq<char>
    decreases ls.len(),
{
    if ls.len() == 0 {
        seq![]
    } else {
        nws(ls[0]) + lines_nws(ls.drop_first())
    }
}

/// No line of `t` vanishes under the comment reflow: every line is kept or
/// split into at least one line (an over-width `// ` comment line that holds
/// no word at all would be dropped).
pub open spec fn reflow_drops_no_line(t: Seq<char>, width: int) -> bool {
    forall|i: int|
        0 <= i < split_incl(t).len() ==> (#[trigger] reflow_piece(split_incl(t)[i], width)).len() > 0
}

proof fn lemma_lines_nws_push(ls: Seq<Seq<char>>, l: Seq<char>)
    ensures
        lines_nws(ls.push(l)) == lines_nws(ls) + nws(l),
    decreases ls.len(),
{
    if ls.len() == 0 {
        assert(ls.push(l).drop_first() =~= Seq::<Seq<char>>::empty());
        assert(ls.push(l)[0] == l);
        assert(lines_nws(ls.push(l)) == nws(l) + lines_nws(Seq::<Seq<char>>::empty()));
        assert(nws(l) + Seq::<char>::empty() =~= nws(l));
        assert(Seq::<char>::empty() + nws(l) =~= nws(l));
    } else {
        assert(ls.push(l).drop_first() =~= ls.drop_first().push(l));
        lemma_lines_nws_push(ls.drop_first(), l);
        assert(ls.push(l)[0] == ls[0]);
        assert(lines_nws(ls.push(l)) == nws(ls[0]) + (lines_nws(ls.drop_first()) + nws(l)));
        assert(nws(ls[0]) + (lines_nws(ls.drop_first()) + nws(l)) =~= nws(ls[0]) + lines_nws(
            ls.drop_first(),
        ) + nws(l));
    }
}

/// A text without whitespace is its own non-whitespace part.
proof fn lemma_nws_solid(x: Seq<char>)
    requires
        forall|i: int| 0 <= i < x.len() ==> !is_ws(#[trigger] x[i]),
    ensures
        nws(x) == x,
    decreases x.len(),
{
    if x.len() > 0 {
        lemma_nws_solid(x.drop_first());
        assert(seq![x[0]] + x.drop_first() =~= x);
    }
}

/// The words of `s` are its non-whitespace characters, cut into pieces that
/// hold no whitespace.
#[verifier::spinoff_prover]
#[verifier::rlimit(60)]
proof fn lemma_words_nws(s: Seq<char>)
    ensures
        nws(s) == words(s).flatten(),
        forall|k: int| 0 <= k < words(s).len() ==> nws(#[trigger] words(s)[k]) == words(s)[k],
    decreases s.len(),
{
    let a = lead_ws(s);
    let t = s.skip(a);
    lemma_trim_start(s);
    lemma_word_len(t);
    assert(s =~= s.take(a) + t);
    assert(all_ws(s.take(a))) by {
        assert forall|i: int| 0 <= i < s.take(a).len() implies is_ws(#[trigger] s.take(a)[i]) by {
            assert(s.take(a)[i] == s[i]);
        }
    }
    lemma_nws_ws(s.take(a));
    lemma_nws_add(s.take(a), t);
    assert(Seq::<char>::empty() + nws(t) =~= nws(t));
    if a >= s.len() {
        assert(t =~= Seq::<char>::empty());
        assert(words(s) == Seq::<Seq<char>>::empty());
    } else {
        let k = word_len(t);
        lemma_words_nws(t.skip(k));
        assert forall|i: int| 0 <= i < t.take(k).len() implies !is_ws(#[trigger] t.take(k)[i]) by {
            assert(t.take(k)[i] == t[i]);
        }
        lemma_nws_solid(t.take(k));
        assert(t =~= t.take(k) + t.skip(k));
        lemma_nws_add(t.take(k), t.skip(k));
        let ws = words(s);
        assert(ws == seq![t.take(k)] + words(t.skip(k)));
        assert(ws.drop_first() =~= words(t.skip(k)));
        assert(ws.flatten() == t.take(k) + words(t.skip(k)).flatten());
        assert forall|j: int| 0 <= j < ws.len() implies nws(#[trigger] ws[j]) == ws[j] by {
            if j > 0 {
                assert(ws[j] == words(t.skip(k))[j - 1]);
            }
        }
    }
}

/// The lines of a greedy fill hold the words in order, and the non-whitespace
/// characters of the line under construction before them.
#[verifier::spinoff_prover]
#[verifier::rlimit(60)]
proof fn lemma_greedy_nws(w: Seq<Seq<char>>, i: int, cur: Seq<char>, budget: int)
    requires
        0 <= i <= w.len(),
        forall|k: int| 0 <= k < w.len() ==> nws(#[trigger] w[k]) == w[k],
    ensures
        lines_nws(greedy(w, i, cur, budget)) == nws(cur) + w.skip(i).flatten(),
    decreases w.len() - i,
{
    let g = greedy(w, i, cur, budget);
    if i >= w.len() {
        assert(w.skip(i) =~= Seq::<Seq<char>>::empty());
        if cur.len() > 0 {
            assert(g == seq![cur]);
            assert(g.drop_first() =~= Seq::<Seq<char>>::empty());
            assert(g[0] == cur);
            assert(lines_nws(g) == nws(cur) + lines_nws(Seq::<Seq<char>>::empty()));
        } else {
            assert(cur =~= Seq::<char>::empty());
        }
        assert(nws(cur) + Seq::<char>::empty() =~= nws(cur));
        assert(Seq::<Seq<char>>::empty().flatten() =~= Seq::<char>::empty());
    } else {
        assert(w.skip(i).drop_first() =~= w.skip(i + 1));
        assert(w.skip(i).flatten() == w[i] + w.skip(i + 1).flatten());
        lemma_nws_one(' ');
        if cur.len() > 0 && cur.len() + 1 + w[i].len() > budget {
            lemma_greedy_nws(w, i + 1, w[i], budget);
            let rest = greedy(w, i + 1, w[i], budget);
            assert(g == seq![cur] + rest);
            assert(g.drop_first() =~= rest);
            assert(g[0] == cur);
            assert(lines_nws(g) == nws(cur) + lines_nws(rest));
            assert(nws(w[i]) == w[i]);
            assert(nws(cur) + (w[i] + w.skip(i + 1).flatten()) =~= nws(cur) + w[i] + w.skip(i
                + 1).flatten());
        } else {
            let c2 = if cur.len() > 0 {
                cur + seq![' '] + w[i]
            } else {
                w[i]
            };
            lemma_greedy_nws(w, i + 1, c2, budget);
            if cur.len() == 0 {
                assert(cur =~= Seq::<char>::empty());
            }
            if cur.len() > 0 {
                lemma_nws_add(cur + seq![' '], w[i]);
                lemma_nws_add(cur, seq![' ']);
                assert(nws(cur) + Seq::<char>::empty() =~= nws(cur));
            } else {
                assert(Seq::<char>::empty() + w[i] =~= w[i]);
            }
            assert(nws(c2) == nws(cur) + w[i]);
            assert(g == greedy(w, i + 1, c2, budget));
            assert(nws(cur) + w[i] + w.skip(i + 1).flatten() =~= nws(cur) + (w[i] + w.skip(i
                + 1).flatten()));
        }
    }
}

/// Emitting lines under a `//` prefix gives the prefix's two slashes and the
/// lines' characters, with two more slashes for each line after the first.
#[verifier::spinoff_prover]
#[verifier::rlimit(60)]
proof fn lemma_emit_nws(prefix: Seq<char>, ls: Seq<Seq<char>>) -> (ss: Seq<char>)
    requires
        nws(prefix) == seq!['/', '/'],
        ls.len() > 0,
    ensures
        shuffle(nws(emit_lines(prefix, ls)), seq!['/', '/'] + lines_nws(ls), ss),
        all_slashes(ss),
    decreases ls.len(),
{
    broadcast use group_tokens;

    let l = ls.last();
    let dl = ls.drop_last();
    let e = emit_lines(prefix, dl);
    let m = seq!['/', '/'];
    assert(emit_lines(prefix, ls) == e + prefix + l + seq!['\n']);
    lemma_nws_one('\n');
    assert(nws(emit_lines(prefix, ls)) == nws(e) + m + nws(l) + Seq::<char>::empty());
    assert(nws(e) + m + nws(l) + Seq::<char>::empty() =~= nws(e) + (m + nws(l)));
    assert(dl.push(l) =~= ls);
    lemma_lines_nws_push(dl, l);
    if ls.len() == 1 {
        assert(dl =~= Seq::<Seq<char>>::empty());
        assert(e == Seq::<char>::empty());
        assert(nws(e) + (m + nws(l)) =~= m + lines_nws(ls));
        lemma_shuffle_left(m + lines_nws(ls));
        Seq::<char>::empty()
    } else {
        let ss0 = lemma_emit_nws(prefix, dl);
        lemma_shuffle_left(nws(l));
        lemma_shuffle_right(m);
        lemma_shuffle_cat(m, Seq::<char>::empty(), m, nws(l), nws(l), Seq::<char>::empty());
        assert(Seq::<char>::empty() + nws(l) =~= nws(l));
        assert(m + Seq::<char>::empty() =~= m);
        lemma_shuffle_cat(nws(e), m + lines_nws(dl), ss0, m + nws(l), nws(l), m);
        assert(m + lines_nws(dl) + nws(l) =~= m + lines_nws(ls));
        let ss = ss0 + m;
        assert forall|i: int| 0 <= i < ss.len() implies ss[i] == '/' by {
            if i < ss0.len() {
                assert(ss[i] == ss0[i]);
            }
        }
        ss
    }
}

/// Reflowing one line adds only slashes to its non-whitespace characters.
#[verifier::spinoff_prover]
#[verifier::rlimit(60)]
proof fn lemma_reflow_piece_nws(piece: Seq<char>, width: int) -> (ss: Seq<char>)
    requires
        reflow_piece(piece, width).len() > 0,
    ensures
        shuffle(nws(reflow_piece(piece, width)), nws(piece), ss),
        all_slashes(ss),
{
    broadcast use group_tokens;

    if reflow_eligible(piece, width) {
        let content = strip_nl(piece);
        let lw = lead_ws(content);
        lemma_trim_start(content);
        let trimmed = content.skip(lw);
        let prefix = content.take(lw) + reflow_marker();
        let text = content.skip(lw + 3);
        assert(trimmed.take(3) == reflow_marker());
        assert(content =~= content.take(lw) + trimmed.take(3) + text);
        assert(all_ws(content.take(lw))) by {
            assert forall|i: int| 0 <= i < content.take(lw).len() implies is_ws(
                #[trigger] content.take(lw)[i],
            ) by {
                assert(content.take(lw)[i] == content[i]);
            }
        }
        lemma_nws_ws(content.take(lw));
        assert(reflow_marker() =~= seq!['/'] + seq!['/'] + seq![' ']);
        lemma_nws_one('/');
        lemma_nws_one(' ');
        lemma_nws_one('\n');
        assert(nws(prefix) =~= seq!['/', '/']);
        let nl = if piece.len() > 0 && piece.last() == '\n' {
            seq!['\n']
        } else {
            seq![]
        };
        assert(piece =~= content + nl);
        assert(nws(nl) == Seq::<char>::empty());
        assert(nws(piece) =~= seq!['/', '/'] + nws(text));
        let ws = words(text);
        lemma_words_nws(text);
        let budget = reflow_budget(prefix.len() as int, width);
        let ls = greedy(ws, 0, seq![], budget);
        lemma_greedy_nws(ws, 0, seq![], budget);
        assert(ws.skip(0) =~= ws);
        assert(nws(Seq::<char>::empty()) == Seq::<char>::empty());
        assert(lines_nws(ls) =~= nws(text));
        if ls.len() == 0 {
            assert(emit_lines(prefix, ls) == Seq::<char>::empty());
        }
        lemma_emit_nws(prefix, ls)
    } else {
        lemma_shuffle_left(nws(piece));
        Seq::<char>::empty()
    }
}

proof fn lemma_reflow_upto_nws(p: Seq<Seq<char>>, width: int, n: int) -> (ss: Seq<char>)
    requires
        0 <= n <= p.len(),
        forall|i: int| 0 <= i < p.len() ==> (#[trigger] reflow_piece(p[i], width)).len() > 0,
    ensures
        shuffle(nws(reflow_upto(p, width, n)), nws(p.take(n).flatten()), ss),
        all_slashes(ss),
    decreases n,
{
    broadcast use group_tokens;

    if n == 0 {
        assert(p.take(0) =~= Seq::<Seq<char>>::empty());
        assert(Seq::<Seq<char>>::empty().flatten() =~= Seq::<char>::empty());
        lemma_shuffle_left(Seq::<char>::empty());
        Seq::<char>::empty()
    } else {
        let ss0 = lemma_reflow_upto_nws(p, width, n - 1);
        lemma_take_push(p, n);
        let ss1 = lemma_reflow_piece_nws(p[n - 1], width);
        lemma_shuffle_cat(
            nws(reflow_upto(p, width, n - 1)),
            nws(p.take(n - 1).flatten()),
            ss0,
            nws(reflow_piece(p[n - 1], width)),
            nws(p[n - 1]),
            ss1,
        );
        let ss = ss0 + ss1;
        assert forall|i: int| 0 <= i < ss.len() implies ss[i] == '/' by {
            if i < ss0.len() {
                assert(ss[i] == ss0[i]);
            } else {
                assert(ss[i] == ss1[i - ss0.len()]);
            }
        }
        ss
    }
}

/// Comment reflow moves whitespace and adds `/` characters (the `//` that
/// opens each continuation line), nothing else: the non-whitespace
/// characters of the reflowed text are those of the text, interleaved with
/// slashes; whenever no line vanishes.
pub proof fn reflow_only_adds_slashes(t: Seq<char>, width: int) -> (ss: Seq<char>)
    requires
        reflow_drops_no_line(t, width),
    ensures
        shuffle(nws(reflow_comments(t, width)), nws(t), ss),
        all_slashes(ss),
{
    let p = split_incl(t);
    lemma_split_incl(t);
    assert(p.take(p.len() as int) =~= p);
    assert forall|i: int| 0 <= i < p.len() implies (#[trigger] reflow_piece(p[i], width)).len() > 0 by {
        assert(reflow_piece(split_incl(t)[i], width).len() > 0);
    }
    lemma_reflow_upto_nws(p, width, p.len() as int)
}

// ---------------------------------------------------------------------------
// Comment reflow fills each line
// ---------------------------------------------------------------------------

/// A line that fits in `budget` characters, or is a single word.
pub open spec fn fits_or_word(l: Seq<char>, budget: int) -> bool {
    l.len() <= budget || forall|j: int| 0 <= j < l.len() ==> !is_ws(#[trigger] l[j])
}

/// A word followed by nothing or by whitespace: its leading word is itself.
proof fn lemma_word_len_prefix(x: Seq<char>, y: Seq<char>)
    requires
        forall|j: int| 0 <= j < x.len() ==> !is_ws(#[trigger] x[j]),
        y.len() == 0 || is_ws(y[0]),
    ensures
        word_len(x + y) == x.len(),
    decreases x.len(),
{
    if x.len() == 0 {
        assert(x + y =~= y);
    } else {
        assert((x + y)[0] == x[0]);
        assert((x + y).drop_first() =~= x.drop_first() + y);
        lemma_word_len_prefix(x.drop_first(), y);
    }
}

/// The greedy fill: every line fits its budget or is a single word; every
/// line but the last is full, for the first word of the next line would
/// not have fit on it; and the first line goes on from the line under
/// construction, with a space or nothing after it.
#[verifier::spinoff_prover]
#[verifier::rlimit(60)]
proof fn lemma_greedy_fill(w: Seq<Seq<char>>, i: int, cur: Seq<char>, budget: int)
    requires
        0 <= i <= w.len(),
        forall|k: int, j: int| 0 <= k < w.len() && 0 <= j < w[k].len() ==> !is_ws(#[trigger] w[k][j]),
        forall|k: int| 0 <= k < w.len() ==> (#[trigger] w[k]).len() > 0,
        fits_or_word(cur, budget),
    ensures
        forall|k: int| 0 <= k < greedy(w, i, cur, budget).len() ==> fits_or_word(
            #[trigger] greedy(w, i, cur, budget)[k],
            budget,
        ),
        forall|k: int|
            0 <= k < greedy(w, i, cur, budget).len() - 1 ==> (#[trigger] greedy(w, i, cur, budget)[k]).len()
                + 1 + word_len(greedy(w, i, cur, budget)[k + 1]) > budget,
        cur.len() > 0 ==> greedy(w, i, cur, budget).len() > 0 && greedy(w, i, cur, budget)[0].len()
            >= cur.len() && greedy(w, i, cur, budget)[0].take(cur.len() as int) == cur && (greedy(
            w,
            i,
            cur,
            budget,
        )[0].len() == cur.len() || greedy(w, i, cur, budget)[0][cur.len() as int] == ' '),
    decreases w.len() - i,
{
    let g = greedy(w, i, cur, budget);
    if i >= w.len() {
        if cur.len() > 0 {
            assert(g == seq![cur]);
            assert(g[0] == cur);
            assert(cur.take(cur.len() as int) =~= cur);
        } else {
            assert(g.len() == 0);
        }
    } else if cur.len() > 0 && cur.len() + 1 + w[i].len() > budget {
        assert(fits_or_word(w[i], budget)) by {
            assert forall|j: int| 0 <= j < w[i].len() implies !is_ws(#[trigger] w[i][j]) by {}
        }
        lemma_greedy_fill(w, i + 1, w[i], budget);
        let rest = greedy(w, i + 1, w[i], budget);
        assert(g == seq![cur] + rest);
        let r0 = rest[0];
        let wi = w[i];
        assert(r0 =~= wi + r0.skip(wi.len() as int));
        assert forall|j: int| 0 <= j < wi.len() implies !is_ws(#[trigger] wi[j]) by {}
        if r0.len() > wi.len() {
            assert(r0.skip(wi.len() as int)[0] == ' ');
        }
        lemma_word_len_prefix(wi, r0.skip(wi.len() as int));
        assert forall|k: int| 0 <= k < g.len() implies fits_or_word(#[trigger] g[k], budget) by {
            if k > 0 {
                assert(g[k] == rest[k - 1]);
            }
        }
        assert forall|k: int| 0 <= k < g.len() - 1 implies (#[trigger] g[k]).len() + 1 + word_len(g[k + 1])
            > budget by {
            if k > 0 {
                assert(g[k] == rest[k - 1]);
                assert(g[k + 1] == rest[k]);
            } else {
                assert(g[1] == rest[0]);
            }
        }
        assert(g[0] == cur);
        assert(cur.take(cur.len() as int) =~= cur);
    } else {
        let c2 = if cur.len() > 0 {
            cur + seq![' '] + w[i]
        } else {
            w[i]
        };
        assert(fits_or_word(c2, budget)) by {
            if cur.len() == 0 {
                assert forall|j: int| 0 <= j < w[i].len() implies !is_ws(#[trigger] w[i][j]) by {}
            }
        }
        lemma_greedy_fill(w, i + 1, c2, budget);
        assert(g == greedy(w, i + 1, c2, budget));
        if cur.len() > 0 {
            let g0 = g[0];
            assert(g0.take(cur.len() as int) =~= c2.take(cur.len() as int));
            assert(c2.take(cur.len() as int) =~= cur);
            assert(g0[cur.len() as int] == c2[cur.len() as int]);
        }
    }
}

/// The lines, without their `// ` prefix, that comment reflow splits an
/// eligible line into.
pub open spec fn reflow_lines(piece: Seq<char>, width: int) -> Seq<Seq<char>> {
    let content = strip_nl(piece);
    let lw = lead_ws(content);
    let prefix = content.take(lw) + reflow_marker();
    let text = content.skip(lw + 3);
    greedy(words(text), 0, seq![], reflow_budget(prefix.len() as int, width))
}

/// Comment reflow fills each line. An over-width `// ` comment line becomes
/// the lines `ls`, each written after the line's indentation and `// `:
/// together they hold the comment's words in order; with `limit` the
/// width, or the prefix and 8 characters where that is more, every line
/// fits in `limit` unless it is a single word, and every line but the last
/// is full: the first word of the next line would have taken it past
/// `limit`.
pub proof fn reflow_fills_each_line(piece: Seq<char>, width: int)
    requires
        reflow_eligible(piece, width),
    ensures
        ({
            let content = strip_nl(piece);
            let lw = lead_ws(content);
            let prefix = content.take(lw) + reflow_marker();
            let text = content.skip(lw + 3);
            let ls = reflow_lines(piece, width);
            let limit = if width > prefix.len() + 8 {
                width
            } else {
                prefix.len() + 8int
            };
            &&& reflow_piece(piece, width) == emit_lines(prefix, ls)
            &&& lines_nws(ls) == nws(text)
            &&& forall|k: int|
                0 <= k < ls.len() ==> (#[trigger] ls[k]).len() > 0 && forall|j: int|
                    0 <= j < ls[k].len() ==> ls[k][j] != '\n'
            &&& forall|k: int|
                0 <= k < ls.len() ==> prefix.len() + (#[trigger] ls[k]).len() <= limit || forall|j: int|
                    0 <= j < ls[k].len() ==> !is_ws(ls[k][j])
            &&& forall|k: int|
                0 <= k < ls.len() - 1 ==> prefix.len() + (#[trigger] ls[k]).len() + 1 + word_len(ls[k + 1])
                    > limit
        }),
{
    let content = strip_nl(piece);
    let lw = lead_ws(content);
    let prefix = content.take(lw) + reflow_marker();
    let text = content.skip(lw + 3);
    let ws = words(text);
    let budget = reflow_budget(prefix.len() as int, width);
    let ls = greedy(ws, 0, seq![], budget);
    lemma_words_nws(text);
    lemma_words_no_nl(text);
    lemma_words_shape(text);
    lemma_greedy_nws(ws, 0, seq![], budget);
    assert(ws.skip(0) =~= ws);
    assert(nws(Seq::<char>::empty()) == Seq::<char>::empty());
    assert(Seq::<char>::empty() + ws.flatten() =~= ws.flatten());
    lemma_greedy_lines(ws, 0, seq![], budget);
    lemma_greedy_fill(ws, 0, seq![], budget);
}

/// Each word is non-empty and holds no whitespace.
proof fn lemma_words_shape(s: Seq<char>)
    ensures
        forall|k: int| 0 <= k < words(s).len() ==> (#[trigger] words(s)[k]).len() > 0,
        forall|k: int, j: int| 0 <= k < words(s).len() && 0 <= j < words(s)[k].len() ==> !is_ws(
            #[trigger] words(s)[k][j],
        ),
    decreases s.len(),
{
    let a = lead_ws(s);
    let t = s.skip(a);
    lemma_trim_start(s);
    lemma_word_len(t);
    if a < s.len() {
        let kk = word_len(t);
        lemma_words_shape(t.skip(kk));
        assert forall|k: int| 0 <= k < words(s).len() implies (#[trigger] words(s)[k]).len() > 0 by {
            if k > 0 {
                assert(words(s)[k] == words(t.skip(kk))[k - 1]);
            }
        }
        assert forall|k: int, j: int| 0 <= k < words(s).len() && 0 <= j < words(s)[k].len() implies !is_ws(
            #[trigger] words(s)[k][j],
        ) by {
            if k == 0 {
                assert(words(s)[0] == t.take(kk));
                assert(words(s)[0][j] == t[j]);
            } else {
                assert(words(s)[k] == words(t.skip(kk))[k - 1]);
            }
        }
    }
}

// ---------------------------------------------------------------------------
// Which lines alignment takes as simple assignments
// ---------------------------------------------------------------------------

/// Leading tabs and spaces of an indentation followed by other text.
proof fn lemma_tabsp_lead_cat(indent: Seq<char>, x: Seq<char>)
    requires
        forall|j: int| 0 <= j < indent.len() ==> (#[trigger] indent[j] == ' ' || indent[j] == '\t'),
        x.len() > 0,
        x[0] != ' ' && x[0] != '\t',
    ensures
        tabsp_lead(indent + x) == indent.len(),
    decreases indent.len(),
{
    if indent.len() == 0 {
        assert(indent + x =~= x);
    } else {
        assert((indent + x)[0] == indent[0]);
        assert((indent + x).drop_first() =~= indent.drop_first() + x);
        assert(indent[0] == ' ' || indent[0] == '\t');
        lemma_tabsp_lead_cat(indent.drop_first(), x);
    }
}

/// The parts of a line `<indent><lhs> = <rest>` of the shape alignment is
/// for: the indentation is tabs and spaces; the left-hand side is an
/// object path, ASCII letters, digits, spaces, `.`, `_`, `$`, `(` and `)`,
/// not opening or ending with a space; the rest is one line ending in `;`.
pub open spec fn assignment_line_parts(indent: Seq<char>, lhs: Seq<char>, rest: Seq<char>) -> bool {
    &&& forall|j: int| 0 <= j < indent.len() ==> (#[trigger] indent[j] == ' ' || indent[j] == '\t')
    &&& lhs.len() > 0
    &&& lhs[0] != ' '
    &&& lhs.last() != ' '
    &&& forall|j: int|
        0 <= j < lhs.len() ==> {
            let u = (#[trigger] lhs[j]) as u32;
            ||| 'a' as u32 <= u <= 'z' as u32
            ||| 'A' as u32 <= u <= 'Z' as u32
            ||| '0' as u32 <= u <= '9' as u32
            ||| lhs[j] == ' ' || lhs[j] == '.' || lhs[j] == '_' || lhs[j] == '$'
            ||| lhs[j] == '(' || lhs[j] == ')'
        }
    &&& rest.len() > 0
    &&& rest.last() == ';'
    &&& forall|j: int| 0 <= j < rest.len() ==> #[trigger] rest[j] != '\n'
}

/// The line `<indent><lhs> = <rest>`, its `'\n'` included.
pub open spec fn assignment_line(indent: Seq<char>, lhs: Seq<char>, rest: Seq<char>) -> Seq<char> {
    indent + lhs + seq![' ', '=', ' '] + rest + seq!['\n']
}

/// The same line with `pad` spaces after the left-hand side.
pub open spec fn padded_line(indent: Seq<char>, lhs: Seq<char>, pad: int, rest: Seq<char>) -> Seq<
    char,
> {
    indent + lhs + Seq::new(pad as nat, |i: int| ' ') + seq![' ', '=', ' '] + rest + seq!['\n']
}

/// A line `<indent><lhs> = <rest>` is a simple assignment, whatever its
/// parts, when they have the shape of [`assignment_line_parts`].
#[verifier::spinoff_prover]
#[verifier::rlimit(60)]
pub proof fn simple_assignments_are_recognized(
    indent: Seq<char>,
    lhs: Seq<char>,
    rest: Seq<char>,
    nl: bool,
)
    requires
        assignment_line_parts(indent, lhs, rest),
    ensures
        simple_parts(indent + lhs + seq![' ', '=', ' '] + rest + if nl {
            seq!['\n']
        } else {
            seq![]
        }) == Some((indent, lhs, rest)),
{
    let content = indent + lhs + seq![' ', '=', ' '] + rest;
    let piece = content + if nl {
        seq!['\n']
    } else {
        seq![]
    };
    if nl {
        assert(piece.drop_last() =~= content);
    } else {
        assert(piece =~= content);
        assert(content.last() == ';');
    }
    assert(strip_nl(piece) == content);
    let body = lhs + seq![' ', '=', ' '] + rest;
    assert(content =~= indent + body);
    assert(lhs[0] != '\t') by {
        let u = lhs[0] as u32;
        assert('a' as u32 <= u <= 'z' as u32 || 'A' as u32 <= u <= 'Z' as u32 || '0' as u32 <= u
            <= '9' as u32 || lhs[0] == ' ' || lhs[0] == '.' || lhs[0] == '_' || lhs[0] == '$'
            || lhs[0] == '(' || lhs[0] == ')');
    }
    assert(body[0] == lhs[0]);
    lemma_tabsp_lead_cat(indent, body);
    assert(content.take(indent.len() as int) =~= indent);
    assert(content.skip(indent.len() as int) =~= body);
    let m = lhs.len() as int;
    assert(body.subrange(m, m + 3) =~= eq_pat());
    assert forall|j: int| 0 <= j < m implies !occurs_at(body, eq_pat(), j) by {
        if occurs_at(body, eq_pat(), j) {
            assert(body.subrange(j, j + 3)[1] == '=');
            assert(body[j + 1] == '=');
            if j + 1 < m {
                assert(body[j + 1] == lhs[j + 1]);
                let u = lhs[j + 1] as u32;
                assert('a' as u32 <= u <= 'z' as u32 || 'A' as u32 <= u <= 'Z' as u32 || '0' as u32
                    <= u <= '9' as u32 || lhs[j + 1] == ' ' || lhs[j + 1] == '.' || lhs[j + 1] == '_'
                    || lhs[j + 1] == '$' || lhs[j + 1] == '(' || lhs[j + 1] == ')');
            } else {
                assert(body[m] == ' ');
            }
        }
    }
    lemma_first_occ(body, eq_pat(), 0, m);
    assert(body.take(m) =~= lhs);
    assert(!is_ws(lhs.last())) by {
        let u = lhs[m - 1] as u32;
        assert(lhs.last() == lhs[m - 1]);
        assert('a' as u32 <= u <= 'z' as u32 || 'A' as u32 <= u <= 'Z' as u32 || '0' as u32 <= u
            <= '9' as u32 || lhs[m - 1] == ' ' || lhs[m - 1] == '.' || lhs[m - 1] == '_' || lhs[m - 1]
            == '$' || lhs[m - 1] == '(' || lhs[m - 1] == ')');
    }
    assert(trim_end(lhs) == lhs);
    assert(body.skip(m + 3) =~= rest);
    assert(!op_end_char(lhs.last())) by {
        let u = lhs[m - 1] as u32;
        assert(lhs.last() == lhs[m - 1]);
        assert('a' as u32 <= u <= 'z' as u32 || 'A' as u32 <= u <= 'Z' as u32 || '0' as u32 <= u
            <= '9' as u32 || lhs[m - 1] == ' ' || lhs[m - 1] == '.' || lhs[m - 1] == '_' || lhs[m - 1]
            == '$' || lhs[m - 1] == '(' || lhs[m - 1] == ')');
    }
    assert forall|i: int| 0 <= i < lhs.len() implies lhs_char(#[trigger] lhs[i]) by {
        let u = lhs[i] as u32;
        assert('a' as u32 <= u <= 'z' as u32 || 'A' as u32 <= u <= 'Z' as u32 || '0' as u32 <= u
            <= '9' as u32 || lhs[i] == ' ' || lhs[i] == '.' || lhs[i] == '_' || lhs[i] == '$'
            || lhs[i] == '(' || lhs[i] == ')');
    }
    assert(last_index_of(rest, ';') == rest.len() - 1);
    let tail = rest.skip(rest.len() as int);
    assert(tail =~= Seq::<char>::empty());
    lemma_trim_start(tail);
    assert(trim_start(tail).len() == 0);
}

/// A line of the shape of [`assignment_line_parts`] holds no line break.
proof fn lemma_assignment_line_nl(indent: Seq<char>, lhs: Seq<char>, rest: Seq<char>)
    requires
        assignment_line_parts(indent, lhs, rest),
    ensures
        ({
            let l = assignment_line(indent, lhs, rest);
            &&& forall|j: int| 0 <= j < l.len() - 1 ==> l[j] != '\n'
            &&& l.len() > 0 && l.last() == '\n'
        }),
{
    let l = assignment_line(indent, lhs, rest);
    let a = indent.len() as int;
    let b = a + lhs.len();
    assert forall|j: int| 0 <= j < l.len() - 1 implies l[j] != '\n' by {
        if j < a {
            assert(l[j] == indent[j]);
        } else if j < b {
            assert(l[j] == lhs[j - a]);
            let u = lhs[j - a] as u32;
            assert('a' as u32 <= u <= 'z' as u32 || 'A' as u32 <= u <= 'Z' as u32 || '0' as u32
                <= u <= '9' as u32 || lhs[j - a] == ' ' || lhs[j - a] == '.' || lhs[j - a] == '_'
                || lhs[j - a] == '$' || lhs[j - a] == '(' || lhs[j - a] == ')');
        } else if j < b + 3 {
        } else {
            assert(l[j] == rest[j - b - 3]);
        }
    }
}

/// Two consecutive simple assignments at the same indentation are aligned
/// when, padded, both still fit in `width`: each left-hand side is padded
/// with spaces to the longer one, so both `=` land in the same column, one
/// past the indentation and the longer left-hand side; otherwise nothing
/// of the lines changes.
#[verifier::spinoff_prover]
#[verifier::rlimit(80)]
pub proof fn two_assignments_are_aligned(
    indent: Seq<char>,
    lhs1: Seq<char>,
    rest1: Seq<char>,
    lhs2: Seq<char>,
    rest2: Seq<char>,
    width: int,
)
    requires
        assignment_line_parts(indent, lhs1, rest1),
        assignment_line_parts(indent, lhs2, rest2),
        ({
            let m = if lhs1.len() >= lhs2.len() {
                lhs1.len()
            } else {
                lhs2.len()
            };
            &&& indent.len() + m + 3 + rest1.len() <= width
            &&& indent.len() + m + 3 + rest2.len() <= width
        }),
    ensures
        ({
            let m = if lhs1.len() >= lhs2.len() {
                lhs1.len() as int
            } else {
                lhs2.len() as int
            };
            let out = align_assignments(
                assignment_line(indent, lhs1, rest1) + assignment_line(indent, lhs2, rest2),
                width,
            );
            &&& out == padded_line(indent, lhs1, m - lhs1.len(), rest1) + padded_line(
                indent,
                lhs2,
                m - lhs2.len(),
                rest2,
            )
            &&& out[indent.len() + m + 1] == '='
            &&& out[padded_line(indent, lhs1, m - lhs1.len(), rest1).len() + indent.len() + m + 1] == '='
        }),
{
    let l1 = assignment_line(indent, lhs1, rest1);
    let l2 = assignment_line(indent, lhs2, rest2);
    let t = l1 + l2;
    lemma_assignment_line_nl(indent, lhs1, rest1);
    lemma_assignment_line_nl(indent, lhs2, rest2);
    crate::text::lemma_nl_index(t, l1.len() - 1);
    crate::text::lemma_nl_index(l2, l2.len() - 1);
    assert(t.take(l1.len() as int) =~= l1);
    assert(t.skip(l1.len() as int) =~= l2);
    assert(l2.take(l2.len() as int) =~= l2);
    assert(l2.skip(l2.len() as int) =~= Seq::<char>::empty());
    assert(split_incl(l2) =~= seq![l2] + split_incl(Seq::<char>::empty()));
    assert(split_incl(l2) =~= seq![l2]);
    let p = split_incl(t);
    assert(p =~= seq![l1, l2]);
    simple_assignments_are_recognized(indent, lhs1, rest1, true);
    simple_assignments_are_recognized(indent, lhs2, rest2, true);
    assert(simple_parts(p[0]) == Some((indent, lhs1, rest1)));
    assert(simple_parts(p[1]) == Some((indent, lhs2, rest2)));
    assert(joined(p, 0));
    assert(run_start(p, 0) == 0);
    assert(run_start(p, 1) == 0);
    assert(!joined(p, 1));
    assert(run_end(p, 1) == 2);
    assert(run_end(p, 0) == 2);
    let m = if lhs1.len() >= lhs2.len() {
        lhs1.len() as int
    } else {
        lhs2.len() as int
    };
    assert(max_lhs(p, 0, 0) == 0);
    assert(max_lhs(p, 0, 1) == lhs1.len());
    assert(max_lhs(p, 0, 2) == m);
    assert(strip_nl(l1) =~= indent + lhs1 + seq![' ', '=', ' '] + rest1);
    assert(strip_nl(l2) =~= indent + lhs2 + seq![' ', '=', ' '] + rest2);
    assert(group_fits(p, 0, 2, width));
    assert(aligned(p, 0, width));
    assert(aligned(p, 1, width));
    let q1 = padded_line(indent, lhs1, m - lhs1.len(), rest1);
    let q2 = padded_line(indent, lhs2, m - lhs2.len(), rest2);
    assert(repeat_char(' ', (m - lhs1.len()) as nat) =~= Seq::new((m - lhs1.len()) as nat, |i: int| ' '));
    assert(repeat_char(' ', (m - lhs2.len()) as nat) =~= Seq::new((m - lhs2.len()) as nat, |i: int| ' '));
    assert(aligned_piece(p, 0, width) =~= q1);
    assert(aligned_piece(p, 1, width) =~= q2);
    assert(align_upto(p, width, 0) == Seq::<char>::empty());
    assert(align_upto(p, width, 1) =~= q1);
    assert(align_upto(p, width, 2) =~= q1 + q2);
    assert(q1[indent.len() + m + 1] == '=');
    assert((q1 + q2)[q1.len() + indent.len() + m + 1] == q2[indent.len() + m + 1]);
}

} // verus!
