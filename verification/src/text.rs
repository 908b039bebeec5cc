//! Character-sequence helpers shared by every pass: whitespace, trimming,
//! line splitting and column arithmetic, each with its mathematical model.

use vstd::prelude::*;
use vstd::std_specs::iter::IteratorSpec;

verus! {

/// The Unicode `White_Space` property (what `char::is_whitespace` and
/// `str::trim` use).
pub open spec fn is_ws(c: char) -> bool {
    let u = c as u32;
    ||| u == 0x09 || u == 0x0A || u == 0x0B || u == 0x0C || u == 0x0D || u == 0x20
    ||| u == 0x85 || u == 0xA0 || u == 0x1680
    ||| (0x2000 <= u && u <= 0x200A)
    ||| u == 0x2028 || u == 0x2029 || u == 0x202F || u == 0x205F || u == 0x3000
}

pub fn char_is_ws(c: char) -> (r: bool)
    ensures
        r == is_ws(c),
{
    let u = c as u32;
    u == 0x09 || u == 0x0A || u == 0x0B || u == 0x0C || u == 0x0D || u == 0x20 || u == 0x85
        || u == 0xA0 || u == 0x1680 || (0x2000 <= u && u <= 0x200A) || u == 0x2028 || u
        == 0x2029 || u == 0x202F || u == 0x205F || u == 0x3000
}

/// Every character is whitespace (so the line trims to nothing).
pub open spec fn all_ws(s: Seq<char>) -> bool {
    forall|i: int| 0 <= i < s.len() ==> is_ws(#[trigger] s[i])
}

pub fn is_blank(s: &[char]) -> (r: bool)
    ensures
        r == all_ws(s@),
{
    let mut i: usize = 0;
    while i < s.len()
        invariant
            i <= s.len(),
            forall|j: int| 0 <= j < i ==> is_ws(#[trigger] s@[j]),
        decreases s.len() - i,
    {
        if !char_is_ws(s[i]) {
            return false;
        }
        i += 1;
    }
    true
}

/// `s` with trailing whitespace removed.
pub open spec fn trim_end(s: Seq<char>) -> Seq<char>
    decreases s.len(),
{
    if s.len() > 0 && is_ws(s.last()) {
        trim_end(s.drop_last())
    } else {
        s
    }
}

/// `s` with leading whitespace removed.
pub open spec fn trim_start(s: Seq<char>) -> Seq<char>
    decreases s.len(),
{
    if s.len() > 0 && is_ws(s[0]) {
        trim_start(s.drop_first())
    } else {
        s
    }
}

pub open spec fn trim(s: Seq<char>) -> Seq<char> {
    trim_start(trim_end(s))
}

/// Number of leading whitespace characters of `s`.
pub open spec fn lead_ws(s: Seq<char>) -> int
    decreases s.len(),
{
    if s.len() > 0 && is_ws(s[0]) {
        1 + lead_ws(s.drop_first())
    } else {
        0
    }
}

/// Length of `s` once trailing whitespace is removed.
pub open spec fn trim_end_len(s: Seq<char>) -> int
    decreases s.len(),
{
    if s.len() > 0 && is_ws(s.last()) {
        trim_end_len(s.drop_last())
    } else {
        s.len() as int
    }
}

pub proof fn lemma_trim_end(s: Seq<char>)
    ensures
        0 <= trim_end_len(s) <= s.len(),
        trim_end(s) == s.take(trim_end_len(s)),
        trim_end_len(s) > 0 ==> !is_ws(s[trim_end_len(s) - 1]),
        forall|i: int| trim_end_len(s) <= i < s.len() ==> is_ws(#[trigger] s[i]),
    decreases s.len(),
{
    if s.len() > 0 && is_ws(s.last()) {
        lemma_trim_end(s.drop_last());
        assert(s.drop_last().take(trim_end_len(s)) =~= s.take(trim_end_len(s)));
        assert forall|i: int| trim_end_len(s) <= i < s.len() implies is_ws(#[trigger] s[i]) by {
            if i < s.len() - 1 {
                assert(s[i] == s.drop_last()[i]);
            }
        }
    } else {
        assert(s.take(s.len() as int) =~= s);
    }
}

pub proof fn lemma_trim_start(s: Seq<char>)
    ensures
        0 <= lead_ws(s) <= s.len(),
        trim_start(s) == s.skip(lead_ws(s)),
        lead_ws(s) < s.len() ==> !is_ws(s[lead_ws(s)]),
        forall|i: int| 0 <= i < lead_ws(s) ==> is_ws(#[trigger] s[i]),
    decreases s.len(),
{
    if s.len() > 0 && is_ws(s[0]) {
        lemma_trim_start(s.drop_first());
        assert(s.drop_first().skip(lead_ws(s.drop_first())) =~= s.skip(lead_ws(s)));
        assert forall|i: int| 0 <= i < lead_ws(s) implies is_ws(#[trigger] s[i]) by {
            if i > 0 {
                assert(s[i] == s.drop_first()[i - 1]);
            }
        }
    } else {
        assert(s.skip(0) =~= s);
    }
}

/// Index just past the last non-whitespace character.
pub fn trim_end_len_exec(s: &[char]) -> (k: usize)
    ensures
        k == trim_end_len(s@),
        k <= s.len(),
        s@.take(k as int) == trim_end(s@),
{
    proof {
        lemma_trim_end(s@);
    }
    let mut k = s.len();
    assert(s@.take(k as int) =~= s@);
    while k > 0 && char_is_ws(s[k - 1])
        invariant
            k <= s.len(),
            trim_end_len(s@.take(k as int)) == trim_end_len(s@),
        decreases k,
    {
        assert(s@.take(k as int).drop_last() =~= s@.take(k - 1));
        k -= 1;
    }
    assert(s@.take(k as int).len() == k);
    k
}

/// Number of leading whitespace characters.
pub fn lead_ws_exec(s: &[char]) -> (k: usize)
    ensures
        k == lead_ws(s@),
        k <= s.len(),
        s@.skip(k as int) == trim_start(s@),
{
    proof {
        lemma_trim_start(s@);
    }
    let mut k: usize = 0;
    assert(s@.skip(0) =~= s@);
    while k < s.len() && char_is_ws(s[k])
        invariant
            k <= s.len(),
            lead_ws(s@) == k + lead_ws(s@.skip(k as int)),
        decreases s.len() - k,
    {
        assert(s@.skip(k as int).drop_first() =~= s@.skip(k + 1));
        k += 1;
    }
    k
}

/// `s` with one trailing `'\n'` removed, if it has one.
pub open spec fn strip_nl(s: Seq<char>) -> Seq<char> {
    if s.len() > 0 && s.last() == '\n' {
        s.drop_last()
    } else {
        s
    }
}

pub fn strip_nl_len(s: &[char]) -> (k: usize)
    ensures
        s@.take(k as int) == strip_nl(s@),
        k <= s.len(),
{
    if s.len() > 0 && s[s.len() - 1] == '\n' {
        assert(s@.take(s.len() - 1) =~= s@.drop_last());
        s.len() - 1
    } else {
        assert(s@.take(s.len() as int) =~= s@);
        s.len()
    }
}

pub open spec fn starts_with(s: Seq<char>, p: Seq<char>) -> bool {
    p.len() <= s.len() && s.take(p.len() as int) == p
}

pub open spec fn ends_with(s: Seq<char>, p: Seq<char>) -> bool {
    p.len() <= s.len() && s.skip(s.len() - p.len()) == p
}

/// `p` occurs in `s` starting at `i`.
pub open spec fn occurs_at(s: Seq<char>, p: Seq<char>, i: int) -> bool {
    0 <= i && i + p.len() <= s.len() && s.subrange(i, i + p.len()) == p
}

pub open spec fn contains_seq(s: Seq<char>, p: Seq<char>) -> bool {
    exists|i: int| occurs_at(s, p, i)
}

pub fn starts_with_exec(s: &[char], p: &[char]) -> (r: bool)
    ensures
        r == starts_with(s@, p@),
{
    if p.len() > s.len() {
        return false;
    }
    let mut i: usize = 0;
    while i < p.len()
        invariant
            p.len() <= s.len(),
            i <= p.len(),
            forall|j: int| 0 <= j < i ==> s@[j] == p@[j],
        decreases p.len() - i,
    {
        if s[i] != p[i] {
            assert(s@.take(p.len() as int)[i as int] != p@[i as int]);
            return false;
        }
        i += 1;
    }
    assert(s@.take(p.len() as int) =~= p@);
    true
}

pub fn occurs_at_exec(s: &[char], p: &[char], at: usize) -> (r: bool)
    ensures
        r == occurs_at(s@, p@, at as int),
{
    if at > s.len() || p.len() > s.len() - at {
        return false;
    }
    let mut i: usize = 0;
    while i < p.len()
        invariant
            at + p.len() <= s.len(),
            i <= p.len(),
            forall|j: int| 0 <= j < i ==> s@[at + j] == p@[j],
        decreases p.len() - i,
    {
        if s[at + i] != p[i] {
            assert(s@.subrange(at as int, at + p.len())[i as int] != p@[i as int]);
            return false;
        }
        i += 1;
    }
    assert(s@.subrange(at as int, at + p.len()) =~= p@);
    true
}

/// The first index at or after `from` where `p` occurs, if any.
pub fn find_from(s: &[char], p: &[char], from: usize) -> (r: Option<usize>)
    ensures
        match r {
            Some(i) => from <= i && occurs_at(s@, p@, i as int) && forall|j: int|
                from <= j < i ==> !occurs_at(s@, p@, j),
            None => forall|j: int| from <= j ==> !occurs_at(s@, p@, j),
        },
{
    let mut i = from;
    while i < s.len()
        invariant
            from <= i,
            forall|j: int| from <= j < i ==> !occurs_at(s@, p@, j),
        decreases s.len() - i,
    {
        if occurs_at_exec(s, p, i) {
            return Some(i);
        }
        i += 1;
    }
    if i == s.len() && occurs_at_exec(s, p, i) {
        return Some(i);
    }
    assert forall|j: int| from <= j implies !occurs_at(s@, p@, j) by {
        if j > s.len() {
        }
    }
    None
}

pub fn contains_exec(s: &[char], p: &[char]) -> (r: bool)
    ensures
        r == contains_seq(s@, p@),
{
    match find_from(s, p, 0) {
        Some(i) => true,
        None => false,
    }
}

/// Append all of `s` to `out`.
pub fn push_all(out: &mut Vec<char>, s: &[char])
    ensures
        final(out)@ == old(out)@ + s@,
{
    let mut i: usize = 0;
    while i < s.len()
        invariant
            i <= s.len(),
            out@ == old(out)@ + s@.take(i as int),
        decreases s.len() - i,
    {
        out.push(s[i]);
        assert(s@.take(i + 1) =~= s@.take(i as int).push(s@[i as int]));
        i += 1;
    }
    assert(s@.take(s.len() as int) =~= s@);
}

/// A copy of `s[a..b]`.
pub fn sub_vec(s: &[char], a: usize, b: usize) -> (r: Vec<char>)
    requires
        a <= b <= s.len(),
    ensures
        r@ == s@.subrange(a as int, b as int),
{
    let mut r = Vec::new();
    let mut i = a;
    while i < b
        invariant
            a <= i <= b <= s.len(),
            r@ == s@.subrange(a as int, i as int),
        decreases b - i,
    {
        r.push(s[i]);
        assert(s@.subrange(a as int, i + 1) =~= s@.subrange(a as int, i as int).push(s@[i as int]));
        i += 1;
    }
    r
}

/// `n` copies of `c`.
pub open spec fn repeat_char(c: char, n: nat) -> Seq<char> {
    Seq::new(n, |i: int| c)
}

pub fn push_repeat(out: &mut Vec<char>, c: char, n: usize)
    ensures
        final(out)@ == old(out)@ + repeat_char(c, n as nat),
{
    let mut i: usize = 0;
    while i < n
        invariant
            i <= n,
            out@ == old(out)@ + repeat_char(c, i as nat),
        decreases n - i,
    {
        out.push(c);
        assert(repeat_char(c, (i + 1) as nat) =~= repeat_char(c, i as nat).push(c));
        i += 1;
    }
}

/// Index of the first `'\n'` in `s`, or `s.len()` when there is none.
pub open spec fn nl_index(s: Seq<char>) -> int
    decreases s.len(),
{
    if s.len() == 0 {
        0
    } else if s[0] == '\n' {
        0
    } else {
        1 + nl_index(s.drop_first())
    }
}

pub proof fn lemma_nl_index(s: Seq<char>, k: int)
    requires
        0 <= k <= s.len(),
        forall|j: int| 0 <= j < k ==> s[j] != '\n',
        k == s.len() || s[k] == '\n',
    ensures
        nl_index(s) == k,
    decreases k,
{
    if k > 0 {
        lemma_nl_index(s.drop_first(), k - 1);
    }
}

/// The pieces of `str::split_inclusive('\n')`: every piece but possibly the
/// last ends with its `'\n'`; the empty text has no pieces.
pub open spec fn split_incl(s: Seq<char>) -> Seq<Seq<char>>
    decreases s.len(),
{
    if s.len() == 0 {
        seq![]
    } else {
        let k = nl_index(s);
        proof {
            lemma_nl_index_bound(s);
        }
        if k < s.len() {
            seq![s.take(k + 1)] + split_incl(s.skip(k + 1))
        } else {
            seq![s]
        }
    }
}

/// The pieces of `str::split('\n')` (always at least one).
pub open spec fn split_lines(s: Seq<char>) -> Seq<Seq<char>>
    decreases s.len(),
{
    let k = nl_index(s);
    proof {
        lemma_nl_index_bound(s);
    }
    if k < s.len() {
        seq![s.take(k)] + split_lines(s.skip(k + 1))
    } else {
        seq![s]
    }
}

/// Lines joined by `'\n'` (the inverse of [`split_lines`]).
pub open spec fn join_lines(ls: Seq<Seq<char>>) -> Seq<char>
    decreases ls.len(),
{
    if ls.len() == 0 {
        seq![]
    } else if ls.len() == 1 {
        ls[0]
    } else {
        ls[0] + seq!['\n'] + join_lines(ls.drop_first())
    }
}

pub open spec fn views(v: Seq<Vec<char>>) -> Seq<Seq<char>> {
    Seq::new(v.len(), |i: int| v[i]@)
}

pub proof fn lemma_nl_index_bound(s: Seq<char>)
    ensures
        0 <= nl_index(s) <= s.len(),
        nl_index(s) < s.len() ==> s[nl_index(s)] == '\n',
        forall|j: int| 0 <= j < nl_index(s) ==> s[j] != '\n',
    decreases s.len(),
{
    if s.len() > 0 && s[0] != '\n' {
        lemma_nl_index_bound(s.drop_first());
        assert forall|j: int| 0 <= j < nl_index(s) implies s[j] != '\n' by {
            if j > 0 {
                assert(s[j] == s.drop_first()[j - 1]);
            }
        }
    }
}

/// Every piece of `split_incl` is non-empty, and their concatenation is `s`.
pub proof fn lemma_split_incl(s: Seq<char>)
    ensures
        split_incl(s).flatten() == s,
        forall|i: int| 0 <= i < split_incl(s).len() ==> (#[trigger] split_incl(s)[i]).len() > 0,
        forall|i: int|
            0 <= i < split_incl(s).len() - 1 ==> (#[trigger] split_incl(s)[i]).last() == '\n',
    decreases s.len(),
{
    if s.len() > 0 {
        lemma_nl_index_bound(s);
        let k = nl_index(s);
        if k < s.len() {
            lemma_split_incl(s.skip(k + 1));
            let rest = split_incl(s.skip(k + 1));
            assert((seq![s.take(k + 1)] + rest).drop_first() =~= rest);
            assert(s.take(k + 1) + s.skip(k + 1) =~= s);
            assert(split_incl(s).first() == s.take(k + 1));
            assert(split_incl(s).flatten() == s.take(k + 1) + rest.flatten());
            assert forall|i: int| 0 <= i < split_incl(s).len() implies (#[trigger] split_incl(
                s,
            )[i]).len() > 0 by {
                if i > 0 {
                    assert(split_incl(s)[i] == rest[i - 1]);
                }
            }
            assert forall|i: int| 0 <= i < split_incl(s).len() - 1 implies (#[trigger] split_incl(
                s,
            )[i]).last() == '\n' by {
                if i > 0 {
                    assert(split_incl(s)[i] == rest[i - 1]);
                }
            }
        } else {
            assert(seq![s].drop_first() =~= Seq::<Seq<char>>::empty());
            assert(s + Seq::<char>::empty() =~= s);
            assert(split_incl(s).flatten() == s + Seq::<Seq<char>>::empty().flatten());
        }
    }
}

/// Split `s` into its `split_inclusive('\n')` pieces.
pub fn split_inclusive_lines(s: &[char]) -> (r: Vec<Vec<char>>)
    ensures
        views(r@) == split_incl(s@),
{
    let mut r: Vec<Vec<char>> = Vec::new();
    let mut cur: Vec<char> = Vec::new();
    let mut k: usize = 0;
    let mut i: usize = 0;
    assert(s@.skip(0) =~= s@);
    while i < s.len()
        invariant
            k <= i <= s.len(),
            cur@ == s@.subrange(k as int, i as int),
            forall|j: int| k <= j < i ==> s@[j] != '\n',
            split_incl(s@) == views(r@) + split_incl(s@.skip(k as int)),
        decreases s.len() - i,
    {
        let c = s[i];
        cur.push(c);
        assert(s@.subrange(k as int, i + 1) =~= s@.subrange(k as int, i as int).push(c));
        if c == '\n' {
            let ghost t = s@.skip(k as int);
            proof {
                assert forall|j: int| 0 <= j < i - k implies t[j] != '\n' by {
                    assert(t[j] == s@[k + j]);
                }
                lemma_nl_index(t, i - k);
                assert(t.take(i - k + 1) =~= s@.subrange(k as int, i + 1));
                assert(t.skip(i - k + 1) =~= s@.skip(i + 1));
            }
            let piece = cur;
            cur = Vec::new();
            let ghost old_r = r@;
            r.push(piece);
            assert(views(r@) =~= views(old_r) + seq![piece@]);
            k = i + 1;
        }
        i += 1;
    }
    let ghost t = s@.skip(k as int);
    if cur.len() > 0 {
        proof {
            assert forall|j: int| 0 <= j < t.len() implies t[j] != '\n' by {
                assert(t[j] == s@[k + j]);
            }
            lemma_nl_index(t, t.len() as int);
            assert(cur@ =~= t);
        }
        let ghost old_r = r@;
        r.push(cur);
        assert(views(r@) =~= views(old_r) + seq![t]);
    } else {
        assert(t.len() == 0);
        assert(views(r@) + Seq::<Seq<char>>::empty() =~= views(r@));
    }
    r
}

/// Saturating `+` on `usize`.
pub open spec fn sat_add(a: usize, b: usize) -> usize {
    if a + b > usize::MAX {
        usize::MAX
    } else {
        (a + b) as usize
    }
}

/// Saturating `*` on `usize`.
pub open spec fn sat_mul(a: usize, b: usize) -> usize {
    if a * b > usize::MAX {
        usize::MAX
    } else {
        (a * b) as usize
    }
}

pub fn sat_mul_exec(a: usize, b: usize) -> (r: usize)
    ensures
        r == sat_mul(a, b),
{
    match a.checked_mul(b) {
        Some(v) => v,
        None => usize::MAX,
    }
}

/// Display width of `s` in columns, a tab counting `iw` columns (saturating).
pub open spec fn vwidth(s: Seq<char>, iw: usize) -> usize
    decreases s.len(),
{
    if s.len() == 0 {
        0
    } else {
        sat_add(vwidth(s.drop_last(), iw), if s.last() == '\t' { iw } else { 1 })
    }
}

pub fn visual_width(s: &[char], iw: usize) -> (w: usize)
    ensures
        w == vwidth(s@, iw),
{
    let mut w: usize = 0;
    let mut i: usize = 0;
    while i < s.len()
        invariant
            i <= s.len(),
            w == vwidth(s@.take(i as int), iw),
        decreases s.len() - i,
    {
        let step = if s[i] == '\t' { iw } else { 1 };
        assert(s@.take(i + 1).drop_last() =~= s@.take(i as int));
        w = w.saturating_add(step);
        i += 1;
    }
    assert(s@.take(s.len() as int) =~= s@);
    w
}

pub open spec fn count_char(s: Seq<char>, c: char) -> nat
    decreases s.len(),
{
    if s.len() == 0 {
        0
    } else {
        count_char(s.drop_last(), c) + if s.last() == c { 1nat } else { 0nat }
    }
}

pub fn count_char_exec(s: &[char], c: char) -> (n: usize)
    ensures
        n == count_char(s@, c),
        n <= s.len(),
{
    let mut n: usize = 0;
    let mut i: usize = 0;
    while i < s.len()
        invariant
            i <= s.len(),
            n == count_char(s@.take(i as int), c),
            n <= i,
        decreases s.len() - i,
    {
        assert(s@.take(i + 1).drop_last() =~= s@.take(i as int));
        if s[i] == c {
            n += 1;
        }
        i += 1;
    }
    assert(s@.take(s.len() as int) =~= s@);
    n
}

/// Index just past the last `'\n'` of `s` (0 when there is none): where the
/// current physical line starts.
pub open spec fn last_line_start(s: Seq<char>) -> int
    decreases s.len(),
{
    if s.len() == 0 {
        0
    } else if s.last() == '\n' {
        s.len() as int
    } else {
        last_line_start(s.drop_last())
    }
}

pub proof fn lemma_last_line_start(s: Seq<char>)
    ensures
        0 <= last_line_start(s) <= s.len(),
        forall|j: int| last_line_start(s) <= j < s.len() ==> s[j] != '\n',
        last_line_start(s) > 0 ==> s[last_line_start(s) - 1] == '\n',
    decreases s.len(),
{
    if s.len() > 0 && s.last() != '\n' {
        lemma_last_line_start(s.drop_last());
        assert forall|j: int| last_line_start(s) <= j < s.len() implies s[j] != '\n' by {
            if j < s.len() - 1 {
                assert(s[j] == s.drop_last()[j]);
            }
        }
    }
}

pub fn last_line_start_exec(s: &[char]) -> (k: usize)
    ensures
        k == last_line_start(s@),
{
    let mut k = s.len();
    assert(s@.take(k as int) =~= s@);
    while k > 0 && s[k - 1] != '\n'
        invariant
            k <= s.len(),
            last_line_start(s@) == last_line_start(s@.take(k as int)),
        decreases k,
    {
        assert(s@.take(k as int).drop_last() =~= s@.take(k - 1));
        k -= 1;
    }
    if k > 0 {
        assert(s@.take(k as int).last() == '\n');
    }
    k
}

/// Whether `s` contains character `c`.
pub open spec fn has_char(s: Seq<char>, c: char) -> bool {
    exists|i: int| 0 <= i < s.len() && s[i] == c
}

/// The characters of a string, in order, as `str::chars` hands them out.
pub(crate) fn chars_of(s: &str) -> (r: Vec<char>)
    ensures
        r@ == s@,
{
    let mut it = s.chars();
    let mut r: Vec<char> = Vec::new();
    loop
        invariant
            r@ + it.remaining() == s@,
            it.decrease() is Some,
        decreases it.decrease()->0,
    {
        match it.next() {
            Some(c) => {
                r.push(c);
            },
            None => {
                assert(r@ + it.remaining() =~= r@);
                return r;
            },
        }
    }
}

/// A string made of the given characters, by collecting them into a
/// `String`; the contract claims the string's characters are exactly those.
#[verifier::external_body]
pub(crate) fn string_of(v: &[char]) -> (r: String)
    ensures
        r@ == v@,
{
    v.iter().collect()
}


/// Split `s` into its `split('\n')` lines (newlines dropped).
pub fn split_on_nl(s: &[char]) -> (r: Vec<Vec<char>>)
    ensures
        views(r@) == split_lines(s@),
        r@.len() >= 1,
{
    let mut r: Vec<Vec<char>> = Vec::new();
    let mut cur: Vec<char> = Vec::new();
    let mut k: usize = 0;
    let mut i: usize = 0;
    assert(s@.skip(0) =~= s@);
    while i < s.len()
        invariant
            k <= i <= s.len(),
            cur@ == s@.subrange(k as int, i as int),
            forall|j: int| k <= j < i ==> s@[j] != '\n',
            split_lines(s@) == views(r@) + split_lines(s@.skip(k as int)),
        decreases s.len() - i,
    {
        let c = s[i];
        if c == '\n' {
            let ghost t = s@.skip(k as int);
            proof {
                assert forall|j: int| 0 <= j < i - k implies t[j] != '\n' by {
                    assert(t[j] == s@[k + j]);
                }
                lemma_nl_index(t, i - k);
                assert(t.take(i - k) =~= s@.subrange(k as int, i as int));
                assert(t.skip(i - k + 1) =~= s@.skip(i + 1));
            }
            let piece = cur;
            cur = Vec::new();
            let ghost old_r = r@;
            r.push(piece);
            assert(views(r@) =~= views(old_r) + seq![piece@]);
            k = i + 1;
        } else {
            cur.push(c);
            assert(s@.subrange(k as int, i + 1) =~= s@.subrange(k as int, i as int).push(c));
        }
        i += 1;
    }
    let ghost t = s@.skip(k as int);
    proof {
        assert forall|j: int| 0 <= j < t.len() implies t[j] != '\n' by {
            assert(t[j] == s@[k + j]);
        }
        lemma_nl_index(t, t.len() as int);
        assert(cur@ =~= t);
    }
    let ghost old_r = r@;
    r.push(cur);
    assert(views(r@) =~= views(old_r) + seq![t]);
    r
}

/// Index of the first `'\n'` (or the length): the length of the first line.
pub fn nl_index_exec(s: &[char]) -> (k: usize)
    ensures
        k == nl_index(s@),
{
    let mut k: usize = 0;
    while k < s.len() && s[k] != '\n'
        invariant
            k <= s.len(),
            forall|j: int| 0 <= j < k ==> s@[j] != '\n',
        decreases s.len() - k,
    {
        k += 1;
    }
    proof {
        lemma_nl_index(s@, k as int);
    }
    k
}

/// Display width of `s[a..]`.
pub fn visual_width_from(s: &[char], a: usize, iw: usize) -> (w: usize)
    requires
        a <= s.len(),
    ensures
        w == vwidth(s@.skip(a as int), iw),
{
    let mut w: usize = 0;
    let mut i = a;
    while i < s.len()
        invariant
            a <= i <= s.len(),
            w == vwidth(s@.subrange(a as int, i as int), iw),
        decreases s.len() - i,
    {
        let step = if s[i] == '\t' { iw } else { 1 };
        assert(s@.subrange(a as int, i + 1).drop_last() =~= s@.subrange(a as int, i as int));
        w = w.saturating_add(step);
        i += 1;
    }
    assert(s@.subrange(a as int, s.len() as int) =~= s@.skip(a as int));
    w
}

/// `vwidth` is additive (saturating).
pub proof fn lemma_vwidth_add(x: Seq<char>, y: Seq<char>, iw: usize)
    ensures
        vwidth(x + y, iw) == sat_add(vwidth(x, iw), vwidth(y, iw)),
    decreases y.len(),
{
    if y.len() == 0 {
        assert(x + y =~= x);
    } else {
        lemma_vwidth_add(x, y.drop_last(), iw);
        assert((x + y).drop_last() =~= x + y.drop_last());
    }
}

pub proof fn lemma_last_line_start_add(x: Seq<char>, y: Seq<char>)
    ensures
        has_char(y, '\n') ==> last_line_start(x + y) == x.len() + last_line_start(y),
        !has_char(y, '\n') ==> last_line_start(x + y) == last_line_start(x),
    decreases y.len(),
{
    if y.len() == 0 {
        assert(x + y =~= x);
    } else {
        lemma_last_line_start_add(x, y.drop_last());
        assert((x + y).drop_last() =~= x + y.drop_last());
        if y.last() == '\n' {
            assert(has_char(y, '\n'));
        } else {
            assert(has_char(y, '\n') == has_char(y.drop_last(), '\n')) by {
                if has_char(y, '\n') {
                    let i = choose|i: int| 0 <= i < y.len() && y[i] == '\n';
                    assert(y.drop_last()[i] == '\n');
                }
                if has_char(y.drop_last(), '\n') {
                    let i = choose|i: int| 0 <= i < y.drop_last().len() && y.drop_last()[i] == '\n';
                    assert(y[i] == '\n');
                }
            }
        }
    }
}

/// Appending a line to at least one line adds a `'\n'` and the line.
pub proof fn lemma_join_push(ls: Seq<Seq<char>>, x: Seq<char>)
    requires
        ls.len() >= 1,
    ensures
        join_lines(ls.push(x)) == join_lines(ls) + seq!['\n'] + x,
    decreases ls.len(),
{
    if ls.len() == 1 {
        assert(ls.push(x).drop_first() =~= seq![x]);
        assert(join_lines(seq![x]) == x);
        assert(ls.push(x)[0] == ls[0]);
        assert(join_lines(ls.push(x)) =~= join_lines(ls) + seq!['\n'] + x);
    } else {
        lemma_join_push(ls.drop_first(), x);
        assert(ls.push(x).drop_first() =~= ls.drop_first().push(x));
        assert(join_lines(ls.push(x)) =~= join_lines(ls) + seq!['\n'] + x);
    }
}

/// `lines` joined with `'\n'`.
pub fn join_nl(lines: &Vec<Vec<char>>) -> (r: Vec<char>)
    ensures
        r@ == join_lines(views(lines@)),
{
    let mut r: Vec<char> = Vec::new();
    let mut i: usize = 0;
    while i < lines.len()
        invariant
            i <= lines.len(),
            r@ == join_lines(views(lines@).take(i as int)),
        decreases lines.len() - i,
    {
        proof {
            assert(views(lines@).take(i + 1) =~= views(lines@).take(i as int).push(
                lines@[i as int]@,
            ));
            if i > 0 {
                lemma_join_push(views(lines@).take(i as int), lines@[i as int]@);
            } else {
                assert(views(lines@).take(1) =~= seq![lines@[0]@]);
            }
        }
        if i > 0 {
            r.push('\n');
        }
        push_all(&mut r, lines[i].as_slice());
        i += 1;
    }
    assert(views(lines@).take(i as int) =~= views(lines@));
    r
}

/// Index of the first `c` in `s`, or `s.len()` when there is none.
pub open spec fn index_of(s: Seq<char>, c: char) -> int
    decreases s.len(),
{
    if s.len() == 0 {
        0
    } else if s[0] == c {
        0
    } else {
        1 + index_of(s.drop_first(), c)
    }
}

pub proof fn lemma_index_of(s: Seq<char>, c: char, k: int)
    requires
        0 <= k <= s.len(),
        forall|j: int| 0 <= j < k ==> s[j] != c,
        k == s.len() || s[k] == c,
    ensures
        index_of(s, c) == k,
    decreases k,
{
    if k > 0 {
        lemma_index_of(s.drop_first(), c, k - 1);
    }
}

pub fn index_of_exec(s: &[char], c: char) -> (k: usize)
    ensures
        k == index_of(s@, c),
        k <= s.len(),
{
    let mut k: usize = 0;
    while k < s.len() && s[k] != c
        invariant
            k <= s.len(),
            forall|j: int| 0 <= j < k ==> s@[j] != c,
        decreases s.len() - k,
    {
        k += 1;
    }
    proof {
        lemma_index_of(s@, c, k as int);
    }
    k
}

/// `s` with every `"\r\n"` turned into `'\n'` (left to right).
pub open spec fn to_lf(s: Seq<char>) -> Seq<char>
    decreases s.len(),
{
    if s.len() == 0 {
        seq![]
    } else if s.len() >= 2 && s[0] == '\r' && s[1] == '\n' {
        seq!['\n'] + to_lf(s.skip(2))
    } else {
        seq![s[0]] + to_lf(s.drop_first())
    }
}

/// `s` with every `'\n'` turned into `"\r\n"`.
pub open spec fn to_crlf(s: Seq<char>) -> Seq<char>
    decreases s.len(),
{
    if s.len() == 0 {
        seq![]
    } else if s[0] == '\n' {
        seq!['\r', '\n'] + to_crlf(s.drop_first())
    } else {
        seq![s[0]] + to_crlf(s.drop_first())
    }
}

pub fn to_lf_exec(s: &[char]) -> (r: Vec<char>)
    ensures
        r@ == to_lf(s@),
{
    let mut r: Vec<char> = Vec::new();
    let mut i: usize = 0;
    assert(s@.skip(0) =~= s@);
    while i < s.len()
        invariant
            i <= s.len(),
            to_lf(s@) == r@ + to_lf(s@.skip(i as int)),
        decreases s.len() - i,
    {
        let ghost t = s@.skip(i as int);
        if s[i] == '\r' && i + 1 < s.len() && s[i + 1] == '\n' {
            assert(t.skip(2) =~= s@.skip(i + 2));
            r.push('\n');
            assert(to_lf(s@) == r@ + to_lf(s@.skip(i + 2)));
            i += 2;
        } else {
            assert(t.drop_first() =~= s@.skip(i + 1));
            assert(t[0] == s[i as int]);
            r.push(s[i]);
            assert(to_lf(s@) == r@ + to_lf(s@.skip(i + 1)));
            i += 1;
        }
    }
    assert(r@ + Seq::<char>::empty() =~= r@);
    r
}

pub fn to_crlf_exec(s: &[char]) -> (r: Vec<char>)
    ensures
        r@ == to_crlf(s@),
{
    let mut r: Vec<char> = Vec::new();
    let mut i: usize = 0;
    assert(s@.skip(0) =~= s@);
    while i < s.len()
        invariant
            i <= s.len(),
            to_crlf(s@) == r@ + to_crlf(s@.skip(i as int)),
        decreases s.len() - i,
    {
        let ghost t = s@.skip(i as int);
        assert(t.drop_first() =~= s@.skip(i + 1));
        assert(t[0] == s[i as int]);
        if s[i] == '\n' {
            r.push('\r');
            r.push('\n');
            assert(to_crlf(s@) == r@ + to_crlf(s@.skip(i + 1)));
        } else {
            r.push(s[i]);
            assert(to_crlf(s@) == r@ + to_crlf(s@.skip(i + 1)));
        }
        i += 1;
    }
    assert(r@ + Seq::<char>::empty() =~= r@);
    r
}

/// A line without one trailing `'\r'`.
pub open spec fn strip_cr(l: Seq<char>) -> Seq<char> {
    if l.len() > 0 && l.last() == '\r' {
        l.drop_last()
    } else {
        l
    }
}

/// The lines of `str::lines()`: split on `'\n'`, without the empty piece
/// after a final `'\n'`, each without a trailing `'\r'`.
pub open spec fn text_lines(s: Seq<char>) -> Seq<Seq<char>> {
    let ps = split_lines(s);
    let qs = if ps.last().len() == 0 {
        ps.drop_last()
    } else {
        ps
    };
    qs.map_values(|l: Seq<char>| strip_cr(l))
}

pub fn text_lines_exec(s: &[char]) -> (r: Vec<Vec<char>>)
    ensures
        views(r@) == text_lines(s@),
{
    let ps = split_on_nl(s);
    let ghost pv = views(ps@);
    let mut n = ps.len();
    if ps[n - 1].len() == 0 {
        n = n - 1;
    }
    let ghost qs = if pv.last().len() == 0 {
        pv.drop_last()
    } else {
        pv
    };
    assert(qs =~= pv.take(n as int));
    let mut r: Vec<Vec<char>> = Vec::new();
    let mut i: usize = 0;
    while i < n
        invariant
            i <= n <= ps.len(),
            pv == views(ps@),
            qs == pv.take(n as int),
            views(r@) == qs.take(i as int).map_values(|l: Seq<char>| strip_cr(l)),
        decreases n - i,
    {
        let l = &ps[i];
        let k = if l.len() > 0 && l[l.len() - 1] == '\r' {
            l.len() - 1
        } else {
            l.len()
        };
        let piece = sub_vec(l.as_slice(), 0, k);
        assert(piece@ =~= strip_cr(pv[i as int]));
        let ghost before = views(r@);
        r.push(piece);
        assert(views(r@) =~= before.push(piece@));
        assert(qs.take(i + 1).map_values(|l: Seq<char>| strip_cr(l)) =~= qs.take(i as int).map_values(
            |l: Seq<char>| strip_cr(l),
        ).push(strip_cr(qs[i as int])));
        i += 1;
    }
    assert(qs.take(n as int) =~= qs);
    r
}

/// The decimal digit `d` (`d < 10`).
pub open spec fn digit_char(d: nat) -> char {
    if d == 0 {
        '0'
    } else if d == 1 {
        '1'
    } else if d == 2 {
        '2'
    } else if d == 3 {
        '3'
    } else if d == 4 {
        '4'
    } else if d == 5 {
        '5'
    } else if d == 6 {
        '6'
    } else if d == 7 {
        '7'
    } else if d == 8 {
        '8'
    } else {
        '9'
    }
}

/// The decimal representation of `n`.
pub open spec fn decimal(n: nat) -> Seq<char>
    decreases n,
{
    if n < 10 {
        seq![digit_char(n)]
    } else {
        decimal(n / 10) + seq![digit_char(n % 10)]
    }
}

fn digit_exec(d: usize) -> (c: char)
    requires
        d < 10,
    ensures
        c == digit_char(d as nat),
{
    if d == 0 {
        '0'
    } else if d == 1 {
        '1'
    } else if d == 2 {
        '2'
    } else if d == 3 {
        '3'
    } else if d == 4 {
        '4'
    } else if d == 5 {
        '5'
    } else if d == 6 {
        '6'
    } else if d == 7 {
        '7'
    } else if d == 8 {
        '8'
    } else {
        '9'
    }
}

/// Append the decimal representation of `n`.
pub fn push_decimal(out: &mut Vec<char>, n: usize)
    ensures
        final(out)@ == old(out)@ + decimal(n as nat),
    decreases n,
{
    if n >= 10 {
        push_decimal(out, n / 10);
    }
    out.push(digit_exec(n % 10));
    assert(out@ =~= old(out)@ + decimal(n as nat));
}

/// Whether two texts are equal.
pub fn chars_eq(a: &[char], b: &[char]) -> (r: bool)
    ensures
        r == (a@ == b@),
{
    if a.len() != b.len() {
        return false;
    }
    let mut i: usize = 0;
    while i < a.len()
        invariant
            a.len() == b.len(),
            i <= a.len(),
            forall|j: int| 0 <= j < i ==> a@[j] == b@[j],
        decreases a.len() - i,
    {
        if a[i] != b[i] {
            return false;
        }
        i += 1;
    }
    assert(a@ =~= b@);
    true
}

/// `s` without its trailing `'\n'`s.
pub open spec fn strip_trailing_nl(s: Seq<char>) -> Seq<char>
    decreases s.len(),
{
    if s.len() > 0 && s.last() == '\n' {
        strip_trailing_nl(s.drop_last())
    } else {
        s
    }
}

/// Length of `s` without its trailing `'\n'`s.
pub fn strip_trailing_nl_len(s: &[char]) -> (k: usize)
    ensures
        k <= s.len(),
        s@.take(k as int) == strip_trailing_nl(s@),
{
    let mut k = s.len();
    assert(s@.take(k as int) =~= s@);
    while k > 0 && s[k - 1] == '\n'
        invariant
            k <= s.len(),
            strip_trailing_nl(s@.take(k as int)) == strip_trailing_nl(s@),
        decreases k,
    {
        assert(s@.take(k as int).drop_last() =~= s@.take(k - 1));
        k -= 1;
    }
    k
}

/// No line of `split_lines` holds a line break.
pub proof fn lemma_split_lines_no_nl(s: Seq<char>)
    ensures
        forall|i: int, j: int|
            0 <= i < split_lines(s).len() && 0 <= j < split_lines(s)[i].len() ==> split_lines(
                s,
            )[i][j] != '\n',
    decreases s.len(),
{
    lemma_nl_index_bound(s);
    let k = nl_index(s);
    if k < s.len() {
        lemma_split_lines_no_nl(s.skip(k + 1));
        assert forall|i: int, j: int|
            0 <= i < split_lines(s).len() && 0 <= j < split_lines(s)[i].len() implies split_lines(
                s,
            )[i][j] != '\n' by {
            if i == 0 {
                assert(split_lines(s)[0] == s.take(k));
            } else {
                assert(split_lines(s)[i] == split_lines(s.skip(k + 1))[i - 1]);
            }
        }
    }
}

/// Splitting lines that hold no line break after joining them gives them
/// back.
pub proof fn lemma_split_join(ls: Seq<Seq<char>>)
    requires
        ls.len() >= 1,
        forall|i: int, j: int| 0 <= i < ls.len() && 0 <= j < ls[i].len() ==> ls[i][j] != '\n',
    ensures
        split_lines(join_lines(ls)) == ls,
    decreases ls.len(),
{
    let s = join_lines(ls);
    if ls.len() == 1 {
        assert(s == ls[0]);
        lemma_nl_index(s, s.len() as int);
        assert(split_lines(s) =~= seq![s]);
        assert(ls =~= seq![ls[0]]);
    } else {
        let rest = ls.drop_first();
        assert forall|i: int, j: int| 0 <= i < rest.len() && 0 <= j < rest[i].len() implies rest[i][j]
            != '\n' by {
            assert(rest[i] == ls[i + 1]);
        }
        lemma_split_join(rest);
        let a = ls[0];
        assert(s == a + seq!['\n'] + join_lines(rest));
        assert forall|j: int| 0 <= j < a.len() implies s[j] != '\n' by {
            assert(s[j] == a[j]);
        }
        assert(s[a.len() as int] == '\n');
        lemma_nl_index(s, a.len() as int);
        assert(s.take(a.len() as int) =~= a);
        assert(s.skip(a.len() as int + 1) =~= join_lines(rest));
        assert(split_lines(s) =~= seq![a] + rest);
        assert(seq![a] + rest =~= ls);
    }
}

/// In `to_crlf(s)` every `'\n'` follows a `'\r'`.
pub proof fn lemma_to_crlf(s: Seq<char>)
    ensures
        forall|i: int|
            0 <= i < to_crlf(s).len() && #[trigger] to_crlf(s)[i] == '\n' ==> i > 0 && to_crlf(s)[i
                - 1] == '\r',
    decreases s.len(),
{
    if s.len() > 0 {
        lemma_to_crlf(s.drop_first());
        let t = to_crlf(s.drop_first());
        let h = if s[0] == '\n' {
            seq!['\r', '\n']
        } else {
            seq![s[0]]
        };
        assert(to_crlf(s) == h + t);
        assert forall|i: int|
            0 <= i < to_crlf(s).len() && #[trigger] to_crlf(s)[i] == '\n' implies i > 0 && to_crlf(
                s,
            )[i - 1] == '\r' by {
            if i >= h.len() {
                assert(to_crlf(s)[i] == t[i - h.len()]);
                if i - h.len() > 0 {
                    assert(to_crlf(s)[i - 1] == t[i - h.len() - 1]);
                }
            }
        }
    }
}

} // verus!
