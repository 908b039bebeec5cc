//! `@m1:fmt(off)` / `@m1:fmt(on)` format-off regions.
//!
//! A *standalone* line comment `// @m1:fmt(off)` opens a region and the next
//! standalone `// @m1:fmt(on)` closes it; the lines from the off marker through
//! the on marker (inclusive) pass through the formatter byte-for-byte. An
//! unclosed `off` runs to end of file. Markers sharing a line with code, inside
//! block comments, or an `on` with no open region are inert.
//!
//! The printer keeps every comment in source order, so the same markers
//! reappear in the formatted output. The document is formatted as usual, then
//! each marker-to-marker span of the output is replaced by the source
//! lines, the markers found by the same scan on both sides serving as anchors.

use vstd::prelude::*;
use crate::cst::{Cst, Kind, Node};
use crate::text::{
    index_of, index_of_exec, is_ws, char_is_ws, join_lines, join_nl, lead_ws_exec, split_lines,
    split_on_nl, starts_with, starts_with_exec, sub_vec, trim_start, views,
};

verus! {

/// The end of a region that runs to end of file.
pub const EOF: usize = usize::MAX;

pub open spec fn slash_pair() -> Seq<char> {
    seq!['/', '/']
}

pub open spec fn marker_prefix() -> Seq<char> {
    seq!['@', 'm', '1', ':', 'f', 'm', 't', '(']
}

/// `Some(true)` for an off marker, `Some(false)` for an on marker, `None`
/// otherwise: the comment is `//`, optional whitespace, `@m1:fmt(`, then
/// `off` or `on` up to the first `)` (or the end); prose may follow.
pub open spec fn marker_arg(comment: Seq<char>) -> Option<bool> {
    if !starts_with(comment, slash_pair()) {
        None
    } else {
        let body = trim_start(comment.skip(2));
        if !starts_with(body, marker_prefix()) {
            None
        } else {
            let rest = body.skip(8);
            let arg = rest.take(index_of(rest, ')'));
            if arg == seq!['o', 'f', 'f'] {
                Some(true)
            } else if arg == seq!['o', 'n'] {
                Some(false)
            } else {
                None
            }
        }
    }
}

/// Only whitespace stands between the start of the line and offset `pos`.
pub open spec fn ws_before(src: Seq<char>, pos: int) -> bool
    decreases pos,
{
    if pos <= 0 || pos > src.len() {
        pos == 0
    } else if src[pos - 1] == '\n' {
        true
    } else {
        is_ws(src[pos - 1]) && ws_before(src, pos - 1)
    }
}

/// The marker a node is, if it is a standalone marker line comment: its
/// line and whether it is an off marker.
pub open spec fn marker_of(src: Seq<char>, n: Node) -> Option<(usize, bool)> {
    if n.kind == Kind::LineComment && marker_arg(n.text@) is Some && ws_before(
        src,
        n.start as int,
    ) {
        Some((n.start_line, marker_arg(n.text@).unwrap()))
    } else {
        None
    }
}

/// The markers of a subtree, in tree order.
pub open spec fn markers_of(src: Seq<char>, n: Node) -> Seq<(usize, bool)>
    decreases n, 1int,
{
    (match marker_of(src, n) {
        Some(m) => seq![m],
        None => seq![],
    }) + markers_in(src, n.children@)
}

pub open spec fn markers_in(src: Seq<char>, s: Seq<Node>) -> Seq<(usize, bool)>
    decreases s, 0int,
{
    if s.len() == 0 {
        seq![]
    } else {
        markers_of(src, s[0]) + markers_in(src, s.drop_first())
    }
}

/// `x` inserted after every marker whose line is not greater.
pub open spec fn insert_by_line(s: Seq<(usize, bool)>, x: (usize, bool)) -> Seq<(usize, bool)>
    decreases s.len(),
{
    if s.len() == 0 {
        seq![x]
    } else if s.last().0 <= x.0 {
        s.push(x)
    } else {
        insert_by_line(s.drop_last(), x).push(s.last())
    }
}

/// A stable sort of markers by line.
pub open spec fn sort_by_line(s: Seq<(usize, bool)>) -> Seq<(usize, bool)>
    decreases s.len(),
{
    if s.len() == 0 {
        seq![]
    } else {
        insert_by_line(sort_by_line(s.drop_last()), s.last())
    }
}

/// Every standalone marker of the document, ordered by line.
pub open spec fn marker_lines(src: Seq<char>, cst: Cst) -> Seq<(usize, bool)> {
    sort_by_line(markers_of(src, cst.root))
}

/// Pair markers into regions: an off marker opens a region when none is
/// open, an on marker closes the open one; anything else is inert. A region
/// still open at the end runs to [`EOF`].
pub open spec fn regions_from(ms: Seq<(usize, bool)>, open: Option<usize>) -> Seq<(usize, usize)>
    decreases ms.len(),
{
    if ms.len() == 0 {
        match open {
            Some(s) => seq![(s, EOF)],
            None => seq![],
        }
    } else {
        let (line, is_off) = ms[0];
        if is_off && open is None {
            regions_from(ms.drop_first(), Some(line))
        } else if !is_off && open is Some {
            seq![(open.unwrap(), line)] + regions_from(ms.drop_first(), None)
        } else {
            regions_from(ms.drop_first(), open)
        }
    }
}

/// The format-off regions of a document as 0-based inclusive line spans
/// (marker lines included).
pub open spec fn off_regions_spec(src: Seq<char>, cst: Cst) -> Seq<(usize, usize)> {
    regions_from(marker_lines(src, cst), None)
}

/// `Some(true)` for an off marker, `Some(false)` for on, `None` otherwise.
pub fn marker_arg_exec(comment: &[char]) -> (r: Option<bool>)
    ensures
        r == marker_arg(comment@),
{
    let sl = ['/', '/'];
    assert(sl@ =~= slash_pair());
    if !starts_with_exec(comment, sl.as_slice()) {
        return None;
    }
    let after = sub_vec(comment, 2, comment.len());
    assert(after@ =~= comment@.skip(2));
    let k = lead_ws_exec(after.as_slice());
    let body = sub_vec(after.as_slice(), k, after.len());
    assert(body@ =~= trim_start(after@));
    let pre = ['@', 'm', '1', ':', 'f', 'm', 't', '('];
    assert(pre@ =~= marker_prefix());
    if !starts_with_exec(body.as_slice(), pre.as_slice()) {
        return None;
    }
    let rest = sub_vec(body.as_slice(), 8, body.len());
    assert(rest@ =~= body@.skip(8));
    let e = index_of_exec(rest.as_slice(), ')');
    let arg = sub_vec(rest.as_slice(), 0, e);
    assert(arg@ =~= rest@.take(e as int));
    if arg.len() == 3 && arg[0] == 'o' && arg[1] == 'f' && arg[2] == 'f' {
        assert(arg@ =~= seq!['o', 'f', 'f']);
        Some(true)
    } else if arg.len() == 2 && arg[0] == 'o' && arg[1] == 'n' {
        assert(arg@ =~= seq!['o', 'n']);
        Some(false)
    } else {
        proof {
            if arg@ == seq!['o', 'f', 'f'] {
                assert(arg@[2] == 'f');
            }
            if arg@ == seq!['o', 'n'] {
                assert(arg@[1] == 'n');
            }
        }
        None
    }
}

/// Whether only whitespace precedes offset `pos` on its line.
pub fn is_standalone(src: &[char], pos: usize) -> (r: bool)
    ensures
        r == ws_before(src@, pos as int),
{
    if pos > src.len() {
        return false;
    }
    let mut k = pos;
    while k > 0 && src[k - 1] != '\n'
        invariant
            k <= pos <= src.len(),
            ws_before(src@, pos as int) == ws_before(src@, k as int),
        decreases k,
    {
        if !char_is_ws(src[k - 1]) {
            return false;
        }
        k -= 1;
    }
    true
}

fn collect_markers(src: &[char], n: &Node, out: &mut Vec<(usize, bool)>)
    ensures
        final(out)@ == old(out)@ + markers_of(src@, *n),
    decreases n, 1int,
{
    let ghost o0 = out@;
    if n.kind == Kind::LineComment {
        let t = crate::text::chars_of(n.text.as_str());
        let a = marker_arg_exec(t.as_slice());
        if let Some(is_off) = a {
            if is_standalone(src, n.start) {
                out.push((n.start_line, is_off));
            }
        }
    }
    assert(out@ == o0 + match marker_of(src@, *n) {
        Some(m) => seq![m],
        None => Seq::<(usize, bool)>::empty(),
    }) by {
        if marker_of(src@, *n) is None {
            assert(o0 + Seq::<(usize, bool)>::empty() =~= o0);
        }
    }
    collect_markers_in(src, &n.children, out);
    assert(out@ =~= o0 + markers_of(src@, *n));
}

fn collect_markers_in(src: &[char], s: &Vec<Node>, out: &mut Vec<(usize, bool)>)
    ensures
        final(out)@ == old(out)@ + markers_in(src@, s@),
    decreases s@, 0int,
{
    let mut i: usize = 0;
    assert(s@.skip(0) =~= s@);
    while i < s.len()
        invariant
            i <= s.len(),
            old(out)@ + markers_in(src@, s@) == out@ + markers_in(src@, s@.skip(i as int)),
        decreases s.len() - i,
    {
        assert(s@.skip(i as int).drop_first() =~= s@.skip(i + 1));
        assert(s@.skip(i as int)[0] == s@[i as int]);
        let ghost before = out@;
        collect_markers(src, &s[i], out);
        assert(before + markers_in(src@, s@.skip(i as int)) =~= out@ + markers_in(
            src@,
            s@.skip(i + 1),
        ));
        i += 1;
    }
    assert(markers_in(src@, s@.skip(i as int)) =~= Seq::<(usize, bool)>::empty());
    assert(out@ + Seq::<(usize, bool)>::empty() =~= out@);
}

proof fn lemma_insert_line_at(s: Seq<(usize, bool)>, x: (usize, bool), j: int)
    requires
        0 <= j <= s.len(),
        forall|k: int| j <= k < s.len() ==> s[k].0 > x.0,
        j == 0 || s[j - 1].0 <= x.0,
    ensures
        insert_by_line(s, x) == s.take(j) + seq![x] + s.skip(j),
    decreases s.len(),
{
    if s.len() == 0 {
        assert(s.take(j) + seq![x] + s.skip(j) =~= seq![x]);
    } else if j == s.len() {
        assert(s.take(j) + seq![x] + s.skip(j) =~= s.push(x));
    } else {
        lemma_insert_line_at(s.drop_last(), x, j);
        assert(s.drop_last().take(j) + seq![x] + s.drop_last().skip(j) + seq![s.last()] =~= s.take(
            j,
        ) + seq![x] + s.skip(j));
    }
}

/// Every standalone `// @m1:fmt(off|on)` marker, as `(line, is_off)` ordered
/// by line.
pub fn marker_lines_exec(src: &[char], cst: &Cst) -> (r: Vec<(usize, bool)>)
    ensures
        r@ == marker_lines(src@, *cst),
{
    let mut items: Vec<(usize, bool)> = Vec::new();
    collect_markers(src, &cst.root, &mut items);
    assert(items@ =~= markers_of(src@, cst.root));
    let ghost all = items@;
    let mut sorted: Vec<(usize, bool)> = Vec::new();
    let ghost n = all.len();
    let mut i: usize = 0;
    while i < items.len()
        invariant
            i <= n,
            items@ == all,
            sorted@ == sort_by_line(all.take(i as int)),
            n == all.len(),
        decreases n - i,
    {
        let x = items[i];
        let mut j = sorted.len();
        while j > 0 && sorted[j - 1].0 > x.0
            invariant
                j <= sorted@.len(),
                forall|k: int| j <= k < sorted@.len() ==> sorted@[k].0 > x.0,
            decreases j,
        {
            j -= 1;
        }
        proof {
            lemma_insert_line_at(sorted@, x, j as int);
            assert(all.take(i + 1).drop_last() =~= all.take(i as int));
            assert(all.take(i + 1).last() == x);
        }
        sorted.insert(j, x);
        assert(sorted@ =~= insert_by_line(sort_by_line(all.take(i as int)), all[i as int]));
        i += 1;
    }
    assert(all.take(n as int) =~= all);
    sorted
}

/// The format-off regions of `src` (parsed as `cst`) as 0-based inclusive
/// line spans, marker lines included; an unclosed region ends at [`EOF`].
pub fn off_regions(src: &[char], cst: &Cst) -> (r: Vec<(usize, usize)>)
    ensures
        r@ == off_regions_spec(src@, *cst),
{
    let ms = marker_lines_exec(src, cst);
    let mut regions: Vec<(usize, usize)> = Vec::new();
    let mut open: Option<usize> = None;
    let mut i: usize = 0;
    assert(ms@.skip(0) =~= ms@);
    while i < ms.len()
        invariant
            i <= ms.len(),
            regions_from(ms@, None) == regions@ + regions_from(ms@.skip(i as int), open),
        decreases ms.len() - i,
    {
        assert(ms@.skip(i as int)[0] == ms@[i as int]);
        assert(ms@.skip(i as int).drop_first() =~= ms@.skip(i + 1));
        let (line, is_off) = ms[i];
        if is_off && open.is_none() {
            open = Some(line);
        } else if !is_off && open.is_some() {
            let start = open.unwrap();
            let ghost r0 = regions@;
            regions.push((start, line));
            assert(r0 + (seq![(start, line)] + regions_from(ms@.skip(i + 1), None)) =~= regions@
                + regions_from(ms@.skip(i + 1), None));
            open = None;
        }
        i += 1;
    }
    if let Some(start) = open {
        regions.push((start, EOF));
    }
    assert(regions_from(ms@.skip(i as int), open) == match open {
        Some(s) => seq![(s, EOF)],
        None => Seq::<(usize, usize)>::empty(),
    });
    assert(regions@ =~= regions_from(ms@, None));
    regions
}

// ---------------------------------------------------------------------------
// Splicing
// ---------------------------------------------------------------------------

/// A region's end clamped to the last of `len` lines.
pub open spec fn clamp_end(e: usize, len: int) -> int {
    if e < len - 1 {
        e as int
    } else {
        len - 1
    }
}

/// The lines of the spliced text and the final spans of the regions, from
/// region `k` on, with `acc` built so far and the output copied up to line
/// `cursor`; `None` when the regions do not pair up in order.
pub open spec fn splice_from(
    sl: Seq<Seq<char>>,
    ol: Seq<Seq<char>>,
    sr: Seq<(usize, usize)>,
    or: Seq<(usize, usize)>,
    k: int,
    cursor: int,
    acc: Seq<Seq<char>>,
    spans: Seq<(usize, usize)>,
) -> Option<(Seq<Seq<char>>, Seq<(usize, usize)>)>
    decreases sr.len() - k,
{
    if k < 0 || k >= sr.len() || k >= or.len() {
        if 0 <= cursor < ol.len() {
            Some((acc + ol.skip(cursor), spans))
        } else {
            Some((acc, spans))
        }
    } else {
        let ss = sr[k].0 as int;
        let se = clamp_end(sr[k].1, sl.len() as int);
        let os = or[k].0 as int;
        let oe = clamp_end(or[k].1, ol.len() as int);
        if os < cursor || os > oe || ss > se {
            None
        } else {
            let a1 = acc + ol.subrange(cursor, os);
            let a2 = a1 + sl.subrange(ss, se + 1);
            splice_from(
                sl,
                ol,
                sr,
                or,
                k + 1,
                oe + 1,
                a2,
                spans.push((a1.len() as usize, (a2.len() - 1) as usize)),
            )
        }
    }
}

/// Every off region of the formatted output `lf_out` replaced with the
/// source lines of the matching region of `lf_src`, with the regions' final
/// line spans; `None` when the output's regions do not pair up with the
/// source's (a different number of them, or out of order).
pub open spec fn splice_spec(
    lf_src: Seq<char>,
    lf_out: Seq<char>,
    src_regions: Seq<(usize, usize)>,
    out_regions: Seq<(usize, usize)>,
) -> Option<(Seq<char>, Seq<(usize, usize)>)> {
    if out_regions.len() != src_regions.len() {
        None
    } else {
        match splice_from(
            split_lines(lf_src),
            split_lines(lf_out),
            src_regions,
            out_regions,
            0,
            0,
            seq![],
            seq![],
        ) {
            Some((ls, spans)) => Some((join_lines(ls), spans)),
            None => None,
        }
    }
}

fn clamp_end_exec(e: usize, len: usize) -> (r: usize)
    requires
        len >= 1,
    ensures
        r == clamp_end(e, len as int),
{
    if e < len - 1 {
        e
    } else {
        len - 1
    }
}

fn extend_lines(acc: &mut Vec<Vec<char>>, ls: &Vec<Vec<char>>, a: usize, b: usize)
    requires
        a <= b <= ls.len(),
    ensures
        views(final(acc)@) == views(old(acc)@) + views(ls@).subrange(a as int, b as int),
{
    let mut i = a;
    while i < b
        invariant
            a <= i <= b,
            b <= ls.len(),
            views(acc@) == views(old(acc)@) + views(ls@).subrange(a as int, i as int),
        decreases b - i,
    {
        let ghost before = views(acc@);
        acc.push(sub_vec(ls[i].as_slice(), 0, ls[i].len()));
        assert(ls[i as int]@.subrange(0, ls[i as int]@.len() as int) =~= ls[i as int]@);
        assert(views(acc@) =~= before.push(views(ls@)[i as int]));
        assert(views(ls@).subrange(a as int, i + 1) =~= views(ls@).subrange(a as int, i as int).push(
            views(ls@)[i as int],
        ));
        i += 1;
    }
}

/// Replace every off region in the formatted output `lf_out` with the
/// verbatim lines of `lf_src`, anchoring on the regions found by the same
/// scan in both. Returns the spliced text and the regions' final line spans,
/// or `None` when the output's regions do not pair up with the source's.
pub fn splice(
    lf_src: &[char],
    lf_out: &[char],
    src_regions: &Vec<(usize, usize)>,
    out_regions: &Vec<(usize, usize)>,
) -> (r: Option<(Vec<char>, Vec<(usize, usize)>)>)
    ensures
        match r {
            Some((t, spans)) => splice_spec(lf_src@, lf_out@, src_regions@, out_regions@) == Some(
                (t@, spans@),
            ),
            None => splice_spec(lf_src@, lf_out@, src_regions@, out_regions@) is None,
        },
{
    if out_regions.len() != src_regions.len() {
        return None;
    }
    let src_lines = split_on_nl(lf_src);
    let out_lines = split_on_nl(lf_out);
    let ghost sl = views(src_lines@);
    let ghost ol = views(out_lines@);
    let mut acc: Vec<Vec<char>> = Vec::new();
    let mut spans: Vec<(usize, usize)> = Vec::new();
    let mut cursor: usize = 0;
    let mut k: usize = 0;
    while k < src_regions.len()
        invariant
            k <= src_regions.len() == out_regions.len(),
            sl == split_lines(lf_src@),
            ol == split_lines(lf_out@),
            sl == views(src_lines@),
            ol == views(out_lines@),
            src_lines@.len() >= 1,
            out_lines@.len() >= 1,
            cursor <= out_lines.len(),
            splice_from(sl, ol, src_regions@, out_regions@, 0, 0, seq![], seq![]) == splice_from(
                sl,
                ol,
                src_regions@,
                out_regions@,
                k as int,
                cursor as int,
                views(acc@),
                spans@,
            ),
        decreases src_regions.len() - k,
    {
        let ss = src_regions[k].0;
        let se = clamp_end_exec(src_regions[k].1, src_lines.len());
        let os = out_regions[k].0;
        let oe = clamp_end_exec(out_regions[k].1, out_lines.len());
        if os < cursor || os > oe || ss > se {
            return None;
        }
        extend_lines(&mut acc, &out_lines, cursor, os);
        let span_start = acc.len();
        extend_lines(&mut acc, &src_lines, ss, se + 1);
        spans.push((span_start, acc.len() - 1));
        cursor = oe + 1;
        k += 1;
    }
    if cursor < out_lines.len() {
        extend_lines(&mut acc, &out_lines, cursor, out_lines.len());
        assert(ol.subrange(cursor as int, ol.len() as int) =~= ol.skip(cursor as int));
    }
    let text = join_nl(&acc);
    Some((text, spans))
}

/// The source lines of a region (its end clamped to the last line).
pub open spec fn region_lines(sl: Seq<Seq<char>>, r: (usize, usize)) -> Seq<Seq<char>> {
    sl.subrange(r.0 as int, clamp_end(r.1, sl.len() as int) + 1)
}

proof fn lemma_splice_from(
    sl: Seq<Seq<char>>,
    ol: Seq<Seq<char>>,
    sr: Seq<(usize, usize)>,
    or: Seq<(usize, usize)>,
    k: int,
    cursor: int,
    acc: Seq<Seq<char>>,
    spans: Seq<(usize, usize)>,
)
    requires
        0 <= k <= sr.len(),
        or.len() == sr.len(),
        0 <= cursor <= ol.len(),
        spans.len() == k,
        forall|j: int|
            0 <= j < k ==> (#[trigger] spans[j]).0 <= spans[j].1 + 1 && spans[j].1 < acc.len()
                && acc.subrange(spans[j].0 as int, spans[j].1 + 1) == region_lines(sl, sr[j]),
        acc.len() + (ol.len() - cursor) + (sr.len() - k) * sl.len() <= usize::MAX,
        splice_from(sl, ol, sr, or, k, cursor, acc, spans) is Some,
    ensures
        ({
            let (fl, fs) = splice_from(sl, ol, sr, or, k, cursor, acc, spans).unwrap();
            &&& fs.len() == sr.len()
            &&& fl.len() >= acc.len()
            &&& fl.take(acc.len() as int) == acc
            &&& forall|j: int|
                0 <= j < sr.len() ==> (#[trigger] fs[j]).0 <= fs[j].1 + 1 && fs[j].1 < fl.len()
                    && fl.subrange(fs[j].0 as int, fs[j].1 + 1) == region_lines(sl, sr[j])
        }),
    decreases sr.len() - k,
{
    if k >= sr.len() {
        if cursor < ol.len() {
            let fl = acc + ol.skip(cursor);
            assert(fl.take(acc.len() as int) =~= acc);
            assert forall|j: int| 0 <= j < sr.len() implies fl.subrange(
                (#[trigger] spans[j]).0 as int,
                spans[j].1 + 1,
            ) == region_lines(sl, sr[j]) by {
                assert(fl.subrange(spans[j].0 as int, spans[j].1 + 1) =~= acc.subrange(
                    spans[j].0 as int,
                    spans[j].1 + 1,
                ));
            }
        } else {
            assert(acc.take(acc.len() as int) =~= acc);
        }
    } else {
        let ss = sr[k].0 as int;
        let se = clamp_end(sr[k].1, sl.len() as int);
        let os = or[k].0 as int;
        let oe = clamp_end(or[k].1, ol.len() as int);
        let a1 = acc + ol.subrange(cursor, os);
        let a2 = a1 + sl.subrange(ss, se + 1);
        assert((sr.len() - k) * sl.len() == (sr.len() - k - 1) * sl.len() + sl.len())
            by (nonlinear_arith);
        assert(se + 1 - ss <= sl.len());
        assert(a2.len() <= usize::MAX);
        let sp2 = spans.push((a1.len() as usize, (a2.len() - 1) as usize));
        assert forall|j: int| 0 <= j < k + 1 implies (#[trigger] sp2[j]).0 <= sp2[j].1 + 1
            && sp2[j].1 < a2.len() && a2.subrange(sp2[j].0 as int, sp2[j].1 + 1) == region_lines(
            sl,
            sr[j],
        ) by {
            if j < k {
                assert(sp2[j] == spans[j]);
                assert(a2.subrange(spans[j].0 as int, spans[j].1 + 1) =~= acc.subrange(
                    spans[j].0 as int,
                    spans[j].1 + 1,
                ));
            } else {
                assert(a2.subrange(a1.len() as int, a2.len() as int) =~= sl.subrange(ss, se + 1));
            }
        }
        assert(0 <= oe + 1 <= ol.len());
        assert(a2.len() + (ol.len() - (oe + 1)) + (sr.len() - (k + 1)) * sl.len() <= usize::MAX);
        lemma_splice_from(sl, ol, sr, or, k + 1, oe + 1, a2, sp2);
        let (fl, fs) = splice_from(sl, ol, sr, or, k + 1, oe + 1, a2, sp2).unwrap();
        assert(fl.take(acc.len() as int) =~= fl.take(a2.len() as int).take(acc.len() as int));
        assert(a2.take(acc.len() as int) =~= acc);
    }
}

/// A successful splice puts each format-off region of the source back
/// verbatim: the lines of the `k`-th final span are exactly the source lines
/// of the `k`-th region (its end clamped to the last line).
pub proof fn splice_keeps_regions_verbatim(
    lf_src: Seq<char>,
    lf_out: Seq<char>,
    src_regions: Seq<(usize, usize)>,
    out_regions: Seq<(usize, usize)>,
)
    requires
        splice_spec(lf_src, lf_out, src_regions, out_regions) is Some,
        split_lines(lf_out).len() + src_regions.len() * split_lines(lf_src).len() <= usize::MAX,
    ensures
        ({
            let (t, spans) = splice_spec(lf_src, lf_out, src_regions, out_regions).unwrap();
            &&& spans.len() == src_regions.len()
            &&& forall|k: int|
                0 <= k < src_regions.len() ==> (#[trigger] spans[k]).0 <= spans[k].1 + 1
                    && split_lines(t).subrange(spans[k].0 as int, spans[k].1 + 1) == region_lines(
                    split_lines(lf_src),
                    src_regions[k],
                )
        }),
{
    let sl = split_lines(lf_src);
    let ol = split_lines(lf_out);
    crate::text::lemma_nl_index_bound(lf_out);
    assert(ol.len() >= 1);
    assert(Seq::<Seq<char>>::empty().len() + (ol.len() - 0) + (src_regions.len() - 0) * sl.len()
        <= usize::MAX);
    lemma_splice_from(sl, ol, src_regions, out_regions, 0, 0, seq![], seq![]);
    let (fl, fs) = splice_from(sl, ol, src_regions, out_regions, 0, 0, seq![], seq![]).unwrap();
    if src_regions.len() > 0 {
        crate::text::lemma_split_lines_no_nl(lf_src);
        crate::text::lemma_split_lines_no_nl(lf_out);
        assert(fs[0].1 < fl.len());
        assert forall|i: int, j: int| 0 <= i < fl.len() && 0 <= j < fl[i].len() implies fl[i][j]
            != '\n' by {
            lemma_splice_lines_from(sl, ol, src_regions, out_regions, 0, 0, seq![], seq![], i);
        }
        crate::text::lemma_split_join(fl);
    }
}

/// Every line of a splice comes from the source or the output lines.
proof fn lemma_splice_lines_from(
    sl: Seq<Seq<char>>,
    ol: Seq<Seq<char>>,
    sr: Seq<(usize, usize)>,
    or: Seq<(usize, usize)>,
    k: int,
    cursor: int,
    acc: Seq<Seq<char>>,
    spans: Seq<(usize, usize)>,
    i: int,
)
    requires
        0 <= k,
        0 <= cursor,
        splice_from(sl, ol, sr, or, k, cursor, acc, spans) is Some,
        0 <= i < splice_from(sl, ol, sr, or, k, cursor, acc, spans).unwrap().0.len(),
    ensures
        ({
            let l = splice_from(sl, ol, sr, or, k, cursor, acc, spans).unwrap().0[i];
            (exists|a: int| 0 <= a < acc.len() && acc[a] == l) || (exists|a: int|
                0 <= a < sl.len() && sl[a] == l) || (exists|a: int| 0 <= a < ol.len() && ol[a] == l)
        }),
    decreases sr.len() - k,
{
    let fl = splice_from(sl, ol, sr, or, k, cursor, acc, spans).unwrap().0;
    if k >= sr.len() || k >= or.len() {
        if 0 <= cursor < ol.len() && i >= acc.len() {
            assert(fl[i] == ol[cursor + i - acc.len()]);
        } else {
            assert(fl[i] == acc[i]);
        }
    } else {
        let ss = sr[k].0 as int;
        let se = clamp_end(sr[k].1, sl.len() as int);
        let os = or[k].0 as int;
        let oe = clamp_end(or[k].1, ol.len() as int);
        let a1 = acc + ol.subrange(cursor, os);
        let a2 = a1 + sl.subrange(ss, se + 1);
        lemma_splice_lines_from(
            sl,
            ol,
            sr,
            or,
            k + 1,
            oe + 1,
            a2,
            spans.push((a1.len() as usize, (a2.len() - 1) as usize)),
            i,
        );
        let l = fl[i];
        if exists|a: int| 0 <= a < a2.len() && a2[a] == l {
            let a = choose|a: int| 0 <= a < a2.len() && a2[a] == l;
            if a < acc.len() {
                assert(acc[a] == l);
            } else if a < a1.len() {
                assert(ol[cursor + a - acc.len()] == l);
            } else {
                assert(sl[ss + a - a1.len()] == l);
            }
        }
    }
}

} // verus!
