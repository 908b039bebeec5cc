//! An auto-formatter for the MoTeC M1 script language, verified with Verus.

pub mod cli;
pub mod config;
pub mod config_resolve;
pub mod cst;
pub mod diagnostics;
pub mod fmt_off;
pub mod printer;
pub mod range;
pub mod rules;
pub mod text;
pub mod trivia;

use vstd::prelude::*;
use crate::cst::Cst;
pub use crate::diagnostics::{FormatError, FormatWarning, WarningKind};
use crate::diagnostics::{line_too_long_warnings, long_line_warnings, warns_view};
use crate::fmt_off::{off_regions, off_regions_spec, splice, splice_spec};
use crate::printer::{levels, print_spec, print_with};
use crate::range::{range_target, range_target_exec};
use crate::text::{
    all_ws, chars_eq, chars_of, contains_exec, contains_seq, join_lines, join_nl, split_incl,
    split_lines, split_on_nl, string_of, strip_trailing_nl, strip_trailing_nl_len, to_crlf,
    to_crlf_exec, to_lf, to_lf_exec, views,
};

verus! {

/// Indentation character. The M1 manual mandates tabs, so that is the default.
#[derive(Debug, Clone, Copy, PartialEq, Eq, Structural)]
pub enum IndentStyle {
    Tab,
    Spaces,
}

/// Brace placement. The M1 manual mandates Allman ("a separate line for each
/// brace"), so that is the default.
#[derive(Debug, Clone, Copy, PartialEq, Eq, Structural)]
pub enum BraceStyle {
    Allman,
    /// K&R / "one true brace": opening brace on the keyword line.
    Kr,
}

impl Default for IndentStyle {
    fn default() -> (r: Self)
        ensures
            r == IndentStyle::Tab,
    {
        IndentStyle::Tab
    }
}

impl Default for BraceStyle {
    fn default() -> (r: Self)
        ensures
            r == BraceStyle::Allman,
    {
        BraceStyle::Allman
    }
}

#[derive(Debug, Clone, Copy)]
pub struct FormatOptions {
    /// Maximum consecutive blank lines to keep.
    pub max_blank_lines: usize,
    /// Hard column ceiling used for wrapping.
    pub line_width: usize,
    /// Indentation character (default tabs, per the manual).
    pub indent_style: IndentStyle,
    /// Columns one indent level occupies: the number of spaces when
    /// `indent_style` is `Spaces`, and the assumed display width of a tab when
    /// it is `Tab` (used only for the wrapping column math).
    pub indent_width: usize,
    /// Opening-brace placement (default Allman, per the manual).
    pub brace_style: BraceStyle,
    /// Extra indent levels for wrapped/continuation lines (default 1).
    pub continuation_indent: usize,
    /// Align the `=` of contiguous simple assignments (opt-in).
    pub align_assignments: bool,
    /// Split over-width `//` comment lines (opt-in).
    pub reflow_comments: bool,
    /// End the file with one blank line instead of a bare newline (opt-in).
    pub final_blank_line: bool,
}

pub open spec fn default_options() -> FormatOptions {
    FormatOptions {
        max_blank_lines: 2,
        line_width: 88,
        indent_style: IndentStyle::Tab,
        indent_width: 4,
        brace_style: BraceStyle::Allman,
        continuation_indent: 1,
        align_assignments: false,
        reflow_comments: false,
        final_blank_line: false,
    }
}

impl Default for FormatOptions {
    fn default() -> (r: Self)
        ensures
            r == default_options(),
    {
        FormatOptions {
            max_blank_lines: 2,
            line_width: 88,
            indent_style: IndentStyle::Tab,
            indent_width: 4,
            brace_style: BraceStyle::Allman,
            continuation_indent: 1,
            align_assignments: false,
            reflow_comments: false,
            final_blank_line: false,
        }
    }
}


// ---------------------------------------------------------------------------
// Whole-document formatting
// ---------------------------------------------------------------------------

pub struct FormatResult {
    pub output: String,
    pub changed: bool,
    pub warnings: Vec<FormatWarning>,
}

/// The byte-order mark.
pub open spec fn bom() -> char {
    '\u{FEFF}'
}

pub open spec fn has_bom(s: Seq<char>) -> bool {
    s.len() > 0 && s[0] == bom()
}

/// `s` without a leading byte-order mark.
pub open spec fn body_of(s: Seq<char>) -> Seq<char> {
    if has_bom(s) {
        s.drop_first()
    } else {
        s
    }
}

/// The text the parser is given for `src`: without a byte-order mark, with
/// CRLF line ends turned into LF.
pub open spec fn parse_text(src: Seq<char>) -> Seq<char> {
    to_lf(body_of(src))
}

pub open spec fn uses_crlf(src: Seq<char>) -> bool {
    contains_seq(src, seq!['\r', '\n'])
}

/// The LF-formatted text `lf` put back in `src`'s conventions: its
/// byte-order mark, and CRLF line ends when `src` used them.
pub open spec fn restored(src: Seq<char>, lf: Seq<char>) -> Seq<char> {
    (if has_bom(src) {
        seq![bom()]
    } else {
        seq![]
    }) + if uses_crlf(src) {
        to_crlf(lf)
    } else {
        lf
    }
}

/// The output keeps the document's conventions: a byte-order mark stays in
/// front, and when the document used CRLF line ends every line break of the
/// output is a CRLF; otherwise the formatted text is kept as it is.
pub proof fn restored_keeps_conventions(src: Seq<char>, lf: Seq<char>)
    ensures
        has_bom(src) ==> has_bom(restored(src, lf)),
        uses_crlf(src) ==> forall|i: int|
            0 <= i < restored(src, lf).len() && #[trigger] restored(src, lf)[i] == '\n' ==> i > 0
                && restored(src, lf)[i - 1] == '\r',
        !has_bom(src) && !uses_crlf(src) ==> restored(src, lf) == lf,
{
    let p = if has_bom(src) {
        seq![bom()]
    } else {
        Seq::<char>::empty()
    };
    if uses_crlf(src) {
        crate::text::lemma_to_crlf(lf);
        let t = to_crlf(lf);
        assert(restored(src, lf) == p + t);
        assert forall|i: int|
            0 <= i < restored(src, lf).len() && #[trigger] restored(src, lf)[i] == '\n' implies i > 0
                && restored(src, lf)[i - 1] == '\r' by {
            assert(i >= p.len());
            assert(restored(src, lf)[i] == t[i - p.len()]);
            assert(t[i - p.len()] == '\n');
            assert(restored(src, lf)[i - 1] == t[i - p.len() - 1]);
        }
    }
    if !has_bom(src) && !uses_crlf(src) {
        assert(restored(src, lf) =~= lf);
    }
    if has_bom(src) {
        assert(restored(src, lf)[0] == bom());
    }
}

/// `r` reports output `out` for `src`: changed exactly when it differs, with
/// the line-too-long warnings of `out` outside `spans`.
pub open spec fn result_is(
    r: FormatResult,
    src: Seq<char>,
    out: Seq<char>,
    opts: FormatOptions,
    spans: Seq<(usize, usize)>,
) -> bool {
    &&& r.output@ == out
    &&& r.changed == (out != src)
    &&& warns_view(r.warnings@) == long_line_warnings(out, opts.line_width, opts.indent_width, spans)
}

/// `r` hands `src` back untouched.
pub open spec fn unchanged_result(r: FormatResult, src: Seq<char>) -> bool {
    r.output@ == src && !r.changed && r.warnings@.len() == 0
}

/// The formatted document holds format-off regions: the formatted text must
/// be parsed and handed to [`finish_splice`] with this record.
pub struct Splice {
    /// The document as given.
    pub src: String,
    /// The text that was parsed.
    pub lf_src: String,
    /// The formatted text, to be parsed.
    pub lf_out: String,
    /// The format-off regions of `lf_src`.
    pub regions: Vec<(usize, usize)>,
    pub opts: FormatOptions,
}

/// What formatting a parsed document gives: the result, or the formatted
/// text that has to be parsed before its format-off regions are put back.
pub enum FormatStep {
    Done(FormatResult),
    Reparse(Splice),
}

/// The document is one the formatter declines: the parser found syntax
/// errors in it.
pub open spec fn declined(cst: Cst) -> bool {
    cst.syntax_errors > 0
}

/// The outcome of formatting `src`, parsed as `cst`, under `opts`: a
/// document with syntax errors is handed back
/// untouched; otherwise it is
/// printed, and when the source has format-off regions the printed text goes
/// back to the caller to be parsed, else it is the result.
pub open spec fn format_outcome(
    step: FormatStep,
    src: Seq<char>,
    cst: Cst,
    opts: FormatOptions,
) -> bool {
    let regions = off_regions_spec(parse_text(src), cst);
    let lf_out = print_spec(cst, opts);
    match step {
        FormatStep::Done(res) => if declined(cst) {
            unchanged_result(res, src)
        } else {
            regions.len() == 0 && result_is(res, src, restored(src, lf_out), opts, seq![])
        },
        FormatStep::Reparse(sp) => {
            &&& !declined(cst)
            &&& regions.len() > 0
            &&& sp.src@ == src
            &&& sp.lf_src@ == parse_text(src)
            &&& sp.lf_out@ == lf_out
            &&& sp.regions@ == regions
            &&& sp.opts == opts
        },
    }
}

/// The result once the formatted text of `sp` was parsed as `out_cst`: the
/// format-off regions of the output replaced by the source's lines, or the
/// document untouched when the two sets of regions do not pair up.
pub open spec fn splice_outcome(r: FormatResult, sp: Splice, out_cst: Cst) -> bool {
    let out_regions = off_regions_spec(sp.lf_out@, out_cst);
    match splice_spec(sp.lf_src@, sp.lf_out@, sp.regions@, out_regions) {
        Some((t, spans)) => result_is(r, sp.src@, restored(sp.src@, t), sp.opts, spans),
        None => unchanged_result(r, sp.src@),
    }
}

/// The UTF-8 encoding of the byte-order mark.
pub open spec fn utf8_bom() -> Seq<u8> {
    seq![0xEFu8, 0xBBu8, 0xBFu8]
}

/// Whether raw file bytes open with a UTF-8 byte-order mark.
pub fn starts_with_bom(bytes: &[u8]) -> (r: bool)
    ensures
        r == (bytes@.len() >= 3 && bytes@.take(3) == utf8_bom()),
{
    if bytes.len() >= 3 && bytes[0] == 0xEF && bytes[1] == 0xBB && bytes[2] == 0xBF {
        assert(bytes@.take(3) =~= utf8_bom());
        true
    } else {
        proof {
            if bytes@.len() >= 3 && bytes@.take(3) == utf8_bom() {
                assert(bytes@.take(3)[0] == 0xEFu8);
                assert(bytes@.take(3)[1] == 0xBBu8);
                assert(bytes@.take(3)[2] == 0xBFu8);
            }
        }
        false
    }
}

/// Decoded text with the byte-order mark put back in front when the raw
/// bytes had one and the decoder dropped it: a formatter hands its input
/// back with the mark it came with.
pub fn keep_bom(had_bom: bool, decoded: String) -> (r: String)
    ensures
        r@ == if had_bom && !has_bom(decoded@) {
            seq![bom()] + decoded@
        } else {
            decoded@
        },
{
    let d = chars_of(decoded.as_str());
    if had_bom && !(d.len() > 0 && d[0] == '\u{FEFF}') {
        let mut r: Vec<char> = Vec::new();
        r.push('\u{FEFF}');
        crate::text::push_all(&mut r, d.as_slice());
        string_of(r.as_slice())
    } else {
        decoded
    }
}

/// `r` is the result that `step` ends in, `out_cst` being the parse of the
/// formatted text where the step asks for one.
pub open spec fn ends_in(step: FormatStep, out_cst: Cst, r: FormatResult) -> bool {
    match step {
        FormatStep::Done(res) => r == res,
        FormatStep::Reparse(sp) => splice_outcome(r, sp, out_cst),
    }
}

proof fn lemma_to_lf_same(x: Seq<char>)
    requires
        !x.contains('\r'),
    ensures
        to_lf(x) == x,
        to_lf(to_crlf(x)) == x,
    decreases x.len(),
{
    if x.len() > 0 {
        assert(!x.drop_first().contains('\r')) by {
            if x.drop_first().contains('\r') {
                let i = choose|i: int| 0 <= i < x.drop_first().len() && x.drop_first()[i] == '\r';
                assert(x[i + 1] == '\r');
            }
        }
        lemma_to_lf_same(x.drop_first());
        assert(x[0] != '\r');
        let t = to_crlf(x.drop_first());
        if x[0] == '\n' {
            let y = seq!['\r', '\n'] + t;
            assert(y.skip(2) =~= t);
        } else {
            let y = seq![x[0]] + t;
            assert(y.drop_first() =~= t);
        }
        assert(x =~= seq![x[0]] + x.drop_first());
    }
}

proof fn lemma_to_crlf_add(a: Seq<char>, b: Seq<char>)
    ensures
        to_crlf(a + b) == to_crlf(a) + to_crlf(b),
    decreases a.len(),
{
    if a.len() == 0 {
        assert(a + b =~= b);
        assert(to_crlf(a) + to_crlf(b) =~= to_crlf(b));
    } else {
        lemma_to_crlf_add(a.drop_first(), b);
        assert((a + b).drop_first() =~= a.drop_first() + b);
        assert((a + b)[0] == a[0]);
        let h = if a[0] == '\n' {
            seq!['\r', '\n']
        } else {
            seq![a[0]]
        };
        assert(h + (to_crlf(a.drop_first()) + to_crlf(b)) =~= h + to_crlf(a.drop_first()) + to_crlf(b));
    }
}

proof fn lemma_to_crlf_one(c: char)
    ensures
        to_crlf(seq![c]) == if c == '\n' {
            seq!['\r', '\n']
        } else {
            seq![c]
        },
{
    reveal_with_fuel(to_crlf, 2);
    assert(seq![c].drop_first() =~= Seq::<char>::empty());
    assert(seq!['\r', '\n'] + Seq::<char>::empty() =~= seq!['\r', '\n']);
    assert(seq![c] + Seq::<char>::empty() =~= seq![c]);
}

/// The byte-order mark is left as it is by the CRLF conversion.
proof fn lemma_to_crlf_mark(s: Seq<char>, t: Seq<char>)
    ensures
        to_crlf(bom_mark(s) + t) == bom_mark(s) + to_crlf(t),
{
    lemma_to_crlf_add(bom_mark(s), t);
    lemma_to_crlf_one(bom());
    if !has_bom(s) {
        assert(to_crlf(bom_mark(s)) == Seq::<char>::empty());
    }
}

/// A text with a line break and no carriage return, and its CRLF form.
#[verifier::spinoff_prover]
#[verifier::rlimit(50)]
proof fn lemma_crlf_twin(lf: Seq<char>)
    requires
        !lf.contains('\r'),
        lf.contains('\n'),
    ensures
        uses_crlf(to_crlf(lf)),
        !uses_crlf(lf),
        has_bom(to_crlf(lf)) == has_bom(lf),
        bom_mark(to_crlf(lf)) == bom_mark(lf),
        parse_text(to_crlf(lf)) == parse_text(lf),
{
    let i = choose|i: int| 0 <= i < lf.len() && lf[i] == '\n';
    let a = lf.take(i);
    let b = lf.skip(i + 1);
    assert(lf =~= a + seq!['\n'] + b);
    lemma_to_crlf_add(a + seq!['\n'], b);
    lemma_to_crlf_add(a, seq!['\n']);
    lemma_to_crlf_one('\n');
    let c = to_crlf(lf);
    let k = to_crlf(a).len() as int;
    assert(c.subrange(k, k + 2) =~= seq!['\r', '\n']);
    assert(crate::text::occurs_at(c, seq!['\r', '\n'], k));
    if uses_crlf(lf) {
        let j = choose|j: int| crate::text::occurs_at(lf, seq!['\r', '\n'], j);
        assert(lf.subrange(j, j + 2)[0] == '\r');
        assert(lf[j] == '\r');
    }
    assert(lf.len() > 0);
    assert(lf =~= seq![lf[0]] + lf.drop_first());
    lemma_to_crlf_add(seq![lf[0]], lf.drop_first());
    lemma_to_crlf_one(lf[0]);
    if lf[0] != '\n' {
        assert(c[0] == lf[0]);
        assert(c.drop_first() =~= to_crlf(lf.drop_first()));
    } else {
        assert(c[0] == '\r');
    }
    lemma_to_lf_same(lf);
    lemma_to_lf_same(body_of(lf));
    assert(!body_of(lf).contains('\r')) by {
        if has_bom(lf) && body_of(lf).contains('\r') {
            let j = choose|j: int| 0 <= j < body_of(lf).len() && body_of(lf)[j] == '\r';
            assert(lf[j + 1] == '\r');
        }
    }
    assert(body_of(c) == to_crlf(body_of(lf)));
}

/// The CRLF form of a document formats to the LF form's output with CRLF
/// line ends: a document without carriage returns that has a line break,
/// and the same document with each `'\n'` turned into `"\r\n"`, parsed to
/// the same tree, end in the same result but for the line ends (the
/// formatted text, when it has to be parsed again, parsed to the same tree
/// too). This holds whether the formatter takes the document on or hands it
/// back, with or without a byte-order mark, and with format-off regions.
pub proof fn crlf_output_is_lf_output_with_crlf(
    lf: Seq<char>,
    cst: Cst,
    opts: FormatOptions,
    s1: FormatStep,
    s2: FormatStep,
    out_cst: Cst,
    r1: FormatResult,
    r2: FormatResult,
)
    requires
        !lf.contains('\r'),
        lf.contains('\n'),
        format_outcome(s1, to_crlf(lf), cst, opts),
        format_outcome(s2, lf, cst, opts),
        ends_in(s1, out_cst, r1),
        ends_in(s2, out_cst, r2),
    ensures
        r1.output@ == to_crlf(r2.output@),
{
    let src = to_crlf(lf);
    lemma_crlf_twin(lf);
    let p = print_spec(cst, opts);
    match s1 {
        FormatStep::Done(x1) => {
            match s2 {
                FormatStep::Done(x2) => {
                    if !declined(cst) {
                        assert(restored(src, p) == bom_mark(lf) + to_crlf(p));
                        assert(restored(lf, p) == bom_mark(lf) + p);
                        lemma_to_crlf_mark(lf, p);
                    }
                },
                FormatStep::Reparse(_) => {},
            }
        },
        FormatStep::Reparse(sp1) => {
            match s2 {
                FormatStep::Done(_) => {},
                FormatStep::Reparse(sp2) => {
                    let out_regions = off_regions_spec(sp1.lf_out@, out_cst);
                    assert(sp2.lf_out@ == sp1.lf_out@);
                    assert(sp2.lf_src@ == sp1.lf_src@);
                    match splice_spec(sp1.lf_src@, sp1.lf_out@, sp1.regions@, out_regions) {
                        Some((t, spans)) => {
                            assert(restored(src, t) == bom_mark(lf) + to_crlf(t));
                            assert(restored(lf, t) == bom_mark(lf) + t);
                            lemma_to_crlf_mark(lf, t);
                        },
                        None => {},
                    }
                },
            }
        },
    }
}

proof fn lemma_nws_crlf(x: Seq<char>)
    ensures
        crate::printer::tokens::nws(to_crlf(x)) == crate::printer::tokens::nws(x),
    decreases x.len(),
{
    broadcast use crate::printer::tokens::group_tokens;

    if x.len() > 0 {
        lemma_nws_crlf(x.drop_first());
        assert(x =~= seq![x[0]] + x.drop_first());
        crate::printer::tokens::lemma_nws_one(x[0]);
        crate::printer::tokens::lemma_nws_one('\r');
        if x[0] == '\n' {
            assert(seq!['\r', '\n'] =~= seq!['\r'] + seq!['\n']);
        }
    }
}

/// The byte-order mark that `src` opens with, if any.
pub open spec fn bom_mark(src: Seq<char>) -> Seq<char> {
    if has_bom(src) {
        seq![bom()]
    } else {
        seq![]
    }
}

/// Formatting moves only whitespace. For a parsed document of the parser's
/// shape that the formatter takes on, the non-whitespace characters of the
/// output are the document's byte-order mark, if it has one, then the
/// tree's tokens in order, interleaved with comment characters `c`: no code
/// token is dropped, added or reordered. `c` holds the characters of the
/// tree's comments, each comment in offset order, and nothing else but the
/// slashes `ss` that comment reflow puts in front of each line it splits
/// off; with reflow off, `c` is exactly the comments' characters. (Reflow is
/// taken to drop no line; see [`crate::printer::normalize::reflow_drops_no_line`].)
pub proof fn formatting_keeps_the_tokens(src: Seq<char>, cst: Cst, opts: FormatOptions, r: FormatResult)
    requires
        crate::printer::preserve::stmts_ok(cst.root.children@),
        opts.reflow_comments ==> crate::printer::normalize::reflow_drops_no_line(
            crate::printer::normalized_output(cst, opts),
            opts.line_width as int,
        ),
        !declined(cst),
        format_outcome(FormatStep::Done(r), src, cst, opts),
    ensures
        exists|k: Seq<char>, c: Seq<char>, ss: Seq<char>|
            #![trigger crate::printer::preserve::shuffle(k, crate::printer::tokens::code_list(cst.root.children@), c), crate::printer::preserve::shuffle(c, crate::printer::preserve::all_comment_chars(cst), ss)]
            {
                &&& crate::printer::tokens::nws(r.output@) == bom_mark(src) + k
                &&& crate::printer::preserve::shuffle(k, crate::printer::tokens::code_list(cst.root.children@), c)
                &&& crate::printer::preserve::shuffle(c, crate::printer::preserve::all_comment_chars(cst), ss)
                &&& crate::printer::normalize::all_slashes(ss)
                &&& !opts.reflow_comments ==> c == crate::printer::preserve::all_comment_chars(cst)
            },
{
    broadcast use crate::printer::tokens::group_tokens;

    let p = print_spec(cst, opts);
    let w = crate::printer::preserve::printing_keeps_the_tokens(cst, opts);
    lemma_nws_crlf(p);
    let t = if uses_crlf(src) {
        to_crlf(p)
    } else {
        p
    };
    assert(restored(src, p) == bom_mark(src) + t);
    crate::printer::tokens::lemma_nws_one(bom());
    assert(crate::printer::tokens::nws(bom_mark(src)) == bom_mark(src));
    let k = crate::printer::tokens::nws(p);
    assert(crate::printer::tokens::nws(r.output@) == bom_mark(src) + k);
    assert(crate::printer::preserve::shuffle(k, crate::printer::tokens::code_list(cst.root.children@), w.0));
    assert(crate::printer::preserve::shuffle(w.0, crate::printer::preserve::all_comment_chars(cst), w.1));
}

/// The output depends on the source text only through its tree and its
/// conventions: two documents parsed to the same tree, with the same
/// byte-order mark (or none) and the same line ends, format to the same
/// text, whatever their own layout.
pub proof fn output_depends_on_the_tree_alone(
    src1: Seq<char>,
    src2: Seq<char>,
    cst: Cst,
    opts: FormatOptions,
    r1: FormatResult,
    r2: FormatResult,
)
    requires
        has_bom(src1) == has_bom(src2),
        uses_crlf(src1) == uses_crlf(src2),
        !declined(cst),
        format_outcome(FormatStep::Done(r1), src1, cst, opts),
        format_outcome(FormatStep::Done(r2), src2, cst, opts),
    ensures
        r1.output@ == r2.output@,
{
}

proof fn lemma_uses_crlf_shift(m: Seq<char>, t: Seq<char>)
    requires
        m.len() <= 1,
        m.len() == 1 ==> m[0] != '\r',
    ensures
        uses_crlf(m + t) == uses_crlf(t),
{
    let x = m + t;
    let k = m.len() as int;
    if uses_crlf(t) {
        let i = choose|i: int| crate::text::occurs_at(t, seq!['\r', '\n'], i);
        assert(x.subrange(i + k, i + k + 2) =~= t.subrange(i, i + 2));
        assert(crate::text::occurs_at(x, seq!['\r', '\n'], i + k));
    }
    if uses_crlf(x) {
        let i = choose|i: int| crate::text::occurs_at(x, seq!['\r', '\n'], i);
        assert(x.subrange(i, i + 2)[0] == '\r');
        assert(x[i] == '\r');
        assert(i >= k);
        assert(t.subrange(i - k, i - k + 2) =~= x.subrange(i, i + 2));
        assert(crate::text::occurs_at(t, seq!['\r', '\n'], i - k));
    }
}

proof fn lemma_crlf_has_crlf(p: Seq<char>)
    requires
        p.contains('\n'),
    ensures
        uses_crlf(to_crlf(p)),
{
    let i = choose|i: int| 0 <= i < p.len() && p[i] == '\n';
    let a = p.take(i);
    let b = p.skip(i + 1);
    assert(p =~= a + seq!['\n'] + b);
    lemma_to_crlf_add(a + seq!['\n'], b);
    lemma_to_crlf_add(a, seq!['\n']);
    lemma_to_crlf_one('\n');
    let c = to_crlf(p);
    let k = to_crlf(a).len() as int;
    assert(c.subrange(k, k + 2) =~= seq!['\r', '\n']);
    assert(crate::text::occurs_at(c, seq!['\r', '\n'], k));
}

/// Formatting the output again gives it back unchanged whenever the
/// printer lays out the output's tree as it laid out the source's (or the
/// output's tree is declined): the output keeps the conventions that it
/// carries. Left out are the formatted texts that themselves open with a
/// byte-order mark or hold a CRLF, which the conventions would change.
pub proof fn reformatting_keeps_the_output(
    src: Seq<char>,
    cst: Cst,
    out_cst: Cst,
    opts: FormatOptions,
    r1: FormatResult,
    r2: FormatResult,
)
    requires
        !has_bom(print_spec(cst, opts)),
        !uses_crlf(print_spec(cst, opts)),
        !declined(cst),
        format_outcome(FormatStep::Done(r1), src, cst, opts),
        format_outcome(FormatStep::Done(r2), r1.output@, out_cst, opts),
        !declined(out_cst) ==> print_spec(out_cst, opts) == print_spec(cst, opts),
    ensures
        r2.output@ == r1.output@,
        !r2.changed,
{
    let p = print_spec(cst, opts);
    let out = r1.output@;
    crate::printer::formatted_document_end(cst, opts);
    if !declined(out_cst) {
        let t = if uses_crlf(src) {
            to_crlf(p)
        } else {
            p
        };
        assert(out == bom_mark(src) + t);
        if p.len() > 0 {
            assert(p.contains('\n')) by {
                assert(p[p.len() - 1] == '\n');
            }
            if uses_crlf(src) {
                lemma_crlf_has_crlf(p);
                assert(p =~= seq![p[0]] + p.drop_first());
                lemma_to_crlf_add(seq![p[0]], p.drop_first());
                lemma_to_crlf_one(p[0]);
                assert(t.len() > 0 && (t[0] == p[0] || t[0] == '\r'));
            }
        } else {
            assert(t =~= Seq::<char>::empty());
        }
        lemma_uses_crlf_shift(bom_mark(src), t);
        assert(has_bom(out) == has_bom(src)) by {
            if !has_bom(src) {
                assert(out =~= t);
            }
        }
        if p.len() > 0 {
            assert(uses_crlf(out) == uses_crlf(src));
            assert(restored(out, p) == bom_mark(out) + t);
        } else {
            assert(to_crlf(p) == Seq::<char>::empty());
            assert(restored(out, p) =~= bom_mark(out));
            assert(out =~= bom_mark(src));
        }
    }
}

/// The text to parse for `src`.
pub fn parse_input(src: &str) -> (r: String)
    ensures
        r@ == parse_text(src@),
{
    let s = chars_of(src);
    let body = if s.len() > 0 && s[0] == '\u{FEFF}' {
        crate::text::sub_vec(s.as_slice(), 1, s.len())
    } else {
        crate::text::sub_vec(s.as_slice(), 0, s.len())
    };
    assert(body@ =~= body_of(src@));
    let lf = to_lf_exec(body.as_slice());
    string_of(lf.as_slice())
}

/// `lf` in `src`'s conventions (see [`restored`]).
fn restore(src: &[char], lf: &[char]) -> (r: Vec<char>)
    ensures
        r@ == restored(src@, lf@),
{
    let mut r: Vec<char> = Vec::new();
    if src.len() > 0 && src[0] == '\u{FEFF}' {
        r.push('\u{FEFF}');
    }
    let crlf = ['\r', '\n'];
    assert(crlf@ =~= seq!['\r', '\n']);
    if contains_exec(src, crlf.as_slice()) {
        let t = to_crlf_exec(lf);
        crate::text::push_all(&mut r, t.as_slice());
    } else {
        crate::text::push_all(&mut r, lf);
    }
    assert(r@ =~= restored(src@, lf@));
    r
}

/// The result for the LF-formatted text `lf` with format-off spans `spans`.
fn finish(src: &[char], lf: &[char], spans: &Vec<(usize, usize)>, opts: &FormatOptions) -> (r:
    FormatResult)
    ensures
        result_is(r, src@, restored(src@, lf@), *opts, spans@),
{
    let out = restore(src, lf);
    let changed = !chars_eq(out.as_slice(), src);
    let warnings = line_too_long_warnings(out.as_slice(), opts.line_width, opts.indent_width, spans);
    FormatResult { output: string_of(out.as_slice()), changed, warnings }
}

fn unchanged(src: &str) -> (r: FormatResult)
    ensures
        unchanged_result(r, src@),
{
    let s = chars_of(src);
    FormatResult { output: string_of(s.as_slice()), changed: false, warnings: Vec::new() }
}

/// Format `src`, parsed (as [`parse_input`] gives it) into `cst`, with the
/// default options.
pub fn format_str(src: &str, cst: &Cst) -> (r: Result<FormatStep, FormatError>)
    ensures
        r matches Ok(step) && format_outcome(step, src@, *cst, default_options()),
{
    let opts = FormatOptions::default();
    format_str_with(src, cst, &opts)
}

/// Format `src`, parsed (as [`parse_input`] gives it) into `cst`.
pub fn format_str_with(src: &str, cst: &Cst, opts: &FormatOptions) -> (r: Result<
    FormatStep,
    FormatError,
>)
    ensures
        r matches Ok(step) && format_outcome(step, src@, *cst, *opts),
{
    if cst.syntax_errors > 0 {
        return Ok(FormatStep::Done(unchanged(src)));
    }
    let lf_src = parse_input(src);
    let lf_chars = chars_of(lf_src.as_str());
    let regions = off_regions(lf_chars.as_slice(), cst);
    let lf_out = print_with(cst, opts);
    if regions.len() == 0 {
        let s = chars_of(src);
        let o = chars_of(lf_out.as_str());
        let none: Vec<(usize, usize)> = Vec::new();
        let res = finish(s.as_slice(), o.as_slice(), &none, opts);
        assert(none@ =~= Seq::<(usize, usize)>::empty());
        Ok(FormatStep::Done(res))
    } else {
        let src_copy = string_of(chars_of(src).as_slice());
        Ok(
            FormatStep::Reparse(
                Splice { src: src_copy, lf_src, lf_out, regions, opts: *opts },
            ),
        )
    }
}

/// Finish formatting once the formatted text of `sp` was parsed into
/// `out_cst`.
pub fn finish_splice(sp: &Splice, out_cst: &Cst) -> (r: FormatResult)
    ensures
        splice_outcome(r, *sp, *out_cst),
{
    let lf_out = chars_of(sp.lf_out.as_str());
    let lf_src = chars_of(sp.lf_src.as_str());
    let out_regions = off_regions(lf_out.as_slice(), out_cst);
    match splice(lf_src.as_slice(), lf_out.as_slice(), &sp.regions, &out_regions) {
        Some((t, spans)) => {
            let s = chars_of(sp.src.as_str());
            finish(s.as_slice(), t.as_slice(), &spans, &sp.opts)
        },
        None => unchanged(sp.src.as_str()),
    }
}


// ---------------------------------------------------------------------------
// Range formatting
// ---------------------------------------------------------------------------

/// Result of formatting a line range: the replacement text and the 0-based,
/// inclusive line span in the input that it replaces (snapped outward to
/// whole top-level statement boundaries).
pub struct RangeResult {
    pub output: String,
    pub start_line: usize,
    pub end_line: usize,
    pub changed: bool,
    pub warnings: Vec<FormatWarning>,
}

/// The whole lines a range format covers: `slice` (LF line ends, no final
/// line break) is to be formatted as a document of its own, and the result
/// handed to [`finish_range`].
pub struct RangePlan {
    pub slice: String,
    pub start_line: usize,
    pub end_line: usize,
    /// The document used CRLF line ends.
    pub crlf: bool,
    /// The block depth the covered statements are printed at.
    pub depth: usize,
    /// The options to format the slice with: the line width less the
    /// indentation of `depth` levels.
    pub opts: FormatOptions,
}

/// Some region meets lines `s..=e`.
pub open spec fn meets_region(regions: Seq<(usize, usize)>, s: usize, e: usize) -> bool {
    exists|k: int| 0 <= k < regions.len() && (#[trigger] regions[k]).0 <= e && regions[k].1 >= s
}

/// The options for a slice printed `depth` levels deep: the line width
/// less those levels' columns.
pub open spec fn slice_options(opts: FormatOptions, depth: usize) -> FormatOptions {
    FormatOptions {
        line_width: crate::printer::control::sat_sub(
            opts.line_width,
            crate::text::sat_mul(depth, opts.indent_width),
        ),
        ..opts
    }
}

/// What a range format of lines `a..=b` of `src` (parsed as `cst`) covers:
/// nothing when the document is declined (syntax errors), when
/// no statement meets the
/// range, when the snapped span meets a format-off region, or when the span
/// is empty or lies past the text; else the span's lines joined by
/// `'\n'`, the span, whether the document uses CRLF, the depth of the
/// covered statements and the options for the slice.
pub open spec fn range_plan_spec(src: Seq<char>, cst: Cst, a: usize, b: usize, opts: FormatOptions) -> Option<
    (Seq<char>, usize, usize, bool, usize, FormatOptions),
> {
    if declined(cst) {
        None
    } else {
        match range_target(cst, a, b) {
            None => None,
            Some((s, e, d)) => {
                let lines = split_lines(to_lf(src));
                if meets_region(off_regions_spec(parse_text(src), cst), s, e) || s > e || e
                    >= lines.len() {
                    None
                } else {
                    Some(
                        (
                            join_lines(lines.subrange(s as int, e + 1)),
                            s,
                            e,
                            uses_crlf(src),
                            d,
                            slice_options(opts, d),
                        ),
                    )
                }
            },
        }
    }
}

pub open spec fn plan_view(p: RangePlan) -> (Seq<char>, usize, usize, bool, usize, FormatOptions) {
    (p.slice@, p.start_line, p.end_line, p.crlf, p.depth, p.opts)
}

fn meets_region_exec(regions: &Vec<(usize, usize)>, s: usize, e: usize) -> (r: bool)
    ensures
        r == meets_region(regions@, s, e),
{
    let mut k: usize = 0;
    while k < regions.len()
        invariant
            k <= regions.len(),
            forall|j: int| 0 <= j < k ==> !((#[trigger] regions@[j]).0 <= e && regions@[j].1 >= s),
        decreases regions.len() - k,
    {
        if regions[k].0 <= e && regions[k].1 >= s {
            return true;
        }
        k += 1;
    }
    false
}

/// Plan the format of the statements overlapping the requested line range
/// (`req_start_line..=req_end_line`, 0-based inclusive) of `src`, parsed
/// (as [`parse_input`] gives it) into `cst`.
///
/// A contiguous run of complete statements parses on its own, so the range
/// is snapped outward to the statement boundaries it touches, at the
/// deepest block whose statements cover it, and those whole lines are
/// formatted as their own document (narrower by their indentation) and
/// indented back. `None` when no statement overlaps the range, when the
/// buffer has syntax errors, or when the span meets a format-off region:
/// the caller leaves the buffer alone.
pub fn format_range(
    src: &str,
    cst: &Cst,
    req_start_line: usize,
    req_end_line: usize,
    opts: &FormatOptions,
) -> (r: Result<Option<RangePlan>, FormatError>)
    ensures
        r matches Ok(p) && match p {
            Some(plan) => range_plan_spec(src@, *cst, req_start_line, req_end_line, *opts) == Some(
                plan_view(plan),
            ),
            None => range_plan_spec(src@, *cst, req_start_line, req_end_line, *opts) is None,
        },
{
    if cst.syntax_errors > 0 {
        return Ok(None);
    }
    let (s, e, d) = match range_target_exec(cst, req_start_line, req_end_line) {
        None => {
            return Ok(None);
        },
        Some(t) => t,
    };
    let lf_src = parse_input(src);
    let lf_chars = chars_of(lf_src.as_str());
    let regions = off_regions(lf_chars.as_slice(), cst);
    let sc = chars_of(src);
    let lf_all = to_lf_exec(sc.as_slice());
    let lines = split_on_nl(lf_all.as_slice());
    if meets_region_exec(&regions, s, e) || s > e || e >= lines.len() {
        return Ok(None);
    }
    let mut part: Vec<Vec<char>> = Vec::new();
    let mut i = s;
    while i <= e
        invariant
            s <= i <= e + 1,
            e < lines.len(),
            views(part@) == views(lines@).subrange(s as int, i as int),
        decreases e + 1 - i,
    {
        let ghost before = views(part@);
        part.push(crate::text::sub_vec(lines[i].as_slice(), 0, lines[i].len()));
        assert(lines@[i as int]@.subrange(0, lines@[i as int]@.len() as int) =~= lines@[i as int]@);
        assert(views(part@) =~= before.push(views(lines@)[i as int]));
        assert(views(lines@).subrange(s as int, i + 1) =~= views(lines@).subrange(s as int, i as int).push(
            views(lines@)[i as int],
        ));
        i += 1;
    }
    let slice = join_nl(&part);
    let crlf_pat = ['\r', '\n'];
    assert(crlf_pat@ =~= seq!['\r', '\n']);
    let crlf = contains_exec(sc.as_slice(), crlf_pat.as_slice());
    let narrower = crate::text::sat_mul_exec(d, opts.indent_width);
    let slice_opts = FormatOptions { line_width: opts.line_width.saturating_sub(narrower), ..*opts };
    Ok(
        Some(
            RangePlan {
                slice: string_of(slice.as_slice()),
                start_line: s,
                end_line: e,
                crlf,
                depth: d,
                opts: slice_opts,
            },
        ),
    )
}

/// `t` with every non-blank line indented by `ind`.
pub open spec fn reindented(t: Seq<char>, ind: Seq<char>) -> Seq<char> {
    reindent_upto(split_incl(t), ind, split_incl(t).len() as int)
}

pub open spec fn reindent_upto(p: Seq<Seq<char>>, ind: Seq<char>, n: int) -> Seq<char>
    decreases n,
{
    if n <= 0 {
        seq![]
    } else {
        reindent_upto(p, ind, n - 1) + if all_ws(p[n - 1]) {
            p[n - 1]
        } else {
            ind + p[n - 1]
        }
    }
}

/// The formatted slice indented back to the plan's depth.
pub open spec fn range_text(plan: RangePlan, res: FormatResult) -> Seq<char> {
    reindented(res.output@, levels(plan.depth, plan.opts.indent_style, plan.opts.indent_width))
}

/// The range result once the plan's slice was formatted into `res`: the
/// output indented back to the plan's depth, in the document's line-end
/// convention, changed when it differs from the slice other than in
/// trailing line breaks, and the warnings moved to file line numbers.
pub open spec fn range_outcome(r: RangeResult, plan: RangePlan, res: FormatResult) -> bool {
    let out = range_text(plan, res);
    &&& r.output@ == if plan.crlf {
        to_crlf(out)
    } else {
        out
    }
    &&& r.start_line == plan.start_line
    &&& r.end_line == plan.end_line
    &&& r.changed == (strip_trailing_nl(out) != strip_trailing_nl(plan.slice@))
    &&& r.warnings@.len() == res.warnings@.len()
    &&& forall|i: int|
        0 <= i < r.warnings@.len() ==> {
            let w = #[trigger] r.warnings@[i];
            let v = res.warnings@[i];
            w.kind == v.kind && w.line == crate::text::sat_add(v.line, plan.start_line) && w.col
                == v.col && w.message@ == v.message@
        }
}

fn reindent(t: &[char], ind: &[char]) -> (r: Vec<char>)
    ensures
        r@ == reindented(t@, ind@),
{
    let pieces = crate::text::split_inclusive_lines(t);
    let ghost p = split_incl(t@);
    let mut r: Vec<char> = Vec::new();
    let mut i: usize = 0;
    while i < pieces.len()
        invariant
            views(pieces@) == p,
            i <= pieces.len(),
            r@ == reindent_upto(p, ind@, i as int),
        decreases pieces.len() - i,
    {
        assert(pieces@[i as int]@ == p[i as int]);
        let ghost before = r@;
        if !crate::text::is_blank(pieces[i].as_slice()) {
            crate::text::push_all(&mut r, ind);
        }
        crate::text::push_all(&mut r, pieces[i].as_slice());
        assert(r@ =~= before + if all_ws(p[i as int]) {
            p[i as int]
        } else {
            ind@ + p[i as int]
        });
        i += 1;
    }
    r
}

/// Finish a range format from the formatted slice.
pub fn finish_range(plan: &RangePlan, res: &FormatResult) -> (r: RangeResult)
    ensures
        range_outcome(r, *plan, *res),
{
    let formatted = chars_of(res.output.as_str());
    let mut ind: Vec<char> = Vec::new();
    match plan.opts.indent_style {
        IndentStyle::Tab => crate::text::push_repeat(&mut ind, '\t', plan.depth),
        IndentStyle::Spaces => {
            let k = crate::text::sat_mul_exec(plan.depth, plan.opts.indent_width);
            crate::text::push_repeat(&mut ind, ' ', k);
        },
    }
    assert(ind@ =~= levels(plan.depth, plan.opts.indent_style, plan.opts.indent_width));
    let out = reindent(formatted.as_slice(), ind.as_slice());
    let output = if plan.crlf {
        string_of(to_crlf_exec(out.as_slice()).as_slice())
    } else {
        string_of(out.as_slice())
    };
    let sl = chars_of(plan.slice.as_str());
    let a = strip_trailing_nl_len(out.as_slice());
    let b = strip_trailing_nl_len(sl.as_slice());
    let oa = crate::text::sub_vec(out.as_slice(), 0, a);
    let sb = crate::text::sub_vec(sl.as_slice(), 0, b);
    let changed = !chars_eq(oa.as_slice(), sb.as_slice());
    let mut warnings: Vec<FormatWarning> = Vec::new();
    let mut i: usize = 0;
    while i < res.warnings.len()
        invariant
            i <= res.warnings.len(),
            warnings@.len() == i,
            forall|j: int|
                0 <= j < i ==> {
                    let w = #[trigger] warnings@[j];
                    let v = res.warnings@[j];
                    w.kind == v.kind && w.line == crate::text::sat_add(v.line, plan.start_line)
                        && w.col == v.col && w.message@ == v.message@
                },
        decreases res.warnings.len() - i,
    {
        let v = &res.warnings[i];
        let mut w = v.clone();
        w.line = v.line.saturating_add(plan.start_line);
        warnings.push(w);
        i += 1;
    }
    RangeResult { output, start_line: plan.start_line, end_line: plan.end_line, changed, warnings }
}

} // verus!
