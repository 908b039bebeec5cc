//! The decisions of the `m1-fmt` command line: argument validation, range
//! splicing, what each mode writes, the batch summary and the exit status.
//! The program around it reads files and standard input, runs the parser
//! and writes what these functions decide.

use vstd::prelude::*;
use crate::config_resolve::CliOverrides;
use crate::diagnostics::FormatWarning;
use crate::text::{
    chars_eq, chars_of, decimal, index_of, index_of_exec, join_lines, join_nl, push_decimal,
    split_lines, split_on_nl, string_of, strip_trailing_nl, strip_trailing_nl_len, sub_vec, trim,
    views,
};
use crate::trivia::trim_exec;
use crate::{BraceStyle, FormatResult, IndentStyle, RangeResult};

verus! {

/// The exit status of a usage error (a bad flag or argument).
pub const USAGE_EXIT: i32 = 2;

// ---------------------------------------------------------------------------
// Numbers
// ---------------------------------------------------------------------------

pub open spec fn is_digit(c: char) -> bool {
    '0' <= c <= '9'
}

/// The value of a run of decimal digits.
pub open spec fn digits_value(s: Seq<char>) -> nat
    decreases s.len(),
{
    if s.len() == 0 {
        0
    } else {
        digits_value(s.drop_last()) * 10 + (s.last() as nat - '0' as nat) as nat
    }
}

/// `s` without one leading `+`.
pub open spec fn sign_stripped(s: Seq<char>) -> Seq<char> {
    if s.len() > 0 && s[0] == '+' {
        s.drop_first()
    } else {
        s
    }
}

/// What `str::parse::<usize>` gives: an optional `+`, then one or more
/// ASCII digits whose value fits in a `usize`.
pub open spec fn parse_usize(s: Seq<char>) -> Option<usize> {
    let d = sign_stripped(s);
    if d.len() == 0 || exists|i: int| 0 <= i < d.len() && !is_digit(#[trigger] d[i]) {
        None
    } else if digits_value(d) > usize::MAX {
        None
    } else {
        Some(digits_value(d) as usize)
    }
}

pub fn parse_usize_exec(s: &[char]) -> (r: Option<usize>)
    ensures
        r == parse_usize(s@),
{
    let start: usize = if s.len() > 0 && s[0] == '+' {
        1
    } else {
        0
    };
    let d = sub_vec(s, start, s.len());
    assert(d@ =~= sign_stripped(s@));
    if d.len() == 0 {
        return None;
    }
    let mut v: usize = 0;
    let mut overflow = false;
    let mut i: usize = 0;
    while i < d.len()
        invariant
            i <= d.len(),
            d@ == sign_stripped(s@),
            forall|j: int| 0 <= j < i ==> is_digit(#[trigger] d@[j]),
            !overflow ==> v == digits_value(d@.take(i as int)),
            overflow ==> digits_value(d@.take(i as int)) > usize::MAX,
        decreases d.len() - i,
    {
        let c = d[i];
        if !('0' <= c && c <= '9') {
            assert(!is_digit(d@[i as int]));
            return None;
        }
        assert(d@.take(i + 1).drop_last() =~= d@.take(i as int));
        let dv = (c as u32 - '0' as u32) as usize;
        proof {
            assert(digits_value(d@.take(i + 1)) == digits_value(d@.take(i as int)) * 10 + (c as nat
                - '0' as nat) as nat);
            if overflow {
                assert(digits_value(d@.take(i as int)) * 10 >= digits_value(d@.take(i as int)))
                    by (nonlinear_arith);
            }
        }
        if !overflow {
            if v > (usize::MAX - dv) / 10 {
                overflow = true;
                assert(digits_value(d@.take(i + 1)) > usize::MAX) by (nonlinear_arith)
                    requires
                        v > (usize::MAX - dv) / 10,
                        digits_value(d@.take(i + 1)) == v * 10 + dv,
                        dv <= 9,
                ;
            } else {
                assert(v * 10 + dv <= usize::MAX) by (nonlinear_arith)
                    requires
                        v <= (usize::MAX - dv) / 10,
                        dv <= 9,
                ;
                v = v * 10 + dv;
            }
        }
        i += 1;
    }
    assert(d@.take(i as int) =~= d@);
    if overflow {
        None
    } else {
        Some(v)
    }
}

// ---------------------------------------------------------------------------
// --range
// ---------------------------------------------------------------------------

/// A `START:END` (1-based, inclusive) range argument: two numbers around
/// the first `:` (whitespace around each trimmed), both non-zero, in order.
pub open spec fn range_spec(s: Seq<char>) -> Option<(usize, usize)> {
    let i = index_of(s, ':');
    if i >= s.len() {
        None
    } else {
        let a = parse_usize(trim(s.take(i)));
        let b = parse_usize(trim(s.skip(i + 1)));
        if a is Some && b is Some && a.unwrap() != 0 && b.unwrap() != 0 && a.unwrap()
            <= b.unwrap() {
            Some((a.unwrap(), b.unwrap()))
        } else {
            None
        }
    }
}

/// Parse a `START:END` (1-based, inclusive) range argument.
pub fn parse_range(s: &str) -> (r: Option<(usize, usize)>)
    ensures
        r == range_spec(s@),
{
    let c = chars_of(s);
    let i = index_of_exec(c.as_slice(), ':');
    if i >= c.len() {
        return None;
    }
    let left = sub_vec(c.as_slice(), 0, i);
    let right = sub_vec(c.as_slice(), i + 1, c.len());
    assert(left@ =~= c@.take(i as int));
    assert(right@ =~= c@.skip(i + 1));
    let lt = trim_exec(left.as_slice());
    let rt = trim_exec(right.as_slice());
    let a = parse_usize_exec(lt.as_slice());
    let b = parse_usize_exec(rt.as_slice());
    match (a, b) {
        (Some(a), Some(b)) => if a != 0 && b != 0 && a <= b {
            Some((a, b))
        } else {
            None
        },
        _ => None,
    }
}

/// The text of `s` as `{:?}` shows it.
pub uninterp spec fn debug_text(s: Seq<char>) -> Seq<char>;

/// `s` in double quotes with escapes, as `format!("{s:?}")` renders a
/// `str`; the result is named by [`debug_text`].
#[verifier::external_body]
fn debug_quoted(s: &str) -> (r: String)
    ensures
        r@ == debug_text(s@),
{
    format!("{s:?}")
}

pub open spec fn range_error(s: Seq<char>) -> Seq<char> {
    "m1-fmt: invalid --range "@ + debug_text(s) + "; expected START:END (1-based, START<=END)"@
}

/// The `--range` argument, if given, parsed; a malformed one is a usage
/// error with this message.
pub fn range_arg(s: Option<&str>) -> (r: Result<Option<(usize, usize)>, String>)
    ensures
        match s {
            None => r == Ok::<Option<(usize, usize)>, String>(None),
            Some(t) => match range_spec(t@) {
                Some(p) => r == Ok::<Option<(usize, usize)>, String>(Some(p)),
                None => r matches Err(m) && m@ == range_error(t@),
            },
        },
{
    match s {
        None => Ok(None),
        Some(t) => match parse_range(t) {
            Some(p) => Ok(Some(p)),
            None => {
                let mut m = "m1-fmt: invalid --range ".to_owned();
                let q = debug_quoted(t);
                m.append(q.as_str());
                m.append("; expected START:END (1-based, START<=END)");
                Err(m)
            },
        },
    }
}

/// Input lines `start..=end` (0-based, inclusive) replaced by the lines of
/// `replacement` (its trailing line breaks dropped), every other line kept.
pub open spec fn spliced(src: Seq<char>, start: int, end: int, replacement: Seq<char>) -> Seq<char> {
    let ls = split_lines(src);
    join_lines(ls.take(start) + split_lines(strip_trailing_nl(replacement)) + ls.skip(end + 1))
}

/// Splicing leaves every line outside the range as it was: the result's
/// lines are the lines before `start`, the replacement's lines, and the
/// lines after `end`, byte for byte.
pub proof fn splice_lines_keeps_other_lines(src: Seq<char>, start: int, end: int, replacement: Seq<char>)
    requires
        0 <= start <= split_lines(src).len(),
        0 <= end < split_lines(src).len(),
    ensures
        split_lines(spliced(src, start, end, replacement)) == split_lines(src).take(start)
            + split_lines(strip_trailing_nl(replacement)) + split_lines(src).skip(end + 1),
{
    let ls = split_lines(src);
    let rl = split_lines(strip_trailing_nl(replacement));
    let all = ls.take(start) + rl + ls.skip(end + 1);
    crate::text::lemma_split_lines_no_nl(src);
    crate::text::lemma_split_lines_no_nl(strip_trailing_nl(replacement));
    assert(rl.len() >= 1) by {
        crate::text::lemma_nl_index_bound(strip_trailing_nl(replacement));
    }
    assert forall|i: int, j: int| 0 <= i < all.len() && 0 <= j < all[i].len() implies all[i][j]
        != '\n' by {
        if i < start {
            assert(all[i] == ls[i]);
        } else if i < start + rl.len() {
            assert(all[i] == rl[i - start]);
        } else {
            assert(all[i] == ls[i - start - rl.len() + end + 1]);
        }
    }
    crate::text::lemma_split_join(all);
}

fn copy_lines(out: &mut Vec<Vec<char>>, ls: &Vec<Vec<char>>, a: usize, b: usize)
    requires
        a <= b <= ls.len(),
    ensures
        views(final(out)@) == views(old(out)@) + views(ls@).subrange(a as int, b as int),
{
    let mut i = a;
    while i < b
        invariant
            a <= i <= b,
            b <= ls.len(),
            views(out@) == views(old(out)@) + views(ls@).subrange(a as int, i as int),
        decreases b - i,
    {
        let ghost before = views(out@);
        out.push(sub_vec(ls[i].as_slice(), 0, ls[i].len()));
        assert(ls[i as int]@.subrange(0, ls[i as int]@.len() as int) =~= ls[i as int]@);
        assert(views(out@) =~= before.push(views(ls@)[i as int]));
        assert(views(ls@).subrange(a as int, i + 1) =~= views(ls@).subrange(a as int, i as int).push(
            views(ls@)[i as int],
        ));
        i += 1;
    }
}

/// Replace input lines `start..=end` (0-based, inclusive) with
/// `replacement`, leaving every other line byte-for-byte unchanged.
pub fn splice_lines(src: &str, start: usize, end: usize, replacement: &str) -> (r: String)
    requires
        start <= split_lines(src@).len(),
        end < split_lines(src@).len(),
    ensures
        r@ == spliced(src@, start as int, end as int, replacement@),
{
    let s = chars_of(src);
    let lines = split_on_nl(s.as_slice());
    let rc = chars_of(replacement);
    let k = strip_trailing_nl_len(rc.as_slice());
    let rt = sub_vec(rc.as_slice(), 0, k);
    let rl = split_on_nl(rt.as_slice());
    let mut out: Vec<Vec<char>> = Vec::new();
    copy_lines(&mut out, &lines, 0, start);
    copy_lines(&mut out, &rl, 0, rl.len());
    assert(views(lines@).len() == lines@.len());
    assert(end < lines.len());
    copy_lines(&mut out, &lines, end + 1, lines.len());
    let ghost ls = views(lines@);
    assert(ls.subrange(0, start as int) =~= ls.take(start as int));
    assert(views(rl@).subrange(0, rl.len() as int) =~= views(rl@));
    assert(ls.subrange(end + 1, ls.len() as int) =~= ls.skip(end + 1));
    let t = join_nl(&out);
    string_of(t.as_slice())
}

/// The buffer after a range format: the input unchanged when nothing was
/// formatted, else the formatted lines spliced over the covered span.
pub open spec fn range_buffer_spec(src: Seq<char>, rr: Option<(Seq<char>, usize, usize)>) -> (
    Seq<char>,
    bool,
) {
    match rr {
        None => (src, false),
        Some((out, s, e)) => {
            let t = spliced(src, s as int, e as int, out);
            (t, t != src)
        },
    }
}

/// The buffer, whether it changed, and the warnings after a range format
/// whose result is `rr` (`None` when the range was left alone).
pub fn range_buffer(src: &str, rr: Option<&RangeResult>) -> (r: (String, bool, Vec<FormatWarning>))
    requires
        match rr {
            Some(x) => x.start_line <= split_lines(src@).len() && x.end_line < split_lines(
                src@,
            ).len(),
            None => true,
        },
    ensures
        (r.0@, r.1) == range_buffer_spec(
            src@,
            match rr {
                Some(x) => Some((x.output@, x.start_line, x.end_line)),
                None => None,
            },
        ),
        match rr {
            Some(x) => r.2@.len() == x.warnings@.len() && forall|i: int|
                0 <= i < r.2@.len() ==> crate::diagnostics::warn_view(#[trigger] r.2@[i])
                    == crate::diagnostics::warn_view(x.warnings@[i]),
            None => r.2@.len() == 0,
        },
{
    match rr {
        None => (string_of(chars_of(src).as_slice()), false, Vec::new()),
        Some(x) => {
            let t = splice_lines(src, x.start_line, x.end_line, x.output.as_str());
            let tc = chars_of(t.as_str());
            let sc = chars_of(src);
            let changed = !chars_eq(tc.as_slice(), sc.as_slice());
            let mut ws: Vec<FormatWarning> = Vec::new();
            let mut i: usize = 0;
            while i < x.warnings.len()
                invariant
                    i <= x.warnings.len(),
                    ws@.len() == i,
                    forall|j: int|
                        0 <= j < i ==> crate::diagnostics::warn_view(#[trigger] ws@[j])
                            == crate::diagnostics::warn_view(x.warnings@[j]),
                decreases x.warnings.len() - i,
            {
                ws.push(x.warnings[i].clone());
                i += 1;
            }
            (t, changed, ws)
        },
    }
}

// ---------------------------------------------------------------------------
// Flags
// ---------------------------------------------------------------------------

/// Fold a `--flag` / `--no-flag` pair into a tri-state override: the flag
/// wins, then its negation; neither defers to configuration.
pub fn tri_flag(yes: bool, no: bool) -> (r: Option<bool>)
    ensures
        r == if yes {
            Some(true)
        } else if no {
            Some(false)
        } else {
            None
        },
{
    if yes {
        Some(true)
    } else if no {
        Some(false)
    } else {
        None
    }
}

/// The parsed and validated style flags.
#[derive(Clone, Copy)]
pub struct StyleOverrides {
    pub indent_style: Option<IndentStyle>,
    pub brace_style: Option<BraceStyle>,
}

pub open spec fn indent_flag_error(s: Seq<char>) -> Seq<char> {
    "m1-fmt: invalid --indent-style "@ + debug_text(s) + "; expected one of: tab, tabs, space, spaces"@
}

pub open spec fn brace_flag_error(s: Seq<char>) -> Seq<char> {
    "m1-fmt: invalid --brace-style "@ + debug_text(s) + "; expected one of: allman, kr, k&r, knr"@
}

/// Validate the `--indent-style` / `--brace-style` values: a spelling that
/// is not recognised is a usage error whose message names the flag and the
/// accepted values (the indent style is checked first).
pub fn parse_style_overrides(indent: Option<&str>, brace: Option<&str>) -> (r: Result<
    StyleOverrides,
    String,
>)
    ensures
        match indent {
            Some(s) if crate::config::indent_style_of(s@) is None => r matches Err(m) && m@
                == indent_flag_error(s@),
            _ => match brace {
                Some(s) if crate::config::brace_style_of(s@) is None => r matches Err(m) && m@
                    == brace_flag_error(s@),
                _ => r matches Ok(o) && o.indent_style == match indent {
                    Some(s) => crate::config::indent_style_of(s@),
                    None => None,
                } && o.brace_style == match brace {
                    Some(s) => crate::config::brace_style_of(s@),
                    None => None,
                },
            },
        },
{
    let indent_style = match indent {
        Some(s) => {
            let st = crate::config::parse_indent_style(s);
            if st.is_none() {
                let mut m = "m1-fmt: invalid --indent-style ".to_owned();
                let q = debug_quoted(s);
                m.append(q.as_str());
                m.append("; expected one of: tab, tabs, space, spaces");
                return Err(m);
            }
            st
        },
        None => None,
    };
    let brace_style = match brace {
        Some(s) => {
            let st = crate::config::parse_brace_style(s);
            if st.is_none() {
                let mut m = "m1-fmt: invalid --brace-style ".to_owned();
                let q = debug_quoted(s);
                m.append(q.as_str());
                m.append("; expected one of: allman, kr, k&r, knr");
                return Err(m);
            }
            st
        },
        None => None,
    };
    Ok(StyleOverrides { indent_style, brace_style })
}

/// The option flags of the command line, as given.
#[derive(Clone, Copy)]
pub struct OptionFlags {
    pub max_blank_lines: Option<usize>,
    pub line_width: Option<usize>,
    pub indent_width: Option<usize>,
    pub continuation_indent: Option<usize>,
    pub align_assignments: bool,
    pub no_align_assignments: bool,
    pub reflow_comments: bool,
    pub no_reflow_comments: bool,
    pub final_blank_line: bool,
    pub no_final_blank_line: bool,
}

pub open spec fn tri(yes: bool, no: bool) -> Option<bool> {
    if yes {
        Some(true)
    } else if no {
        Some(false)
    } else {
        None
    }
}

/// The overrides the flags give.
pub fn cli_overrides(f: &OptionFlags, styles: StyleOverrides) -> (r: CliOverrides)
    ensures
        r == (CliOverrides {
            max_blank_lines: f.max_blank_lines,
            line_width: f.line_width,
            indent_style: styles.indent_style,
            brace_style: styles.brace_style,
            indent_width: f.indent_width,
            continuation_indent: f.continuation_indent,
            align_assignments: tri(f.align_assignments, f.no_align_assignments),
            reflow_comments: tri(f.reflow_comments, f.no_reflow_comments),
            final_blank_line: tri(f.final_blank_line, f.no_final_blank_line),
        }),
{
    CliOverrides {
        max_blank_lines: f.max_blank_lines,
        line_width: f.line_width,
        indent_style: styles.indent_style,
        brace_style: styles.brace_style,
        indent_width: f.indent_width,
        continuation_indent: f.continuation_indent,
        align_assignments: tri_flag(f.align_assignments, f.no_align_assignments),
        reflow_comments: tri_flag(f.reflow_comments, f.no_reflow_comments),
        final_blank_line: tri_flag(f.final_blank_line, f.no_final_blank_line),
    }
}

/// `--jobs 0` is a usage error.
pub fn check_jobs(jobs: Option<usize>) -> (r: Result<(), String>)
    ensures
        jobs == Some(0usize) ==> (r matches Err(m) && m@ == "m1-fmt: --jobs must be at least 1"@),
        jobs != Some(0usize) ==> r is Ok,
{
    match jobs {
        Some(0) => Err("m1-fmt: --jobs must be at least 1".to_owned()),
        _ => Ok(()),
    }
}

/// With a directory argument, `--range` is a usage error, and so is the
/// lack of an output mode (`--check`, `--diff` or `-i`).
pub fn check_directory_mode(has_range: bool, check: bool, diff: bool, in_place: bool) -> (r: Result<
    (),
    String,
>)
    ensures
        has_range ==> (r matches Err(m) && m@
            == "m1-fmt: --range cannot be combined with a directory argument"@),
        !has_range && !(check || diff || in_place) ==> (r matches Err(m) && m@
            == "m1-fmt: a directory argument requires --check, --diff, or -i/--in-place"@),
        !has_range && (check || diff || in_place) ==> r is Ok,
{
    if has_range {
        return Err("m1-fmt: --range cannot be combined with a directory argument".to_owned());
    }
    if !(check || diff || in_place) {
        return Err(
            "m1-fmt: a directory argument requires --check, --diff, or -i/--in-place".to_owned(),
        );
    }
    Ok(())
}

/// The file arguments with a lone `-` (standard input) dropped.
pub fn file_args(files: Vec<String>) -> (r: Vec<String>)
    ensures
        files@.len() == 1 && files@[0]@ == "-"@ ==> r@.len() == 0,
        !(files@.len() == 1 && files@[0]@ == "-"@) ==> r@ == files@,
{
    if files.len() == 1 {
        let dash = "-".to_owned();
        if files[0] == dash {
            return Vec::new();
        }
    }
    files
}

// ---------------------------------------------------------------------------
// Per-file output
// ---------------------------------------------------------------------------

/// What a file run writes for a formatted file.
#[derive(Debug, Clone, Copy, PartialEq, Eq, Structural)]
pub enum FileAction {
    /// `--check`: report that the file would be reformatted.
    ReportWouldReformat,
    /// `--diff`: print a unified diff.
    PrintDiff,
    /// `-i`: write the file in place.
    WriteInPlace,
    /// Print the formatted text.
    Print,
    /// Nothing.
    Nothing,
}

/// The action for a formatted file: a changed file is reported (`--check`),
/// diffed (`--diff`), written (`-i`) or printed, in that order of
/// precedence; an unchanged one is printed only without any of the three.
pub fn file_action(changed: bool, check: bool, diff: bool, in_place: bool) -> (r: FileAction)
    ensures
        r == if changed {
            if check {
                FileAction::ReportWouldReformat
            } else if diff {
                FileAction::PrintDiff
            } else if in_place {
                FileAction::WriteInPlace
            } else {
                FileAction::Print
            }
        } else if !check && !diff && !in_place {
            FileAction::Print
        } else {
            FileAction::Nothing
        },
{
    if changed {
        if check {
            FileAction::ReportWouldReformat
        } else if diff {
            FileAction::PrintDiff
        } else if in_place {
            FileAction::WriteInPlace
        } else {
            FileAction::Print
        }
    } else if !check && !diff && !in_place {
        FileAction::Print
    } else {
        FileAction::Nothing
    }
}

/// What the standard-input run writes.
#[derive(Debug, Clone, Copy, PartialEq, Eq, Structural)]
pub struct StdinOutput {
    /// Print a unified diff.
    pub diff: bool,
    /// Print the formatted text.
    pub text: bool,
    /// Report that the buffer would be reformatted.
    pub would_reformat: bool,
}

/// Standard input: `--diff` prints a diff when the buffer changed; without
/// `--diff` or `--check` the formatted text is printed; `--check` reports a
/// change.
pub fn stdin_output(changed: bool, check: bool, diff: bool) -> (r: StdinOutput)
    ensures
        r == (StdinOutput {
            diff: diff && changed,
            text: !diff && !check,
            would_reformat: changed && check,
        }),
{
    StdinOutput { diff: diff && changed, text: !diff && !check, would_reformat: changed && check }
}

/// `<name>:<line>: warning: <message>`.
pub open spec fn warning_line(name: Seq<char>, w: FormatWarning) -> Seq<char> {
    name + ":"@ + decimal(w.line as nat) + ": warning: "@ + w.message@
}

pub fn warning_text(name: &str, w: &FormatWarning) -> (r: String)
    ensures
        r@ == warning_line(name@, *w),
{
    let mut m = name.to_owned();
    m.append(":");
    let mut d: Vec<char> = Vec::new();
    push_decimal(&mut d, w.line);
    let ds = string_of(d.as_slice());
    m.append(ds.as_str());
    m.append(": warning: ");
    m.append(w.message.as_str());
    m
}

/// `m1-fmt: <name>: <n> syntax error(s); left unchanged`.
pub open spec fn syntax_error_line(name: Seq<char>, n: usize) -> Seq<char> {
    "m1-fmt: "@ + name + ": "@ + decimal(n as nat) + " syntax error(s); left unchanged"@
}

pub fn syntax_error_text(name: &str, n: usize) -> (r: String)
    ensures
        r@ == syntax_error_line(name@, n),
{
    let mut m = "m1-fmt: ".to_owned();
    m.append(name);
    m.append(": ");
    let mut d: Vec<char> = Vec::new();
    push_decimal(&mut d, n);
    let ds = string_of(d.as_slice());
    m.append(ds.as_str());
    m.append(" syntax error(s); left unchanged");
    m
}

/// `<name>: would reformat`.
pub fn would_reformat_text(name: &str) -> (r: String)
    ensures
        r@ == name@ + ": would reformat"@,
{
    let mut m = name.to_owned();
    m.append(": would reformat");
    m
}

/// One warning line per warning, each ending in a line break.
pub open spec fn warning_lines(name: Seq<char>, ws: Seq<FormatWarning>) -> Seq<char>
    decreases ws.len(),
{
    if ws.len() == 0 {
        seq![]
    } else {
        warning_lines(name, ws.drop_last()) + warning_line(name, ws.last()) + "\n"@
    }
}

fn push_warning_lines(err: &mut String, name: &str, ws: &Vec<FormatWarning>)
    ensures
        final(err)@ == old(err)@ + warning_lines(name@, ws@),
{
    let mut i: usize = 0;
    while i < ws.len()
        invariant
            i <= ws.len(),
            err@ == old(err)@ + warning_lines(name@, ws@.take(i as int)),
        decreases ws.len() - i,
    {
        assert(ws@.take(i + 1).drop_last() =~= ws@.take(i as int));
        let line = warning_text(name, &ws[i]);
        err.append(line.as_str());
        err.append("\n");
        i += 1;
    }
    assert(ws@.take(i as int) =~= ws@);
}

/// What a run over standard input reports.
pub struct StdinReport {
    /// What goes to standard error.
    pub stderr: String,
    /// Print a unified diff of the buffer.
    pub print_diff: bool,
    /// What goes to standard output (besides a diff).
    pub stdout: String,
    /// The buffer would change.
    pub changed: bool,
    /// The buffer has syntax errors.
    pub syntax_error: bool,
}

/// The report of a standard-input run over a buffer with `syntax_errors`
/// syntax errors, formatted into `result`: the warnings, then the
/// syntax-error note, then (`--check`) the would-reformat note on standard
/// error; a diff when `--diff` and the buffer changed; the formatted text
/// unless `--diff` or `--check`.
pub open spec fn stdin_report_spec(
    r: StdinReport,
    name: Seq<char>,
    result: FormatResult,
    syntax_errors: usize,
    check: bool,
    diff: bool,
) -> bool {
    &&& r.stderr@ == warning_lines(name, result.warnings@) + (if syntax_errors > 0 {
        syntax_error_line(name, syntax_errors) + "\n"@
    } else {
        seq![]
    }) + (if result.changed && check {
        name + ": would reformat"@ + "\n"@
    } else {
        seq![]
    })
    &&& r.print_diff == (diff && result.changed)
    &&& r.stdout@ == if !diff && !check {
        result.output@
    } else {
        seq![]
    }
    &&& r.changed == result.changed
    &&& r.syntax_error == (syntax_errors > 0)
}

pub fn stdin_report(
    name: &str,
    result: &FormatResult,
    syntax_errors: usize,
    check: bool,
    diff: bool,
) -> (r: StdinReport)
    ensures
        stdin_report_spec(r, name@, *result, syntax_errors, check, diff),
{
    let mut err = String::new();
    push_warning_lines(&mut err, name, &result.warnings);
    if syntax_errors > 0 {
        let m = syntax_error_text(name, syntax_errors);
        err.append(m.as_str());
        err.append("\n");
    }
    if result.changed && check {
        let m = would_reformat_text(name);
        err.append(m.as_str());
        err.append("\n");
    }
    let out = stdin_output(result.changed, check, diff);
    let stdout = if out.text {
        result.output.clone()
    } else {
        String::new()
    };
    proof {
        assert(err@ =~= warning_lines(name@, result.warnings@) + (if syntax_errors > 0 {
            syntax_error_line(name@, syntax_errors) + "\n"@
        } else {
            seq![]
        }) + (if result.changed && check {
            name@ + ": would reformat"@ + "\n"@
        } else {
            seq![]
        }));
    }
    StdinReport { stderr: err, print_diff: out.diff, stdout, changed: result.changed, syntax_error: syntax_errors > 0 }
}

/// What a file run reports for one formatted file.
pub struct FileReport {
    /// What goes to standard error.
    pub stderr: String,
    /// What to do with the formatted text.
    pub action: FileAction,
    /// The file would change.
    pub changed: bool,
    /// The file has syntax errors.
    pub syntax_error: bool,
}

/// The report for a file with `syntax_errors` syntax errors formatted into
/// `result`: the warnings, the syntax-error note, and (`--check`, changed)
/// the would-reformat note on standard error, and the action of
/// [`file_action`].
pub open spec fn file_report_spec(
    r: FileReport,
    name: Seq<char>,
    result: FormatResult,
    syntax_errors: usize,
    check: bool,
    diff: bool,
    in_place: bool,
) -> bool {
    &&& r.stderr@ == warning_lines(name, result.warnings@) + (if syntax_errors > 0 {
        syntax_error_line(name, syntax_errors) + "\n"@
    } else {
        seq![]
    }) + (if result.changed && check {
        name + ": would reformat"@ + "\n"@
    } else {
        seq![]
    })
    &&& r.action == (if result.changed {
        if check {
            FileAction::ReportWouldReformat
        } else if diff {
            FileAction::PrintDiff
        } else if in_place {
            FileAction::WriteInPlace
        } else {
            FileAction::Print
        }
    } else if !check && !diff && !in_place {
        FileAction::Print
    } else {
        FileAction::Nothing
    })
    &&& r.changed == result.changed
    &&& r.syntax_error == (syntax_errors > 0)
}

pub fn file_report(
    name: &str,
    result: &FormatResult,
    syntax_errors: usize,
    check: bool,
    diff: bool,
    in_place: bool,
) -> (r: FileReport)
    ensures
        file_report_spec(r, name@, *result, syntax_errors, check, diff, in_place),
{
    let mut err = String::new();
    push_warning_lines(&mut err, name, &result.warnings);
    if syntax_errors > 0 {
        let m = syntax_error_text(name, syntax_errors);
        err.append(m.as_str());
        err.append("\n");
    }
    let action = file_action(result.changed, check, diff, in_place);
    if action == FileAction::ReportWouldReformat {
        let m = would_reformat_text(name);
        err.append(m.as_str());
        err.append("\n");
    }
    proof {
        assert(err@ =~= warning_lines(name@, result.warnings@) + (if syntax_errors > 0 {
            syntax_error_line(name@, syntax_errors) + "\n"@
        } else {
            seq![]
        }) + (if result.changed && check {
            name@ + ": would reformat"@ + "\n"@
        } else {
            seq![]
        }));
    }
    FileReport { stderr: err, action, changed: result.changed, syntax_error: syntax_errors > 0 }
}

// ---------------------------------------------------------------------------
// Batch summary and exit status
// ---------------------------------------------------------------------------

/// How one file of a batch went.
#[derive(Debug, Clone, Copy, PartialEq, Eq, Structural)]
pub struct FileStatus {
    pub changed: bool,
    pub error: bool,
    pub syntax_error: bool,
}

/// The counts of a batch: files changed, skipped for syntax errors, and
/// errored (each file counted once, an error before a syntax error before a
/// change), and whether any file changed, errored or had syntax errors.
#[derive(Debug, Clone, Copy, PartialEq, Eq, Structural)]
pub struct Tally {
    pub changed: usize,
    pub syntax: usize,
    pub errored: usize,
    pub any_changed: bool,
    pub any_error: bool,
    pub any_syntax_error: bool,
}

pub open spec fn tally_spec(s: Seq<FileStatus>) -> Tally
    decreases s.len(),
{
    if s.len() == 0 {
        Tally {
            changed: 0,
            syntax: 0,
            errored: 0,
            any_changed: false,
            any_error: false,
            any_syntax_error: false,
        }
    } else {
        let t = tally_spec(s.drop_last());
        let f = s.last();
        Tally {
            changed: if !f.error && !f.syntax_error && f.changed {
                (t.changed + 1) as usize
            } else {
                t.changed
            },
            syntax: if !f.error && f.syntax_error {
                (t.syntax + 1) as usize
            } else {
                t.syntax
            },
            errored: if f.error {
                (t.errored + 1) as usize
            } else {
                t.errored
            },
            any_changed: t.any_changed || f.changed,
            any_error: t.any_error || f.error,
            any_syntax_error: t.any_syntax_error || f.syntax_error,
        }
    }
}

proof fn lemma_tally_bound(s: Seq<FileStatus>)
    ensures
        tally_spec(s).changed + tally_spec(s).syntax + tally_spec(s).errored <= s.len(),
    decreases s.len(),
{
    if s.len() > 0 {
        lemma_tally_bound(s.drop_last());
    }
}

/// A file counted as changed: it changed, without an error or syntax errors.
pub open spec fn counted_changed() -> spec_fn(FileStatus) -> bool {
    |f: FileStatus| !f.error && !f.syntax_error && f.changed
}

/// A file counted as skipped: syntax errors, no error.
pub open spec fn counted_syntax() -> spec_fn(FileStatus) -> bool {
    |f: FileStatus| !f.error && f.syntax_error
}

/// A file counted as errored.
pub open spec fn counted_errored() -> spec_fn(FileStatus) -> bool {
    |f: FileStatus| f.error
}

/// The tally counts the batch: `changed` is the number of files that
/// changed without an error or syntax errors, `syntax` the number with
/// syntax errors and no error, `errored` the number with an error; and each
/// flag is set exactly when some file of the batch has that outcome.
pub proof fn tally_counts_the_batch(s: Seq<FileStatus>)
    requires
        s.len() <= usize::MAX,
    ensures
        tally_spec(s).any_changed == exists|i: int| 0 <= i < s.len() && #[trigger] s[i].changed,
        tally_spec(s).any_error == exists|i: int| 0 <= i < s.len() && #[trigger] s[i].error,
        tally_spec(s).any_syntax_error == exists|i: int|
            0 <= i < s.len() && #[trigger] s[i].syntax_error,
        tally_spec(s).changed == s.filter(counted_changed()).len(),
        tally_spec(s).syntax == s.filter(counted_syntax()).len(),
        tally_spec(s).errored == s.filter(counted_errored()).len(),
    decreases s.len(),
{
    reveal(Seq::filter);
    if s.len() > 0 {
        let d = s.drop_last();
        tally_counts_the_batch(d);
        lemma_tally_bound(d);
        let n = s.len() - 1;
        assert forall|i: int| 0 <= i < d.len() implies d[i] == s[i] by {}
        if s[n].changed {
            assert(exists|i: int| 0 <= i < s.len() && #[trigger] s[i].changed);
        }
        if s[n].error {
            assert(exists|i: int| 0 <= i < s.len() && #[trigger] s[i].error);
        }
        if s[n].syntax_error {
            assert(exists|i: int| 0 <= i < s.len() && #[trigger] s[i].syntax_error);
        }
        if exists|i: int| 0 <= i < s.len() && #[trigger] s[i].changed {
            let i = choose|i: int| 0 <= i < s.len() && #[trigger] s[i].changed;
            if i < n {
                assert(d[i].changed);
            }
        }
        if exists|i: int| 0 <= i < s.len() && #[trigger] s[i].error {
            let i = choose|i: int| 0 <= i < s.len() && #[trigger] s[i].error;
            if i < n {
                assert(d[i].error);
            }
        }
        if exists|i: int| 0 <= i < s.len() && #[trigger] s[i].syntax_error {
            let i = choose|i: int| 0 <= i < s.len() && #[trigger] s[i].syntax_error;
            if i < n {
                assert(d[i].syntax_error);
            }
        }
        if exists|i: int| 0 <= i < d.len() && #[trigger] d[i].changed {
            let i = choose|i: int| 0 <= i < d.len() && #[trigger] d[i].changed;
            assert(s[i].changed);
        }
        if exists|i: int| 0 <= i < d.len() && #[trigger] d[i].error {
            let i = choose|i: int| 0 <= i < d.len() && #[trigger] d[i].error;
            assert(s[i].error);
        }
        if exists|i: int| 0 <= i < d.len() && #[trigger] d[i].syntax_error {
            let i = choose|i: int| 0 <= i < d.len() && #[trigger] d[i].syntax_error;
            assert(s[i].syntax_error);
        }
    }
}

/// Tally the outcomes of a batch.
pub fn tally(statuses: &Vec<FileStatus>) -> (r: Tally)
    ensures
        r == tally_spec(statuses@),
        r.changed + r.syntax + r.errored <= statuses@.len(),
{
    let mut t = Tally {
        changed: 0,
        syntax: 0,
        errored: 0,
        any_changed: false,
        any_error: false,
        any_syntax_error: false,
    };
    let mut i: usize = 0;
    while i < statuses.len()
        invariant
            i <= statuses.len(),
            t == tally_spec(statuses@.take(i as int)),
        decreases statuses.len() - i,
    {
        proof {
            assert(statuses@.take(i + 1).drop_last() =~= statuses@.take(i as int));
            lemma_tally_bound(statuses@.take(i as int));
        }
        let f = statuses[i];
        if f.error {
            t.errored = t.errored + 1;
        } else if f.syntax_error {
            t.syntax = t.syntax + 1;
        } else if f.changed {
            t.changed = t.changed + 1;
        }
        t.any_changed = t.any_changed || f.changed;
        t.any_error = t.any_error || f.error;
        t.any_syntax_error = t.any_syntax_error || f.syntax_error;
        i += 1;
    }
    proof {
        assert(statuses@.take(i as int) =~= statuses@);
        lemma_tally_bound(statuses@);
    }
    t
}

/// `1 file` / `N files`.
pub open spec fn files_spec(n: usize) -> Seq<char> {
    decimal(n as nat) + if n == 1 {
        " file"@
    } else {
        " files"@
    }
}

/// Pluralize a file count for the batch summary.
pub fn files(n: usize) -> (r: String)
    ensures
        r@ == files_spec(n),
{
    let mut d: Vec<char> = Vec::new();
    push_decimal(&mut d, n);
    let mut m = string_of(d.as_slice());
    if n == 1 {
        m.append(" file");
    } else {
        m.append(" files");
    }
    m
}

/// The batch summary line: what was (or would be) reformatted and what was
/// already formatted, then the files skipped for syntax errors and the
/// files that errored, when there are any.
pub open spec fn summary_spec(total: usize, t: Tally, in_place: bool) -> Seq<char> {
    let unchanged = (total - t.changed - t.syntax - t.errored) as usize;
    let head = if in_place {
        "reformatted "@ + files_spec(t.changed) + ", "@ + files_spec(unchanged)
            + " already formatted"@
    } else {
        files_spec(t.changed) + " would be reformatted, "@ + files_spec(unchanged)
            + " already formatted"@
    };
    let with_syntax = if t.syntax > 0 {
        head + ", "@ + files_spec(t.syntax) + " skipped (syntax errors)"@
    } else {
        head
    };
    if t.errored > 0 {
        with_syntax + ", "@ + files_spec(t.errored) + " errored"@
    } else {
        with_syntax
    }
}

/// The summary after a batch of `total` files, for `--check` and `-i` runs
/// over more than one file; `None` otherwise.
pub fn summary(total: usize, t: Tally, check: bool, in_place: bool) -> (r: Option<String>)
    requires
        t.changed + t.syntax + t.errored <= total,
    ensures
        total > 1 && (check || in_place) ==> (r matches Some(m) && m@ == summary_spec(
            total,
            t,
            in_place,
        )),
        !(total > 1 && (check || in_place)) ==> r is None,
{
    if !(total > 1 && (check || in_place)) {
        return None;
    }
    let unchanged = total - t.changed - t.syntax - t.errored;
    let mut m: String;
    if in_place {
        m = "reformatted ".to_owned();
        let a = files(t.changed);
        m.append(a.as_str());
        m.append(", ");
        let b = files(unchanged);
        m.append(b.as_str());
        m.append(" already formatted");
    } else {
        m = files(t.changed);
        m.append(" would be reformatted, ");
        let b = files(unchanged);
        m.append(b.as_str());
        m.append(" already formatted");
    }
    if t.syntax > 0 {
        m.append(", ");
        let c = files(t.syntax);
        m.append(c.as_str());
        m.append(" skipped (syntax errors)");
    }
    if t.errored > 0 {
        m.append(", ");
        let e = files(t.errored);
        m.append(e.as_str());
        m.append(" errored");
    }
    Some(m)
}

/// The exit status of a run: 1 when a file errored, when a buffer had
/// syntax errors (it is left unchanged, but the run is not clean), or when
/// `--check` found a file to reformat; else 0.
pub fn exit_code(any_error: bool, any_syntax_error: bool, check: bool, any_changed: bool) -> (r: i32)
    ensures
        r == if any_error || any_syntax_error || (check && any_changed) {
            1i32
        } else {
            0i32
        },
{
    if any_error {
        1
    } else if any_syntax_error {
        1
    } else if check && any_changed {
        1
    } else {
        0
    }
}

} // verus!
