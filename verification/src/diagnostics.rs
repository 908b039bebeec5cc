//! The formatter's error and warning types, and the line-too-long check.

use vstd::prelude::*;
use crate::text::{decimal, push_decimal, text_lines, text_lines_exec, visual_width, vwidth};

verus! {

/// `std::io::Error`, carried by [`FormatError::IoError`].
#[verifier::external_type_specification]
#[verifier::external_body]
pub struct ExIoError(std::io::Error);

/// The formatter's only error type. Syntax errors are deliberately not
/// errors: an unparseable buffer is returned unchanged as a successful
/// result. The only failure is a file-read I/O error.
#[derive(Debug)]
pub enum FormatError {
    IoError(std::io::Error),
}

#[derive(Debug, Clone, Copy, PartialEq, Eq, Structural)]
pub enum WarningKind {
    LineTooLong,
}

#[derive(Debug)]
pub struct FormatWarning {
    pub kind: WarningKind,
    /// 1-based line number.
    pub line: usize,
    /// 1-based column where the line crosses the width.
    pub col: usize,
    pub message: String,
}

impl Clone for FormatWarning {
    fn clone(&self) -> (r: Self)
        ensures
            r.kind == self.kind,
            r.line == self.line,
            r.col == self.col,
            r.message@ == self.message@,
    {
        FormatWarning {
            kind: self.kind,
            line: self.line,
            col: self.col,
            message: self.message.clone(),
        }
    }
}

/// A warning as plain values: kind, line, column and message.
pub open spec fn warn_view(w: FormatWarning) -> (WarningKind, usize, usize, Seq<char>) {
    (w.kind, w.line, w.col, w.message@)
}

/// `line is W characters (max WIDTH)`.
pub open spec fn long_line_message(w: usize, width: usize) -> Seq<char> {
    seq!['l', 'i', 'n', 'e', ' ', 'i', 's', ' '] + decimal(w as nat) + seq![
        ' ',
        'c',
        'h',
        'a',
        'r',
        'a',
        'c',
        't',
        'e',
        'r',
        's',
        ' ',
        '(',
        'm',
        'a',
        'x',
        ' ',
    ] + decimal(width as nat) + seq![')']
}

/// Line index `i` (0-based) lies in one of the spans (inclusive).
pub open spec fn in_spans(i: int, spans: Seq<(usize, usize)>) -> bool {
    exists|k: int| 0 <= k < spans.len() && (#[trigger] spans[k]).0 <= i <= spans[k].1
}

/// The warnings for the first `n` lines: one for each line whose display
/// width is over `width`, unless it lies in one of `spans`.
pub open spec fn warns_upto(
    ls: Seq<Seq<char>>,
    width: usize,
    iw: usize,
    spans: Seq<(usize, usize)>,
    n: int,
) -> Seq<(WarningKind, usize, usize, Seq<char>)>
    decreases n,
{
    if n <= 0 || n > ls.len() {
        seq![]
    } else {
        let w = vwidth(ls[n - 1], iw);
        warns_upto(ls, width, iw, spans, n - 1) + if w > width && !in_spans(n - 1, spans) {
            seq![(WarningKind::LineTooLong, n as usize, (width + 1) as usize, long_line_message(w, width))]
        } else {
            seq![]
        }
    }
}

/// The line-too-long warnings of a formatted text: lines as `str::lines`
/// gives them, widths with tabs counted as `iw` columns, lines inside
/// `spans` (format-off regions) exempt.
pub open spec fn long_line_warnings(
    out: Seq<char>,
    width: usize,
    iw: usize,
    spans: Seq<(usize, usize)>,
) -> Seq<(WarningKind, usize, usize, Seq<char>)> {
    let ls = text_lines(out);
    warns_upto(ls, width, iw, spans, ls.len() as int)
}

/// The warnings as plain values.
pub open spec fn warns_view(ws: Seq<FormatWarning>) -> Seq<(WarningKind, usize, usize, Seq<char>)> {
    ws.map_values(|w: FormatWarning| warn_view(w))
}

fn in_spans_exec(i: usize, spans: &Vec<(usize, usize)>) -> (r: bool)
    ensures
        r == in_spans(i as int, spans@),
{
    let mut k: usize = 0;
    while k < spans.len()
        invariant
            k <= spans.len(),
            forall|j: int| 0 <= j < k ==> !((#[trigger] spans@[j]).0 <= i <= spans@[j].1),
        decreases spans.len() - k,
    {
        if spans[k].0 <= i && i <= spans[k].1 {
            return true;
        }
        k += 1;
    }
    false
}

fn long_line_message_exec(w: usize, width: usize) -> (r: String)
    ensures
        r@ == long_line_message(w, width),
{
    let mut m: Vec<char> = Vec::new();
    let a = ['l', 'i', 'n', 'e', ' ', 'i', 's', ' '];
    crate::text::push_all(&mut m, a.as_slice());
    push_decimal(&mut m, w);
    let b = [' ', 'c', 'h', 'a', 'r', 'a', 'c', 't', 'e', 'r', 's', ' ', '(', 'm', 'a', 'x', ' '];
    crate::text::push_all(&mut m, b.as_slice());
    push_decimal(&mut m, width);
    m.push(')');
    assert(m@ =~= long_line_message(w, width));
    crate::text::string_of(m.as_slice())
}

/// The line-too-long warnings of `out` (see [`long_line_warnings`]).
pub fn line_too_long_warnings(
    out: &[char],
    width: usize,
    iw: usize,
    spans: &Vec<(usize, usize)>,
) -> (r: Vec<FormatWarning>)
    ensures
        warns_view(r@) == long_line_warnings(out@, width, iw, spans@),
{
    let ls = text_lines_exec(out);
    let ghost lv = text_lines(out@);
    let mut r: Vec<FormatWarning> = Vec::new();
    let mut i: usize = 0;
    while i < ls.len()
        invariant
            i <= ls.len(),
            crate::text::views(ls@) == lv,
            warns_view(r@) == warns_upto(lv, width, iw, spans@, i as int),
        decreases ls.len() - i,
    {
        assert(ls@[i as int]@ == lv[i as int]);
        let w = visual_width(ls[i].as_slice(), iw);
        let ghost before = r@;
        if w > width && !in_spans_exec(i, spans) {
            let msg = long_line_message_exec(w, width);
            r.push(FormatWarning { kind: WarningKind::LineTooLong, line: i + 1, col: width + 1, message: msg });
            assert(warns_view(r@) =~= warns_view(before).push(warn_view(r@.last())));
        } else {
            assert(warns_view(r@) =~= warns_view(before) + Seq::<(WarningKind, usize, usize, Seq<char>)>::empty());
        }
        i += 1;
    }
    r
}

} // verus!
