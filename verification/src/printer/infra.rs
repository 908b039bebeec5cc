//! Low-level emit and measurement helpers for the [`Printer`](super::Printer):
//! raw output, indentation, the current column and the width check.

use vstd::prelude::*;
use super::{Cfg, Geom, Printer, St, app, col_of, cont_text, geom_of, indent_text, levels};
use crate::text::{
    all_ws, chars_of, count_char, count_char_exec, is_blank, last_line_start_exec, lead_ws_exec,
    push_all, push_repeat, repeat_char, sat_add, sat_mul_exec, split_lines, split_on_nl,
    starts_with, sub_vec, trim_end, trim_end_len_exec, trim_start, views, visual_width,
    visual_width_from, vwidth,
};
use crate::trivia::{TriviaItem, eol_attaches, is_eol_comment, line_comment_chars, line_comment_norm};
use crate::IndentStyle;

verus! {

/// Whether `flat`, starting at column `col`, would push a line past the width:
/// its first line is measured from `col`, and its last line also carries the
/// reserved end-of-line width.
pub open spec fn exceeds(col: usize, flat: Seq<char>, g: Geom) -> bool {
    exceeds_lines(split_lines(flat), 0, col, g)
}

pub open spec fn exceeds_lines(ls: Seq<Seq<char>>, i: int, col: usize, g: Geom) -> bool
    decreases ls.len() - i,
{
    if i < 0 || i >= ls.len() {
        false
    } else {
        let len0 = sat_add(vwidth(ls[i], g.iw), if i == 0 { col } else { 0 });
        let len = if i == ls.len() - 1 {
            sat_add(len0, g.eol_reserve)
        } else {
            len0
        };
        len > g.width || exceeds_lines(ls, i + 1, col, g)
    }
}

impl Printer {
    /// Append `s` to the output.
    pub fn emit(&mut self, s: &[char])
        ensures
            final(self).output@ == old(self).output@ + s@,
            final(self).only_output_changed(*old(self)),
    {
        push_all(&mut self.output, s);
    }

    pub fn emit_char(&mut self, c: char)
        ensures
            final(self).output@ == old(self).output@ + seq![c],
            final(self).only_output_changed(*old(self)),
    {
        self.output.push(c);
    }

    pub fn emit_newline(&mut self)
        ensures
            final(self).output@ == old(self).output@ + seq!['\n'],
            final(self).only_output_changed(*old(self)),
    {
        self.output.push('\n');
    }

    /// Push `n` indent levels (a tab each, or `indent_width` spaces).
    pub fn push_levels(&mut self, n: usize)
        ensures
            final(self).output@ == old(self).output@ + levels(
                n,
                old(self).indent_style,
                old(self).indent_width,
            ),
            final(self).only_output_changed(*old(self)),
    {
        match self.indent_style {
            IndentStyle::Tab => push_repeat(&mut self.output, '\t', n),
            IndentStyle::Spaces => {
                let k = sat_mul_exec(n, self.indent_width);
                push_repeat(&mut self.output, ' ', k)
            },
        }
    }

    pub fn emit_indent(&mut self)
        ensures
            final(self).output@ == old(self).output@ + indent_text(old(self).geom()),
            final(self).only_output_changed(*old(self)),
    {
        let n = self.indent;
        self.push_levels(n);
    }

    /// The current block indent plus `continuation_indent` extra levels.
    pub fn emit_continuation_indent(&mut self)
        ensures
            final(self).output@ == old(self).output@ + cont_text(old(self).geom()),
            final(self).only_output_changed(*old(self)),
    {
        let n = self.indent.saturating_add(self.continuation_indent);
        self.push_levels(n);
    }

    /// Display width of `s`, tabs expanded to `indent_width`.
    pub fn visual_width(&self, s: &[char]) -> (w: usize)
        ensures
            w == vwidth(s@, self.indent_width),
    {
        visual_width(s, self.indent_width)
    }

    /// Display column of the cursor: the width emitted since the last newline.
    pub fn current_col(&self) -> (c: usize)
        ensures
            c == col_of(self.output@, self.indent_width),
    {
        let k = last_line_start_exec(self.output.as_slice());
        proof {
            crate::text::lemma_last_line_start(self.output@);
        }
        visual_width_from(self.output.as_slice(), k, self.indent_width)
    }

    /// True if `flat`, placed starting at column `start_col`, would push a
    /// line past the configured width.
    pub fn exceeds_limit(&self, start_col: usize, flat: &[char]) -> (r: bool)
        ensures
            r == exceeds(start_col, flat@, self.geom()),
    {
        let lines = split_on_nl(flat);
        let ghost ls = split_lines(flat@);
        let last = lines.len() - 1;
        let mut i: usize = 0;
        while i < lines.len()
            invariant
                views(lines@) == ls,
                last == ls.len() - 1,
                i <= lines.len(),
                exceeds(start_col, flat@, self.geom()) == exceeds_lines(
                    ls,
                    i as int,
                    start_col,
                    self.geom(),
                ),
            decreases lines.len() - i,
        {
            assert(lines@[i as int]@ == ls[i as int]);
            let w = self.visual_width(lines[i].as_slice());
            let mut len = w.saturating_add(if i == 0 { start_col } else { 0 });
            if i == last {
                len = len.saturating_add(self.eol_reserve);
            }
            if len > self.width {
                return true;
            }
            i += 1;
        }
        false
    }
}


// ---------------------------------------------------------------------------
// Comments
// ---------------------------------------------------------------------------

/// Author blank lines kept before something starting on `line`.
pub open spec fn gap_st(s: St, line: usize) -> St {
    match s.prev {
        Some(p) => if line > p && line - p > 1 {
            app(s, repeat_char('\n', (line - p - 1) as nat))
        } else {
            s
        },
        None => s,
    }
}

pub open spec fn javadoc_open() -> Seq<char> {
    seq!['/', '*', '*']
}

pub open spec fn line_open() -> Seq<char> {
    seq!['/', '/']
}

/// A continuation line of a block comment: a javadoc ` *` line re-aligned
/// under the opening `/*` at the indent `ind`; any other line kept verbatim
/// (trailing whitespace trimmed); a blank line left empty.
pub open spec fn bc_line(l: Seq<char>, ind: Seq<char>, jd: bool) -> Seq<char> {
    let ts = trim_start(l);
    if jd && ts.len() > 0 && ts[0] == '*' {
        ind + seq![' '] + trim_end(ts)
    } else if !all_ws(l) {
        trim_end(l)
    } else {
        seq![]
    }
}

pub open spec fn bc_rest(ls: Seq<Seq<char>>, ind: Seq<char>, jd: bool) -> Seq<char>
    decreases ls.len(),
{
    if ls.len() == 0 {
        seq![]
    } else {
        seq!['\n'] + bc_line(ls[0], ind, jd) + bc_rest(ls.drop_first(), ind, jd)
    }
}

/// A block comment as printed at indent `ind` (its first line is placed by
/// the caller).
pub open spec fn block_comment_text(text: Seq<char>, ind: Seq<char>) -> Seq<char> {
    let ls = split_lines(text);
    trim_end(ls[0]) + bc_rest(ls.drop_first(), ind, starts_with(text, javadoc_open()))
}

/// A comment as printed on its own line at indent `ind`.
pub open spec fn comment_text(text: Seq<char>, ind: Seq<char>) -> Seq<char> {
    if starts_with(text, line_open()) {
        line_comment_norm(text)
    } else {
        block_comment_text(text, ind)
    }
}

/// A comment printed on its own line, after the author's blank lines.
pub open spec fn own_line_st(s: St, c: Cfg, item: TriviaItem) -> St {
    let s1 = gap_st(s, item.source_line);
    let ind = indent_text(geom_of(s1, c));
    let s2 = app(s1, ind + comment_text(item.text@, ind) + seq!['\n']);
    St { prev: Some(sat_add(item.source_line, count_char(item.text@, '\n') as usize)), ..s2 }
}

/// Every pending comment before offset `before`, each on its own line.
pub open spec fn inject_st(s: St, c: Cfg, before: usize) -> St
    decreases c.trivia.len() - s.tpos,
{
    if 0 <= s.tpos < c.trivia.len() && c.trivia[s.tpos].byte_offset < before {
        inject_st(St { tpos: s.tpos + 1, ..own_line_st(s, c, c.trivia[s.tpos]) }, c, before)
    } else {
        s
    }
}

/// Every pending comment, each on its own line.
pub open spec fn flush_all_st(s: St, c: Cfg) -> St
    decreases c.trivia.len() - s.tpos,
{
    if 0 <= s.tpos < c.trivia.len() {
        flush_all_st(St { tpos: s.tpos + 1, ..own_line_st(s, c, c.trivia[s.tpos]) }, c)
    } else {
        s
    }
}

/// An end-of-line comment as printed after its statement.
pub open spec fn eol_rendered(text: Seq<char>) -> Seq<char> {
    if starts_with(text, line_open()) {
        line_comment_norm(text)
    } else {
        trim_end(text)
    }
}

/// The next pending comment trails the statement.
pub open spec fn eol_pending(s: St, c: Cfg, el: usize, eb: usize, ns: usize) -> bool {
    0 <= s.tpos < c.trivia.len() && eol_attaches(c.trivia[s.tpos], el, eb, ns)
}

/// Width the trailing comment will take (two spaces and its text), or 0.
pub open spec fn pending_eol(s: St, c: Cfg, el: usize, eb: usize, ns: usize) -> usize {
    if eol_pending(s, c, el, eb, ns) {
        sat_add(2, eol_rendered(c.trivia[s.tpos].text@).len() as usize)
    } else {
        0
    }
}

/// What `emit_eol` appends for `eol`.
pub open spec fn eol_st_text(eol: Option<TriviaItem>) -> Seq<char> {
    match eol {
        Some(item) => seq![' ', ' '] + eol_rendered(item.text@),
        None => seq![],
    }
}

/// The trailing comment, if any, consumed and printed after two spaces.
pub open spec fn eol_st(s: St, c: Cfg, el: usize, eb: usize, ns: usize) -> St {
    if eol_pending(s, c, el, eb, ns) {
        app(
            St { tpos: s.tpos + 1, ..s },
            seq![' ', ' '] + eol_rendered(c.trivia[s.tpos].text@),
        )
    } else {
        s
    }
}

impl Printer {
    /// Preserve author blank lines between the previous statement and the one
    /// starting at `start_line`.
    pub fn emit_blank_gap(&mut self, start_line: usize)
        ensures
            final(self).st() == gap_st(old(self).st(), start_line),
            final(self).cfg() == old(self).cfg(),
    {
        if let Some(prev) = self.prev_end_line {
            if start_line > prev && start_line - prev > 1 {
                push_repeat(&mut self.output, '\n', start_line - prev - 1);
            }
        }
    }

    /// Emit a (possibly multi-line) block comment; the first line goes where
    /// the caller has put the cursor.
    pub fn emit_block_comment(&mut self, text: &[char])
        ensures
            final(self).output@ == old(self).output@ + block_comment_text(
                text@,
                indent_text(old(self).geom()),
            ),
            final(self).only_output_changed(*old(self)),
    {
        let ghost p0 = *self;
        let ghost ind = indent_text(self.geom());
        let lines = split_on_nl(text);
        let ghost ls = split_lines(text@);
        let jd_pat = ['/', '*', '*'];
        assert(jd_pat@ =~= javadoc_open());
        let jd = crate::text::starts_with_exec(text, jd_pat.as_slice());
        assert(lines@[0]@ == ls[0]);
        let k0 = trim_end_len_exec(lines[0].as_slice());
        let first = sub_vec(lines[0].as_slice(), 0, k0);
        self.emit(first.as_slice());
        let ghost out1 = self.output@;
        let mut i: usize = 1;
        assert(ls.drop_first().skip(0) =~= ls.drop_first());
        while i < lines.len()
            invariant
                1 <= i <= lines.len(),
                views(lines@) == ls,
                self.only_output_changed(p0),
                ind == indent_text(self.geom()),
                jd == starts_with(text@, javadoc_open()),
                out1 + bc_rest(ls.drop_first(), ind, jd) == self.output@ + bc_rest(
                    ls.drop_first().skip(i - 1),
                    ind,
                    jd,
                ),
            decreases lines.len() - i,
        {
            assert(lines@[i as int]@ == ls[i as int]);
            assert(ls.drop_first().skip(i - 1)[0] == ls[i as int]);
            assert(ls.drop_first().skip(i - 1).drop_first() =~= ls.drop_first().skip(i as int));
            let ghost before = self.output@;
            self.emit_newline();
            let line = &lines[i];
            let a = lead_ws_exec(line.as_slice());
            let ts = sub_vec(line.as_slice(), a, line.len());
            assert(ts@ =~= trim_start(line@));
            if jd && ts.len() > 0 && ts[0] == '*' {
                self.emit_indent();
                self.emit_char(' ');
                let e = trim_end_len_exec(ts.as_slice());
                let tt = sub_vec(ts.as_slice(), 0, e);
                self.emit(tt.as_slice());
            } else if !is_blank(line.as_slice()) {
                let e = trim_end_len_exec(line.as_slice());
                let tt = sub_vec(line.as_slice(), 0, e);
                self.emit(tt.as_slice());
            }
            assert(self.output@ =~= before + (seq!['\n'] + bc_line(ls[i as int], ind, jd)));
            i += 1;
        }
        assert(ls.drop_first().skip(i - 1) =~= Seq::<Seq<char>>::empty());
        assert(self.output@ + Seq::<char>::empty() =~= self.output@);
        assert(self.output@ =~= old(self).output@ + block_comment_text(text@, ind));
    }

    /// Emit one comment on its own line at the current indentation,
    /// preserving the author blank lines before it.
    pub fn emit_own_line_trivia(&mut self, item: &TriviaItem)
        ensures
            final(self).st() == own_line_st(old(self).st(), old(self).cfg(), *item),
            final(self).cfg() == old(self).cfg(),
    {
        self.emit_blank_gap(item.source_line);
        let ghost s1 = self.st();
        let ghost ind = indent_text(self.geom());
        self.emit_indent();
        let text = chars_of(item.text.as_str());
        if text.len() >= 2 && text[0] == '/' && text[1] == '/' {
            assert(text@.take(2) =~= line_open());
            let norm = line_comment_chars(text.as_slice());
            self.emit(norm.as_slice());
        } else {
            proof {
                if starts_with(text@, line_open()) {
                    assert(text@.take(2)[0] == '/');
                    assert(text@.take(2)[1] == '/');
                }
            }
            self.emit_block_comment(text.as_slice());
        }
        self.emit_newline();
        let span = count_char_exec(text.as_slice(), '\n');
        self.prev_end_line = Some(item.source_line.saturating_add(span));
        assert(self.output@ =~= s1.out + (ind + comment_text(item.text@, ind) + seq!['\n']));
    }

    /// Consume and emit, each on its own line, all pending comments whose
    /// offset is before `before_byte`.
    pub fn inject_trivia_before(&mut self, before_byte: usize)
        requires
            old(self).wf(),
        ensures
            final(self).st() == inject_st(old(self).st(), old(self).cfg(), before_byte),
            final(self).cfg() == old(self).cfg(),
            final(self).wf(),
    {
        let ghost c = self.cfg();
        let ghost s0 = self.st();
        while self.tpos < self.trivia.len() && self.trivia[self.tpos].byte_offset < before_byte
            invariant
                self.wf(),
                self.cfg() == c,
                inject_st(s0, c, before_byte) == inject_st(self.st(), c, before_byte),
            decreases self.trivia.len() - self.tpos,
        {
            let item = self.trivia[self.tpos].clone();
            self.emit_own_line_trivia(&item);
            self.tpos = self.tpos + 1;
        }
    }

    /// Same as [`Printer::inject_trivia_before`], used before a closing brace.
    pub fn flush_trivia_before(&mut self, before_byte: usize)
        requires
            old(self).wf(),
        ensures
            final(self).st() == inject_st(old(self).st(), old(self).cfg(), before_byte),
            final(self).cfg() == old(self).cfg(),
            final(self).wf(),
    {
        self.inject_trivia_before(before_byte);
    }

    pub fn flush_remaining_trivia(&mut self)
        requires
            old(self).wf(),
        ensures
            final(self).st() == flush_all_st(old(self).st(), old(self).cfg()),
            final(self).cfg() == old(self).cfg(),
            final(self).wf(),
            final(self).tpos == final(self).trivia@.len(),
    {
        let ghost c = self.cfg();
        let ghost s0 = self.st();
        while self.tpos < self.trivia.len()
            invariant
                self.wf(),
                self.cfg() == c,
                flush_all_st(s0, c) == flush_all_st(self.st(), c),
            decreases self.trivia.len() - self.tpos,
        {
            let item = self.trivia[self.tpos].clone();
            self.emit_own_line_trivia(&item);
            self.tpos = self.tpos + 1;
        }
    }

    fn eol_text(text: &[char]) -> (r: Vec<char>)
        ensures
            r@ == eol_rendered(text@),
    {
        if text.len() >= 2 && text[0] == '/' && text[1] == '/' {
            assert(text@.take(2) =~= line_open());
            line_comment_chars(text)
        } else {
            proof {
                if starts_with(text@, line_open()) {
                    assert(text@.take(2)[0] == '/');
                    assert(text@.take(2)[1] == '/');
                }
            }
            let e = trim_end_len_exec(text);
            sub_vec(text, 0, e)
        }
    }

    /// Width of the pending end-of-line comment for the statement ending on
    /// `stmt_end_line` at `stmt_end_byte` (two spaces and its normalized
    /// text), or 0 when there is none.
    pub fn pending_eol_width(
        &self,
        stmt_end_line: usize,
        stmt_end_byte: usize,
        next_stmt_start: usize,
    ) -> (w: usize)
        requires
            self.wf(),
        ensures
            w == pending_eol(self.st(), self.cfg(), stmt_end_line, stmt_end_byte, next_stmt_start),
    {
        if self.tpos < self.trivia.len() && is_eol_comment(
            &self.trivia[self.tpos],
            stmt_end_line,
            stmt_end_byte,
            next_stmt_start,
        ) {
            let text = chars_of(self.trivia[self.tpos].text.as_str());
            let r = Self::eol_text(text.as_slice());
            2usize.saturating_add(r.len())
        } else {
            0
        }
    }

    /// If the next pending comment trails the statement just printed, consume
    /// it and return it.
    pub fn take_eol_comment(
        &mut self,
        stmt_end_line: usize,
        stmt_end_byte: usize,
        next_stmt_start: usize,
    ) -> (r: Option<TriviaItem>)
        requires
            old(self).wf(),
        ensures
            final(self).wf(),
            final(self).cfg() == old(self).cfg(),
            eol_pending(old(self).st(), old(self).cfg(), stmt_end_line, stmt_end_byte, next_stmt_start)
                ==> r == Some(old(self).trivia@[old(self).tpos as int]) && final(self).st() == (St {
                tpos: old(self).tpos + 1,
                ..old(self).st()
            }),
            !eol_pending(old(self).st(), old(self).cfg(), stmt_end_line, stmt_end_byte, next_stmt_start)
                ==> r is None && final(self).st() == old(self).st(),
    {
        if self.tpos < self.trivia.len() && is_eol_comment(
            &self.trivia[self.tpos],
            stmt_end_line,
            stmt_end_byte,
            next_stmt_start,
        ) {
            let item = self.trivia[self.tpos].clone();
            self.tpos = self.tpos + 1;
            Some(item)
        } else {
            None
        }
    }

    /// Append `eol`, if present, as an end-of-line comment.
    pub fn emit_eol(&mut self, eol: Option<TriviaItem>)
        ensures
            final(self).only_output_changed(*old(self)),
            final(self).output@ == old(self).output@ + eol_st_text(eol),
    {
        match eol {
            Some(item) => {
                self.emit_char(' ');
                self.emit_char(' ');
                let text = chars_of(item.text.as_str());
                let r = Self::eol_text(text.as_slice());
                self.emit(r.as_slice());
                assert(self.output@ =~= old(self).output@ + (seq![' ', ' '] + eol_rendered(
                    item.text@,
                )));
            },
            None => {
                assert(self.output@ + Seq::<char>::empty() =~= self.output@);
            },
        }
    }

    /// Consume and print the trailing comment of the statement, if any.
    pub fn trailing_comment(&mut self, el: usize, eb: usize, ns: usize)
        requires
            old(self).wf(),
        ensures
            final(self).st() == eol_st(old(self).st(), old(self).cfg(), el, eb, ns),
            final(self).cfg() == old(self).cfg(),
            final(self).wf(),
    {
        let eol = self.take_eol_comment(el, eb, ns);
        let ghost mid = *self;
        self.emit_eol(eol);
        assert(self.only_output_changed(mid));
    }
}

} // verus!
