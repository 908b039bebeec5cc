//! The M1 source printer.
//!
//! [`Printer`] holds all formatting state; its inherent `impl` is spread over:
//! - `infra`: emit / trivia / measurement helpers,
//! - `statements`: statement dispatch and simple statements,
//! - `expressions`: the flat-vs-wrap expression emitters,
//! - `control`: blocks and control-flow constructs,
//! - `normalize`: whole-output post-processing (free functions).

pub mod control;
pub mod expressions;
pub mod infra;
pub mod normalize;
pub mod statements;
pub mod preserve;
pub mod tokens;

use vstd::prelude::*;
use crate::cst::{Cst, Kind, Node, count_nc, is_comment, kind_is_comment};
use crate::printer::infra::flush_all_st;
use crate::printer::normalize::{
    align_assignment_groups, align_assignments, blank_after_top_when, ends_in_newline,
    ensure_blank_after_top_level_when, lemma_align_end, lemma_normalized_end, lemma_reflow_end,
    no_blank_end, normalize_trailing, normalized_trailing, reflow_comments,
    reflow_long_line_comments, reflow_piece, strip_brace_adjacent_blanks, strip_brace_blanks,
};
use crate::printer::statements::stmt_lines_st;
use crate::text::{
    has_char, last_line_start, repeat_char, sat_add, sat_mul, split_incl, string_of, vwidth,
};
use crate::trivia::{TriviaItem, collect_trivia, trivia_of};
use crate::{BraceStyle, FormatOptions, IndentStyle, default_options};

verus! {

pub struct Printer {
    pub indent: usize,
    pub output: Vec<char>,
    /// The comments not yet printed are `trivia[tpos..]`.
    pub trivia: Vec<TriviaItem>,
    pub tpos: usize,
    pub width: usize,
    /// Source end line of the most recently emitted statement, used to
    /// preserve author blank lines between statements.
    pub prev_end_line: Option<usize>,
    /// Width the pending end-of-line comment (and `;`) will occupy on the
    /// final line of the current statement.
    pub eol_reserve: usize,
    pub indent_style: IndentStyle,
    pub indent_width: usize,
    pub brace_style: BraceStyle,
    /// Extra indent levels for wrapped/continuation lines.
    pub continuation_indent: usize,
}

/// The layout parameters an expression is printed under.
pub struct Geom {
    pub width: usize,
    pub eol_reserve: usize,
    pub indent: usize,
    pub cont: usize,
    pub iw: usize,
    pub style: IndentStyle,
}

impl Printer {
    pub open spec fn geom(&self) -> Geom {
        Geom {
            width: self.width,
            eol_reserve: self.eol_reserve,
            indent: self.indent,
            cont: self.continuation_indent,
            iw: self.indent_width,
            style: self.indent_style,
        }
    }

    /// Everything but the output is as in `old`.
    pub open spec fn only_output_changed(&self, old: Printer) -> bool {
        &&& self.indent == old.indent
        &&& self.trivia == old.trivia
        &&& self.tpos == old.tpos
        &&& self.width == old.width
        &&& self.prev_end_line == old.prev_end_line
        &&& self.eol_reserve == old.eol_reserve
        &&& self.indent_style == old.indent_style
        &&& self.indent_width == old.indent_width
        &&& self.brace_style == old.brace_style
        &&& self.continuation_indent == old.continuation_indent
    }
}

/// The printer state a statement transforms: the output so far, the cursor
/// into the pending comments, the end line of the last printed statement,
/// the block indent, the wrap width and the reserved end-of-line width.
pub struct St {
    pub out: Seq<char>,
    pub tpos: int,
    pub prev: Option<usize>,
    pub indent: usize,
    pub width: usize,
    pub eol_reserve: usize,
}

/// What stays fixed while printing: the comments and the style options.
pub struct Cfg {
    pub trivia: Seq<TriviaItem>,
    pub style: IndentStyle,
    pub iw: usize,
    pub brace: BraceStyle,
    pub cont: usize,
}

impl Printer {
    pub open spec fn st(&self) -> St {
        St {
            out: self.output@,
            tpos: self.tpos as int,
            prev: self.prev_end_line,
            indent: self.indent,
            width: self.width,
            eol_reserve: self.eol_reserve,
        }
    }

    pub open spec fn cfg(&self) -> Cfg {
        Cfg {
            trivia: self.trivia@,
            style: self.indent_style,
            iw: self.indent_width,
            brace: self.brace_style,
            cont: self.continuation_indent,
        }
    }

    /// The comment cursor is within the comments.
    pub open spec fn wf(&self) -> bool {
        self.tpos <= self.trivia@.len()
    }
}

/// The layout parameters of a state.
pub open spec fn geom_of(s: St, c: Cfg) -> Geom {
    Geom { width: s.width, eol_reserve: s.eol_reserve, indent: s.indent, cont: c.cont, iw: c.iw, style: c.style }
}

/// `s` with `t` appended to the output.
pub open spec fn app(s: St, t: Seq<char>) -> St {
    St { out: s.out + t, ..s }
}

/// `n` indent levels: `n` tabs, or `n * iw` spaces.
pub open spec fn levels(n: usize, style: IndentStyle, iw: usize) -> Seq<char> {
    match style {
        IndentStyle::Tab => repeat_char('\t', n as nat),
        IndentStyle::Spaces => repeat_char(' ', sat_mul(n, iw) as nat),
    }
}

/// The block indentation.
pub open spec fn indent_text(g: Geom) -> Seq<char> {
    levels(g.indent, g.style, g.iw)
}

/// A continuation line's indentation: the block indent plus `cont` levels.
pub open spec fn cont_text(g: Geom) -> Seq<char> {
    levels(sat_add(g.indent, g.cont), g.style, g.iw)
}

/// Display column of the end of `s` (tabs expanded).
pub open spec fn col_of(s: Seq<char>, iw: usize) -> usize {
    vwidth(s.skip(last_line_start(s)), iw)
}

/// Column after writing `a` at column `col`.
pub open spec fn col_after(col: usize, a: Seq<char>, iw: usize) -> usize {
    if has_char(a, '\n') {
        vwidth(a.skip(last_line_start(a)), iw)
    } else {
        sat_add(col, vwidth(a, iw))
    }
}

pub proof fn lemma_col_of_add(s: Seq<char>, a: Seq<char>, iw: usize)
    ensures
        col_of(s + a, iw) == col_after(col_of(s, iw), a, iw),
{
    crate::text::lemma_last_line_start_add(s, a);
    crate::text::lemma_last_line_start(s);
    crate::text::lemma_last_line_start(a);
    if has_char(a, '\n') {
        assert((s + a).skip(s.len() + last_line_start(a)) =~= a.skip(last_line_start(a)));
    } else {
        assert((s + a).skip(last_line_start(s)) =~= s.skip(last_line_start(s)) + a);
        crate::text::lemma_vwidth_add(s.skip(last_line_start(s)), a, iw);
    }
}

/// Relative binding precedence of a binary operator (higher binds tighter).
pub open spec fn op_prec(op: Seq<char>) -> u8 {
    if op == seq!['o', 'r'] || op == seq!['|', '|'] {
        1
    } else if op == seq!['a', 'n', 'd'] || op == seq!['&', '&'] {
        2
    } else if op == seq!['|'] {
        3
    } else if op == seq!['^'] {
        4
    } else if op == seq!['&'] {
        5
    } else if op == seq!['=', '='] || op == seq!['!', '='] || op == seq!['e', 'q'] || op
        == seq!['n', 'e', 'q'] {
        6
    } else if op == seq!['<'] || op == seq!['>'] || op == seq!['<', '='] || op == seq!['>', '='] {
        7
    } else if op == seq!['<', '<'] || op == seq!['>', '>'] {
        8
    } else if op == seq!['+'] || op == seq!['-'] {
        9
    } else if op == seq!['*'] || op == seq!['/'] || op == seq!['%'] {
        10
    } else {
        0
    }
}

fn eq_lit(s: &[char], lit: &[char]) -> (r: bool)
    ensures
        r == (s@ == lit@),
{
    if s.len() != lit.len() {
        return false;
    }
    let mut i: usize = 0;
    while i < s.len()
        invariant
            s.len() == lit.len(),
            i <= s.len(),
            forall|j: int| 0 <= j < i ==> s@[j] == lit@[j],
        decreases s.len() - i,
    {
        if s[i] != lit[i] {
            return false;
        }
        i += 1;
    }
    assert(s@ =~= lit@);
    true
}

pub fn op_prec_exec(op: &[char]) -> (r: u8)
    ensures
        r == op_prec(op@),
{
    let or_ = ['o', 'r'];
    let oror = ['|', '|'];
    let and_ = ['a', 'n', 'd'];
    let andand = ['&', '&'];
    let pipe = ['|'];
    let caret = ['^'];
    let amp = ['&'];
    let eqeq = ['=', '='];
    let ne = ['!', '='];
    let eq = ['e', 'q'];
    let neq = ['n', 'e', 'q'];
    let lt = ['<'];
    let gt = ['>'];
    let le = ['<', '='];
    let ge = ['>', '='];
    let shl = ['<', '<'];
    let shr = ['>', '>'];
    let plus = ['+'];
    let minus = ['-'];
    let star = ['*'];
    let slash = ['/'];
    let pct = ['%'];
    assert(or_@ =~= seq!['o', 'r']);
    assert(oror@ =~= seq!['|', '|']);
    assert(and_@ =~= seq!['a', 'n', 'd']);
    assert(andand@ =~= seq!['&', '&']);
    assert(pipe@ =~= seq!['|']);
    assert(caret@ =~= seq!['^']);
    assert(amp@ =~= seq!['&']);
    assert(eqeq@ =~= seq!['=', '=']);
    assert(ne@ =~= seq!['!', '=']);
    assert(eq@ =~= seq!['e', 'q']);
    assert(neq@ =~= seq!['n', 'e', 'q']);
    assert(lt@ =~= seq!['<']);
    assert(gt@ =~= seq!['>']);
    assert(le@ =~= seq!['<', '=']);
    assert(ge@ =~= seq!['>', '=']);
    assert(shl@ =~= seq!['<', '<']);
    assert(shr@ =~= seq!['>', '>']);
    assert(plus@ =~= seq!['+']);
    assert(minus@ =~= seq!['-']);
    assert(star@ =~= seq!['*']);
    assert(slash@ =~= seq!['/']);
    assert(pct@ =~= seq!['%']);
    if eq_lit(op, &or_) || eq_lit(op, &oror) {
        1
    } else if eq_lit(op, &and_) || eq_lit(op, &andand) {
        2
    } else if eq_lit(op, &pipe) {
        3
    } else if eq_lit(op, &caret) {
        4
    } else if eq_lit(op, &amp) {
        5
    } else if eq_lit(op, &eqeq) || eq_lit(op, &ne) || eq_lit(op, &eq) || eq_lit(op, &neq) {
        6
    } else if eq_lit(op, &lt) || eq_lit(op, &gt) || eq_lit(op, &le) || eq_lit(op, &ge) {
        7
    } else if eq_lit(op, &shl) || eq_lit(op, &shr) {
        8
    } else if eq_lit(op, &plus) || eq_lit(op, &minus) {
        9
    } else if eq_lit(op, &star) || eq_lit(op, &slash) || eq_lit(op, &pct) {
        10
    } else {
        0
    }
}

/// Index of the `k`-th (0-based) non-comment node of `s`, or `s.len()`.
pub open spec fn nc_index(s: Seq<Node>, k: int) -> int
    decreases s.len(),
{
    if s.len() == 0 {
        0
    } else if !is_comment(s[0].kind) && k == 0 {
        0
    } else {
        1 + nc_index(s.drop_first(), if is_comment(s[0].kind) {
            k
        } else {
            k - 1
        })
    }
}

pub proof fn lemma_nc_index(s: Seq<Node>, k: int)
    ensures
        0 <= nc_index(s, k) <= s.len(),
        0 <= k < count_nc(s) ==> nc_index(s, k) < s.len() && !is_comment(s[nc_index(s, k)].kind),
    decreases s.len(),
{
    if s.len() > 0 {
        lemma_nc_index(s.drop_first(), if is_comment(s[0].kind) {
            k
        } else {
            k - 1
        });
        lemma_count_nc_first(s);
        if !(!is_comment(s[0].kind) && k == 0) && 0 <= k < count_nc(s) {
            let k2 = if is_comment(s[0].kind) {
                k
            } else {
                k - 1
            };
            assert(0 <= k2 < count_nc(s.drop_first()));
            assert(s[nc_index(s, k)] == s.drop_first()[nc_index(s.drop_first(), k2)]);
        }
    }
}

pub open spec fn nc_one(n: Node) -> nat {
    if is_comment(n.kind) {
        0
    } else {
        1
    }
}

/// `count_nc` unfolded from the front.
pub proof fn lemma_count_nc_first(s: Seq<Node>)
    requires
        s.len() > 0,
    ensures
        count_nc(s) == count_nc(s.drop_first()) + nc_one(s[0]),
    decreases s.len(),
{
    if s.len() > 1 {
        lemma_count_nc_first(s.drop_last());
        assert(s.drop_last().drop_first() =~= s.drop_first().drop_last());
        assert(s.drop_last()[0] == s[0]);
        assert(s.drop_first().last() == s.last());
        assert(count_nc(s) == count_nc(s.drop_last()) + nc_one(s.last()));
        assert(count_nc(s.drop_first()) == count_nc(s.drop_first().drop_last()) + nc_one(
            s.drop_first().last(),
        ));
    } else {
        assert(s.drop_first().len() == 0);
        assert(s.drop_last().len() == 0);
        assert(count_nc(s) == count_nc(s.drop_last()) + nc_one(s.last()));
    }
}

pub fn nc_index_exec(s: &Vec<Node>, k: usize) -> (r: usize)
    ensures
        r == nc_index(s@, k as int),
{
    let mut i: usize = 0;
    let mut left = k;
    assert(s@.skip(0) =~= s@);
    while i < s.len()
        invariant
            i <= s.len(),
            nc_index(s@, k as int) == i + nc_index(s@.skip(i as int), left as int),
        decreases s.len() - i,
    {
        assert(s@.skip(i as int)[0] == s@[i as int]);
        assert(s@.skip(i as int).drop_first() =~= s@.skip(i + 1));
        if !kind_is_comment(s[i].kind) {
            if left == 0 {
                return i;
            }
            left -= 1;
        }
        i += 1;
    }
    i
}

pub fn count_nc_exec(s: &Vec<Node>) -> (r: usize)
    ensures
        r == count_nc(s@),
{
    let mut i: usize = 0;
    let mut c: usize = 0;
    while i < s.len()
        invariant
            i <= s.len(),
            c == count_nc(s@.take(i as int)),
            c <= i,
        decreases s.len() - i,
    {
        assert(s@.take(i + 1).drop_last() =~= s@.take(i as int));
        if !kind_is_comment(s[i].kind) {
            c += 1;
        }
        i += 1;
    }
    assert(s@.take(s.len() as int) =~= s@);
    c
}

/// The text of a binary expression's operator (its second non-comment
/// child), or the empty text when it has none.
pub open spec fn binary_op_text(n: Node) -> Seq<char> {
    let i = nc_index(n.children@, 1);
    if 0 <= i < n.children@.len() {
        n.children@[i].text@
    } else {
        seq![]
    }
}

/// Statement kinds whose printed form ends in a `;` on the same line as
/// their (potentially wrapped) expression.
pub open spec fn ends_with_semicolon(kind: Kind) -> bool {
    kind == Kind::LocalDeclaration || kind == Kind::AssignmentStatement || kind
        == Kind::ExpressionStatement
}

pub fn ends_with_semicolon_exec(kind: Kind) -> (r: bool)
    ensures
        r == ends_with_semicolon(kind),
{
    kind == Kind::LocalDeclaration || kind == Kind::AssignmentStatement || kind
        == Kind::ExpressionStatement
}

/// The fixed part of the printer state for a tree and options.
pub open spec fn cfg_of(cst: Cst, opts: FormatOptions) -> Cfg {
    Cfg {
        trivia: trivia_of(cst),
        style: opts.indent_style,
        iw: opts.indent_width,
        brace: opts.brace_style,
        cont: opts.continuation_indent,
    }
}

/// The printer state before anything is printed.
pub open spec fn start_st(opts: FormatOptions) -> St {
    St { out: seq![], tpos: 0, prev: None, indent: 0, width: opts.line_width, eol_reserve: 0 }
}

/// The statements of the file, then the comments left over, before any
/// whole-output pass.
pub open spec fn printed(cst: Cst, opts: FormatOptions) -> Seq<char> {
    let c = cfg_of(cst, opts);
    flush_all_st(stmt_lines_st(start_st(opts), c, cst.root.children@, false), c).out
}

/// The printed statements with blank lines next to braces removed, a blank
/// line after each top-level `when`, and the trailing newlines and blank
/// runs normalized.
pub open spec fn normalized_output(cst: Cst, opts: FormatOptions) -> Seq<char> {
    let o1 = blank_after_top_when(strip_brace_blanks(printed(cst, opts)));
    normalized_trailing(o1, opts.max_blank_lines as nat, opts.final_blank_line)
}

/// The formatted document: the normalized output, then the opt-in comment
/// reflow and assignment alignment.
pub open spec fn print_spec(cst: Cst, opts: FormatOptions) -> Seq<char> {
    let o2 = normalized_output(cst, opts);
    let o3 = if opts.reflow_comments {
        reflow_comments(o2, opts.line_width as int)
    } else {
        o2
    };
    if opts.align_assignments {
        align_assignments(o3, opts.line_width as int)
    } else {
        o3
    }
}

/// Reflow keeps the last line of `t` (it is not an over-width comment made
/// of nothing but its marker and spaces).
pub open spec fn reflow_keeps_last_line(t: Seq<char>, width: int) -> bool {
    t.len() == 0 || reflow_piece(split_incl(t).last(), width).len() > 0
}

/// The formatted document ends with a line break unless it is empty, and
/// without `final_blank_line` it does not end with a blank line (when the
/// comment reflow keeps its last line).
pub proof fn formatted_document_end(cst: Cst, opts: FormatOptions)
    ensures
        ends_in_newline(print_spec(cst, opts)),
        !opts.final_blank_line && (!opts.reflow_comments || reflow_keeps_last_line(
            normalized_output(cst, opts),
            opts.line_width as int,
        )) ==> no_blank_end(print_spec(cst, opts)),
{
    let o1 = blank_after_top_when(strip_brace_blanks(printed(cst, opts)));
    lemma_normalized_end(o1, opts.max_blank_lines as nat, opts.final_blank_line);
    let o2 = normalized_output(cst, opts);
    let w = opts.line_width as int;
    if opts.reflow_comments {
        lemma_reflow_end(o2, w);
    }
    let o3 = if opts.reflow_comments {
        reflow_comments(o2, w)
    } else {
        o2
    };
    if opts.align_assignments {
        lemma_align_end(o3, w);
    }
}

impl Printer {
    pub fn new(cst: &Cst, opts: &FormatOptions) -> (p: Self)
        ensures
            p.st() == start_st(*opts),
            p.cfg() == cfg_of(*cst, *opts),
            p.wf(),
    {
        let trivia = collect_trivia(cst);
        Printer {
            indent: 0,
            output: Vec::new(),
            trivia,
            tpos: 0,
            width: opts.line_width,
            prev_end_line: None,
            eol_reserve: 0,
            indent_style: opts.indent_style,
            indent_width: opts.indent_width,
            brace_style: opts.brace_style,
            continuation_indent: opts.continuation_indent,
        }
    }
}

/// Format a tree with the default options.
pub fn print(cst: &Cst) -> (r: String)
    ensures
        r@ == print_spec(*cst, default_options()),
{
    let opts = FormatOptions::default();
    print_with(cst, &opts)
}

/// Format a tree.
pub fn print_with(cst: &Cst, opts: &FormatOptions) -> (r: String)
    ensures
        r@ == print_spec(*cst, *opts),
{
    let mut p = Printer::new(cst, opts);
    p.print_source_file(&cst.root);
    assert(p.output@ == printed(*cst, *opts));
    let o1 = strip_brace_adjacent_blanks(p.output.as_slice());
    let mut o2 = ensure_blank_after_top_level_when(o1.as_slice());
    normalize_trailing(&mut o2, opts.max_blank_lines, opts.final_blank_line);
    let o3 = if opts.reflow_comments {
        reflow_long_line_comments(o2.as_slice(), opts.line_width)
    } else {
        o2
    };
    let o4 = if opts.align_assignments {
        align_assignment_groups(o3.as_slice(), opts.line_width)
    } else {
        o3
    };
    string_of(o4.as_slice())
}

} // verus!
