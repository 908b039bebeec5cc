//! `.m1fmt.toml` project configuration: parsing, and the layering of the
//! configuration sources into [`FormatOptions`].
//!
//! A project may commit a `.m1fmt.toml` (or `m1fmt.toml`) at its root:
//!
//! ```toml
//! max_line_length = 88
//! max_blank_lines = 1
//! ```
//!
//! Values are merged into [`FormatOptions`] with precedence
//! CLI flag > `.m1fmt.toml` > `m1-tools.toml [format]` > built-in default.

use vstd::prelude::*;
use crate::text::{chars_of, push_all, string_of};
use crate::{BraceStyle, FormatOptions, IndentStyle, default_options};

verus! {

/// Upper bound on the tab/continuation width knobs. A pathologically large
/// value (from a committed config or a stray flag) would otherwise blow up
/// the wrapping column math; the resolver clamps to this.
pub const MAX_INDENT_WIDTH: usize = 64;

/// The brace style a spelling names: `allman`, or `kr` / `k&r` / `knr`.
pub open spec fn brace_style_of(s: Seq<char>) -> Option<BraceStyle> {
    if s == seq!['a', 'l', 'l', 'm', 'a', 'n'] {
        Some(BraceStyle::Allman)
    } else if s == seq!['k', 'r'] || s == seq!['k', '&', 'r'] || s == seq!['k', 'n', 'r'] {
        Some(BraceStyle::Kr)
    } else {
        None
    }
}

/// The indent style a spelling names: `tab` / `tabs`, or `space` /
/// `spaces`.
pub open spec fn indent_style_of(s: Seq<char>) -> Option<IndentStyle> {
    if s == seq!['t', 'a', 'b'] || s == seq!['t', 'a', 'b', 's'] {
        Some(IndentStyle::Tab)
    } else if s == seq!['s', 'p', 'a', 'c', 'e'] || s == seq!['s', 'p', 'a', 'c', 'e', 's'] {
        Some(IndentStyle::Spaces)
    } else {
        None
    }
}

fn chars_are(s: &[char], w: &[char]) -> (r: bool)
    ensures
        r == (s@ == w@),
{
    crate::text::chars_eq(s, w)
}

/// Map a `brace_style` string to the enum. Accepts the documented spellings.
pub fn parse_brace_style(s: &str) -> (r: Option<BraceStyle>)
    ensures
        r == brace_style_of(s@),
{
    let c = chars_of(s);
    let allman = ['a', 'l', 'l', 'm', 'a', 'n'];
    let kr = ['k', 'r'];
    let kar = ['k', '&', 'r'];
    let knr = ['k', 'n', 'r'];
    assert(allman@ =~= seq!['a', 'l', 'l', 'm', 'a', 'n']);
    assert(kr@ =~= seq!['k', 'r']);
    assert(kar@ =~= seq!['k', '&', 'r']);
    assert(knr@ =~= seq!['k', 'n', 'r']);
    if chars_are(c.as_slice(), allman.as_slice()) {
        Some(BraceStyle::Allman)
    } else if chars_are(c.as_slice(), kr.as_slice()) || chars_are(c.as_slice(), kar.as_slice())
        || chars_are(c.as_slice(), knr.as_slice()) {
        Some(BraceStyle::Kr)
    } else {
        None
    }
}

/// Map an `indent_style` string to the enum. Accepts the documented
/// spellings.
pub fn parse_indent_style(s: &str) -> (r: Option<IndentStyle>)
    ensures
        r == indent_style_of(s@),
{
    let c = chars_of(s);
    let tab = ['t', 'a', 'b'];
    let tabs = ['t', 'a', 'b', 's'];
    let space = ['s', 'p', 'a', 'c', 'e'];
    let spaces = ['s', 'p', 'a', 'c', 'e', 's'];
    assert(tab@ =~= seq!['t', 'a', 'b']);
    assert(tabs@ =~= seq!['t', 'a', 'b', 's']);
    assert(space@ =~= seq!['s', 'p', 'a', 'c', 'e']);
    assert(spaces@ =~= seq!['s', 'p', 'a', 'c', 'e', 's']);
    if chars_are(c.as_slice(), tab.as_slice()) || chars_are(c.as_slice(), tabs.as_slice()) {
        Some(IndentStyle::Tab)
    } else if chars_are(c.as_slice(), space.as_slice()) || chars_are(
        c.as_slice(),
        spaces.as_slice(),
    ) {
        Some(IndentStyle::Spaces)
    } else {
        None
    }
}

/// Parsed config; absent keys are `None` so callers can layer precedence.
#[derive(Debug, Clone, Copy, PartialEq, Eq, Structural)]
pub struct FileConfig {
    /// Maps to `FormatOptions::line_width`.
    pub max_line_length: Option<usize>,
    /// Maps to `FormatOptions::max_blank_lines`.
    pub max_blank_lines: Option<usize>,
    /// Maps to `FormatOptions::brace_style` (`"allman"` | `"kr"`).
    pub brace_style: Option<BraceStyle>,
    /// Maps to `FormatOptions::indent_style` (`"tab"` | `"spaces"`).
    pub indent_style: Option<IndentStyle>,
    /// Maps to `FormatOptions::indent_width`.
    pub indent_width: Option<usize>,
    /// Maps to `FormatOptions::continuation_indent`.
    pub continuation_indent: Option<usize>,
    /// Maps to `FormatOptions::align_assignments`.
    pub align_assignments: Option<bool>,
    /// Maps to `FormatOptions::reflow_comments`.
    pub reflow_comments: Option<bool>,
    /// Maps to `FormatOptions::final_blank_line`.
    pub final_blank_line: Option<bool>,
}

pub open spec fn empty_file_config() -> FileConfig {
    FileConfig {
        max_line_length: None,
        max_blank_lines: None,
        brace_style: None,
        indent_style: None,
        indent_width: None,
        continuation_indent: None,
        align_assignments: None,
        reflow_comments: None,
        final_blank_line: None,
    }
}

impl Default for FileConfig {
    fn default() -> (r: Self)
        ensures
            r == empty_file_config(),
    {
        FileConfig {
            max_line_length: None,
            max_blank_lines: None,
            brace_style: None,
            indent_style: None,
            indent_width: None,
            continuation_indent: None,
            align_assignments: None,
            reflow_comments: None,
            final_blank_line: None,
        }
    }
}

// ---------------------------------------------------------------------------
// TOML documents
// ---------------------------------------------------------------------------

/// A TOML value as the configuration reads it: a string, an integer, a
/// boolean, or anything else.
pub enum TomlValue {
    Str(String),
    Integer(i64),
    Boolean(bool),
    Other,
}

/// A TOML value as plain values.
pub enum TomlValueView {
    Str(Seq<char>),
    Integer(i64),
    Boolean(bool),
    Other,
}

pub open spec fn value_view(v: TomlValue) -> TomlValueView {
    match v {
        TomlValue::Str(s) => TomlValueView::Str(s@),
        TomlValue::Integer(i) => TomlValueView::Integer(i),
        TomlValue::Boolean(b) => TomlValueView::Boolean(b),
        TomlValue::Other => TomlValueView::Other,
    }
}

/// The top-level entries of a TOML document as plain values.
pub open spec fn entries_view(es: Seq<(String, TomlValue)>) -> Seq<(Seq<char>, TomlValueView)> {
    es.map_values(|e: (String, TomlValue)| (e.0@, value_view(e.1)))
}

/// What `toml` makes of a document: its top-level table's entries, or the
/// text of its parse error.
pub uninterp spec fn toml_document(s: Seq<char>) -> Result<Seq<(Seq<char>, TomlValueView)>, Seq<char>>;

/// Parse `s` as a TOML table with `toml` (`str::parse::<toml::Table>`),
/// handing back its entries with each value reduced to what the
/// configuration reads, or the error's text. The result is named by
/// [`toml_document`]; nothing more is stated of it.
#[verifier::external_body]
fn parse_toml_table(s: &str) -> (r: Result<Vec<(String, TomlValue)>, String>)
    ensures
        toml_document(s@) == match r {
            Ok(es) => Ok(entries_view(es@)),
            Err(e) => Err(e@),
        },
{
    match s.parse::<toml::Table>() {
        Ok(t) => Ok(t.into_iter().map(|(k, v)| (k, match v {
            toml::Value::String(x) => TomlValue::Str(x),
            toml::Value::Integer(i) => TomlValue::Integer(i),
            toml::Value::Boolean(b) => TomlValue::Boolean(b),
            toml::Value::Float(_) => TomlValue::Other,
            toml::Value::Datetime(_) => TomlValue::Other,
            toml::Value::Array(_) => TomlValue::Other,
            toml::Value::Table(_) => TomlValue::Other,
        })).collect()),
        Err(e) => Err(e.to_string()),
    }
}

/// The value of the first entry named `key`.
pub open spec fn lookup(es: Seq<(Seq<char>, TomlValueView)>, key: Seq<char>) -> Option<TomlValueView>
    decreases es.len(),
{
    if es.len() == 0 {
        None
    } else if es[0].0 == key {
        Some(es[0].1)
    } else {
        lookup(es.drop_first(), key)
    }
}

/// A non-negative integer entry, as a `usize`.
pub open spec fn uint_entry(es: Seq<(Seq<char>, TomlValueView)>, key: Seq<char>) -> Option<usize> {
    match lookup(es, key) {
        Some(TomlValueView::Integer(i)) => if i >= 0 {
            Some(i as usize)
        } else {
            None
        },
        _ => None,
    }
}

pub open spec fn bool_entry(es: Seq<(Seq<char>, TomlValueView)>, key: Seq<char>) -> Option<bool> {
    match lookup(es, key) {
        Some(TomlValueView::Boolean(b)) => Some(b),
        _ => None,
    }
}

pub open spec fn str_entry(es: Seq<(Seq<char>, TomlValueView)>, key: Seq<char>) -> Option<Seq<char>> {
    match lookup(es, key) {
        Some(TomlValueView::Str(s)) => Some(s),
        _ => None,
    }
}

pub open spec fn k_max_line_length() -> Seq<char> {
    seq!['m', 'a', 'x', '_', 'l', 'i', 'n', 'e', '_', 'l', 'e', 'n', 'g', 't', 'h']
}

pub open spec fn k_max_blank_lines() -> Seq<char> {
    seq!['m', 'a', 'x', '_', 'b', 'l', 'a', 'n', 'k', '_', 'l', 'i', 'n', 'e', 's']
}

pub open spec fn k_brace_style() -> Seq<char> {
    seq!['b', 'r', 'a', 'c', 'e', '_', 's', 't', 'y', 'l', 'e']
}

pub open spec fn k_indent_style() -> Seq<char> {
    seq!['i', 'n', 'd', 'e', 'n', 't', '_', 's', 't', 'y', 'l', 'e']
}

pub open spec fn k_indent_width() -> Seq<char> {
    seq!['i', 'n', 'd', 'e', 'n', 't', '_', 'w', 'i', 'd', 't', 'h']
}

pub open spec fn k_continuation_indent() -> Seq<char> {
    seq![
        'c',
        'o',
        'n',
        't',
        'i',
        'n',
        'u',
        'a',
        't',
        'i',
        'o',
        'n',
        '_',
        'i',
        'n',
        'd',
        'e',
        'n',
        't',
    ]
}

pub open spec fn k_align_assignments() -> Seq<char> {
    seq!['a', 'l', 'i', 'g', 'n', '_', 'a', 's', 's', 'i', 'g', 'n', 'm', 'e', 'n', 't', 's']
}

pub open spec fn k_reflow_comments() -> Seq<char> {
    seq!['r', 'e', 'f', 'l', 'o', 'w', '_', 'c', 'o', 'm', 'm', 'e', 'n', 't', 's']
}

pub open spec fn k_final_blank_line() -> Seq<char> {
    seq!['f', 'i', 'n', 'a', 'l', '_', 'b', 'l', 'a', 'n', 'k', '_', 'l', 'i', 'n', 'e']
}

/// `invalid <key>: <value>`.
pub open spec fn invalid_message(key: Seq<char>, v: Seq<char>) -> Seq<char> {
    seq!['i', 'n', 'v', 'a', 'l', 'i', 'd', ' '] + key + seq![':', ' '] + v
}

/// The configuration a document's entries give: the known keys read (a
/// negative or non-integer width, or a non-boolean flag, counts as absent;
/// unknown keys are ignored), or an error naming a style key whose string
/// value is not a recognised spelling (the brace style is checked first).
pub open spec fn config_of(es: Seq<(Seq<char>, TomlValueView)>) -> Result<FileConfig, Seq<char>> {
    let bs = str_entry(es, k_brace_style());
    let is = str_entry(es, k_indent_style());
    if bs is Some && brace_style_of(bs.unwrap()) is None {
        Err(invalid_message(k_brace_style(), bs.unwrap()))
    } else if is is Some && indent_style_of(is.unwrap()) is None {
        Err(invalid_message(k_indent_style(), is.unwrap()))
    } else {
        Ok(
            FileConfig {
                max_line_length: uint_entry(es, k_max_line_length()),
                max_blank_lines: uint_entry(es, k_max_blank_lines()),
                brace_style: match bs {
                    Some(s) => brace_style_of(s),
                    None => None,
                },
                indent_style: match is {
                    Some(s) => indent_style_of(s),
                    None => None,
                },
                indent_width: uint_entry(es, k_indent_width()),
                continuation_indent: uint_entry(es, k_continuation_indent()),
                align_assignments: bool_entry(es, k_align_assignments()),
                reflow_comments: bool_entry(es, k_reflow_comments()),
                final_blank_line: bool_entry(es, k_final_blank_line()),
            },
        )
    }
}

/// The parse of a `.m1fmt.toml` body: the configuration its entries give,
/// or the TOML parse error's text.
pub open spec fn parse_spec(s: Seq<char>) -> Result<FileConfig, Seq<char>> {
    match toml_document(s) {
        Ok(es) => config_of(es),
        Err(e) => Err(e),
    }
}

fn lookup_exec(es: &Vec<(String, TomlValue)>, key: &[char]) -> (r: Option<usize>)
    ensures
        match r {
            Some(i) => i < es@.len() && lookup(entries_view(es@), key@) == Some(
                value_view(es@[i as int].1),
            ),
            None => lookup(entries_view(es@), key@) is None,
        },
{
    let ghost ev = entries_view(es@);
    let mut i: usize = 0;
    assert(ev.skip(0) =~= ev);
    while i < es.len()
        invariant
            i <= es.len(),
            ev == entries_view(es@),
            lookup(ev, key@) == lookup(ev.skip(i as int), key@),
        decreases es.len() - i,
    {
        assert(ev.skip(i as int)[0] == ev[i as int]);
        assert(ev.skip(i as int).drop_first() =~= ev.skip(i + 1));
        let k = chars_of(es[i].0.as_str());
        if crate::text::chars_eq(k.as_slice(), key) {
            return Some(i);
        }
        i += 1;
    }
    None
}

fn uint_exec(es: &Vec<(String, TomlValue)>, key: &[char]) -> (r: Option<usize>)
    ensures
        r == uint_entry(entries_view(es@), key@),
{
    match lookup_exec(es, key) {
        Some(i) => match &es[i].1 {
            TomlValue::Integer(v) => if *v >= 0 {
                Some(*v as usize)
            } else {
                None
            },
            _ => None,
        },
        None => None,
    }
}

fn bool_exec(es: &Vec<(String, TomlValue)>, key: &[char]) -> (r: Option<bool>)
    ensures
        r == bool_entry(entries_view(es@), key@),
{
    match lookup_exec(es, key) {
        Some(i) => match &es[i].1 {
            TomlValue::Boolean(b) => Some(*b),
            _ => None,
        },
        None => None,
    }
}

fn str_exec(es: &Vec<(String, TomlValue)>, key: &[char]) -> (r: Option<Vec<char>>)
    ensures
        match r {
            Some(v) => str_entry(entries_view(es@), key@) == Some(v@),
            None => str_entry(entries_view(es@), key@) is None,
        },
{
    match lookup_exec(es, key) {
        Some(i) => match &es[i].1 {
            TomlValue::Str(s) => Some(chars_of(s.as_str())),
            _ => None,
        },
        None => None,
    }
}

fn invalid_message_exec(key: &[char], v: &[char]) -> (r: String)
    ensures
        r@ == invalid_message(key@, v@),
{
    let mut m: Vec<char> = Vec::new();
    let a = ['i', 'n', 'v', 'a', 'l', 'i', 'd', ' '];
    push_all(&mut m, a.as_slice());
    push_all(&mut m, key);
    m.push(':');
    m.push(' ');
    push_all(&mut m, v);
    assert(m@ =~= invalid_message(key@, v@));
    string_of(m.as_slice())
}

/// The configuration that the entries of a parsed TOML document give (see
/// [`config_of`]).
pub fn config_from_entries(es: &Vec<(String, TomlValue)>) -> (r: Result<FileConfig, String>)
    ensures
        match r {
            Ok(c) => config_of(entries_view(es@)) == Ok::<FileConfig, Seq<char>>(c),
            Err(e) => config_of(entries_view(es@)) == Err::<FileConfig, Seq<char>>(e@),
        },
{
    let k_bs = ['b', 'r', 'a', 'c', 'e', '_', 's', 't', 'y', 'l', 'e'];
    assert(k_bs@ =~= k_brace_style());
    let k_is = ['i', 'n', 'd', 'e', 'n', 't', '_', 's', 't', 'y', 'l', 'e'];
    assert(k_is@ =~= k_indent_style());
    let bs = str_exec(es, k_bs.as_slice());
    let is = str_exec(es, k_is.as_slice());
    let brace_style = match &bs {
        Some(s) => {
            let st = parse_brace_style(string_of(s.as_slice()).as_str());
            if st.is_none() {
                return Err(invalid_message_exec(k_bs.as_slice(), s.as_slice()));
            }
            st
        },
        None => None,
    };
    let indent_style = match &is {
        Some(s) => {
            let st = parse_indent_style(string_of(s.as_slice()).as_str());
            if st.is_none() {
                return Err(invalid_message_exec(k_is.as_slice(), s.as_slice()));
            }
            st
        },
        None => None,
    };
    let k1 = ['m', 'a', 'x', '_', 'l', 'i', 'n', 'e', '_', 'l', 'e', 'n', 'g', 't', 'h'];
    assert(k1@ =~= k_max_line_length());
    let k2 = ['m', 'a', 'x', '_', 'b', 'l', 'a', 'n', 'k', '_', 'l', 'i', 'n', 'e', 's'];
    assert(k2@ =~= k_max_blank_lines());
    let k3 = ['i', 'n', 'd', 'e', 'n', 't', '_', 'w', 'i', 'd', 't', 'h'];
    assert(k3@ =~= k_indent_width());
    let k4 = [
        'c',
        'o',
        'n',
        't',
        'i',
        'n',
        'u',
        'a',
        't',
        'i',
        'o',
        'n',
        '_',
        'i',
        'n',
        'd',
        'e',
        'n',
        't',
    ];
    assert(k4@ =~= k_continuation_indent());
    let k5 = ['a', 'l', 'i', 'g', 'n', '_', 'a', 's', 's', 'i', 'g', 'n', 'm', 'e', 'n', 't', 's'];
    assert(k5@ =~= k_align_assignments());
    let k6 = ['r', 'e', 'f', 'l', 'o', 'w', '_', 'c', 'o', 'm', 'm', 'e', 'n', 't', 's'];
    assert(k6@ =~= k_reflow_comments());
    let k7 = ['f', 'i', 'n', 'a', 'l', '_', 'b', 'l', 'a', 'n', 'k', '_', 'l', 'i', 'n', 'e'];
    assert(k7@ =~= k_final_blank_line());
    Ok(
        FileConfig {
            max_line_length: uint_exec(es, k1.as_slice()),
            max_blank_lines: uint_exec(es, k2.as_slice()),
            brace_style,
            indent_style,
            indent_width: uint_exec(es, k3.as_slice()),
            continuation_indent: uint_exec(es, k4.as_slice()),
            align_assignments: bool_exec(es, k5.as_slice()),
            reflow_comments: bool_exec(es, k6.as_slice()),
            final_blank_line: bool_exec(es, k7.as_slice()),
        },
    )
}

/// Parse a `.m1fmt.toml` body. Unknown keys are ignored; missing keys stay
/// `None`. Returns an error string only on malformed TOML or an invalid
/// style value.
pub fn parse(s: &str) -> (r: Result<FileConfig, String>)
    ensures
        match r {
            Ok(c) => parse_spec(s@) == Ok::<FileConfig, Seq<char>>(c),
            Err(e) => parse_spec(s@) == Err::<FileConfig, Seq<char>>(e@),
        },
{
    match parse_toml_table(s) {
        Ok(es) => config_from_entries(&es),
        Err(e) => Err(e),
    }
}

// ---------------------------------------------------------------------------
// Layering
// ---------------------------------------------------------------------------

/// The `[format]` section of the unified `m1-tools.toml`, as the workspace
/// configuration reads it (the style keys still as their spellings).
pub struct FormatSection {
    pub line_width: Option<usize>,
    pub max_blank_lines: Option<usize>,
    pub indent_width: Option<usize>,
    pub indent_style: Option<String>,
    pub brace_style: Option<String>,
    pub continuation_indent: Option<usize>,
    pub align_assignments: Option<bool>,
    pub reflow_comments: Option<bool>,
    pub final_blank_line: Option<bool>,
}

pub open spec fn or_keep<T>(v: Option<T>, d: T) -> T {
    match v {
        Some(x) => x,
        None => d,
    }
}

/// A spelled style option that overrides `d` only when recognised.
pub open spec fn indent_or(v: Option<String>, d: IndentStyle) -> IndentStyle {
    match v {
        Some(s) => or_keep(indent_style_of(s@), d),
        None => d,
    }
}

pub open spec fn brace_or(v: Option<String>, d: BraceStyle) -> BraceStyle {
    match v {
        Some(s) => or_keep(brace_style_of(s@), d),
        None => d,
    }
}

/// `o` with the unified section's keys applied (a style spelling that is
/// not recognised is skipped).
pub open spec fn section_layer(o: FormatOptions, f: FormatSection) -> FormatOptions {
    FormatOptions {
        max_blank_lines: or_keep(f.max_blank_lines, o.max_blank_lines),
        line_width: or_keep(f.line_width, o.line_width),
        indent_style: indent_or(f.indent_style, o.indent_style),
        indent_width: or_keep(f.indent_width, o.indent_width),
        brace_style: brace_or(f.brace_style, o.brace_style),
        continuation_indent: or_keep(f.continuation_indent, o.continuation_indent),
        align_assignments: or_keep(f.align_assignments, o.align_assignments),
        reflow_comments: or_keep(f.reflow_comments, o.reflow_comments),
        final_blank_line: or_keep(f.final_blank_line, o.final_blank_line),
    }
}

/// `o` with a `.m1fmt.toml`'s keys applied.
pub open spec fn file_layer(o: FormatOptions, c: FileConfig) -> FormatOptions {
    FormatOptions {
        max_blank_lines: or_keep(c.max_blank_lines, o.max_blank_lines),
        line_width: or_keep(c.max_line_length, o.line_width),
        indent_style: or_keep(c.indent_style, o.indent_style),
        indent_width: or_keep(c.indent_width, o.indent_width),
        brace_style: or_keep(c.brace_style, o.brace_style),
        continuation_indent: or_keep(c.continuation_indent, o.continuation_indent),
        align_assignments: or_keep(c.align_assignments, o.align_assignments),
        reflow_comments: or_keep(c.reflow_comments, o.reflow_comments),
        final_blank_line: or_keep(c.final_blank_line, o.final_blank_line),
    }
}

pub open spec fn cap(v: usize) -> usize {
    if v > MAX_INDENT_WIDTH {
        MAX_INDENT_WIDTH
    } else {
        v
    }
}

/// `o` with both width knobs capped at [`MAX_INDENT_WIDTH`].
pub open spec fn capped(o: FormatOptions) -> FormatOptions {
    FormatOptions {
        indent_width: cap(o.indent_width),
        continuation_indent: cap(o.continuation_indent),
        ..o
    }
}

/// The options from configuration files alone: the defaults, then the
/// unified section, then the `.m1fmt.toml`, widths capped.
pub open spec fn resolved_options(tools: Option<FormatSection>, file: Option<FileConfig>) -> FormatOptions {
    let o1 = match tools {
        Some(f) => section_layer(default_options(), f),
        None => default_options(),
    };
    let o2 = match file {
        Some(c) => file_layer(o1, c),
        None => o1,
    };
    capped(o2)
}

pub fn keep<T>(v: Option<T>, d: T) -> (r: T)
    ensures
        r == or_keep(v, d),
{
    match v {
        Some(x) => x,
        None => d,
    }
}

fn spelled_indent(v: &Option<String>, d: IndentStyle) -> (r: IndentStyle)
    ensures
        r == indent_or(*v, d),
{
    match v {
        Some(s) => keep(parse_indent_style(s.as_str()), d),
        None => d,
    }
}

fn spelled_brace(v: &Option<String>, d: BraceStyle) -> (r: BraceStyle)
    ensures
        r == brace_or(*v, d),
{
    match v {
        Some(s) => keep(parse_brace_style(s.as_str()), d),
        None => d,
    }
}

/// Resolve the effective [`FormatOptions`] from the configuration files
/// found for a directory: the unified `m1-tools.toml [format]` section
/// (lowest layer), then the tool-specific `.m1fmt.toml`; the width knobs
/// are capped at [`MAX_INDENT_WIDTH`].
pub fn resolve_options(tools: Option<&FormatSection>, file: Option<&FileConfig>) -> (r:
    FormatOptions)
    ensures
        r == resolved_options(
            match tools {
                Some(f) => Some(*f),
                None => None,
            },
            match file {
                Some(c) => Some(*c),
                None => None,
            },
        ),
{
    let mut o = FormatOptions::default();
    if let Some(f) = tools {
        o = FormatOptions {
            max_blank_lines: keep(f.max_blank_lines, o.max_blank_lines),
            line_width: keep(f.line_width, o.line_width),
            indent_style: spelled_indent(&f.indent_style, o.indent_style),
            indent_width: keep(f.indent_width, o.indent_width),
            brace_style: spelled_brace(&f.brace_style, o.brace_style),
            continuation_indent: keep(f.continuation_indent, o.continuation_indent),
            align_assignments: keep(f.align_assignments, o.align_assignments),
            reflow_comments: keep(f.reflow_comments, o.reflow_comments),
            final_blank_line: keep(f.final_blank_line, o.final_blank_line),
        };
    }
    if let Some(c) = file {
        o = FormatOptions {
            max_blank_lines: keep(c.max_blank_lines, o.max_blank_lines),
            line_width: keep(c.max_line_length, o.line_width),
            indent_style: keep(c.indent_style, o.indent_style),
            indent_width: keep(c.indent_width, o.indent_width),
            brace_style: keep(c.brace_style, o.brace_style),
            continuation_indent: keep(c.continuation_indent, o.continuation_indent),
            align_assignments: keep(c.align_assignments, o.align_assignments),
            reflow_comments: keep(c.reflow_comments, o.reflow_comments),
            final_blank_line: keep(c.final_blank_line, o.final_blank_line),
        };
    }
    if o.indent_width > MAX_INDENT_WIDTH {
        o.indent_width = MAX_INDENT_WIDTH;
    }
    if o.continuation_indent > MAX_INDENT_WIDTH {
        o.continuation_indent = MAX_INDENT_WIDTH;
    }
    o
}

} // verus!
