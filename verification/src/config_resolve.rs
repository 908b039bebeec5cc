//! Format-option precedence for the command line: the command-line flags
//! layered over the options resolved from the configuration files, with the
//! width knobs capped (and a warning for each value that was capped).

use vstd::prelude::*;
use crate::config::{
    FileConfig, FormatSection, MAX_INDENT_WIDTH, brace_style_of, cap, capped, indent_style_of, keep,
    or_keep, resolved_options,
};
use crate::text::{chars_of, decimal, push_all, push_decimal, string_of};
use crate::{BraceStyle, FormatOptions, IndentStyle};

verus! {

/// Explicit command-line overrides (highest precedence). `None` means "not
/// given on the command line", so the value comes from configuration or the
/// default.
#[derive(Debug, Clone, Copy)]
pub struct CliOverrides {
    pub max_blank_lines: Option<usize>,
    pub line_width: Option<usize>,
    pub indent_style: Option<IndentStyle>,
    pub brace_style: Option<BraceStyle>,
    pub indent_width: Option<usize>,
    pub continuation_indent: Option<usize>,
    /// `Some(true)` forces the option on, `Some(false)` forces it off,
    /// `None` defers to configuration.
    pub align_assignments: Option<bool>,
    pub reflow_comments: Option<bool>,
    pub final_blank_line: Option<bool>,
}

pub open spec fn no_overrides() -> CliOverrides {
    CliOverrides {
        max_blank_lines: None,
        line_width: None,
        indent_style: None,
        brace_style: None,
        indent_width: None,
        continuation_indent: None,
        align_assignments: None,
        reflow_comments: None,
        final_blank_line: None,
    }
}

impl Default for CliOverrides {
    fn default() -> (r: Self)
        ensures
            r == no_overrides(),
    {
        CliOverrides {
            max_blank_lines: None,
            line_width: None,
            indent_style: None,
            brace_style: None,
            indent_width: None,
            continuation_indent: None,
            align_assignments: None,
            reflow_comments: None,
            final_blank_line: None,
        }
    }
}

/// `m1-fmt: <knob> <value> exceeds the maximum of 64; clamped to 64`.
pub open spec fn clamp_message(knob: Seq<char>, value: usize) -> Seq<char> {
    seq!['m', '1', '-', 'f', 'm', 't', ':', ' '] + knob + seq![' '] + decimal(value as nat)
        + seq![
        ' ',
        'e',
        'x',
        'c',
        'e',
        'e',
        'd',
        's',
        ' ',
        't',
        'h',
        'e',
        ' ',
        'm',
        'a',
        'x',
        'i',
        'm',
        'u',
        'm',
        ' ',
        'o',
        'f',
        ' ',
    ] + decimal(MAX_INDENT_WIDTH as nat) + seq![
        ';',
        ' ',
        'c',
        'l',
        'a',
        'm',
        'p',
        'e',
        'd',
        ' ',
        't',
        'o',
        ' ',
    ] + decimal(MAX_INDENT_WIDTH as nat)
}

/// Cap `value` at [`MAX_INDENT_WIDTH`]; when it was out of range, also the
/// one-line warning naming `knob`, so the user learns the value was capped.
pub fn clamp_indent(knob: &str, value: usize) -> (r: (usize, Option<String>))
    ensures
        value > MAX_INDENT_WIDTH ==> (r.0 == MAX_INDENT_WIDTH && (r.1 matches Some(m) && m@
            == clamp_message(knob@, value))),
        value <= MAX_INDENT_WIDTH ==> r.0 == value && r.1 is None,
{
    if value > MAX_INDENT_WIDTH {
        let mut m: Vec<char> = Vec::new();
        let a = ['m', '1', '-', 'f', 'm', 't', ':', ' '];
        push_all(&mut m, a.as_slice());
        let k = chars_of(knob);
        push_all(&mut m, k.as_slice());
        m.push(' ');
        push_decimal(&mut m, value);
        let b = [
            ' ',
            'e',
            'x',
            'c',
            'e',
            'e',
            'd',
            's',
            ' ',
            't',
            'h',
            'e',
            ' ',
            'm',
            'a',
            'x',
            'i',
            'm',
            'u',
            'm',
            ' ',
            'o',
            'f',
            ' ',
        ];
        push_all(&mut m, b.as_slice());
        push_decimal(&mut m, MAX_INDENT_WIDTH);
        let c = [';', ' ', 'c', 'l', 'a', 'm', 'p', 'e', 'd', ' ', 't', 'o', ' '];
        push_all(&mut m, c.as_slice());
        push_decimal(&mut m, MAX_INDENT_WIDTH);
        assert(m@ =~= clamp_message(knob@, value));
        (MAX_INDENT_WIDTH, Some(string_of(m.as_slice())))
    } else {
        (value, None)
    }
}

/// `o` with every given flag applied.
pub open spec fn overridden(o: FormatOptions, ov: CliOverrides) -> FormatOptions {
    FormatOptions {
        max_blank_lines: or_keep(ov.max_blank_lines, o.max_blank_lines),
        line_width: or_keep(ov.line_width, o.line_width),
        indent_style: or_keep(ov.indent_style, o.indent_style),
        indent_width: or_keep(ov.indent_width, o.indent_width),
        brace_style: or_keep(ov.brace_style, o.brace_style),
        continuation_indent: or_keep(ov.continuation_indent, o.continuation_indent),
        align_assignments: or_keep(ov.align_assignments, o.align_assignments),
        reflow_comments: or_keep(ov.reflow_comments, o.reflow_comments),
        final_blank_line: or_keep(ov.final_blank_line, o.final_blank_line),
    }
}

pub open spec fn knob_indent_width() -> Seq<char> {
    seq!['i', 'n', 'd', 'e', 'n', 't', '_', 'w', 'i', 'd', 't', 'h']
}

pub open spec fn knob_continuation_indent() -> Seq<char> {
    seq![
        'c',
        'o',
        'n',
        't',
        'i',
        'n',
        'u',
        'a',
        't',
        'i',
        'o',
        'n',
        '_',
        'i',
        'n',
        'd',
        'e',
        'n',
        't',
    ]
}

/// The warnings of the capping of the width knobs of `o`, in order.
pub open spec fn clamp_warnings(o: FormatOptions) -> Seq<Seq<char>> {
    (if o.indent_width > MAX_INDENT_WIDTH {
        seq![clamp_message(knob_indent_width(), o.indent_width)]
    } else {
        seq![]
    }) + if o.continuation_indent > MAX_INDENT_WIDTH {
        seq![clamp_message(knob_continuation_indent(), o.continuation_indent)]
    } else {
        seq![]
    }
}

/// Layer the command-line flags over `base` (the options resolved from the
/// configuration files), then cap the width knobs at
/// [`MAX_INDENT_WIDTH`]. Returns the options and one warning line per
/// capped knob.
pub fn resolve_opts(overrides: CliOverrides, base: FormatOptions) -> (r: (
    FormatOptions,
    Vec<String>,
))
    ensures
        r.0 == crate::config::capped(overridden(base, overrides)),
        r.1@.map_values(|m: String| m@) == clamp_warnings(overridden(base, overrides)),
{
    let mut o = FormatOptions {
        max_blank_lines: keep(overrides.max_blank_lines, base.max_blank_lines),
        line_width: keep(overrides.line_width, base.line_width),
        indent_style: keep(overrides.indent_style, base.indent_style),
        indent_width: keep(overrides.indent_width, base.indent_width),
        brace_style: keep(overrides.brace_style, base.brace_style),
        continuation_indent: keep(overrides.continuation_indent, base.continuation_indent),
        align_assignments: keep(overrides.align_assignments, base.align_assignments),
        reflow_comments: keep(overrides.reflow_comments, base.reflow_comments),
        final_blank_line: keep(overrides.final_blank_line, base.final_blank_line),
    };
    let ghost o0 = o;
    assert(o0 == overridden(base, overrides));
    let mut warnings: Vec<String> = Vec::new();
    let (iw, w1) = clamp_indent("indent_width", o.indent_width);
    proof {
        reveal_strlit("indent_width");
    }
    assert("indent_width"@ =~= knob_indent_width());
    if let Some(m) = w1 {
        warnings.push(m);
    }
    let (ci, w2) = clamp_indent("continuation_indent", o.continuation_indent);
    proof {
        reveal_strlit("continuation_indent");
    }
    assert("continuation_indent"@ =~= knob_continuation_indent());
    if let Some(m) = w2 {
        warnings.push(m);
    }
    o.indent_width = iw;
    o.continuation_indent = ci;
    assert(warnings@.map_values(|m: String| m@) =~= clamp_warnings(o0));
    (o, warnings)
}

/// The first value given, or `d`.
pub open spec fn first_given<T>(a: Option<T>, b: Option<T>, c: Option<T>, d: T) -> T {
    match a {
        Some(x) => x,
        None => match b {
            Some(x) => x,
            None => match c {
                Some(x) => x,
                None => d,
            },
        },
    }
}

/// A key of the `.m1fmt.toml`, when there is one.
pub open spec fn in_file<T>(file: Option<FileConfig>, key: spec_fn(FileConfig) -> Option<T>) -> Option<T> {
    match file {
        Some(c) => key(c),
        None => None,
    }
}

/// A key of the unified section, when there is one.
pub open spec fn in_section<T>(tools: Option<FormatSection>, key: spec_fn(FormatSection) -> Option<T>) -> Option<T> {
    match tools {
        Some(f) => key(f),
        None => None,
    }
}

/// Precedence: for every option, a command-line flag wins over the
/// `.m1fmt.toml`, which wins over the unified `m1-tools.toml [format]`
/// section (whose style spellings count only when recognised), which wins
/// over the built-in default; the two width knobs end up capped at
/// [`MAX_INDENT_WIDTH`].
pub proof fn option_precedence(tools: Option<FormatSection>, file: Option<FileConfig>, ov: CliOverrides)
    ensures
        ({
            let o = capped(overridden(resolved_options(tools, file), ov));
            &&& o.line_width == first_given(
                ov.line_width,
                in_file(file, |c: FileConfig| c.max_line_length),
                in_section(tools, |f: FormatSection| f.line_width),
                88,
            )
            &&& o.max_blank_lines == first_given(
                ov.max_blank_lines,
                in_file(file, |c: FileConfig| c.max_blank_lines),
                in_section(tools, |f: FormatSection| f.max_blank_lines),
                2,
            )
            &&& o.indent_style == first_given(
                ov.indent_style,
                in_file(file, |c: FileConfig| c.indent_style),
                in_section(
                    tools,
                    |f: FormatSection|
                        match f.indent_style {
                            Some(sp) => indent_style_of(sp@),
                            None => None,
                        },
                ),
                IndentStyle::Tab,
            )
            &&& o.brace_style == first_given(
                ov.brace_style,
                in_file(file, |c: FileConfig| c.brace_style),
                in_section(
                    tools,
                    |f: FormatSection|
                        match f.brace_style {
                            Some(sp) => brace_style_of(sp@),
                            None => None,
                        },
                ),
                BraceStyle::Allman,
            )
            &&& o.indent_width == cap(
                first_given(
                    ov.indent_width,
                    in_file(file, |c: FileConfig| c.indent_width),
                    in_section(tools, |f: FormatSection| f.indent_width),
                    4,
                ),
            )
            &&& o.continuation_indent == cap(
                first_given(
                    ov.continuation_indent,
                    in_file(file, |c: FileConfig| c.continuation_indent),
                    in_section(tools, |f: FormatSection| f.continuation_indent),
                    1,
                ),
            )
            &&& o.align_assignments == first_given(
                ov.align_assignments,
                in_file(file, |c: FileConfig| c.align_assignments),
                in_section(tools, |f: FormatSection| f.align_assignments),
                false,
            )
            &&& o.reflow_comments == first_given(
                ov.reflow_comments,
                in_file(file, |c: FileConfig| c.reflow_comments),
                in_section(tools, |f: FormatSection| f.reflow_comments),
                false,
            )
            &&& o.final_blank_line == first_given(
                ov.final_blank_line,
                in_file(file, |c: FileConfig| c.final_blank_line),
                in_section(tools, |f: FormatSection| f.final_blank_line),
                false,
            )
            &&& o.indent_width <= MAX_INDENT_WIDTH
            &&& o.continuation_indent <= MAX_INDENT_WIDTH
        }),
{
}

} // verus!
