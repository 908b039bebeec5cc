//! Configuration parsing and layering, and the command line's decisions.

use m1_fmt::cli::{
    FileAction, FileStatus, USAGE_EXIT, check_directory_mode, check_jobs, exit_code, file_action,
    files, parse_range, range_arg, splice_lines, summary, tally, tri_flag,
};
use m1_fmt::config::{FileConfig, FormatSection, MAX_INDENT_WIDTH, parse, parse_brace_style, parse_indent_style, resolve_options};
use m1_fmt::config_resolve::{CliOverrides, clamp_indent, resolve_opts};
use m1_fmt::rules::{SpaceDecision, space_between};
use m1_fmt::cst::Kind;
use m1_fmt::{BraceStyle, FormatOptions, IndentStyle};

fn section() -> FormatSection {
    FormatSection {
        line_width: None,
        max_blank_lines: None,
        indent_width: None,
        indent_style: None,
        brace_style: None,
        continuation_indent: None,
        align_assignments: None,
        reflow_comments: None,
        final_blank_line: None,
    }
}

// ---------------------------------------------------------------------------
// .m1fmt.toml
// ---------------------------------------------------------------------------

#[test]
fn parses_both_keys() {
    let c = parse("max_line_length = 100\nmax_blank_lines = 1\n").unwrap();
    assert_eq!(c.max_line_length, Some(100));
    assert_eq!(c.max_blank_lines, Some(1));
}

#[test]
fn missing_keys_are_none() {
    let c = parse("max_line_length = 72\n").unwrap();
    assert_eq!(c.max_line_length, Some(72));
    assert_eq!(c.max_blank_lines, None);
}

#[test]
fn parses_final_blank_line() {
    let c = parse("final_blank_line = true\n").unwrap();
    assert_eq!(c.final_blank_line, Some(true));
    let c = parse("max_line_length = 90\n").unwrap();
    assert_eq!(c.final_blank_line, None);
}

#[test]
fn unknown_keys_ignored() {
    let c = parse("max_blank_lines = 0\nfuture_option = \"x\"\n").unwrap();
    assert_eq!(c.max_blank_lines, Some(0));
}

#[test]
fn malformed_is_error() {
    assert!(parse("max_line_length = = 3").is_err());
}

#[test]
fn style_keys_parse_and_bad_spellings_are_errors() {
    let c = parse("brace_style = \"kr\"\nindent_style = \"spaces\"\n").unwrap();
    assert_eq!(c.brace_style, Some(BraceStyle::Kr));
    assert_eq!(c.indent_style, Some(IndentStyle::Spaces));
    assert_eq!(parse("brace_style = \"egyptian\"\n").unwrap_err(), "invalid brace_style: egyptian");
    assert_eq!(parse("indent_style = \"tabz\"\n").unwrap_err(), "invalid indent_style: tabz");
}

#[test]
fn negative_or_mistyped_values_count_as_absent() {
    let c = parse("max_line_length = -5\nreflow_comments = 1\nindent_width = \"4\"\n").unwrap();
    assert_eq!(c, FileConfig::default());
}

#[test]
fn style_spellings() {
    assert_eq!(parse_brace_style("allman"), Some(BraceStyle::Allman));
    assert_eq!(parse_brace_style("kr"), Some(BraceStyle::Kr));
    assert_eq!(parse_brace_style("k&r"), Some(BraceStyle::Kr));
    assert_eq!(parse_brace_style("knr"), Some(BraceStyle::Kr));
    assert_eq!(parse_brace_style("egyptian"), None);
    assert_eq!(parse_indent_style("tab"), Some(IndentStyle::Tab));
    assert_eq!(parse_indent_style("tabs"), Some(IndentStyle::Tab));
    assert_eq!(parse_indent_style("space"), Some(IndentStyle::Spaces));
    assert_eq!(parse_indent_style("spaces"), Some(IndentStyle::Spaces));
    assert_eq!(parse_indent_style("tabz"), None);
}

// ---------------------------------------------------------------------------
// Layering
// ---------------------------------------------------------------------------

#[test]
fn resolve_options_reads_unified_and_tool_config() {
    let mut tools = section();
    tools.brace_style = Some("kr".to_string());
    tools.indent_style = Some("spaces".to_string());
    tools.indent_width = Some(2);
    let file = parse("max_line_length = 100\n").unwrap();
    let o = resolve_options(Some(&tools), Some(&file));
    assert_eq!(o.brace_style, BraceStyle::Kr);
    assert_eq!(o.indent_style, IndentStyle::Spaces);
    assert_eq!(o.indent_width, 2);
    assert_eq!(o.line_width, 100);
}

#[test]
fn resolve_options_defaults_when_no_config() {
    let o = resolve_options(None, None);
    assert_eq!(o.brace_style, FormatOptions::default().brace_style);
    assert_eq!(o.line_width, 88);
    assert_eq!(o.max_blank_lines, 2);
}

#[test]
fn m1fmt_toml_overrides_unified_file() {
    let mut tools = section();
    tools.brace_style = Some("kr".to_string());
    let file = parse("brace_style = \"allman\"\n").unwrap();
    let (o, _) = resolve_opts(CliOverrides::default(), resolve_options(Some(&tools), Some(&file)));
    assert_eq!(o.brace_style, BraceStyle::Allman, ".m1fmt.toml wins");
}

#[test]
fn flag_overrides_both() {
    let mut tools = section();
    tools.line_width = Some(100);
    let (o, _) = resolve_opts(
        CliOverrides { line_width: Some(70), ..Default::default() },
        resolve_options(Some(&tools), None),
    );
    assert_eq!(o.line_width, 70);
}

#[test]
fn unified_section_drives_continuation_align_reflow() {
    let mut tools = section();
    tools.continuation_indent = Some(3);
    tools.align_assignments = Some(true);
    tools.reflow_comments = Some(true);
    let (o, _) = resolve_opts(CliOverrides::default(), resolve_options(Some(&tools), None));
    assert_eq!(o.continuation_indent, 3);
    assert!(o.align_assignments);
    assert!(o.reflow_comments);
}

#[test]
fn unrecognised_section_spelling_is_skipped() {
    let mut tools = section();
    tools.brace_style = Some("egyptian".to_string());
    let o = resolve_options(Some(&tools), None);
    assert_eq!(o.brace_style, BraceStyle::Allman);
}

#[test]
fn bool_flags_override_config_both_ways() {
    let mut tools = section();
    tools.align_assignments = Some(true);
    tools.reflow_comments = Some(true);
    tools.final_blank_line = Some(true);
    let base = resolve_options(Some(&tools), None);
    let (o, _) = resolve_opts(
        CliOverrides {
            align_assignments: Some(false),
            reflow_comments: Some(false),
            final_blank_line: Some(false),
            ..Default::default()
        },
        base,
    );
    assert!(!o.align_assignments && !o.reflow_comments && !o.final_blank_line);
    let (o3, _) = resolve_opts(CliOverrides::default(), base);
    assert!(o3.align_assignments && o3.reflow_comments && o3.final_blank_line);
}

#[test]
fn pathological_width_knobs_are_clamped() {
    let file = parse("indent_width = 9223372036854775807\ncontinuation_indent = 9223372036854775807\n").unwrap();
    let o = resolve_options(None, Some(&file));
    assert_eq!(o.indent_width, MAX_INDENT_WIDTH);
    assert_eq!(o.continuation_indent, MAX_INDENT_WIDTH);
    let (o2, warnings) = resolve_opts(
        CliOverrides { indent_width: Some(usize::MAX), continuation_indent: Some(usize::MAX), ..Default::default() },
        resolve_options(None, None),
    );
    assert_eq!(o2.indent_width, MAX_INDENT_WIDTH);
    assert_eq!(o2.continuation_indent, MAX_INDENT_WIDTH);
    assert_eq!(warnings.len(), 2);
    assert_eq!(
        warnings[0],
        format!("m1-fmt: indent_width {} exceeds the maximum of 64; clamped to 64", usize::MAX)
    );
}

#[test]
fn sane_width_knobs_pass_through_unclamped() {
    let (o, warnings) = resolve_opts(
        CliOverrides { indent_width: Some(4), continuation_indent: Some(2), ..Default::default() },
        resolve_options(None, None),
    );
    assert_eq!(o.indent_width, 4);
    assert_eq!(o.continuation_indent, 2);
    assert!(warnings.is_empty());
    assert_eq!(clamp_indent("indent_width", 64), (64, None));
}

// ---------------------------------------------------------------------------
// Command line
// ---------------------------------------------------------------------------

#[test]
fn range_arguments() {
    assert_eq!(parse_range("10:14"), Some((10, 14)));
    assert_eq!(parse_range(" 3 : 3 "), Some((3, 3)));
    assert_eq!(parse_range("+2:5"), Some((2, 5)));
    assert_eq!(parse_range("0:5"), None);
    assert_eq!(parse_range("5:4"), None);
    assert_eq!(parse_range("notarange"), None);
    assert_eq!(parse_range("1:99999999999999999999999"), None);
    let err = range_arg(Some("x:y")).unwrap_err();
    assert_eq!(err, "m1-fmt: invalid --range \"x:y\"; expected START:END (1-based, START<=END)");
    assert_eq!(range_arg(None), Ok(None));
    assert_eq!(USAGE_EXIT, 2);
}

#[test]
fn splice_keeps_every_other_line() {
    let src = "a\nb\nc\nd\n";
    assert_eq!(splice_lines(src, 1, 2, "X\nY\nZ\n"), "a\nX\nY\nZ\nd\n");
    assert_eq!(splice_lines(src, 0, 0, "A"), "A\nb\nc\nd\n");
}

#[test]
fn tri_state_flags() {
    assert_eq!(tri_flag(true, false), Some(true));
    assert_eq!(tri_flag(false, true), Some(false));
    assert_eq!(tri_flag(false, false), None);
}

#[test]
fn directory_argument_requires_an_output_mode() {
    let err = check_directory_mode(false, false, false, false).unwrap_err();
    assert!(err.contains("--check") && err.contains("-i"), "{err}");
    assert!(check_directory_mode(false, true, false, false).is_ok());
}

#[test]
fn directory_argument_rejects_range() {
    let err = check_directory_mode(true, true, false, false).unwrap_err();
    assert!(err.contains("--range"), "{err}");
}

#[test]
fn jobs_must_be_positive() {
    assert_eq!(check_jobs(Some(0)).unwrap_err(), "m1-fmt: --jobs must be at least 1");
    assert!(check_jobs(Some(1)).is_ok());
    assert!(check_jobs(None).is_ok());
}

#[test]
fn check_prints_a_summary_count() {
    let statuses = vec![
        FileStatus { changed: true, error: false, syntax_error: false },
        FileStatus { changed: false, error: false, syntax_error: false },
    ];
    let t = tally(&statuses);
    let s = summary(statuses.len(), t, true, false).unwrap();
    assert!(s.contains("1 file would be reformatted"), "{s}");
    assert!(s.contains("1 file already formatted"), "{s}");
    assert_eq!(exit_code(t.any_error, t.any_syntax_error, true, t.any_changed), 1);
}

#[test]
fn in_place_prints_a_reformatted_summary() {
    let statuses = vec![
        FileStatus { changed: true, error: false, syntax_error: false },
        FileStatus { changed: false, error: false, syntax_error: false },
    ];
    let t = tally(&statuses);
    let s = summary(statuses.len(), t, false, true).unwrap();
    assert!(s.contains("reformatted 1 file"), "{s}");
    assert_eq!(exit_code(t.any_error, t.any_syntax_error, false, t.any_changed), 0);
}

#[test]
fn single_file_check_prints_no_summary() {
    let statuses = vec![FileStatus { changed: true, error: false, syntax_error: false }];
    assert!(summary(1, tally(&statuses), true, false).is_none());
}

#[test]
fn summary_counts_skipped_and_errored_files() {
    let statuses = vec![
        FileStatus { changed: true, error: false, syntax_error: false },
        FileStatus { changed: false, error: false, syntax_error: true },
        FileStatus { changed: false, error: true, syntax_error: false },
        FileStatus { changed: false, error: false, syntax_error: false },
        FileStatus { changed: false, error: false, syntax_error: false },
    ];
    let t = tally(&statuses);
    assert_eq!((t.changed, t.syntax, t.errored), (1, 1, 1));
    assert_eq!(
        summary(5, t, true, false).unwrap(),
        "1 file would be reformatted, 2 files already formatted, 1 file skipped (syntax errors), 1 file errored"
    );
    assert_eq!(files(0), "0 files");
    assert_eq!(files(1), "1 file");
}

#[test]
fn missing_file_exits_one_not_two() {
    // A per-file I/O error fails the run with 1; 2 is for usage errors.
    assert_eq!(exit_code(true, false, false, false), 1);
}

#[test]
fn file_actions_by_mode() {
    assert_eq!(file_action(true, true, false, false), FileAction::ReportWouldReformat);
    assert_eq!(file_action(true, false, true, false), FileAction::PrintDiff);
    assert_eq!(file_action(true, false, false, true), FileAction::WriteInPlace);
    assert_eq!(file_action(true, false, false, false), FileAction::Print);
    assert_eq!(file_action(false, false, false, false), FileAction::Print);
    assert_eq!(file_action(false, true, false, false), FileAction::Nothing);
}

#[test]
fn spacing_is_a_single_space() {
    assert_eq!(space_between(Kind::Identifier, Kind::Assign, Kind::AssignmentStatement), SpaceDecision::Single);
}
