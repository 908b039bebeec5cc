use m1_fmt::trivia::{TriviaItem, format_line_comment, is_eol_comment};

#[test]
fn format_line_comment_normalizes() {
    assert_eq!(format_line_comment("//foo"), "// foo");
    assert_eq!(format_line_comment("// foo"), "// foo");
    assert_eq!(format_line_comment("//  foo"), "// foo");
    assert_eq!(format_line_comment("//   foo"), "// foo");
    assert_eq!(format_line_comment("//\tfoo"), "// foo");
    assert_eq!(format_line_comment("//\t  foo \t"), "// foo");
    assert_eq!(format_line_comment("//"), "//");
    assert_eq!(format_line_comment("//\t"), "//");
}

#[test]
fn is_eol_comment_uses_statement_byte_window() {
    // `a = 1; b = 2; // tail`: the comment sits on line 0 at offset 14.
    let comment = TriviaItem {
        byte_offset: 14,
        end_offset: 21,
        text: "// tail".to_string(),
        source_line: 0,
    };
    // It falls at or after where `b = 2;` begins, so not in `a = 1;`'s window.
    assert!(!is_eol_comment(&comment, 0, 6, 7));
    // It attaches to the last statement `b = 2;`.
    assert!(is_eol_comment(&comment, 0, 13, usize::MAX));
    // A single statement claims a same-line comment after its end.
    assert!(is_eol_comment(&comment, 0, 6, usize::MAX));
    // A comment before the statement's end never attaches.
    assert!(!is_eol_comment(&comment, 0, 15, usize::MAX));
    // Wrong line never attaches.
    assert!(!is_eol_comment(&comment, 1, 6, usize::MAX));
}

#[test]
fn line_comment_normalization_is_stable() {
    for raw in ["//foo", "//\t  foo \t", "//", "//   ", "// a  b", "x"] {
        let once = format_line_comment(raw);
        assert_eq!(format_line_comment(&once), once, "{raw:?}");
    }
    assert_eq!(format_line_comment("//  a  b  "), "// a  b");
}
