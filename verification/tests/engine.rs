use issen::diagnostic::{Diagnostic, Fix, Severity};
use issen::engine::{apply_fixes, FileResult};
use issen::format::render_text;

fn diag(range: [usize; 2], fix: Option<(&str, [usize; 2])>) -> Diagnostic {
    Diagnostic {
        rule: "t".into(),
        severity: Severity::Error,
        message: String::new(),
        line: 1,
        column: 1,
        end_line: 1,
        end_column: 1,
        range,
        fix: fix.map(|(text, range)| Fix { range, text: text.into() }),
    }
}

#[test]
fn applies_char_range_fixes_and_skips_overlaps() {
    let src = "ﾃｽﾄを実行する.";
    let fixes = vec![
        diag([0, 3], Some(("テスト", [0, 3]))),
        diag([1, 2], Some(("X", [1, 2]))), // overlaps the first: skipped
        diag([8, 9], Some(("。", [8, 9]))),
    ];
    let (out, n) = apply_fixes(src, &fixes);
    assert_eq!(n, 2);
    assert_eq!(out, "テストを実行する。");
}

#[test]
fn no_fixes_leave_the_source_unchanged() {
    let src = "そのまま😀です。";
    let (out, n) = apply_fixes(src, &[diag([0, 1], None)]);
    assert_eq!(n, 0);
    assert_eq!(out, src);
    let (out, n) = apply_fixes(src, &[]);
    assert_eq!((out.as_str(), n), (src, 0));
}

#[test]
fn fixes_are_applied_in_range_order_whatever_their_order() {
    let src = "abcdef";
    let fixes = vec![diag([4, 6], Some(("Y", [4, 6]))), diag([0, 1], Some(("X", [0, 1])))];
    assert_eq!(apply_fixes(src, &fixes), ("XbcdY".to_string(), 2));
}

#[test]
fn a_fix_never_splits_a_surrogate_pair() {
    // Offsets 1 and 2 fall inside the emoji: both halves map to its start,
    // so the replacement covers the whole character and nothing after it.
    let src = "a😀b";
    let (out, n) = apply_fixes(src, &[diag([2, 2], Some(("X", [2, 2])))]);
    assert_eq!((out.as_str(), n), ("aX😀b", 1));
    let (out, n) = apply_fixes(src, &[diag([1, 3], Some(("Z", [1, 3])))]);
    assert_eq!((out.as_str(), n), ("aZb", 1));
}

#[test]
fn backwards_or_out_of_range_fixes_are_skipped() {
    let src = "abc";
    let fixes = vec![diag([2, 1], Some(("X", [2, 1]))), diag([1, 9], Some(("Y", [1, 9])))];
    assert_eq!(apply_fixes(src, &fixes), ("abc".to_string(), 0));
}

fn with_message(message: &str) -> Diagnostic {
    Diagnostic { message: message.into(), ..diag([0, 0], None) }
}

#[test]
fn text_report_keeps_the_first_line_of_each_message() {
    let file = FileResult {
        path: "t.md".into(),
        diagnostics: vec![with_message("a\r"), with_message("b\r\nc"), with_message("d\ne")],
    };
    assert_eq!(render_text(&[file]), "t.md:1:1: a\r [t]\nt.md:1:1: b [t]\nt.md:1:1: d [t]\n");
}
