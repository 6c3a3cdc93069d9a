use normal_diff::edits::LineEdit;
use normal_diff::hunks::hunks_from_edits;
use normal_diff::lines::split_lines;
use normal_diff::{diff, make_diff, Mismatch};

#[test]
fn identical_inputs_give_an_empty_diff() {
    assert_eq!(diff(b"a\nb\nc\n", b"a\nb\nc\n"), b"");
    assert_eq!(diff(b"", b""), b"");
    assert_eq!(diff(b"x", b"x"), b"");
}

#[test]
fn different_inputs_give_a_nonempty_diff() {
    assert!(!diff(b"a\n", b"a").is_empty());
    assert!(!diff(b"", b"\n").is_empty());
}

#[test]
fn changed_line() {
    assert_eq!(diff(b"a\nb\n", b"a\nc\n"), b"2,2c2,2\n< b\n---\n> c\n");
}

#[test]
fn added_line() {
    assert_eq!(diff(b"a\n", b"a\nb\n"), b"1a2,2\n> b\n");
}

#[test]
fn added_to_empty() {
    assert_eq!(diff(b"", b"x\n"), b"0a1,1\n> x\n");
}

#[test]
fn deleted_line() {
    assert_eq!(diff(b"a\nb\n", b"a\n"), b"2,2d1\n< b\n");
}

#[test]
fn missing_newline_on_expected() {
    assert_eq!(
        diff(b"a", b"a\n"),
        b"1,1c1,1\n< a\n\\ No newline at end of file\n---\n> a\n"
    );
}

#[test]
fn missing_newline_on_actual() {
    assert_eq!(
        diff(b"a\n", b"a"),
        b"1,1c1,1\n< a\n---\n> a\n\\ No newline at end of file\n"
    );
}

#[test]
fn line_numbers_past_nine() {
    let mut e = Vec::new();
    let mut a = Vec::new();
    for i in 0..12u8 {
        e.push(b'a' + i);
        e.push(b'\n');
        a.push(b'a' + i);
        a.push(b'\n');
    }
    a.extend_from_slice(b"z\n");
    assert_eq!(diff(&e, &a), b"12a13,13\n> z\n");
}

#[test]
fn make_diff_hunks() {
    let hunks = make_diff(b"a\nb\nc\n", b"a\nc\nd\n");
    assert_eq!(hunks.len(), 2);
    assert_eq!(hunks[0].line_number_expected, 2);
    assert_eq!(hunks[0].line_number_actual, 2);
    assert_eq!(hunks[0].expected, vec![b"b".to_vec()]);
    assert!(hunks[0].actual.is_empty());
    assert_eq!(hunks[1].line_number_expected, 4);
    assert_eq!(hunks[1].line_number_actual, 3);
    assert!(hunks[1].expected.is_empty());
    assert_eq!(hunks[1].actual, vec![b"d".to_vec()]);
}

#[test]
fn make_diff_missing_newline_flags() {
    let hunks = make_diff(b"a\nb", b"a\nc");
    assert_eq!(hunks.len(), 1);
    assert!(hunks[0].expected_missing_nl);
    assert!(hunks[0].actual_missing_nl);
    assert_eq!(hunks[0].expected, vec![b"b".to_vec()]);
    assert_eq!(hunks[0].actual, vec![b"c".to_vec()]);
}

#[test]
fn new_mismatch_is_empty() {
    let m = Mismatch::new(3, 5);
    assert_eq!(m.line_number_expected, 3);
    assert_eq!(m.line_number_actual, 5);
    assert!(m.expected.is_empty());
    assert!(m.actual.is_empty());
    assert!(!m.expected_missing_nl);
    assert!(!m.actual_missing_nl);
}

#[test]
fn split_lines_counts_newlines() {
    let (lines, count) = split_lines(b"a\n\nbc");
    assert_eq!(lines, vec![b"a".to_vec(), b"".to_vec(), b"bc".to_vec()]);
    assert_eq!(count, 2);
    let (lines, count) = split_lines(b"a\n");
    assert_eq!(lines, vec![b"a".to_vec()]);
    assert_eq!(count, 1);
    let (lines, count) = split_lines(b"");
    assert!(lines.is_empty());
    assert_eq!(count, 0);
}

#[test]
fn hunks_from_a_script() {
    let edits = vec![
        LineEdit::Both(b"a".to_vec(), b"a".to_vec()),
        LineEdit::Left(b"b".to_vec()),
        LineEdit::Right(b"c".to_vec()),
        LineEdit::Both(b"d".to_vec(), b"d".to_vec()),
        LineEdit::Right(b"e".to_vec()),
        LineEdit::Left(b"f".to_vec()),
    ];
    let hunks = hunks_from_edits(&edits, 4, 4);
    // A removed line after an added one opens a new hunk.
    assert_eq!(hunks.len(), 3);
    assert_eq!((hunks[0].line_number_expected, hunks[0].line_number_actual), (2, 2));
    assert_eq!(hunks[0].expected, vec![b"b".to_vec()]);
    assert_eq!(hunks[0].actual, vec![b"c".to_vec()]);
    assert_eq!((hunks[1].line_number_expected, hunks[1].line_number_actual), (4, 4));
    assert!(hunks[1].expected.is_empty());
    assert_eq!(hunks[1].actual, vec![b"e".to_vec()]);
    assert_eq!((hunks[2].line_number_expected, hunks[2].line_number_actual), (4, 5));
    assert_eq!(hunks[2].expected, vec![b"f".to_vec()]);
    assert!(hunks[2].actual.is_empty());
}

#[test]
fn kept_line_with_newline_on_one_side_is_changed() {
    let edits = vec![LineEdit::Both(b"x".to_vec(), b"x".to_vec())];
    let hunks = hunks_from_edits(&edits, 1, 0);
    assert_eq!(hunks.len(), 1);
    assert!(hunks[0].actual_missing_nl);
    assert!(!hunks[0].expected_missing_nl);
    assert_eq!(hunks[0].expected, vec![b"x".to_vec()]);
    assert_eq!(hunks[0].actual, vec![b"x".to_vec()]);
}
