use mysql_compat::compare::{cell_text_at, CaseOutcome};
use mysql_compat::suite::Test;

fn expected(rows: &[&[&str]]) -> Vec<Vec<String>> {
    rows.iter().map(|r| r.iter().map(|s| s.to_string()).collect()).collect()
}

fn actual(rows: &[&[&str]]) -> Vec<Vec<Option<String>>> {
    rows.iter().map(|r| r.iter().map(|s| Some(s.to_string())).collect()).collect()
}

fn case(rows: &[&[&str]]) -> Test {
    Test::new("SELECT * FROM t".to_string(), expected(rows))
}

#[test]
fn empty_result_passes_against_no_rows() {
    let o = case(&[]).check(&vec![]);
    assert!(matches!(o, CaseOutcome::Passed { rows: 0 }));
    assert!(o.is_pass());
}

#[test]
fn empty_result_fails_against_recorded_rows() {
    let o = case(&[&["a"]]).check(&vec![]);
    assert!(matches!(o, CaseOutcome::RowCountMismatch { expected_rows: 1, actual_rows: 0 }));
    assert!(!o.is_pass());
}

#[test]
fn identical_rows_pass() {
    let o = case(&[&["a", "b"], &["c", "d"]]).check(&actual(&[&["a", "b"], &["c", "d"]]));
    assert!(matches!(o, CaseOutcome::Passed { rows: 2 }));
}

#[test]
fn first_differing_cell_is_reported() {
    let o = case(&[&["a", "b"]]).check(&actual(&[&["a", "x"]]));
    match o {
        CaseOutcome::ValueMismatch { row, column, expected, actual } => {
            assert_eq!((row, column), (0, 1));
            assert_eq!(expected, "b");
            assert_eq!(actual, "x");
        }
        other => panic!("unexpected outcome {:?}", other),
    }
}

#[test]
fn mismatch_in_later_row() {
    let o = case(&[&["a", "b"], &["c", "d"], &["e", "f"]])
        .check(&actual(&[&["a", "b"], &["c", "z"], &["y", "f"]]));
    assert!(matches!(o, CaseOutcome::ValueMismatch { row: 1, column: 1, .. }));
}

#[test]
fn surplus_row_fails_on_row_count() {
    let o = case(&[&["a", "b"], &["c", "d"]])
        .check(&actual(&[&["a", "b"], &["c", "d"], &["e", "f"]]));
    assert!(matches!(o, CaseOutcome::RowCountMismatch { expected_rows: 2, actual_rows: 3 }));
}

#[test]
fn missing_row_fails_on_row_count() {
    let o = case(&[&["a"], &["b"]]).check(&actual(&[&["a"]]));
    assert!(matches!(o, CaseOutcome::RowCountMismatch { expected_rows: 2, actual_rows: 1 }));
}

#[test]
fn rows_without_recorded_rows_fail_on_row_count() {
    let o = case(&[]).check(&actual(&[&["a"]]));
    assert!(matches!(o, CaseOutcome::RowCountMismatch { expected_rows: 0, actual_rows: 1 }));
}

#[test]
fn width_mismatch_comes_before_values() {
    let o = case(&[&["a", "b"]]).check(&actual(&[&["x", "y", "z"]]));
    assert!(matches!(
        o,
        CaseOutcome::ColumnCountMismatch { expected_columns: 2, actual_columns: 3 }
    ));
}

#[test]
fn null_reads_as_empty_text() {
    let t = case(&[&["a", ""]]);
    let o = t.check(&vec![vec![Some("a".to_string()), None]]);
    assert!(matches!(o, CaseOutcome::Passed { rows: 1 }));
    let o = t.check(&vec![vec![Some("a".to_string()), Some("NULL".to_string())]]);
    assert!(matches!(o, CaseOutcome::ValueMismatch { row: 0, column: 1, .. }));
}

#[test]
fn missing_cell_in_later_row_reads_as_empty_text() {
    let t = case(&[&["a", "b"], &["c", ""]]);
    let o = t.check(&vec![
        vec![Some("a".to_string()), Some("b".to_string())],
        vec![Some("c".to_string())],
    ]);
    assert!(matches!(o, CaseOutcome::Passed { rows: 2 }));
}

#[test]
fn cell_text_defaults() {
    let row = vec![Some("v".to_string()), None];
    assert_eq!(cell_text_at(&row, 0), "v");
    assert_eq!(cell_text_at(&row, 1), "");
    assert_eq!(cell_text_at(&row, 5), "");
}

#[test]
fn query_failure_is_not_a_pass() {
    let o = CaseOutcome::QueryFailed { message: "syntax error".to_string() };
    assert!(!o.is_pass());
}
