use mysql_compat::suite::Tests;
use mysql_compat::text::{is_blank, split_fields, split_lines};

fn strings(v: &[&str]) -> Vec<String> {
    v.iter().map(|s| s.to_string()).collect()
}

fn parse(text: &str) -> Tests {
    let mut tests = Tests::new();
    tests.read_tests_from_text(text);
    tests
}

#[test]
fn lines_drop_terminators() {
    assert_eq!(split_lines("a\r\nb\n\nc"), strings(&["a", "b", "", "c"]));
    assert_eq!(split_lines("a\nb\n"), strings(&["a", "b"]));
    assert_eq!(split_lines("a\n\n"), strings(&["a", ""]));
    assert_eq!(split_lines(""), strings(&[]));
    assert_eq!(split_lines("\n"), strings(&[""]));
}

#[test]
fn lines_keep_inner_carriage_returns() {
    assert_eq!(split_lines("a\rb\r\r\nc\r"), strings(&["a\rb\r", "c\r"]));
}

#[test]
fn fields_are_verbatim() {
    assert_eq!(split_fields("a,b"), strings(&["a", "b"]));
    assert_eq!(split_fields(" a , b "), strings(&[" a ", " b "]));
    assert_eq!(split_fields(""), strings(&[""]));
    assert_eq!(split_fields(",,"), strings(&["", "", ""]));
    assert_eq!(split_fields("\"x,y\""), strings(&["\"x", "y\""]));
}

#[test]
fn blank_lines() {
    assert!(is_blank(""));
    assert!(is_blank(" \t  "));
    assert!(is_blank("\u{a0}\u{3000}"));
    assert!(!is_blank(" x "));
    assert!(!is_blank("0"));
}

#[test]
fn no_query_lines_gives_empty_suite() {
    assert_eq!(parse("").tests.len(), 0);
    assert_eq!(parse("\n  \n\t\n").tests.len(), 0);
}

#[test]
fn parses_cases_in_file_order() {
    let t = parse("SELECT a, b FROM t\n1,2\n3,4\n\nSELECT 1\n1\n");
    assert_eq!(t.tests.len(), 2);
    assert_eq!(t.tests[0].query, "SELECT a, b FROM t");
    assert_eq!(
        t.tests[0].expected_results,
        vec![strings(&["1", "2"]), strings(&["3", "4"])]
    );
    assert_eq!(t.tests[1].query, "SELECT 1");
    assert_eq!(t.tests[1].expected_results, vec![strings(&["1"])]);
}

#[test]
fn case_without_rows_expects_empty_result() {
    let t = parse("\n\nDELETE FROM t\n\n\nSELECT 2\n2");
    assert_eq!(t.tests.len(), 2);
    assert_eq!(t.tests[0].query, "DELETE FROM t");
    assert!(t.tests[0].expected_results.is_empty());
    assert_eq!(t.tests[1].expected_results, vec![strings(&["2"])]);
}

#[test]
fn whitespace_only_line_ends_a_case() {
    let t = parse("q1\na\n   \nq2\n");
    assert_eq!(t.tests.len(), 2);
    assert_eq!(t.tests[0].expected_results, vec![strings(&["a"])]);
    assert_eq!(t.tests[1].query, "q2");
}

#[test]
fn windows_line_endings() {
    let t = parse("SELECT x\r\na,b\r\n\r\n");
    assert_eq!(t.tests.len(), 1);
    assert_eq!(t.tests[0].query, "SELECT x");
    assert_eq!(t.tests[0].expected_results, vec![strings(&["a", "b"])]);
}

#[test]
fn reading_appends_to_existing_cases() {
    let mut t = Tests::new();
    t.add_test("SELECT 0".to_string(), vec![]);
    t.read_tests_from_text("SELECT 1\n1\n");
    assert_eq!(t.tests.len(), 2);
    assert_eq!(t.tests[0].query, "SELECT 0");
    assert_eq!(t.tests[1].query, "SELECT 1");
}
