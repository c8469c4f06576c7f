use mysql_compat::compare::CaseOutcome;
use mysql_compat::runner::{Step, SuiteRun};
use mysql_compat::suite::Tests;

/// Runs a suite against a fake server that answers each query from `answer`,
/// and returns the queries that ran and whether the run succeeded.
fn run_with(tests: &Tests, answer: &dyn Fn(&str) -> Option<Vec<Vec<Option<String>>>>) -> (Vec<String>, bool) {
    let mut run = tests.start_run();
    let mut ran = Vec::new();
    loop {
        match run.next_step() {
            Step::Execute { index } => {
                let test = &tests.tests[index];
                ran.push(test.query.clone());
                let outcome = match answer(&test.query) {
                    Some(rows) => test.check(&rows),
                    None => CaseOutcome::QueryFailed { message: "no such table".to_string() },
                };
                run.record(&outcome);
            }
            Step::Finish { success } => return (ran, success),
        }
    }
}

fn rows(v: &[&[&str]]) -> Vec<Vec<Option<String>>> {
    v.iter().map(|r| r.iter().map(|s| Some(s.to_string())).collect()).collect()
}

#[test]
fn empty_suite_succeeds_at_once() {
    let mut tests = Tests::new();
    tests.read_tests_from_text("\n\n");
    let run = tests.start_run();
    assert!(matches!(run.next_step(), Step::Finish { success: true }));
    let (ran, ok) = run_with(&tests, &|_| None);
    assert!(ran.is_empty());
    assert!(ok);
}

#[test]
fn sentinel_after_failure_never_runs() {
    let mut tests = Tests::new();
    tests.read_tests_from_text("SELECT 1\n1\n\nSELECT 2\n3\n\nSELECT sentinel\nx\n");
    let (ran, ok) = run_with(&tests, &|q| match q {
        "SELECT 1" => Some(rows(&[&["1"]])),
        "SELECT 2" => Some(rows(&[&["2"]])),
        _ => Some(rows(&[&["x"]])),
    });
    assert_eq!(ran, vec!["SELECT 1".to_string(), "SELECT 2".to_string()]);
    assert!(!ok);
}

#[test]
fn query_error_stops_the_run() {
    let mut tests = Tests::new();
    tests.read_tests_from_text("SELECT broken\n\nSELECT sentinel\n");
    let (ran, ok) = run_with(&tests, &|q| if q == "SELECT broken" { None } else { Some(vec![]) });
    assert_eq!(ran, vec!["SELECT broken".to_string()]);
    assert!(!ok);
}

#[test]
fn state_after_failure() {
    let mut run = SuiteRun::new(3);
    run.record(&CaseOutcome::Passed { rows: 0 });
    assert!(matches!(run.next_step(), Step::Execute { index: 1 }));
    run.record(&CaseOutcome::ColumnCountMismatch { expected_columns: 1, actual_columns: 2 });
    assert_eq!(run.next, 2);
    assert!(run.failed);
    assert!(matches!(run.next_step(), Step::Finish { success: false }));
}

#[test]
fn written_suite_round_trips_to_success() {
    let cases: Vec<(&str, Vec<Vec<&str>>)> = vec![
        ("SELECT id, name FROM users ORDER BY id", vec![vec!["1", "ann"], vec!["2", ""]]),
        ("UPDATE users SET name = 'x' WHERE id = 9", vec![]),
        ("SELECT COUNT(*) FROM users", vec![vec!["2"]]),
    ];
    let mut text = String::new();
    for (query, rs) in &cases {
        text.push_str(query);
        text.push('\n');
        for r in rs {
            text.push_str(&r.join(","));
            text.push('\n');
        }
        text.push('\n');
    }
    let mut tests = Tests::new();
    tests.read_tests_from_text(&text);
    assert_eq!(tests.tests.len(), cases.len());
    for (t, (query, rs)) in tests.tests.iter().zip(cases.iter()) {
        assert_eq!(t.query, *query);
        let want: Vec<Vec<String>> =
            rs.iter().map(|r| r.iter().map(|s| s.to_string()).collect()).collect();
        assert_eq!(t.expected_results, want);
    }
    let seeded = cases.clone();
    let (ran, ok) = run_with(&tests, &|q| {
        seeded.iter().find(|(query, _)| *query == q).map(|(_, rs)| {
            rs.iter().map(|r| r.iter().map(|s| Some(s.to_string())).collect()).collect()
        })
    });
    assert_eq!(ran.len(), 3);
    assert!(ok);
}
