use alofmt::cli::{
    discovery_threads, exit_status, plan, sequential, stdin_status, tally, unified_diff, Outcome, Plan, UsageError,
};

#[test]
fn exit_status_prioritises_failures() {
    assert_eq!(exit_status(true, 1, 1), 2);
    assert_eq!(exit_status(true, 1, 0), 1);
    assert_eq!(exit_status(true, 0, 0), 0);
    assert_eq!(exit_status(false, 1, 0), 0);
}

#[test]
fn runs_are_planned_from_their_flags() {
    assert_eq!(plan(false, false, false, false, 1, 0), Ok(Plan::Print));
    assert_eq!(plan(false, true, false, true, 3, 0), Ok(Plan::Check { diff: true }));
    assert_eq!(plan(true, false, true, false, 3, 0), Ok(Plan::Write));
    assert_eq!(plan(false, true, false, false, 1, 1), Ok(Plan::Stdin));
    assert_eq!(plan(true, false, false, false, 1, 0), Err(UsageError::QuietWithoutCheckOrWrite));
    assert_eq!(plan(false, false, false, false, 2, 1), Err(UsageError::StdinWithPaths));
    assert_eq!(plan(false, false, true, false, 1, 1), Err(UsageError::WriteToStdin));
    assert_eq!(UsageError::WriteToStdin.message(), "--write cannot be used with standard input");
}

#[test]
fn discovery_uses_at_most_four_workers() {
    assert_eq!(discovery_threads(1), 1);
    assert_eq!(discovery_threads(4), 4);
    assert_eq!(discovery_threads(14), 4);
    assert!(sequential(1, 8));
    assert!(sequential(10, 1));
    assert!(!sequential(10, 8));
}

#[test]
fn outcomes_are_tallied() {
    let outcomes = [Outcome::Changed, Outcome::Unchanged, Outcome::Failed, Outcome::Changed];
    assert_eq!(tally(&outcomes), (1, 2, 1));
    assert_eq!(tally(&[]), (0, 0, 0));
    assert_eq!(stdin_status(true, true), 1);
    assert_eq!(stdin_status(false, true), 0);
    assert_eq!(stdin_status(true, false), 0);
}

#[test]
fn a_check_diff_shows_the_changed_lines_under_both_headers() {
    let diff = unified_diff("x=1\ny\n", "x = 1\ny\n", "a.rb");
    assert!(diff.starts_with("--- a/a.rb\n+++ b/a.rb\n"));
    assert!(diff.contains("-x=1\n"));
    assert!(diff.contains("+x = 1\n"));
    assert_eq!(unified_diff("same\n", "same\n", "a.rb"), "");
}
