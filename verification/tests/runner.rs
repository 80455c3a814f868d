use lang_tester::expectation::{CommandExpectation, ExpectedStatus, TestSpecification};
use lang_tester::parser::parse_tests;
use lang_tester::pattern::PatternLine;
use lang_tester::runner::{
    judge, output_matches, status_matches, tally, Captured, ExecutionResult, ExitKind, FileRun,
    Summary, Verdict,
};

fn captured(status: ExitKind, stdout: &str, stderr: &str) -> Captured {
    Captured { status, stdout: stdout.to_string(), stderr: stderr.to_string() }
}

fn labels(l: &[&str]) -> Vec<String> {
    l.iter().map(|s| s.to_string()).collect()
}

#[test]
fn status_checks() {
    assert!(status_matches(ExpectedStatus::Success, ExitKind::Exited(0)));
    assert!(!status_matches(ExpectedStatus::Success, ExitKind::Exited(1)));
    assert!(!status_matches(ExpectedStatus::Success, ExitKind::Signalled));
    assert!(status_matches(ExpectedStatus::Error, ExitKind::Exited(1)));
    assert!(status_matches(ExpectedStatus::Error, ExitKind::Exited(-3)));
    assert!(!status_matches(ExpectedStatus::Error, ExitKind::Exited(0)));
    assert!(!status_matches(ExpectedStatus::Error, ExitKind::Signalled));
    assert!(status_matches(ExpectedStatus::Signal, ExitKind::Signalled));
    assert!(!status_matches(ExpectedStatus::Signal, ExitKind::Exited(0)));
    assert!(!status_matches(ExpectedStatus::Signal, ExitKind::TimedOut));
    assert!(status_matches(ExpectedStatus::ExitCode(7), ExitKind::Exited(7)));
    assert!(!status_matches(ExpectedStatus::ExitCode(7), ExitKind::Exited(8)));
    assert!(status_matches(ExpectedStatus::ExitCode(0), ExitKind::Exited(0)));
    for e in [ExpectedStatus::Success, ExpectedStatus::Error, ExpectedStatus::Signal,
        ExpectedStatus::ExitCode(0)]
    {
        assert!(!status_matches(e, ExitKind::TimedOut));
        assert!(!status_matches(e, ExitKind::LaunchFailed));
    }
}

#[test]
fn output_checks() {
    assert!(output_matches(&None, "anything\nat all"));
    assert!(output_matches(&Some(vec![]), ""));
    assert!(output_matches(&Some(vec![]), "\n  \n"));
    assert!(!output_matches(&Some(vec![]), "x\n"));
    let p = Some(vec![PatternLine::Exact("Hello world".to_string())]);
    assert!(output_matches(&p, "Hello world\n"));
    assert!(output_matches(&p, "\n  Hello world  \r\n\n"));
    assert!(!output_matches(&p, "Hello world\nmore\n"));
}

#[test]
fn judge_fills_every_field() {
    let mut e = CommandExpectation::new();
    e.expected_status = ExpectedStatus::Error;
    e.expected_stderr = Some(vec![PatternLine::SuffixWildcard("error".to_string())]);
    let o = judge(Some(&e), "Compiler", &captured(ExitKind::Exited(1), "out", "error: x\n"));
    assert_eq!(o.label, "Compiler");
    assert!(o.ran);
    assert_eq!(o.status, Some(ExitKind::Exited(1)));
    assert!(o.status_ok && o.stdout_ok && o.stderr_ok);
    let o = judge(Some(&e), "Compiler", &captured(ExitKind::Exited(0), "", "warning\n"));
    assert!(!o.status_ok && o.stdout_ok && !o.stderr_ok);
    let o = judge(None, "Other", &captured(ExitKind::Exited(0), "x", "y"));
    assert!(o.status_ok && o.stdout_ok && o.stderr_ok);
    let o = judge(None, "Other", &captured(ExitKind::Exited(2), "x", "y"));
    assert!(!o.status_ok && o.stdout_ok && o.stderr_ok);
}

#[test]
fn failure_stops_the_run() {
    let spec = parse_tests("Compiler:\n  status: success\nRun-time:\n  stdout: hi\n").unwrap();
    let run = FileRun::new(spec, labels(&["Compiler", "Run-time"]));
    assert_eq!(run.next_command(), Some(0));
    let run = run.record(&captured(ExitKind::Exited(1), "", ""));
    assert_eq!(run.next_command(), None);
    assert!(run.next_step().is_none());
    let run = run.record(&captured(ExitKind::Exited(0), "hi", ""));
    assert_eq!(run.next_command(), None);
    let result = run.finish("a.rs".to_string());
    assert_eq!(result.verdict, Verdict::Failed);
    assert_eq!(result.path, "a.rs");
    assert!(!result.skip);
    assert_eq!(result.outcomes.len(), 2);
    assert!(result.outcomes[0].ran);
    assert!(!result.outcomes[0].status_ok);
    assert_eq!(result.outcomes[0].status, Some(ExitKind::Exited(1)));
    assert!(!result.outcomes[1].ran);
    assert_eq!(result.outcomes[1].label, "Run-time");
    assert_eq!(result.outcomes[1].status, None);
    assert_eq!(result.first_failure(), Some(0));
}

#[test]
fn all_commands_pass() {
    let spec = parse_tests(
        "Compiler:\n  extra-args: -O\n  stderr:\n    ...\nRun-time:\n  stdout: hi\n",
    ).unwrap();
    let run = FileRun::new(spec, labels(&["Compiler", "Run-time", "Cleanup"]));
    let step = run.next_step().unwrap();
    assert_eq!(step.index, 0);
    assert_eq!(step.extra_args, vec!["-O".to_string()]);
    let run = run.record(&captured(ExitKind::Exited(0), "", "warning\n"));
    let step = run.next_step().unwrap();
    assert_eq!(step.index, 1);
    assert!(step.extra_args.is_empty());
    let run = run.record(&captured(ExitKind::Exited(0), "hi\n", ""));
    let step = run.next_step().unwrap();
    assert_eq!(step.index, 2);
    assert!(step.extra_args.is_empty());
    let run = run.record(&captured(ExitKind::Exited(0), "whatever", "whatever"));
    assert_eq!(run.next_command(), None);
    let result = run.finish("b.rs".to_string());
    assert_eq!(result.verdict, Verdict::Passed);
    assert_eq!(result.outcomes.len(), 3);
    assert!(result.outcomes.iter().all(|o| o.ran && o.status_ok && o.stdout_ok && o.stderr_ok));
    assert_eq!(result.first_failure(), None);
}

#[test]
fn output_failure_stops_the_run_too() {
    let spec = parse_tests("A:\n  stdout: yes\nB:\n").unwrap();
    let run = FileRun::new(spec, labels(&["A", "B"]));
    let run = run.record(&captured(ExitKind::Exited(0), "no\n", ""));
    assert_eq!(run.next_command(), None);
    let result = run.finish("c.rs".to_string());
    assert_eq!(result.verdict, Verdict::Failed);
    assert!(result.outcomes[0].status_ok);
    assert!(!result.outcomes[0].stdout_ok);
    assert!(!result.outcomes[1].ran);
}

#[test]
fn skipped_file_runs_nothing() {
    let spec = parse_tests("ignore:\nA:\n").unwrap();
    let run = FileRun::new(spec, labels(&["A", "B"]));
    assert_eq!(run.next_command(), None);
    let run = run.record(&captured(ExitKind::Exited(0), "", ""));
    let result = run.finish("d.rs".to_string());
    assert_eq!(result.verdict, Verdict::Ignored);
    assert!(result.skip);
    assert_eq!(result.outcomes.len(), 2);
    assert!(result.outcomes.iter().all(|o| !o.ran));
    assert_eq!(result.first_failure(), None);
}

#[test]
fn unfinished_run_has_not_passed() {
    let run = FileRun::new(TestSpecification::new(false), labels(&["A", "B"]));
    let run = run.record(&captured(ExitKind::Exited(0), "", ""));
    let result = run.finish("e.rs".to_string());
    assert_eq!(result.verdict, Verdict::Failed);
    assert!(result.outcomes[0].ran);
    assert!(!result.outcomes[1].ran);
    let none = FileRun::new(TestSpecification::new(false), Vec::new()).finish("f.rs".to_string());
    assert_eq!(none.verdict, Verdict::Passed);
}

#[test]
fn timeout_and_launch_failure_fail() {
    let spec = parse_tests("A:\n  status: signal\n").unwrap();
    let run = FileRun::new(spec, labels(&["A"]));
    let result = run.record(&captured(ExitKind::TimedOut, "", "")).finish("g".to_string());
    assert_eq!(result.verdict, Verdict::Failed);
    let run = FileRun::new(TestSpecification::new(false), labels(&["A"]));
    let result = run.record(&captured(ExitKind::LaunchFailed, "", "")).finish("h".to_string());
    assert_eq!(result.verdict, Verdict::Failed);
    assert_eq!(result.outcomes[0].status, Some(ExitKind::LaunchFailed));
}

fn result(verdict: Verdict) -> ExecutionResult {
    ExecutionResult { path: String::new(), skip: verdict == Verdict::Ignored, outcomes: vec![], verdict }
}

#[test]
fn tally_counts_in_any_order() {
    let a = [result(Verdict::Passed), result(Verdict::Failed), result(Verdict::Passed),
        result(Verdict::Ignored), result(Verdict::Passed)];
    let b = [result(Verdict::Ignored), result(Verdict::Passed), result(Verdict::Passed),
        result(Verdict::Passed), result(Verdict::Failed)];
    assert_eq!(tally(&a), Summary { passed: 3, failed: 1, ignored: 1 });
    assert_eq!(tally(&a), tally(&b));
    assert_eq!(tally(&[]), Summary { passed: 0, failed: 0, ignored: 0 });
}
