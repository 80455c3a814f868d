use lang_tester::expectation::{CommandExpectation, ExpectedStatus, TestSpecification};
use lang_tester::parser::{
    indent_level, key_multiline_val, key_val, parse_lines, parse_status, parse_tests,
    status_from, ParseError, ParseErrorKind,
};
use lang_tester::pattern::PatternLine;

fn exact(s: &str) -> PatternLine {
    PatternLine::Exact(s.to_string())
}

fn kind_of(text: &str) -> ParseErrorKind {
    parse_tests(text).unwrap_err().kind
}

#[test]
fn test_key_multiline() {
    assert_eq!(key_multiline_val(&["x:", ""], 0, 0), Ok((2, "x", vec![])));
    assert_eq!(
        key_multiline_val(&["x: y", "  z", "a"], 0, 0),
        Ok((2, "x", vec!["y", "z"]))
    );
    assert_eq!(
        key_multiline_val(&["x:", "  z", "a"], 0, 0),
        Ok((2, "x", vec!["z"]))
    );
    assert_eq!(
        key_multiline_val(&["x:", "  z  ", "  a  ", "  ", "b"], 0, 0),
        Ok((4, "x", vec!["z", "a"]))
    );
}

#[test]
fn multiline_value_keeps_blank_lines_inside() {
    assert_eq!(
        key_multiline_val(&["k:", "", "  a", "", "   ", "  b", "", "next:"], 0, 0),
        Ok((7, "k", vec!["a", "", "", "b"]))
    );
}

#[test]
fn multiline_value_trims_each_line_whole() {
    assert_eq!(
        key_multiline_val(&["  k:", "        deep", "    shallow", "  x:"], 0, 2),
        Ok((3, "k", vec!["deep", "shallow"]))
    );
}

#[test]
fn multiline_value_without_colon_is_an_error() {
    assert_eq!(
        key_multiline_val(&["a:", "key value"], 1, 0),
        Err(ParseError { kind: ParseErrorKind::InvalidKeyTerminator, line: 1 })
    );
}

#[test]
fn indent_counts_leading_whitespace() {
    assert_eq!(indent_level(&["abc", "   abc", "\t x", "   ", ""], 0), 0);
    assert_eq!(indent_level(&["abc", "   abc", "\t x", "   ", ""], 1), 3);
    assert_eq!(indent_level(&["abc", "   abc", "\t x", "   ", ""], 2), 2);
    assert_eq!(indent_level(&["abc", "   abc", "\t x", "   ", ""], 3), 3);
    assert_eq!(indent_level(&["abc", "   abc", "\t x", "   ", ""], 4), 0);
    assert_eq!(indent_level(&["\u{a0}\u{3000}x"], 0), 2);
}

#[test]
fn key_val_parts_a_line() {
    assert_eq!(key_val(&["  key :  some value  "], 0, 2), Ok(("key", "some value")));
    assert_eq!(key_val(&["key:"], 0, 0), Ok(("key", "")));
    assert_eq!(key_val(&["key:value: more"], 0, 0), Ok(("key", "value: more")));
    assert_eq!(key_val(&[":"], 0, 0), Ok(("", "")));
    assert_eq!(
        key_val(&["a", "key value"], 1, 0),
        Err(ParseError { kind: ParseErrorKind::InvalidKeyTerminator, line: 1 })
    );
    assert_eq!(
        key_val(&["key"], 0, 0),
        Err(ParseError { kind: ParseErrorKind::InvalidKeyTerminator, line: 0 })
    );
}

#[test]
fn parse_compiler_example() {
    let text = "Compiler:\n  status: success\n  stderr:\n    warning: unused variable: `x`\n      ...unused_var.rs:12:9\n      ...\n";
    let spec = parse_tests(text).unwrap();
    assert!(!spec.skip());
    assert_eq!(spec.len(), 1);
    assert_eq!(spec.command(0).label, "compiler");
    let e = spec.get("compiler").unwrap();
    assert_eq!(e.expected_status, ExpectedStatus::Success);
    assert_eq!(
        e.expected_stderr,
        Some(vec![
            exact("warning: unused variable: `x`"),
            PatternLine::PrefixWildcard("unused_var.rs:12:9".to_string()),
            PatternLine::SkipAny,
        ])
    );
    assert_eq!(e.expected_stdout, None);
    assert!(e.extra_args.is_empty());
    assert!(spec.get("Compiler").is_none());
}

#[test]
fn parse_two_commands() {
    let text = "Compiler:\n  status: success\n  stderr:\n    warning\n\nRun-time:\n  status: success\n  stdout: Hello world\n";
    let spec = parse_tests(text).unwrap();
    assert_eq!(spec.len(), 2);
    assert_eq!(spec.command(0).label, "compiler");
    assert_eq!(spec.command(1).label, "run-time");
    assert_eq!(spec.position("run-time"), Some(1));
    assert_eq!(spec.position("Run-time"), None);
    let labels: Vec<&str> = spec.commands().iter().map(|c| c.label.as_str()).collect();
    assert_eq!(labels, ["compiler", "run-time"]);
    let run = spec.get("run-time").unwrap();
    assert_eq!(run.expected_stdout, Some(vec![exact("Hello world")]));
    assert_eq!(run.expected_stderr, None);
}

#[test]
fn ignore_first_skips_everything() {
    let spec = parse_tests("\n  \nignore:\nCompiler:\n  status: error\n").unwrap();
    assert!(spec.skip());
    assert_eq!(spec.len(), 0);
    let spec = parse_tests("ignore:\nCompiler: value\nCompiler:\n  nonsense\n").unwrap();
    assert!(spec.skip());
    assert_eq!(spec.len(), 0);
    assert_eq!(spec, TestSpecification::new(true));
}

#[test]
fn ignore_later_marks_and_reads_on() {
    let spec = parse_tests("A:\n  status: error\nignore:\nB:\n").unwrap();
    assert!(spec.skip());
    assert_eq!(spec.len(), 2);
    assert_eq!(kind_of("A:\nignore:\nA:\n"), ParseErrorKind::DuplicateLabel);
}

#[test]
fn ignore_takes_no_value() {
    assert_eq!(
        parse_tests("ignore: because"),
        Err(ParseError { kind: ParseErrorKind::LabelHasValue, line: 0 })
    );
    assert_eq!(kind_of("ignore"), ParseErrorKind::InvalidKeyTerminator);
    let spec = parse_tests("Ignore:\n").unwrap();
    assert!(!spec.skip());
    assert_eq!(spec.command(0).label, "ignore");
}

#[test]
fn duplicate_label_and_unknown_key_differ() {
    let dup = parse_tests("A:\n  status: error\na:\n  status: error\n").unwrap_err();
    let unk = parse_tests("A:\n  colour: red\n").unwrap_err();
    assert_eq!(dup, ParseError { kind: ParseErrorKind::DuplicateLabel, line: 2 });
    assert_eq!(unk, ParseError { kind: ParseErrorKind::UnknownKey, line: 2 });
    assert_ne!(dup.kind, unk.kind);
}

#[test]
fn each_error_kind() {
    assert_eq!(
        parse_tests("A: value\n"),
        Err(ParseError { kind: ParseErrorKind::LabelHasValue, line: 0 })
    );
    assert_eq!(
        parse_tests("\nA\n"),
        Err(ParseError { kind: ParseErrorKind::InvalidKeyTerminator, line: 1 })
    );
    assert_eq!(
        parse_tests("A:\n  status success\n"),
        Err(ParseError { kind: ParseErrorKind::InvalidKeyTerminator, line: 1 })
    );
    assert_eq!(
        parse_tests("A:\n  status: maybe\n    so\nB:\n"),
        Err(ParseError { kind: ParseErrorKind::UnknownStatus, line: 3 })
    );
    assert_eq!(
        parse_tests("A:\n  stdin:\n    x\n"),
        Err(ParseError { kind: ParseErrorKind::UnknownKey, line: 3 })
    );
}

#[test]
fn status_words_and_codes() {
    assert_eq!(parse_status("success"), Some(ExpectedStatus::Success));
    assert_eq!(parse_status("SUCCESS"), Some(ExpectedStatus::Success));
    assert_eq!(parse_status("Error"), Some(ExpectedStatus::Error));
    assert_eq!(parse_status("sIgNaL"), Some(ExpectedStatus::Signal));
    assert_eq!(parse_status("0"), Some(ExpectedStatus::ExitCode(0)));
    assert_eq!(parse_status("42"), Some(ExpectedStatus::ExitCode(42)));
    assert_eq!(parse_status("-1"), Some(ExpectedStatus::ExitCode(-1)));
    assert_eq!(parse_status("+7"), Some(ExpectedStatus::ExitCode(7)));
    assert_eq!(parse_status("2147483647"), Some(ExpectedStatus::ExitCode(i32::MAX)));
    assert_eq!(parse_status("-2147483648"), Some(ExpectedStatus::ExitCode(i32::MIN)));
    assert_eq!(parse_status("2147483648"), None);
    assert_eq!(parse_status(""), None);
    assert_eq!(parse_status("failure"), None);
    assert_eq!(parse_status("1 2"), None);
    assert_eq!(status_from("SUCCESS"), None);
    assert_eq!(status_from("error"), Some(ExpectedStatus::Error));
}

#[test]
fn status_defaults_to_success_and_last_wins() {
    let spec = parse_tests("A:\nB:\n  status: 3\n  status: signal\n").unwrap();
    assert_eq!(spec.get("a").unwrap(), &CommandExpectation::new());
    assert_eq!(spec.get("a").unwrap().expected_status, ExpectedStatus::Success);
    assert_eq!(spec.get("b").unwrap().expected_status, ExpectedStatus::Signal);
    let spec = parse_tests("A:\n  stdout: one\n  stdout: two\n").unwrap();
    assert_eq!(spec.get("a").unwrap().expected_stdout, Some(vec![exact("two")]));
}

#[test]
fn extra_args_add_up() {
    let spec = parse_tests("A:\n  extra-args: -O2\n  extra-args:\n    --flag\n    value\n").unwrap();
    assert_eq!(
        spec.get("a").unwrap().extra_args,
        vec!["-O2".to_string(), "--flag\nvalue".to_string()]
    );
}

#[test]
fn absent_output_differs_from_empty_output() {
    let spec = parse_tests("A:\n  stdout:\nB:\n  status: success\n").unwrap();
    assert_eq!(spec.get("a").unwrap().expected_stdout, Some(vec![]));
    assert_eq!(spec.get("a").unwrap().expected_stderr, None);
    assert_eq!(spec.get("b").unwrap().expected_stdout, None);
}

#[test]
fn blank_text_has_no_command() {
    assert_eq!(parse_tests(""), Ok(TestSpecification::new(false)));
    assert_eq!(parse_tests("\n   \n\t\n"), Ok(TestSpecification::new(false)));
}

#[test]
fn indented_labels_and_carriage_returns() {
    let spec = parse_tests("  A:\r\n    status: error\r\n  B:\r\n    stdout: x\r\n").unwrap();
    assert_eq!(spec.len(), 2);
    assert_eq!(spec.get("a").unwrap().expected_status, ExpectedStatus::Error);
    assert_eq!(spec.get("b").unwrap().expected_stdout, Some(vec![exact("x")]));
}

#[test]
fn a_line_indented_less_than_the_label_is_an_entry() {
    let spec = parse_tests("  A:\nstatus: error\n").unwrap();
    assert_eq!(spec.len(), 1);
    assert_eq!(spec.get("a").unwrap().expected_status, ExpectedStatus::Error);
    assert_eq!(
        parse_tests("  A:\nstatus: error\n  B:\n"),
        Err(ParseError { kind: ParseErrorKind::UnknownStatus, line: 3 })
    );
}

#[test]
fn labels_count_in_lower_case() {
    let spec = parse_tests("ÄRGER:\nCompiler:\n").unwrap();
    assert_eq!(spec.command(0).label, "ärger");
    assert_eq!(spec.command(1).label, "compiler");
    assert_eq!(kind_of("Ärger:\närger:\n"), ParseErrorKind::DuplicateLabel);
}

#[test]
fn parse_lines_reads_what_parse_tests_reads() {
    let lines = ["A:", "  status: 2", "  stderr:", "    ...", "    end"];
    let spec = parse_lines(&lines).unwrap();
    assert_eq!(spec, parse_tests("A:\n  status: 2\n  stderr:\n    ...\n    end").unwrap());
    assert_eq!(
        spec.get("a").unwrap().expected_stderr,
        Some(vec![PatternLine::SkipAny, exact("end")])
    );
}

#[test]
fn insert_refuses_a_second_label() {
    let mut spec = TestSpecification::new(false);
    assert!(spec.insert("a".to_string(), CommandExpectation::new()));
    assert!(!spec.insert("a".to_string(), CommandExpectation::new()));
    assert!(spec.insert("b".to_string(), CommandExpectation::new()));
    assert_eq!(spec.len(), 2);
    spec.set_skip();
    assert!(spec.skip());
}
