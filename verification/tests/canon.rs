use lang_tester::canon::{canonical_lines_of, decimal_string, split_at_feeds, status_word, to_text};
use lang_tester::expectation::{CommandExpectation, ExpectedStatus, TestSpecification};
use lang_tester::parser::parse_tests;
use lang_tester::pattern::PatternLine;

const TEXTS: [&str; 12] = [
    "",
    "ignore:\n",
    "Compiler:\n  status: success\n  stderr:\n    warning: unused variable: `x`\n      ...unused_var.rs:12:9\n      ...\n\nRun-time:\n  status: success\n  stdout: Hello world\n",
    "A:\n  extra-args: -O2\n  extra-args:\n    --flag\n\n    value\n  status: 3\n  stdout:\n  stderr: ...\n",
    "A:\nignore:\nB:\n  status: -17\n",
    "  Indented:\r\n      status: SIGNAL\r\n      stdout:\r\n        a\r\n\r\n        ...b...\r\n  Other:\r\n",
    "Ignore:\n  status: error\n",
    ":\n  stdout: ....\n",
    "A:\n  status: 1\n  status: +2\n  stdout: x\n  stdout:\n   ......\n   tail...\n",
    "A:\n status: 2147483647\nB:\n status: -2147483648\n",
    "Ärger:\n  stderr: Grüße...\n",
    "a:\n  extra-args:\n  extra-args: x\n",
];

#[test]
fn canonical_text_is_read_back() {
    for text in TEXTS {
        let spec = parse_tests(text).unwrap();
        let written = to_text(&spec);
        assert_eq!(parse_tests(&written), Ok(spec), "{:?} written as {:?}", text, written);
    }
}

#[test]
fn canonical_text_is_its_own_canonical_text() {
    for text in TEXTS {
        let written = to_text(&parse_tests(text).unwrap());
        assert_eq!(to_text(&parse_tests(&written).unwrap()), written);
    }
}

#[test]
fn canonical_text_of_an_example() {
    let spec = parse_tests(
        "Compiler:\n  status: error\n  extra-args: -O2\n  stderr:\n    warning\n\n    ...x\n\nRun-time:\n  stdout: Hello world\n  extra-args:\n    a\n    b\n",
    ).unwrap();
    assert_eq!(
        to_text(&spec),
        "compiler:\n  extra-args:\n    -O2\n  status:\n    error\n  stderr:\n    warning\n\n    ...x\nrun-time:\n  extra-args:\n    a\n    b\n  stdout:\n    Hello world\n"
    );
    assert_eq!(
        canonical_lines_of(&spec)[..5],
        ["compiler:", "  extra-args:", "    -O2", "  status:", "    error"]
    );
}

#[test]
fn marker_comes_last_and_label_ignore_in_capitals() {
    assert_eq!(to_text(&TestSpecification::new(true)), "ignore:\n");
    assert_eq!(to_text(&TestSpecification::new(false)), "");
    assert_eq!(to_text(&parse_tests("A:\nignore:\nB:\n").unwrap()), "a:\nb:\nignore:\n");
    assert_eq!(to_text(&parse_tests("Ignore:\n").unwrap()), "IGNORE:\n");
}

#[test]
fn empty_output_is_written_and_absent_output_is_not() {
    let mut spec = TestSpecification::new(false);
    let mut e = CommandExpectation::new();
    e.expected_stdout = Some(vec![]);
    spec.insert("a".to_string(), e);
    assert_eq!(to_text(&spec), "a:\n  stdout:\n");
    let mut e = CommandExpectation::new();
    e.expected_stderr = Some(vec![PatternLine::SkipAny, PatternLine::Exact("end".to_string())]);
    spec.insert("b".to_string(), e);
    assert_eq!(to_text(&spec), "a:\n  stdout:\nb:\n  stderr:\n    ...\n    end\n");
    assert_eq!(parse_tests(&to_text(&spec)), Ok(spec));
}

#[test]
fn numbers_in_decimal() {
    for n in [0, 1, 9, 10, 11, 99, 100, 12345, -1, -10, i32::MAX, i32::MIN] {
        assert_eq!(decimal_string(n), n.to_string());
    }
    assert_eq!(decimal_string(-2147483648), "-2147483648");
    assert_eq!(status_word(ExpectedStatus::Success), "success");
    assert_eq!(status_word(ExpectedStatus::Error), "error");
    assert_eq!(status_word(ExpectedStatus::Signal), "signal");
    assert_eq!(status_word(ExpectedStatus::ExitCode(-3)), "-3");
}

#[test]
fn parts_between_line_feeds() {
    assert_eq!(split_at_feeds(""), vec![""]);
    assert_eq!(split_at_feeds("a"), vec!["a"]);
    assert_eq!(split_at_feeds("a\nb"), vec!["a", "b"]);
    assert_eq!(split_at_feeds("a\n\nb\n"), vec!["a", "", "b", ""]);
    assert_eq!(split_at_feeds("\n"), vec!["", ""]);
    assert_eq!(split_at_feeds("a\r\nb"), vec!["a\r", "b"]);
}
