use lang_tester::case::{to_lower_char, to_lowercase};
use lang_tester::number::parse_i32;
use lang_tester::text::{
    chars_of, is_whitespace, join_lines, same_text, split_lines, str_eq, string_of,
    strip_bounds, trim,
};

const SAMPLES: [&str; 14] = [
    "",
    "a",
    "  a  ",
    "\t\r\n a b \u{a0}\u{3000}",
    "   ",
    "a\nb",
    "a\r\nb\r\n",
    "a\rb\r",
    "\n\n",
    "\r\n\r",
    "x\n",
    "line one\n\n  line three  \n",
    "Grüße\nÄÖÜ ΑΣ\n",
    "\u{2028}sep\u{2029}",
];

#[test]
fn whitespace_is_what_std_calls_whitespace() {
    let mut n: u32 = 0;
    while n <= 0x10ffff {
        if let Some(c) = char::from_u32(n) {
            assert_eq!(is_whitespace(c), c.is_whitespace(), "U+{:04X}", n);
        }
        n += 1;
    }
}

#[test]
fn trim_is_what_std_trims() {
    for s in SAMPLES {
        assert_eq!(trim(s), s.trim());
    }
    assert_eq!(trim("  a b  "), "a b");
    assert_eq!(trim(" \t "), "");
}

#[test]
fn lines_are_what_std_splits() {
    for s in SAMPLES {
        let expected: Vec<String> = s.lines().map(|l| l.to_string()).collect();
        assert_eq!(split_lines(s), expected, "{:?}", s);
    }
    assert_eq!(split_lines("a\r\nb\n\nc"), vec!["a", "b", "", "c"]);
    assert_eq!(split_lines(""), Vec::<String>::new());
    assert_eq!(split_lines("\n"), vec![""]);
}

#[test]
fn lowercase_is_what_std_lowers() {
    for s in SAMPLES {
        assert_eq!(to_lowercase(s), s.to_lowercase());
    }
    assert_eq!(to_lowercase("Run-Time 42 [Z]"), "run-time 42 [z]");
    assert_eq!(to_lowercase("ÀB"), "àb");
    assert_eq!(to_lower_char('Q'), 'q');
    assert_eq!(to_lower_char('@'), '@');
    assert_eq!(to_lower_char('['), '[');
    assert_eq!(to_lower_char('é'), 'é');
}

#[test]
fn numbers_are_what_std_parses() {
    for s in ["0", "7", "-7", "+7", "007", "-0", "2147483647", "2147483648", "-2147483648",
        "-2147483649", "99999999999999999999999", "", "-", "+", "1a", "a1", " 1", "1 ", "--1",
        "+-1", "１"]
    {
        assert_eq!(parse_i32(s), s.parse::<i32>().ok(), "{:?}", s);
    }
    assert_eq!(parse_i32("123"), Some(123));
    assert_eq!(parse_i32("-45"), Some(-45));
}

#[test]
fn chars_and_strings() {
    assert_eq!(chars_of("aß€"), vec!['a', 'ß', '€']);
    assert_eq!(string_of(&['a', 'b', 'c', 'd'], 1, 3), "bc");
    assert_eq!(string_of(&['a'], 1, 1), "");
    assert!(same_text(&['a', 'b'], &['a', 'b']));
    assert!(!same_text(&['a', 'b'], &['a', 'c']));
    assert!(!same_text(&['a', 'b'], &['a']));
    assert!(str_eq("abc", "abc"));
    assert!(!str_eq("abc", "abd"));
}

#[test]
fn join_puts_line_feeds_between() {
    assert_eq!(join_lines(&[]), "");
    assert_eq!(join_lines(&["a"]), "a");
    assert_eq!(join_lines(&["a", "", "b"]), "a\n\nb");
}

#[test]
fn strip_bounds_leaves_the_inner_empties() {
    assert_eq!(strip_bounds(&["", "a", "", "b", "", ""]), (1, 4));
    assert_eq!(strip_bounds(&["a"]), (0, 1));
    let (a, b) = strip_bounds(&["", ""]);
    assert_eq!(a, b);
    let (a, b) = strip_bounds(&[]);
    assert_eq!(a, b);
}
