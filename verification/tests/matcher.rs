use lang_tester::pattern::PatternLine;

fn exact(s: &str) -> PatternLine {
    PatternLine::Exact(s.to_string())
}

fn accepts(expected: &[PatternLine], actual: &[&str]) -> bool {
    lang_tester::matcher::matches(expected, actual)
}

#[test]
fn nothing_matches_nothing() {
    assert!(accepts(&[], &[]));
    assert!(!accepts(&[], &["a"]));
    assert!(!accepts(&[exact("a")], &[]));
}

#[test]
fn skip_any_matches_every_sequence() {
    assert!(accepts(&[PatternLine::SkipAny], &[]));
    assert!(accepts(&[PatternLine::SkipAny], &["a"]));
    assert!(accepts(&[PatternLine::SkipAny], &["a", "", "b", "anything"]));
}

#[test]
fn skip_any_between_anchors() {
    let p = [exact("a"), PatternLine::SkipAny, exact("b")];
    assert!(accepts(&p, &["a", "x", "y", "b"]));
    assert!(accepts(&p, &["a", "b"]));
    assert!(!accepts(&p, &["a", "b", "x"]));
    assert!(!accepts(&p, &["a"]));
    assert!(!accepts(&p, &["x", "a", "b"]));
}

#[test]
fn skip_any_tries_later_lines_again() {
    let p = [PatternLine::SkipAny, exact("b")];
    assert!(accepts(&p, &["b", "x", "b"]));
    assert!(!accepts(&p, &["b", "x"]));
    let q = [exact("a"), PatternLine::SkipAny, exact("b"), exact("c"), PatternLine::SkipAny];
    assert!(accepts(&q, &["a", "b", "x", "b", "c", "d"]));
    assert!(!accepts(&q, &["a", "b", "x", "c"]));
}

#[test]
fn neighbouring_skip_any() {
    let p = [PatternLine::SkipAny, PatternLine::SkipAny, exact("z"), PatternLine::SkipAny,
        PatternLine::SkipAny];
    assert!(accepts(&p, &["z"]));
    assert!(accepts(&p, &["a", "z", "b"]));
    assert!(!accepts(&p, &["a", "b"]));
    assert!(accepts(&[PatternLine::SkipAny, PatternLine::SkipAny], &[]));
}

#[test]
fn line_wildcards() {
    assert!(accepts(&[PatternLine::SuffixWildcard("hello".to_string())], &["hello world"]));
    assert!(accepts(&[PatternLine::PrefixWildcard("world".to_string())], &["hello world"]));
    assert!(accepts(&[PatternLine::SubstringWildcard("lo wo".to_string())], &["hello world"]));
    assert!(!accepts(&[PatternLine::SuffixWildcard("world".to_string())], &["hello world"]));
    assert!(!accepts(&[PatternLine::PrefixWildcard("hello".to_string())], &["hello world"]));
    assert!(!accepts(&[PatternLine::SubstringWildcard("low".to_string())], &["hello world"]));
    assert!(accepts(&[PatternLine::SubstringWildcard("".to_string())], &["x"]));
    assert!(accepts(&[PatternLine::SubstringWildcard("hello world".to_string())], &["hello world"]));
    assert!(!accepts(&[PatternLine::PrefixWildcard("a long suffix".to_string())], &["fix"]));
}

#[test]
fn lines_are_trimmed_and_blank_ends_dropped() {
    assert!(accepts(&[exact("a"), exact("b")], &["", "  ", "  a  ", "\tb", "", " "]));
    assert!(!accepts(&[exact("a"), exact("b")], &["a", "", "b"]));
    assert!(accepts(&[exact("a"), exact(""), exact("b")], &["a", "   ", "b"]));
    assert!(accepts(&[], &["", "   ", "\t"]));
}

#[test]
fn letters_of_different_case_differ() {
    assert!(!accepts(&[exact("Hello")], &["hello"]));
    assert!(!accepts(&[PatternLine::SuffixWildcard("Hel".to_string())], &["hello"]));
}

#[test]
fn accepts_takes_the_line_as_it_is() {
    assert!(exact("a").accepts("a"));
    assert!(!exact("a").accepts(" a"));
    assert!(PatternLine::SkipAny.accepts("whatever"));
    assert!(PatternLine::SkipAny.is_skip_any());
    assert!(!exact("...").is_skip_any());
}

#[test]
fn classify_reads_the_wildcards() {
    assert_eq!(PatternLine::classify("..."), PatternLine::SkipAny);
    assert_eq!(PatternLine::classify("...tail"), PatternLine::PrefixWildcard("tail".to_string()));
    assert_eq!(PatternLine::classify("head..."), PatternLine::SuffixWildcard("head".to_string()));
    assert_eq!(
        PatternLine::classify("...mid..."),
        PatternLine::SubstringWildcard("mid".to_string())
    );
    assert_eq!(PatternLine::classify("......"), PatternLine::SubstringWildcard("".to_string()));
    assert_eq!(PatternLine::classify("...."), PatternLine::PrefixWildcard(".".to_string()));
    assert_eq!(PatternLine::classify("plain"), exact("plain"));
    assert_eq!(PatternLine::classify(".."), exact(".."));
    assert_eq!(PatternLine::classify(""), exact(""));
    assert_eq!(PatternLine::classify("a...b"), exact("a...b"));
}

#[test]
fn text_writes_the_pattern_back() {
    for s in ["...", "...tail", "head...", "...mid...", "......", "....", "plain", ""] {
        assert_eq!(PatternLine::classify(s).text(), s);
    }
}
