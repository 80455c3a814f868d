//! Expected output: pattern lines, and the matcher that holds captured lines
//! against them.

use vstd::prelude::*;
use crate::text::{
    all_trimmed, chars_of, same_text, string_of, stripped, };

verus! {

/// One line of expected output.
#[derive(Clone, Debug, PartialEq, Eq)]
pub enum PatternLine {
    /// The line is exactly this text.
    Exact(String),
    /// The line ends with this text; the pattern began with the wildcard.
    PrefixWildcard(String),
    /// The line begins with this text; the pattern ended with the wildcard.
    SuffixWildcard(String),
    /// The line holds this text somewhere; the pattern began and ended with
    /// the wildcard.
    SubstringWildcard(String),
    /// Any number of lines, none included.
    SkipAny,
}

/// What a pattern line stands for.
pub enum Pattern {
    Exact(Seq<char>),
    PrefixWildcard(Seq<char>),
    SuffixWildcard(Seq<char>),
    SubstringWildcard(Seq<char>),
    SkipAny,
}

impl View for PatternLine {
    type V = Pattern;

    open spec fn view(&self) -> Pattern {
        match self {
            PatternLine::Exact(t) => Pattern::Exact(t@),
            PatternLine::PrefixWildcard(t) => Pattern::PrefixWildcard(t@),
            PatternLine::SuffixWildcard(t) => Pattern::SuffixWildcard(t@),
            PatternLine::SubstringWildcard(t) => Pattern::SubstringWildcard(t@),
            PatternLine::SkipAny => Pattern::SkipAny,
        }
    }
}

/// The wildcard marker: three full stops.
pub open spec fn wildcard() -> Seq<char> {
    seq!['.', '.', '.']
}

/// Whether the wildcard marker stands in `s` at index `at`.
pub open spec fn wildcard_at(s: Seq<char>, at: int) -> bool {
    &&& 0 <= at
    &&& at + 3 <= s.len()
    &&& s[at] == '.'
    &&& s[at + 1] == '.'
    &&& s[at + 2] == '.'
}

/// The pattern that the text `s` writes. The marker alone skips lines. A
/// marker at each end, the two apart, asks for the text between them; one at
/// the start alone, or one at the end alone, for the rest of the text. In a
/// text of four or five full stops the first three are the marker.
pub open spec fn pattern_of(s: Seq<char>) -> Pattern {
    let n = s.len() as int;
    if n == 3 && wildcard_at(s, 0) {
        Pattern::SkipAny
    } else if n >= 6 && wildcard_at(s, 0) && wildcard_at(s, n - 3) {
        Pattern::SubstringWildcard(s.subrange(3, n - 3))
    } else if wildcard_at(s, 0) {
        Pattern::PrefixWildcard(s.subrange(3, n))
    } else if wildcard_at(s, n - 3) {
        Pattern::SuffixWildcard(s.subrange(0, n - 3))
    } else {
        Pattern::Exact(s)
    }
}

/// The text that writes the pattern `p`.
pub open spec fn pattern_text(p: Pattern) -> Seq<char> {
    match p {
        Pattern::Exact(t) => t,
        Pattern::PrefixWildcard(t) => wildcard() + t,
        Pattern::SuffixWildcard(t) => t + wildcard(),
        Pattern::SubstringWildcard(t) => wildcard() + t + wildcard(),
        Pattern::SkipAny => wildcard(),
    }
}

/// Whether `part` stands in `s` at index `at`.
pub open spec fn occurs_at(s: Seq<char>, part: Seq<char>, at: int) -> bool {
    0 <= at && at + part.len() <= s.len() && s.subrange(at, at + part.len()) == part
}

/// Whether `part` stands somewhere in `s`.
pub open spec fn occurs_in(s: Seq<char>, part: Seq<char>) -> bool {
    exists|at: int| occurs_at(s, part, at)
}

/// Whether the pattern `p` accepts the line `line`. The line is taken as it
/// is, and letters of different case differ. `SkipAny` stands for no single
/// line; it accepts every one.
pub open spec fn pattern_accepts(p: Pattern, line: Seq<char>) -> bool {
    match p {
        Pattern::Exact(t) => line == t,
        Pattern::PrefixWildcard(suffix) => occurs_at(line, suffix, line.len() - suffix.len()),
        Pattern::SuffixWildcard(prefix) => occurs_at(line, prefix, 0),
        Pattern::SubstringWildcard(middle) => occurs_in(line, middle),
        Pattern::SkipAny => true,
    }
}

/// Whether the patterns from index `i` on accept the lines from index `j` on:
/// `SkipAny` takes any number of lines, every other pattern exactly one, and
/// no line is left over.
pub open spec fn matches_from(ps: Seq<Pattern>, ls: Seq<Seq<char>>, i: int, j: int) -> bool
    decreases ps.len() - i, ls.len() - j,
{
    if i >= ps.len() {
        j >= ls.len()
    } else if ps[i] is SkipAny {
        matches_from(ps, ls, i + 1, j) || (j < ls.len() && matches_from(ps, ls, i, j + 1))
    } else {
        j < ls.len() && pattern_accepts(ps[i], ls[j]) && matches_from(ps, ls, i + 1, j + 1)
    }
}

/// Whether the patterns `ps` accept the lines `ls`, all of them.
pub open spec fn seq_matches(ps: Seq<Pattern>, ls: Seq<Seq<char>>) -> bool {
    matches_from(ps, ls, 0, 0)
}

/// Captured lines as they are compared: each without the whitespace at its
/// ends, and the whole without the blank lines at its ends.
pub open spec fn normalized(actual: Seq<Seq<char>>) -> Seq<Seq<char>> {
    stripped(all_trimmed(actual))
}

impl PatternLine {
    /// The pattern that the text `line` writes.
    pub fn classify(line: &str) -> (p: PatternLine)
        ensures
            p@ == pattern_of(line@),
    {
        let cs = chars_of(line);
        let n = cs.len();
        let head = n >= 3 && cs[0] == '.' && cs[1] == '.' && cs[2] == '.';
        let tail = n >= 3 && cs[n - 3] == '.' && cs[n - 2] == '.' && cs[n - 1] == '.';
        if n == 3 && head {
            PatternLine::SkipAny
        } else if n >= 6 && head && tail {
            PatternLine::SubstringWildcard(string_of(cs.as_slice(), 3, n - 3))
        } else if head {
            PatternLine::PrefixWildcard(string_of(cs.as_slice(), 3, n))
        } else if tail {
            PatternLine::SuffixWildcard(string_of(cs.as_slice(), 0, n - 3))
        } else {
            assert(cs@.subrange(0, n as int) == cs@);
            PatternLine::Exact(string_of(cs.as_slice(), 0, n))
        }
    }

    /// The text that writes this pattern.
    pub fn text(&self) -> (r: String)
        ensures
            r@ == pattern_text(self@),
    {
        let mut r = String::new();
        match self {
            PatternLine::Exact(t) => {
                r.append(t.as_str());
            },
            PatternLine::PrefixWildcard(t) => {
                push_wildcard(&mut r);
                r.append(t.as_str());
            },
            PatternLine::SuffixWildcard(t) => {
                r.append(t.as_str());
                push_wildcard(&mut r);
            },
            PatternLine::SubstringWildcard(t) => {
                push_wildcard(&mut r);
                r.append(t.as_str());
                push_wildcard(&mut r);
            },
            PatternLine::SkipAny => {
                push_wildcard(&mut r);
            },
        }
        assert(r@ =~= pattern_text(self@));
        r
    }

    /// Whether this pattern is `SkipAny`.
    pub fn is_skip_any(&self) -> (r: bool)
        ensures
            r == (self@ is SkipAny),
    {
        match self {
            PatternLine::SkipAny => true,
            _ => false,
        }
    }

    /// Whether this pattern accepts `line`, taken as it is.
    pub fn accepts(&self, line: &str) -> (r: bool)
        ensures
            r == pattern_accepts(self@, line@),
    {
        let cs = chars_of(line);
        self.accepts_chars(cs.as_slice())
    }

    pub(crate) fn accepts_chars(&self, line: &[char]) -> (r: bool)
        ensures
            r == pattern_accepts(self@, line@),
    {
        match self {
            PatternLine::Exact(t) => {
                let part = chars_of(t.as_str());
                same_text(line, part.as_slice())
            },
            PatternLine::PrefixWildcard(t) => {
                let part = chars_of(t.as_str());
                part.len() <= line.len() && found_at(line, part.as_slice(), line.len() - part.len())
            },
            PatternLine::SuffixWildcard(t) => {
                let part = chars_of(t.as_str());
                found_at(line, part.as_slice(), 0)
            },
            PatternLine::SubstringWildcard(t) => {
                let part = chars_of(t.as_str());
                found_in(line, part.as_slice())
            },
            PatternLine::SkipAny => true,
        }
    }
}

fn push_wildcard(r: &mut String)
    ensures
        final(r)@ == old(r)@ + wildcard(),
{
    r.push('.');
    r.push('.');
    r.push('.');
    assert(r@ =~= old(r)@ + wildcard());
}

/// Whether `part` stands in `s` at index `at`.
pub fn found_at(s: &[char], part: &[char], at: usize) -> (r: bool)
    ensures
        r == occurs_at(s@, part@, at as int),
{
    if part.len() > s.len() || at > s.len() - part.len() {
        return false;
    }
    let mut k: usize = 0;
    while k < part.len()
        invariant
            k <= part.len(),
            at + part.len() <= s.len(),
            forall|x: int| 0 <= x < k ==> s@[at + x] == part@[x],
        decreases part.len() - k,
    {
        if s[at + k] != part[k] {
            assert(s@.subrange(at as int, at + part.len())[k as int] != part@[k as int]);
            return false;
        }
        k += 1;
    }
    assert(s@.subrange(at as int, at + part.len()) =~= part@);
    true
}

/// Whether `part` stands somewhere in `s`.
pub fn found_in(s: &[char], part: &[char]) -> (r: bool)
    ensures
        r == occurs_in(s@, part@),
{
    if part.len() > s.len() {
        return false;
    }
    if part.len() == 0 {
        assert(s@.subrange(0, 0) =~= part@);
        assert(occurs_at(s@, part@, 0));
        return true;
    }
    let last: usize = s.len() - part.len();
    let mut at: usize = 0;
    while at <= last
        invariant
            at <= last + 1,
            last == s.len() - part.len(),
            last < s.len(),
            forall|x: int| 0 <= x < at ==> !occurs_at(s@, part@, x),
        decreases last + 1 - at,
    {
        if found_at(s, part, at) {
            return true;
        }
        at += 1;
    }
    false
}

} // verus!
