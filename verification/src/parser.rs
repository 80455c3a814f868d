//! The parser of test specifications: an indented text of command labels,
//! each with the keys `extra-args`, `status`, `stdout` and `stderr` below it.

use vstd::prelude::*;
use crate::case::{lowercase, to_lowercase};
use crate::expectation::{
    default_expectation, CommandExpectation, Expectation, ExpectedStatus, Specification,
    TestSpecification,
};
use crate::number::{decimal_i32, parse_i32};
use crate::pattern::{pattern_of, Pattern, PatternLine};
use crate::text::{
    all_trimmed, borrow_all, chars_of, indent_of, is_blank, is_space, is_whitespace, join_lines,
    joined, lines_of, skip_spaces, spaces_end, split_lines, str_eq,
    strip_bounds, stripped, trim, trimmed, views,
};

verus! {

/// What is wrong with a specification text.
#[derive(Clone, Copy, Debug, PartialEq, Eq, Structural)]
pub enum ParseErrorKind {
    /// No colon follows the key or label of a line.
    InvalidKeyTerminator,
    /// A value follows a command label, or the `ignore` marker.
    LabelHasValue,
    /// A command label is given a second time.
    DuplicateLabel,
    /// A key below a label is none of the four known ones.
    UnknownKey,
    /// The value of `status` is no status word and no exit code.
    UnknownStatus,
}

/// An error in a specification text, with the offset of the line at which the
/// parser stopped: the line of the label or key for the first three kinds,
/// the line after the value of the key for the other two.
#[derive(Clone, Copy, Debug, PartialEq, Eq, Structural)]
pub struct ParseError {
    pub kind: ParseErrorKind,
    pub line: usize,
}

/// The error of kind `kind` at line offset `line`.
pub open spec fn error_at(kind: ParseErrorKind, line: int) -> ParseError {
    ParseError { kind, line: line as usize }
}

/// The first index at or after `from` that holds whitespace or a colon, or
/// the length of `s`: where the key that starts at `from` ends.
pub open spec fn key_end(s: Seq<char>, from: int) -> int
    decreases s.len() - from,
{
    if 0 <= from < s.len() && !is_space(s[from]) && s[from] != ':' {
        key_end(s, from + 1)
    } else {
        from
    }
}

/// The key and the value that `line` holds, the key starting at index
/// `indent`: the key runs up to whitespace or a colon; a colon follows it,
/// after whitespace or none; the value is the rest, without the whitespace at
/// its ends. There is none where no colon follows the key.
pub open spec fn key_val_of(line: Seq<char>, indent: int) -> Option<(Seq<char>, Seq<char>)> {
    let stop = key_end(line, indent);
    let colon = spaces_end(line, stop);
    if 0 <= colon < line.len() && line[colon] == ':' {
        Some((line.subrange(indent, stop), trimmed(line.subrange(colon + 1, line.len() as int))))
    } else {
        None
    }
}

/// The first index at or after `from` whose line is neither blank nor
/// indented by more than `indent`, or the number of lines: where the value of
/// a key indented by `indent` ends.
pub open spec fn value_end(lines: Seq<Seq<char>>, from: int, indent: int) -> int
    decreases lines.len() - from,
{
    if 0 <= from < lines.len() && (is_blank(lines[from]) || indent_of(lines[from]) > indent) {
        value_end(lines, from + 1, indent)
    } else {
        from
    }
}

/// A key with its value, and the offset of the line after the value.
pub struct Entry {
    pub end: int,
    pub key: Seq<char>,
    pub value: Seq<Seq<char>>,
}

/// The entry that starts at line `off`, its key at index `indent`. The value
/// is what follows the colon and then every line up to the end of the value,
/// each without the whitespace at its ends, a blank line as an empty text;
/// the empty texts at the two ends of the value are left out.
pub open spec fn entry_of(lines: Seq<Seq<char>>, off: int, indent: int) -> Option<Entry> {
    match key_val_of(lines[off], indent) {
        None => None,
        Some((key, first)) => {
            let end = value_end(lines, off + 1, indent);
            Some(
                Entry {
                    end,
                    key,
                    value: stripped(seq![first] + all_trimmed(lines.subrange(off + 1, end))),
                },
            )
        },
    }
}

/// The status that the lower-case text `lowered` writes: one of the three
/// status words, or else an exit code in decimal.
pub open spec fn status_of(lowered: Seq<char>) -> Option<ExpectedStatus> {
    if lowered == "success"@ {
        Some(ExpectedStatus::Success)
    } else if lowered == "error"@ {
        Some(ExpectedStatus::Error)
    } else if lowered == "signal"@ {
        Some(ExpectedStatus::Signal)
    } else {
        match decimal_i32(lowered) {
            Some(code) => Some(ExpectedStatus::ExitCode(code)),
            None => None,
        }
    }
}

/// The patterns that the texts of `value` write, one per line.
pub open spec fn patterns_of(value: Seq<Seq<char>>) -> Seq<Pattern> {
    Seq::new(value.len(), |i: int| pattern_of(value[i]))
}

/// The expectation `cmd` after the entry with key `key` and value `value`.
/// `extra-args` adds the value as one more argument; `status`, `stdout` and
/// `stderr` set their field, whatever it held. Another key is an error, and
/// so is a `status` that names no status; letters of either case name one.
pub open spec fn with_entry(cmd: Expectation, key: Seq<char>, value: Seq<Seq<char>>) -> Result<
    Expectation,
    ParseErrorKind,
> {
    if key == "extra-args"@ {
        Ok(Expectation { extra_args: cmd.extra_args.push(joined(value)), ..cmd })
    } else if key == "status"@ {
        match status_of(lowercase(joined(value))) {
            Some(status) => Ok(Expectation { status, ..cmd }),
            None => Err(ParseErrorKind::UnknownStatus),
        }
    } else if key == "stderr"@ {
        Ok(Expectation { stderr: Some(patterns_of(value)), ..cmd })
    } else if key == "stdout"@ {
        Ok(Expectation { stdout: Some(patterns_of(value)), ..cmd })
    } else {
        Err(ParseErrorKind::UnknownKey)
    }
}

/// The entries of one command, read from line `off` on into `cmd`: the
/// expectation with all of them, and the offset of the line at which they
/// end. Blank lines are passed over. The entries end at the first line that
/// is indented exactly as the label, by `indent`, or with the text.
pub open spec fn entries_of(lines: Seq<Seq<char>>, off: int, indent: int, cmd: Expectation) -> Result<
    (int, Expectation),
    ParseError,
>
    decreases lines.len() - off,
    via entries_of_decreases
{
    if !(0 <= off < lines.len()) {
        Ok((off, cmd))
    } else if is_blank(lines[off]) {
        entries_of(lines, off + 1, indent, cmd)
    } else if indent_of(lines[off]) == indent {
        Ok((off, cmd))
    } else {
        match entry_of(lines, off, indent_of(lines[off])) {
            None => Err(error_at(ParseErrorKind::InvalidKeyTerminator, off)),
            Some(entry) => match with_entry(cmd, entry.key, entry.value) {
                Err(kind) => Err(error_at(kind, entry.end)),
                Ok(next) => entries_of(lines, entry.end, indent, next),
            },
        }
    }
}

#[via_fn]
proof fn entries_of_decreases(lines: Seq<Seq<char>>, off: int, indent: int, cmd: Expectation) {
    if 0 <= off < lines.len() {
        lemma_value_end(lines, off + 1, indent_of(lines[off]));
    }
}

/// The commands read from line `off` on into `acc`. Blank lines are passed
/// over. Every other line holds a label and a colon: the `ignore` marker,
/// which marks the specification to be skipped, or the label of a command,
/// whose entries follow. A label counts in lower case, and none may come
/// twice.
pub open spec fn commands_of(lines: Seq<Seq<char>>, off: int, acc: Specification) -> Result<
    Specification,
    ParseError,
>
    decreases lines.len() - off,
    via commands_of_decreases
{
    if !(0 <= off < lines.len()) {
        Ok(acc)
    } else if is_blank(lines[off]) {
        commands_of(lines, off + 1, acc)
    } else {
        let indent = indent_of(lines[off]);
        match key_val_of(lines[off], indent) {
            None => Err(error_at(ParseErrorKind::InvalidKeyTerminator, off)),
            Some((name, value)) => if value.len() > 0 {
                Err(error_at(ParseErrorKind::LabelHasValue, off))
            } else if name == "ignore"@ {
                commands_of(lines, off + 1, acc.skipped())
            } else if acc.has_label(lowercase(name)) {
                Err(error_at(ParseErrorKind::DuplicateLabel, off))
            } else {
                match entries_of(lines, off + 1, indent, default_expectation()) {
                    Err(e) => Err(e),
                    Ok((next, cmd)) => commands_of(
                        lines,
                        next,
                        acc.with_command(lowercase(name), cmd),
                    ),
                }
            },
        }
    }
}

#[via_fn]
proof fn commands_of_decreases(lines: Seq<Seq<char>>, off: int, acc: Specification) {
    if 0 <= off < lines.len() {
        lemma_entries_of_end(lines, off + 1, indent_of(lines[off]), default_expectation());
    }
}

/// The first index at or after `from` whose line is not blank, or the number
/// of lines.
pub open spec fn first_content(lines: Seq<Seq<char>>, from: int) -> int
    decreases lines.len() - from,
{
    if 0 <= from < lines.len() && is_blank(lines[from]) {
        first_content(lines, from + 1)
    } else {
        from
    }
}

/// Whether the first line of `lines` that is not blank is the `ignore`
/// marker: the word `ignore` and a colon, and nothing after it.
pub open spec fn begins_with_ignore(lines: Seq<Seq<char>>) -> bool {
    let first = first_content(lines, 0);
    &&& 0 <= first < lines.len()
    &&& key_val_of(lines[first], indent_of(lines[first])) == Some(
        ("ignore"@, Seq::<char>::empty()),
    )
}

/// The specification that `lines` write. One that begins with the `ignore`
/// marker is skipped whole: it has no command, and what follows the marker is
/// not read.
pub open spec fn parsed(lines: Seq<Seq<char>>) -> Result<Specification, ParseError> {
    if begins_with_ignore(lines) {
        Ok(Specification::empty(true))
    } else {
        commands_of(lines, 0, Specification::empty(false))
    }
}

/// The specification that the text `text` writes.
pub open spec fn parsed_text(text: Seq<char>) -> Result<Specification, ParseError> {
    parsed(lines_of(text))
}

/// Where a key ends: within the line, after characters that are neither
/// whitespace nor a colon, and before one that is.
pub proof fn lemma_key_end(s: Seq<char>, from: int)
    requires
        0 <= from <= s.len(),
    ensures
        from <= key_end(s, from) <= s.len(),
        forall|i: int| from <= i < key_end(s, from) ==> !is_space(#[trigger] s[i]) && s[i] != ':',
        key_end(s, from) < s.len() ==> is_space(s[key_end(s, from)]) || s[key_end(s, from)] == ':',
    decreases s.len() - from,
{
    if from < s.len() && !is_space(s[from]) && s[from] != ':' {
        lemma_key_end(s, from + 1);
    }
}

/// A value ends at or after the line at which it starts, and within the
/// text.
pub proof fn lemma_value_end(lines: Seq<Seq<char>>, from: int, indent: int)
    requires
        0 <= from <= lines.len(),
    ensures
        from <= value_end(lines, from, indent) <= lines.len(),
    decreases lines.len() - from,
{
    if from < lines.len() && (is_blank(lines[from]) || indent_of(lines[from]) > indent) {
        lemma_value_end(lines, from + 1, indent);
    }
}

/// The entries of a command end at or after the line at which they start, and
/// within the text.
pub proof fn lemma_entries_of_end(lines: Seq<Seq<char>>, off: int, indent: int, cmd: Expectation)
    requires
        0 <= off <= lines.len(),
    ensures
        entries_of(lines, off, indent, cmd) matches Ok((next, _)) ==> off <= next <= lines.len(),
    decreases lines.len() - off,
{
    if off < lines.len() {
        if is_blank(lines[off]) {
            lemma_entries_of_end(lines, off + 1, indent, cmd);
        } else if indent_of(lines[off]) != indent {
            lemma_value_end(lines, off + 1, indent_of(lines[off]));
            match entry_of(lines, off, indent_of(lines[off])) {
                None => {},
                Some(entry) => match with_entry(cmd, entry.key, entry.value) {
                    Err(_) => {},
                    Ok(next) => {
                        lemma_entries_of_end(lines, entry.end, indent, next);
                    },
                },
            }
        }
    }
}


/// Whether `line` holds nothing but whitespace.
pub fn is_blank_line(line: &str) -> (r: bool)
    ensures
        r == is_blank(line@),
{
    let cs = chars_of(line);
    skip_spaces(cs.as_slice(), 0) == cs.len()
}

/// The number of whitespace characters at the start of the line at offset
/// `line_off`.
pub fn indent_level(lines: &[&str], line_off: usize) -> (r: usize)
    requires
        line_off < lines.len(),
    ensures
        r == indent_of(lines@[line_off as int]@),
        r <= lines@[line_off as int]@.len(),
{
    let cs = chars_of(lines[line_off]);
    skip_spaces(cs.as_slice(), 0)
}

/// Parts a line such as `key: val` into the key and the value. The key starts
/// at index `indent` of the line at offset `line_off`.
pub fn key_val<'a>(lines: &[&'a str], line_off: usize, indent: usize) -> (r: Result<
    (&'a str, &'a str),
    ParseError,
>)
    requires
        line_off < lines.len(),
        indent <= lines@[line_off as int]@.len(),
    ensures
        match r {
            Ok((key, value)) => key_val_of(lines@[line_off as int]@, indent as int) == Some(
                (key@, value@),
            ),
            Err(e) => key_val_of(lines@[line_off as int]@, indent as int) is None && e == error_at(
                ParseErrorKind::InvalidKeyTerminator,
                line_off as int,
            ),
        },
{
    let line: &'a str = lines[line_off];
    let cs = chars_of(line);
    let mut stop: usize = indent;
    while stop < cs.len() && !is_whitespace(cs[stop]) && cs[stop] != ':'
        invariant
            indent <= stop <= cs.len(),
            key_end(cs@, indent as int) == key_end(cs@, stop as int),
        decreases cs.len() - stop,
    {
        stop += 1;
    }
    let colon = skip_spaces(cs.as_slice(), stop);
    if colon < cs.len() && cs[colon] == ':' {
        let key = line.substring_char(indent, stop);
        let rest = line.substring_char(colon + 1, cs.len());
        Ok((key, trim(rest)))
    } else {
        Err(ParseError { kind: ParseErrorKind::InvalidKeyTerminator, line: line_off })
    }
}

/// Whether `line` still belongs to the value of a key indented by `indent`:
/// it is blank, or indented by more.
fn continues_value(line: &str, indent: usize) -> (r: bool)
    ensures
        r == (is_blank(line@) || indent_of(line@) > indent),
{
    let cs = chars_of(line);
    let own = skip_spaces(cs.as_slice(), 0);
    own == cs.len() || own > indent
}

/// Parts one or more lines of the form `key: val`, where the value may go on
/// over many lines, into the key and the lines of the value, and gives the
/// offset of the line after the value. The empty lines at the two ends of the
/// value are left out.
pub fn key_multiline_val<'a>(lines: &[&'a str], line_off: usize, indent: usize) -> (r: Result<
    (usize, &'a str, Vec<&'a str>),
    ParseError,
>)
    requires
        line_off < lines.len(),
        indent <= lines@[line_off as int]@.len(),
    ensures
        match r {
            Ok((end, key, value)) => {
                &&& line_off < end <= lines.len()
                &&& entry_of(views(lines@), line_off as int, indent as int) == Some(
                    Entry { end: end as int, key: key@, value: views(value@) },
                )
            },
            Err(e) => entry_of(views(lines@), line_off as int, indent as int) is None && e
                == error_at(ParseErrorKind::InvalidKeyTerminator, line_off as int),
        },
{
    let ghost t = views(lines@);
    let (key, first) = match key_val(lines, line_off, indent) {
        Ok(pair) => pair,
        Err(e) => {
            return Err(e);
        },
    };
    let mut val: Vec<&'a str> = Vec::new();
    val.push(first);
    let mut off: usize = line_off + 1;
    assert(views(val@) =~= seq![first@] + all_trimmed(t.subrange(line_off + 1, off as int)));
    while off < lines.len() && continues_value(lines[off], indent)
        invariant
            line_off < off <= lines.len(),
            t == views(lines@),
            value_end(t, line_off + 1, indent as int) == value_end(t, off as int, indent as int),
            views(val@) == seq![first@] + all_trimmed(t.subrange(line_off + 1, off as int)),
        decreases lines.len() - off,
    {
        let ghost before = views(val@);
        let piece = trim(lines[off]);
        val.push(piece);
        off += 1;
        assert(views(val@) =~= seq![first@] + all_trimmed(t.subrange(line_off + 1, off as int)))
            by {
            assert(views(val@) =~= before.push(piece@));
        }
    }
    let (a, b) = strip_bounds(val.as_slice());
    let mut value: Vec<&'a str> = Vec::new();
    let mut k: usize = a;
    while k < b
        invariant
            a <= k <= b <= val.len(),
            value.len() == k - a,
            forall|x: int| 0 <= x < k - a ==> value@[x]@ == val@[a + x]@,
        decreases b - k,
    {
        value.push(val[k]);
        k += 1;
    }
    assert(views(value@) =~= views(val@).subrange(a as int, b as int));
    Ok((off, key, value))
}

/// The status that the lower-case text `lowered` writes.
pub fn status_from(lowered: &str) -> (r: Option<ExpectedStatus>)
    ensures
        r == status_of(lowered@),
{
    if str_eq(lowered, "success") {
        Some(ExpectedStatus::Success)
    } else if str_eq(lowered, "error") {
        Some(ExpectedStatus::Error)
    } else if str_eq(lowered, "signal") {
        Some(ExpectedStatus::Signal)
    } else {
        match parse_i32(lowered) {
            Some(code) => Some(ExpectedStatus::ExitCode(code)),
            None => None,
        }
    }
}

/// The status that `value` writes, in letters of either case.
pub fn parse_status(value: &str) -> (r: Option<ExpectedStatus>)
    ensures
        r == status_of(lowercase(value@)),
{
    let lowered = to_lowercase(value);
    status_from(lowered.as_str())
}

/// The patterns that the lines of `value` write.
pub fn classify_all(value: &[&str]) -> (r: Vec<PatternLine>)
    ensures
        views(r@) == patterns_of(views(value@)),
{
    let mut r: Vec<PatternLine> = Vec::new();
    let mut i: usize = 0;
    while i < value.len()
        invariant
            i <= value.len(),
            r.len() == i,
            forall|k: int| 0 <= k < i ==> r@[k]@ == pattern_of(value@[k]@),
        decreases value.len() - i,
    {
        r.push(PatternLine::classify(value[i]));
        i += 1;
    }
    assert(views(r@) =~= patterns_of(views(value@)));
    r
}

/// Brings the entry with key `key` and value `value` into `cmd`. On an error
/// `cmd` stays as it was.
pub fn apply_entry(cmd: &mut CommandExpectation, key: &str, value: &[&str]) -> (r: Result<
    (),
    ParseErrorKind,
>)
    ensures
        match r {
            Ok(_) => with_entry(old(cmd)@, key@, views(value@)) == Ok::<Expectation, ParseErrorKind>(
                final(cmd)@,
            ),
            Err(kind) => with_entry(old(cmd)@, key@, views(value@)) == Err::<
                Expectation,
                ParseErrorKind,
            >(kind) && final(cmd)@ == old(cmd)@,
        },
{
    if str_eq(key, "extra-args") {
        let arg = join_lines(value);
        let ghost before = views(cmd.extra_args@);
        cmd.extra_args.push(arg);
        assert(views(cmd.extra_args@) =~= before.push(arg@));
        Ok(())
    } else if str_eq(key, "status") {
        let text = join_lines(value);
        match parse_status(text.as_str()) {
            Some(status) => {
                cmd.expected_status = status;
                Ok(())
            },
            None => Err(ParseErrorKind::UnknownStatus),
        }
    } else if str_eq(key, "stderr") {
        cmd.expected_stderr = Some(classify_all(value));
        Ok(())
    } else if str_eq(key, "stdout") {
        cmd.expected_stdout = Some(classify_all(value));
        Ok(())
    } else {
        Err(ParseErrorKind::UnknownKey)
    }
}

/// Reads the entries of one command, from the line at offset `from` on; the
/// label of the command is indented by `indent`. Gives the offset of the line
/// at which the entries end, and the expectation that they make.
pub fn parse_entries(lines: &[&str], from: usize, indent: usize) -> (r: Result<
    (usize, CommandExpectation),
    ParseError,
>)
    requires
        from <= lines.len(),
    ensures
        match r {
            Ok((next, cmd)) => {
                &&& from <= next <= lines.len()
                &&& entries_of(views(lines@), from as int, indent as int, default_expectation())
                    == Ok::<(int, Expectation), ParseError>((next as int, cmd@))
            },
            Err(e) => entries_of(views(lines@), from as int, indent as int, default_expectation())
                == Err::<(int, Expectation), ParseError>(e),
        },
{
    let ghost t = views(lines@);
    let ghost goal = entries_of(t, from as int, indent as int, default_expectation());
    let mut cmd = CommandExpectation::new();
    let mut off: usize = from;
    while off < lines.len()
        invariant
            from <= off <= lines.len(),
            t == views(lines@),
            goal == entries_of(t, from as int, indent as int, default_expectation()),
            goal == entries_of(t, off as int, indent as int, cmd@),
        decreases lines.len() - off,
    {
        let own = indent_level(lines, off);
        if is_blank_line(lines[off]) {
            off += 1;
        } else if own == indent {
            return Ok((off, cmd));
        } else {
            match key_multiline_val(lines, off, own) {
                Err(e) => {
                    return Err(e);
                },
                Ok((end, key, value)) => {
                    match apply_entry(&mut cmd, key, value.as_slice()) {
                        Err(kind) => {
                            return Err(ParseError { kind, line: end });
                        },
                        Ok(_) => {
                            off = end;
                        },
                    }
                },
            }
        }
    }
    Ok((off, cmd))
}

/// Whether the first line of `lines` that is not blank is the `ignore`
/// marker.
pub fn starts_ignored(lines: &[&str]) -> (r: bool)
    ensures
        r == begins_with_ignore(views(lines@)),
{
    let ghost t = views(lines@);
    let mut first: usize = 0;
    while first < lines.len() && is_blank_line(lines[first])
        invariant
            first <= lines.len(),
            t == views(lines@),
            first_content(t, 0) == first_content(t, first as int),
        decreases lines.len() - first,
    {
        first += 1;
    }
    if first == lines.len() {
        return false;
    }
    let indent = indent_level(lines, first);
    match key_val(lines, first, indent) {
        Ok((name, value)) => {
            let marker = str_eq(name, "ignore") && value.is_empty();
            assert(value@.len() == 0 <==> value@ =~= Seq::<char>::empty());
            marker
        },
        Err(_) => false,
    }
}

/// Parses the lines of a specification text.
pub fn parse_lines(lines: &[&str]) -> (r: Result<TestSpecification, ParseError>)
    ensures
        match r {
            Ok(spec) => parsed(views(lines@)) == Ok::<Specification, ParseError>(spec@),
            Err(e) => parsed(views(lines@)) == Err::<Specification, ParseError>(e),
        },
{
    if starts_ignored(lines) {
        return Ok(TestSpecification::new(true));
    }
    let ghost t = views(lines@);
    let ghost goal = commands_of(t, 0, Specification::empty(false));
    let mut spec = TestSpecification::new(false);
    let mut off: usize = 0;
    while off < lines.len()
        invariant
            off <= lines.len(),
            t == views(lines@),
            !begins_with_ignore(t),
            goal == commands_of(t, 0, Specification::empty(false)),
            goal == commands_of(t, off as int, spec@),
        decreases lines.len() - off,
    {
        let indent = indent_level(lines, off);
        if is_blank_line(lines[off]) {
            off += 1;
        } else {
            match key_val(lines, off, indent) {
                Err(e) => {
                    return Err(e);
                },
                Ok((name, value)) => {
                    if !value.is_empty() {
                        return Err(ParseError { kind: ParseErrorKind::LabelHasValue, line: off });
                    } else if str_eq(name, "ignore") {
                        spec.set_skip();
                        off += 1;
                    } else {
                        let label = to_lowercase(name);
                        if spec.position(label.as_str()).is_some() {
                            return Err(
                                ParseError { kind: ParseErrorKind::DuplicateLabel, line: off },
                            );
                        }
                        match parse_entries(lines, off + 1, indent) {
                            Err(e) => {
                                return Err(e);
                            },
                            Ok((next, cmd)) => {
                                spec.insert(label, cmd);
                                off = next;
                            },
                        }
                    }
                },
            }
        }
    }
    Ok(spec)
}

/// Parses the text of a test specification.
///
/// The result is `Ok` exactly where the text is well formed, and then holds
/// what the text says; else the error tells what is wrong, and at which line.
pub fn parse_tests(test_str: &str) -> (r: Result<TestSpecification, ParseError>)
    ensures
        match r {
            Ok(spec) => parsed_text(test_str@) == Ok::<Specification, ParseError>(spec@),
            Err(e) => parsed_text(test_str@) == Err::<Specification, ParseError>(e),
        },
{
    let owned = split_lines(test_str);
    let lines = borrow_all(&owned);
    parse_lines(lines.as_slice())
}


/// A specification whose first line that is not blank is the `ignore`
/// marker is skipped and holds no command, whatever follows the marker.
pub proof fn lemma_ignore_first(before: Seq<Seq<char>>, marker: Seq<char>, after: Seq<Seq<char>>)
    requires
        forall|i: int| 0 <= i < before.len() ==> is_blank(#[trigger] before[i]),
        !is_blank(marker),
        key_val_of(marker, indent_of(marker)) == Some(("ignore"@, Seq::<char>::empty())),
    ensures
        parsed(before + seq![marker] + after) == Ok::<Specification, ParseError>(
            Specification::empty(true),
        ),
{
    let lines = before + seq![marker] + after;
    lemma_first_content(lines, 0, before.len() as int);
    assert(lines[before.len() as int] == marker);
}

/// The first line that is not blank is the one before which all are blank.
proof fn lemma_first_content(lines: Seq<Seq<char>>, from: int, at: int)
    requires
        0 <= from <= at < lines.len(),
        forall|i: int| from <= i < at ==> is_blank(#[trigger] lines[i]),
        !is_blank(lines[at]),
    ensures
        first_content(lines, from) == at,
    decreases at - from,
{
    if from < at {
        assert(is_blank(lines[from]));
        lemma_first_content(lines, from + 1, at);
    }
}

/// A label that the specification holds already is an error of its own kind,
/// at the line of the label.
pub proof fn lemma_duplicate_label(lines: Seq<Seq<char>>, off: int, acc: Specification)
    requires
        0 <= off < lines.len(),
        !is_blank(lines[off]),
        key_val_of(lines[off], indent_of(lines[off])) matches Some((name, value)) && value.len() == 0
            && name != "ignore"@ && acc.has_label(lowercase(name)),
    ensures
        commands_of(lines, off, acc) == Err::<Specification, ParseError>(
            error_at(ParseErrorKind::DuplicateLabel, off),
        ),
{
}

/// A key that is none of the four known ones is an error of its own kind.
pub proof fn lemma_unknown_key(cmd: Expectation, key: Seq<char>, value: Seq<Seq<char>>)
    requires
        key != "extra-args"@,
        key != "status"@,
        key != "stderr"@,
        key != "stdout"@,
    ensures
        with_entry(cmd, key, value) == Err::<Expectation, ParseErrorKind>(
            ParseErrorKind::UnknownKey,
        ),
{
}

} // verus!
