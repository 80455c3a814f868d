//! The parser reads the canonical text of a specification back as that
//! specification.
//!
//! `writable` says which specifications a text can write at all: the labels
//! are words that are their own lower case, and the values are as the parser
//! leaves values. For each of them `lemma_canonical_text_read` states the law:
//! what `parsed_text` makes of its `canonical_text` is the specification
//! itself. The proof follows the text line by line, as the parser does: key
//! lines and value lines first, then entries, the entries of an expectation,
//! and the commands one after the other.

use vstd::prelude::*;
use crate::canon::{
    args_lines, arg_value, canonical_lines, canonical_text, command_lines, commands_lines,
    decimal_text, digit_char, digits_text, entry_lines, expectation_lines, key_line,
    marker_lines, output_lines, pattern_texts, split_feeds, status_lines, status_text,
    terminated, value_line, written_label,
};
use crate::case::{lower_char, lowercase};
use crate::expectation::{
    default_expectation, CommandView, Expectation, ExpectedStatus, Specification,
};
use crate::number::{all_digits, decimal_i32, digits_value, is_digit, unsigned_part};
use crate::parser::{
    begins_with_ignore, commands_of, entries_of, entry_of, key_end,
    key_val_of, parsed, parsed_text, patterns_of, status_of, value_end, with_entry, Entry,
    ParseError, ParseErrorKind,
};
use crate::pattern::{pattern_of, pattern_text, Pattern};
use crate::text::{
    all_trimmed, content_end, content_start, content_stop, indent_of, is_blank, is_space,
    joined, lemma_line_end, line_end, lines_from, lines_of, spaces_end, spaces_start,
    stripped, trimmed,
};

verus! {

/// A word that can stand as a key or label: it holds no whitespace and no
/// colon.
pub open spec fn good_word(w: Seq<char>) -> bool {
    forall|i: int| 0 <= i < w.len() ==> !is_space(#[trigger] w[i]) && w[i] != ':'
}

/// A line of a value as the parser leaves it: without line feed, and without
/// whitespace at its ends.
pub open spec fn tidy(t: Seq<char>) -> bool {
    &&& forall|i: int| 0 <= i < t.len() ==> #[trigger] t[i] != '\n'
    &&& t.len() > 0 ==> !is_space(t[0]) && !is_space(t.last())
}

/// A value as the parser leaves it: tidy lines, the first and the last of
/// them not empty.
pub open spec fn tidy_value(v: Seq<Seq<char>>) -> bool {
    &&& forall|i: int| 0 <= i < v.len() ==> tidy(#[trigger] v[i])
    &&& v.len() > 0 ==> v[0].len() > 0 && v.last().len() > 0
}

/// The line holds no line feed and does not end with a carriage return.
pub open spec fn plain_line(t: Seq<char>) -> bool {
    &&& forall|i: int| 0 <= i < t.len() ==> #[trigger] t[i] != '\n'
    &&& t.len() > 0 ==> t.last() != '\r'
}

/// A run of whitespace ends at the index before which all is whitespace and
/// at which none stands.
pub proof fn lemma_spaces_end_is(s: Seq<char>, from: int, end: int)
    requires
        0 <= from <= end <= s.len(),
        forall|i: int| from <= i < end ==> is_space(#[trigger] s[i]),
        end < s.len() ==> !is_space(s[end]),
    ensures
        spaces_end(s, from) == end,
    decreases end - from,
{
    if from < end {
        assert(is_space(s[from]));
        lemma_spaces_end_is(s, from + 1, end);
    }
}

/// A key ends at the index before which stands neither whitespace nor a
/// colon, and at which one of them stands.
pub proof fn lemma_key_end_is(s: Seq<char>, from: int, end: int)
    requires
        0 <= from <= end <= s.len(),
        forall|i: int| from <= i < end ==> !is_space(#[trigger] s[i]) && s[i] != ':',
        end < s.len() ==> is_space(s[end]) || s[end] == ':',
    ensures
        key_end(s, from) == end,
    decreases end - from,
{
    if from < end {
        assert(!is_space(s[from]) && s[from] != ':');
        lemma_key_end_is(s, from + 1, end);
    }
}

/// A line ends at the index before which stands no line feed, and at which
/// one stands.
pub proof fn lemma_line_end_is(s: Seq<char>, from: int, end: int)
    requires
        0 <= from <= end <= s.len(),
        forall|i: int| from <= i < end ==> #[trigger] s[i] != '\n',
        end < s.len() ==> s[end] == '\n',
    ensures
        line_end(s, from) == end,
    decreases end - from,
{
    if from < end {
        assert(s[from] != '\n');
        lemma_line_end_is(s, from + 1, end);
    }
}

/// A value ends at the line before which all lines are blank or indented by
/// more than the key, and which is neither.
pub proof fn lemma_value_end_is(lines: Seq<Seq<char>>, from: int, end: int, indent: int)
    requires
        0 <= from <= end <= lines.len(),
        forall|i: int|
            from <= i < end ==> is_blank(#[trigger] lines[i]) || indent_of(lines[i]) > indent,
        end < lines.len() ==> !is_blank(lines[end]) && indent_of(lines[end]) <= indent,
    ensures
        value_end(lines, from, indent) == end,
    decreases end - from,
{
    if from < end {
        assert(is_blank(lines[from]) || indent_of(lines[from]) > indent);
        lemma_value_end_is(lines, from + 1, end, indent);
    }
}

/// The lines of a text do not depend on what stands before them.
proof fn lemma_lines_from_shift(x: Seq<char>, y: Seq<char>, j: int)
    requires
        0 <= j <= y.len(),
    ensures
        lines_from(x + y, x.len() + j) == lines_from(y, j),
    decreases y.len() - j,
{
    let s = x + y;
    let n = x.len() as int;
    if j < y.len() {
        lemma_line_end(y, j);
        let e = line_end(y, j);
        assert forall|i: int| n + j <= i < n + e implies #[trigger] s[i] != '\n' by {
            assert(s[i] == y[i - n]);
        }
        if e < y.len() {
            assert(s[n + e] == y[e]);
        }
        lemma_line_end_is(s, n + j, n + e);
        if e > j {
            assert(s[n + e - 1] == y[e - 1]);
        }
        assert(content_end(s, n + j, n + e) == n + content_end(y, j, e));
        assert(s.subrange(n + j, n + content_end(y, j, e)) =~= y.subrange(j, content_end(y, j, e)));
        if e < y.len() {
            lemma_lines_from_shift(x, y, e + 1);
        }
    }
}

/// The lines of a text in which each line is followed by a line feed are
/// those lines.
pub proof fn lemma_lines_of_terminated(lines: Seq<Seq<char>>, k: int)
    requires
        0 <= k <= lines.len(),
        forall|i: int| 0 <= i < lines.len() ==> plain_line(#[trigger] lines[i]),
    ensures
        lines_of(terminated(lines, k)) == lines.subrange(k, lines.len() as int),
    decreases lines.len() - k,
{
    let text = terminated(lines, k);
    if k < lines.len() {
        let first = lines[k];
        let rest = terminated(lines, k + 1);
        let head = first + seq!['\n'];
        assert(text =~= head + rest);
        assert(plain_line(first));
        assert forall|i: int| 0 <= i < first.len() implies #[trigger] text[i] != '\n' by {
            assert(text[i] == first[i]);
        }
        assert(text[first.len() as int] == '\n');
        lemma_line_end_is(text, 0, first.len() as int);
        if first.len() > 0 {
            assert(text[first.len() - 1] == first.last());
        }
        assert(content_end(text, 0, first.len() as int) == first.len());
        assert(text.subrange(0, first.len() as int) =~= first);
        lemma_lines_of_terminated(lines, k + 1);
        if first.len() + 1 < text.len() {
            lemma_lines_from_shift(head, rest, 0);
            assert(lines_from(text, (first.len() + 1) as int) == lines_from(rest, 0));
        } else {
            assert(rest.len() == 0);
            assert(lines_from(rest, 0) == Seq::<Seq<char>>::empty());
        }
        let e = first.len() as int;
        assert(line_end(text, 0) == e);
        assert(e < text.len());
        assert(lines_from(text, e + 1) == lines_of(rest));
        assert(lines_from(text, 0) == seq![text.subrange(0, content_end(text, 0, e))] + lines_from(
            text,
            e + 1,
        ));
        assert(lines_of(text) =~= seq![first] + lines.subrange(k + 1, lines.len() as int));
        assert(lines_of(text) =~= lines.subrange(k, lines.len() as int));
    } else {
        assert(lines_of(text) =~= lines.subrange(k, lines.len() as int));
    }
}


/// A key line parts into its word and an empty value.
pub proof fn lemma_key_line(indent: nat, word: Seq<char>)
    requires
        good_word(word),
    ensures
        !is_blank(key_line(indent, word)),
        indent_of(key_line(indent, word)) == indent,
        key_val_of(key_line(indent, word), indent as int) == Some((word, Seq::<char>::empty())),
        plain_line(key_line(indent, word)),
{
    let line = key_line(indent, word);
    let n = indent as int;
    let stop = n + word.len();
    assert(line.len() == stop + 1);
    assert forall|i: int| 0 <= i < n implies is_space(#[trigger] line[i]) by {
        assert(line[i] == ' ');
    }
    assert forall|i: int| n <= i < stop implies !is_space(#[trigger] line[i]) && line[i] != ':' by {
        assert(line[i] == word[i - n]);
    }
    assert(line[stop] == ':');
    lemma_spaces_end_is(line, 0, n);
    lemma_key_end_is(line, n, stop);
    lemma_spaces_end_is(line, stop, stop);
    assert(line.subrange(n, stop) =~= word);
    let rest = line.subrange(stop + 1, line.len() as int);
    assert(rest.len() == 0);
    assert(trimmed(rest) =~= Seq::<char>::empty());
    assert forall|i: int| 0 <= i < line.len() implies #[trigger] line[i] != '\n' by {
        if i < n {
            assert(line[i] == ' ');
        } else if i < stop {
            assert(line[i] == word[i - n]);
            assert(is_space('\n'));
        }
    }
}

/// A line of a value gives back its text when the whitespace at its ends is
/// taken off; it is blank, or indented by four.
pub proof fn lemma_value_line(t: Seq<char>)
    requires
        tidy(t),
    ensures
        trimmed(value_line(t)) == t,
        is_blank(value_line(t)) || indent_of(value_line(t)) == 4,
        plain_line(value_line(t)),
{
    let line = value_line(t);
    if t.len() == 0 {
        assert(trimmed(line) =~= t);
    } else {
        assert forall|i: int| 0 <= i < 4 implies is_space(#[trigger] line[i]) by {
            assert(line[i] == ' ');
        }
        assert(line[4] == t[0]);
        assert(line[line.len() - 1] == t.last());
        lemma_spaces_end_is(line, 0, 4);
        assert(spaces_start(line, line.len() as int) == line.len());
        assert(line.subrange(4, line.len() as int) =~= t);
        assert(is_space('\r'));
        assert forall|i: int| 0 <= i < line.len() implies #[trigger] line[i] != '\n' by {
            if i < 4 {
                assert(line[i] == ' ');
            } else {
                assert(line[i] == t[i - 4]);
            }
        }
    }
}

/// The empty text before a tidy value is all that is taken off it.
pub proof fn lemma_stripped_value(v: Seq<Seq<char>>)
    requires
        tidy_value(v),
    ensures
        stripped(seq![Seq::<char>::empty()] + v) == v,
{
    let w = seq![Seq::<char>::empty()] + v;
    reveal_with_fuel(content_start, 3);
    reveal_with_fuel(content_stop, 3);
    assert(w[0].len() == 0);
    if v.len() > 0 {
        assert(w[1] == v[0]);
        assert(w[w.len() - 1] == v.last());
        assert(content_start(w, 0) == 1);
        assert(content_stop(w, w.len() as int) == w.len());
        assert(w.subrange(1, w.len() as int) =~= v);
    } else {
        assert(content_start(w, 0) == 1);
        assert(content_stop(w, w.len() as int) == 0);
        assert(v =~= Seq::<Seq<char>>::empty());
    }
}

/// Whether a value ends before the line at offset `q`: the text ends there,
/// or the line is not blank and indented by two at most.
pub open spec fn stops_value(lines: Seq<Seq<char>>, q: int) -> bool {
    q == lines.len() || (0 <= q < lines.len() && !is_blank(lines[q]) && indent_of(lines[q]) <= 2)
}

/// Whether the entries of a command end before the line at offset `q`: the
/// text ends there, or the line is not blank and not indented.
pub open spec fn stops_entries(lines: Seq<Seq<char>>, q: int) -> bool {
    q == lines.len() || (0 <= q < lines.len() && !is_blank(lines[q]) && indent_of(lines[q]) == 0)
}

/// Whether the lines of the entry with key `key` and value `value` stand in
/// `lines` from offset `p` on.
pub open spec fn entry_at(lines: Seq<Seq<char>>, p: int, key: Seq<char>, value: Seq<Seq<char>>) -> bool {
    block_at(lines, p, entry_lines(key, value))
}

/// Whether the lines `block` stand in `lines` from offset `p` on.
pub open spec fn block_at(lines: Seq<Seq<char>>, p: int, block: Seq<Seq<char>>) -> bool {
    &&& 0 <= p
    &&& p + block.len() <= lines.len()
    &&& forall|i: int| 0 <= i < block.len() ==> lines[p + i] == #[trigger] block[i]
}

/// Where two blocks stand one after the other, each of them stands.
pub proof fn lemma_block_split(lines: Seq<Seq<char>>, p: int, a: Seq<Seq<char>>, b: Seq<Seq<char>>)
    requires
        block_at(lines, p, a + b),
    ensures
        block_at(lines, p, a),
        block_at(lines, p + a.len(), b),
{
    let ab = a + b;
    assert forall|i: int| 0 <= i < a.len() implies lines[p + i] == #[trigger] a[i] by {
        assert(ab[i] == a[i]);
    }
    assert forall|i: int| 0 <= i < b.len() implies lines[p + a.len() + i] == #[trigger] b[i] by {
        assert(ab[a.len() + i] == b[i]);
    }
}

/// The parser reads the lines of an entry as that entry.
pub proof fn lemma_entry_read(lines: Seq<Seq<char>>, p: int, key: Seq<char>, value: Seq<Seq<char>>)
    requires
        entry_at(lines, p, key, value),
        good_word(key),
        tidy_value(value),
        stops_value(lines, p + 1 + value.len()),
    ensures
        !is_blank(lines[p]),
        indent_of(lines[p]) == 2,
        entry_of(lines, p, 2) == Some(Entry { end: p + 1 + value.len(), key, value }),
{
    let end = p + 1 + value.len();
    let block = entry_lines(key, value);
    assert(block.len() == 1 + value.len());
    assert(lines[p + 0] == block[0]);
    assert(lines[p] == key_line(2, key));
    lemma_key_line(2, key);
    assert forall|i: int| 0 <= i < value.len() implies lines[p + 1 + i] == value_line(
        #[trigger] value[i],
    ) by {
        assert(lines[p + (1 + i)] == block[1 + i]);
    }
    assert forall|i: int| p + 1 <= i < end implies is_blank(#[trigger] lines[i]) || indent_of(
        lines[i],
    ) > 2 by {
        let j = i - p - 1;
        assert(lines[p + 1 + j] == value_line(value[j]));
        assert(tidy(value[j]));
        lemma_value_line(value[j]);
    }
    lemma_value_end_is(lines, p + 1, end, 2);
    let cut = all_trimmed(lines.subrange(p + 1, end));
    assert(cut =~= value) by {
        assert forall|i: int| 0 <= i < value.len() implies cut[i] == value[i] by {
            assert(lines.subrange(p + 1, end)[i] == lines[p + 1 + i]);
            assert(lines[p + 1 + i] == value_line(value[i]));
            assert(tidy(value[i]));
            lemma_value_line(value[i]);
        }
    }
    lemma_stripped_value(value);
}

/// Reading on after an entry: the entries from the key line of an entry on
/// are those after the entry, read into the expectation that holds the entry.
pub proof fn lemma_entry_step(
    lines: Seq<Seq<char>>,
    p: int,
    key: Seq<char>,
    value: Seq<Seq<char>>,
    cmd: Expectation,
    next: Expectation,
)
    requires
        entry_at(lines, p, key, value),
        good_word(key),
        tidy_value(value),
        stops_value(lines, p + 1 + value.len()),
        with_entry(cmd, key, value) == Ok::<Expectation, ParseErrorKind>(next),
    ensures
        entries_of(lines, p, 0, cmd) == entries_of(lines, p + 1 + value.len(), 0, next),
{
    lemma_entry_read(lines, p, key, value);
}

/// Where the entries end, nothing more is read.
pub proof fn lemma_entries_done(lines: Seq<Seq<char>>, q: int, cmd: Expectation)
    requires
        stops_entries(lines, q),
    ensures
        entries_of(lines, q, 0, cmd) == Ok::<(int, Expectation), ParseError>((q, cmd)),
{
}


/// What the fixed words of the format are made of: the keys and the marker
/// are good words, no two keys are the same word, and the capitals of the
/// marker are another word, whose lower case is the marker.
pub proof fn lemma_keys()
    ensures
        good_word("extra-args"@),
        good_word("status"@),
        good_word("stderr"@),
        good_word("stdout"@),
        good_word("ignore"@),
        good_word("IGNORE"@),
        "status"@ != "extra-args"@,
        "stderr"@ != "extra-args"@,
        "stdout"@ != "extra-args"@,
        "stderr"@ != "status"@,
        "stdout"@ != "status"@,
        "stdout"@ != "stderr"@,
        "IGNORE"@ != "ignore"@,
        lowercase("IGNORE"@) == "ignore"@,
{
    reveal_strlit("extra-args");
    reveal_strlit("status");
    reveal_strlit("stderr");
    reveal_strlit("stdout");
    reveal_strlit("ignore");
    reveal_strlit("IGNORE");
    assert("stderr"@[2] != "status"@[2]);
    assert("stdout"@[2] != "status"@[2]);
    assert("stdout"@[3] != "stderr"@[3]);
    assert("IGNORE"@[0] != "ignore"@[0]);
    assert(lowercase("IGNORE"@) =~= "ignore"@);
}

/// The status words are words of small letters, each another word.
pub proof fn lemma_status_words()
    ensures
        lowercase("success"@) == "success"@,
        lowercase("error"@) == "error"@,
        lowercase("signal"@) == "signal"@,
        "error"@ != "success"@,
        "signal"@ != "success"@,
        "signal"@ != "error"@,
        tidy("success"@),
        tidy("error"@),
        tidy("signal"@),
        "success"@.len() > 0,
        "error"@.len() > 0,
        "signal"@.len() > 0,
        "success"@[0] == 's',
        "error"@[0] == 'e',
        "signal"@[0] == 's',
{
    reveal_strlit("success");
    reveal_strlit("error");
    reveal_strlit("signal");
    assert(lowercase("success"@) =~= "success"@);
    assert(lowercase("error"@) =~= "error"@);
    assert(lowercase("signal"@) =~= "signal"@);
}

/// The digits of a number write that number.
pub proof fn lemma_digits_text(n: nat)
    ensures
        digits_text(n).len() > 0,
        all_digits(digits_text(n)),
        digits_value(digits_text(n)) == n,
    decreases n,
{
    let t = digits_text(n);
    if n < 10 {
        assert(is_digit(digit_char(n as int)));
        assert(t.drop_last() =~= Seq::<char>::empty());
        reveal_with_fuel(digits_value, 2);
        assert(digit_char(n as int) as int - '0' as int == n);
    } else {
        lemma_digits_text(n / 10);
        let d = (n % 10) as int;
        assert(is_digit(digit_char(d)));
        assert(t.drop_last() =~= digits_text(n / 10));
        assert(t.last() == digit_char(d));
        assert(digit_char(d) as int - '0' as int == d);
        assert forall|i: int| 0 <= i < t.len() implies is_digit(#[trigger] t[i]) by {
            if i < t.len() - 1 {
                assert(t[i] == digits_text(n / 10)[i]);
            }
        }
    }
}

/// The decimal text of a number of 32 bits is tidy, stays as it is in lower
/// case, is no status word, and is read back as the number.
pub proof fn lemma_decimal_text(n: i32)
    ensures
        decimal_i32(decimal_text(n as int)) == Some(n),
        lowercase(decimal_text(n as int)) == decimal_text(n as int),
        tidy(decimal_text(n as int)),
        decimal_text(n as int).len() > 0,
        is_digit(decimal_text(n as int)[0]) || decimal_text(n as int)[0] == '-',
{
    let t = decimal_text(n as int);
    let m: nat = if n < 0 {
        (-(n as int)) as nat
    } else {
        n as nat
    };
    lemma_digits_text(m);
    let d = digits_text(m);
    assert(is_digit(d[0]));
    if n < 0 {
        assert(t[0] == '-');
        assert(t.drop_first() =~= d);
    } else {
        assert(t == d);
    }
    assert(unsigned_part(t) == d);
    assert forall|i: int| 0 <= i < t.len() implies is_digit(#[trigger] t[i]) || t[i] == '-' by {
        if n < 0 && i > 0 {
            assert(t[i] == d[i - 1]);
            assert(is_digit(d[i - 1]));
        } else if n >= 0 {
            assert(is_digit(d[i]));
        }
    }
    assert forall|i: int| 0 <= i < t.len() implies '\0' <= #[trigger] t[i] <= '\u{7f}'
        && lower_char(t[i]) == t[i] && !is_space(t[i]) && t[i] != '\n' by {
        assert(is_digit(t[i]) || t[i] == '-');
    }
    assert(lowercase(t) =~= t);
    assert(is_digit(t.last()) || t.last() == '-');
}

/// The word of a status is read back as the status.
pub proof fn lemma_status_text(status: ExpectedStatus)
    ensures
        status_of(lowercase(status_text(status))) == Some(status),
        tidy(status_text(status)),
        status_text(status).len() > 0,
{
    lemma_status_words();
    match status {
        ExpectedStatus::ExitCode(code) => {
            lemma_decimal_text(code);
            let t = decimal_text(code as int);
            assert(t != "success"@ && t != "error"@ && t != "signal"@);
        },
        _ => {},
    }
}

/// A value of one line, joined, is that line.
pub proof fn lemma_joined_one(t: Seq<char>)
    ensures
        joined(seq![t]) == t,
{
}

/// Joining puts the first part, a line feed and the joined rest together.
pub proof fn lemma_joined_first(first: Seq<char>, rest: Seq<Seq<char>>)
    requires
        rest.len() > 0,
    ensures
        joined(seq![first] + rest) == first + seq!['\n'] + joined(rest),
    decreases rest.len(),
{
    let all = seq![first] + rest;
    assert(all.last() == rest.last());
    assert(all.drop_last() =~= seq![first] + rest.drop_last());
    if rest.len() == 1 {
        assert(all.drop_last() =~= seq![first]);
        assert(joined(all.drop_last()) == first);
        assert(joined(rest) == rest[0]);
        assert(joined(all) == joined(all.drop_last()) + seq!['\n'] + all.last());
    } else {
        lemma_joined_first(first, rest.drop_last());
        assert(joined(all) =~= first + seq!['\n'] + joined(rest));
    }
}

/// The parts of a text between its line feeds, joined, are the text.
pub proof fn lemma_joined_split(s: Seq<char>, from: int)
    requires
        0 <= from <= s.len(),
    ensures
        joined(split_feeds(s, from)) == s.subrange(from, s.len() as int),
        split_feeds(s, from).len() > 0,
    decreases s.len() - from,
{
    lemma_line_end(s, from);
    let end = line_end(s, from);
    if end < s.len() {
        lemma_joined_split(s, end + 1);
        lemma_joined_first(s.subrange(from, end), split_feeds(s, end + 1));
        assert(s.subrange(from, end) + seq!['\n'] + s.subrange(end + 1, s.len() as int)
            =~= s.subrange(from, s.len() as int));
    }
}

/// The value that writes an argument, joined, is the argument.
pub proof fn lemma_joined_arg(arg: Seq<char>)
    ensures
        joined(arg_value(arg)) == arg,
{
    if arg.len() > 0 {
        lemma_joined_split(arg, 0);
        assert(arg.subrange(0, arg.len() as int) =~= arg);
    } else {
        assert(arg =~= Seq::<char>::empty());
    }
}


/// A block of entries begins with a key line, if it has a line.
pub open spec fn key_headed(block: Seq<Seq<char>>) -> bool {
    block.len() > 0 ==> !is_blank(block[0]) && indent_of(block[0]) == 2
}

/// Whether a value ends before a block that stands at offset `q`, or before
/// the line after it where the block is empty.
proof fn lemma_stops_before(lines: Seq<Seq<char>>, q: int, block: Seq<Seq<char>>)
    requires
        block_at(lines, q, block),
        key_headed(block),
        stops_entries(lines, q + block.len()),
    ensures
        stops_value(lines, q),
{
    if block.len() > 0 {
        assert(lines[q + 0] == block[0]);
    }
}

/// The lines of an entry begin with its key line.
proof fn lemma_entry_headed(key: Seq<char>, value: Seq<Seq<char>>)
    requires
        good_word(key),
    ensures
        key_headed(entry_lines(key, value)),
        entry_lines(key, value).len() == 1 + value.len(),
{
    lemma_key_line(2, key);
}

/// An expected output that can be written: its patterns are read back from
/// their texts, and the texts are a tidy value.
pub open spec fn writable_output(output: Option<Seq<Pattern>>) -> bool {
    output matches Some(ps) ==> {
        &&& tidy_value(pattern_texts(ps))
        &&& forall|i: int| 0 <= i < ps.len() ==> pattern_of(pattern_text(#[trigger] ps[i])) == ps[i]
    }
}

/// An expectation that can be written: each argument is written by a tidy
/// value, and each expected output can be written.
pub open spec fn writable_expectation(e: Expectation) -> bool {
    &&& forall|i: int| 0 <= i < e.extra_args.len() ==> tidy_value(arg_value(#[trigger] e.extra_args[i]))
    &&& writable_output(e.stdout)
    &&& writable_output(e.stderr)
}

/// A label that can be written: a good word that is its own lower case.
pub open spec fn writable_label(label: Seq<char>) -> bool {
    &&& good_word(label)
    &&& lowercase(written_label(label)) == label
}

/// A specification that can be written: no label comes twice, and every
/// label and every expectation can be written.
pub open spec fn writable(s: Specification) -> bool {
    &&& s.wf()
    &&& forall|i: int|
        0 <= i < s.commands.len() ==> writable_label((#[trigger] s.commands[i]).label)
            && writable_expectation(s.commands[i].expectation)
}

/// Patterns that are read back from their texts one by one are read back
/// from the texts of all.
proof fn lemma_patterns_read(ps: Seq<Pattern>)
    requires
        forall|i: int| 0 <= i < ps.len() ==> pattern_of(pattern_text(#[trigger] ps[i])) == ps[i],
    ensures
        patterns_of(pattern_texts(ps)) == ps,
{
    assert(patterns_of(pattern_texts(ps)) =~= ps);
}

/// The entry of the standard error is read into an expectation that lacks
/// it.
proof fn lemma_read_stderr(lines: Seq<Seq<char>>, p: int, e: Expectation)
    requires
        writable_expectation(e),
        block_at(lines, p, output_lines("stderr"@, e.stderr)),
        stops_entries(lines, p + output_lines("stderr"@, e.stderr).len()),
    ensures
        entries_of(lines, p, 0, Expectation { stderr: None, ..e }) == Ok::<
            (int, Expectation),
            ParseError,
        >((p + output_lines("stderr"@, e.stderr).len(), e)),
{
    lemma_keys();
    let cmd = Expectation { stderr: None, ..e };
    match e.stderr {
        None => {
            assert(cmd == e);
            lemma_entries_done(lines, p, cmd);
        },
        Some(ps) => {
            let value = pattern_texts(ps);
            lemma_patterns_read(ps);
            lemma_entry_headed("stderr"@, value);
            assert(with_entry(cmd, "stderr"@, value) == Ok::<Expectation, ParseErrorKind>(e));
            lemma_entry_step(lines, p, "stderr"@, value, cmd, e);
            lemma_entries_done(lines, p + 1 + value.len(), e);
        },
    }
}

/// The entries of the two outputs are read into an expectation that lacks
/// them.
proof fn lemma_read_outputs(lines: Seq<Seq<char>>, p: int, e: Expectation)
    requires
        writable_expectation(e),
        block_at(lines, p, output_lines("stdout"@, e.stdout) + output_lines("stderr"@, e.stderr)),
        stops_entries(
            lines,
            p + output_lines("stdout"@, e.stdout).len() + output_lines("stderr"@, e.stderr).len(),
        ),
    ensures
        entries_of(lines, p, 0, Expectation { stdout: None, stderr: None, ..e }) == Ok::<
            (int, Expectation),
            ParseError,
        >((p + output_lines("stdout"@, e.stdout).len() + output_lines("stderr"@, e.stderr).len(), e)),
{
    lemma_keys();
    let out = output_lines("stdout"@, e.stdout);
    let err = output_lines("stderr"@, e.stderr);
    lemma_block_split(lines, p, out, err);
    let cmd = Expectation { stdout: None, stderr: None, ..e };
    let next = Expectation { stderr: None, ..e };
    lemma_read_stderr(lines, p + out.len(), e);
    match e.stdout {
        None => {
            assert(cmd == next);
        },
        Some(ps) => {
            let value = pattern_texts(ps);
            lemma_patterns_read(ps);
            lemma_entry_headed("stdout"@, value);
            if e.stderr is Some {
                lemma_entry_headed("stderr"@, pattern_texts(e.stderr->0));
            }
            lemma_stops_before(lines, p + out.len(), err);
            assert(with_entry(cmd, "stdout"@, value) == Ok::<Expectation, ParseErrorKind>(next));
            lemma_entry_step(lines, p, "stdout"@, value, cmd, next);
        },
    }
}

/// The lines of the entries after the arguments.
pub open spec fn tail_lines(e: Expectation) -> Seq<Seq<char>> {
    status_lines(e.status) + (output_lines("stdout"@, e.stdout) + output_lines("stderr"@, e.stderr))
}

/// The entries after the arguments begin with a key line, if they have a
/// line.
proof fn lemma_tail_headed(e: Expectation)
    ensures
        key_headed(tail_lines(e)),
        key_headed(output_lines("stdout"@, e.stdout) + output_lines("stderr"@, e.stderr)),
{
    lemma_keys();
    let st = status_lines(e.status);
    let out = output_lines("stdout"@, e.stdout);
    let err = output_lines("stderr"@, e.stderr);
    if e.stderr is Some {
        lemma_entry_headed("stderr"@, pattern_texts(e.stderr->0));
    }
    if e.stdout is Some {
        lemma_entry_headed("stdout"@, pattern_texts(e.stdout->0));
        assert((out + err)[0] == out[0]);
    } else {
        assert(out + err =~= err);
    }
    if !(e.status is Success) {
        lemma_entry_headed("status"@, seq![status_text(e.status)]);
        assert(tail_lines(e)[0] == st[0]);
    } else {
        assert(tail_lines(e) =~= out + err);
    }
}

/// The entries after the arguments are read into an expectation that holds
/// the arguments only.
proof fn lemma_read_tail(lines: Seq<Seq<char>>, p: int, e: Expectation)
    requires
        writable_expectation(e),
        block_at(lines, p, tail_lines(e)),
        stops_entries(lines, p + tail_lines(e).len()),
    ensures
        entries_of(
            lines,
            p,
            0,
            Expectation { extra_args: e.extra_args, ..default_expectation() },
        ) == Ok::<(int, Expectation), ParseError>((p + tail_lines(e).len(), e)),
{
    lemma_keys();
    let st = status_lines(e.status);
    let out = output_lines("stdout"@, e.stdout);
    let err = output_lines("stderr"@, e.stderr);
    lemma_block_split(lines, p, st, out + err);
    let cmd = Expectation { extra_args: e.extra_args, ..default_expectation() };
    let next = Expectation { stdout: None, stderr: None, ..e };
    lemma_read_outputs(lines, p + st.len(), e);
    if e.status is Success {
        assert(cmd == next);
    } else {
        let word = status_text(e.status);
        let value = seq![word];
        lemma_status_text(e.status);
        lemma_joined_one(word);
        lemma_entry_headed("status"@, value);
        lemma_tail_headed(e);
        lemma_stops_before(lines, p + st.len(), out + err);
        assert(tidy_value(value));
        assert(with_entry(cmd, "status"@, value) == Ok::<Expectation, ParseErrorKind>(next));
        lemma_entry_step(lines, p, "status"@, value, cmd, next);
    }
}

/// The lines of the entries of `e` from the argument at index `k` on.
pub open spec fn lines_from_arg(e: Expectation, k: int) -> Seq<Seq<char>> {
    args_lines(e.extra_args, k) + tail_lines(e)
}

/// The entries from an argument on begin with a key line, if they have a
/// line.
proof fn lemma_lines_from_arg_headed(e: Expectation, k: int)
    requires
        0 <= k <= e.extra_args.len(),
    ensures
        key_headed(lines_from_arg(e, k)),
{
    lemma_keys();
    lemma_tail_headed(e);
    if k < e.extra_args.len() {
        let first = entry_lines("extra-args"@, arg_value(e.extra_args[k]));
        lemma_entry_headed("extra-args"@, arg_value(e.extra_args[k]));
        assert(lines_from_arg(e, k)[0] == first[0]);
    } else {
        assert(lines_from_arg(e, k) =~= tail_lines(e));
    }
}

/// The entries from the argument at index `k` on are read into an
/// expectation that holds the arguments before it.
proof fn lemma_read_from_arg(lines: Seq<Seq<char>>, p: int, e: Expectation, k: int)
    requires
        writable_expectation(e),
        0 <= k <= e.extra_args.len(),
        block_at(lines, p, lines_from_arg(e, k)),
        stops_entries(lines, p + lines_from_arg(e, k).len()),
    ensures
        entries_of(
            lines,
            p,
            0,
            Expectation { extra_args: e.extra_args.take(k), ..default_expectation() },
        ) == Ok::<(int, Expectation), ParseError>((p + lines_from_arg(e, k).len(), e)),
    decreases e.extra_args.len() - k,
{
    lemma_keys();
    let cmd = Expectation { extra_args: e.extra_args.take(k), ..default_expectation() };
    if k < e.extra_args.len() {
        let arg = e.extra_args[k];
        let value = arg_value(arg);
        let first = entry_lines("extra-args"@, value);
        let rest = lines_from_arg(e, k + 1);
        assert(lines_from_arg(e, k) =~= first + rest);
        lemma_block_split(lines, p, first, rest);
        lemma_entry_headed("extra-args"@, value);
        lemma_lines_from_arg_headed(e, k + 1);
        lemma_stops_before(lines, p + first.len(), rest);
        lemma_joined_arg(arg);
        let next = Expectation { extra_args: e.extra_args.take(k + 1), ..default_expectation() };
        assert(e.extra_args.take(k).push(arg) =~= e.extra_args.take(k + 1));
        assert(with_entry(cmd, "extra-args"@, value) == Ok::<Expectation, ParseErrorKind>(next));
        assert(tidy_value(value));
        lemma_entry_step(lines, p, "extra-args"@, value, cmd, next);
        lemma_read_from_arg(lines, p + first.len(), e, k + 1);
    } else {
        assert(e.extra_args.take(k) =~= e.extra_args);
        assert(lines_from_arg(e, k) =~= tail_lines(e));
        lemma_read_tail(lines, p, e);
    }
}

/// The parser reads the lines of the entries of an expectation as that
/// expectation.
pub proof fn lemma_read_expectation(lines: Seq<Seq<char>>, p: int, e: Expectation)
    requires
        writable_expectation(e),
        block_at(lines, p, expectation_lines(e)),
        stops_entries(lines, p + expectation_lines(e).len()),
    ensures
        entries_of(lines, p, 0, default_expectation()) == Ok::<(int, Expectation), ParseError>(
            (p + expectation_lines(e).len(), e),
        ),
{
    assert(expectation_lines(e) =~= lines_from_arg(e, 0));
    assert(e.extra_args.take(0) =~= Seq::<Seq<char>>::empty());
    lemma_read_from_arg(lines, p, e, 0);
}


/// The lines of the commands from index `k` on, and the marker after them.
pub open spec fn rest_lines(s: Specification, k: int) -> Seq<Seq<char>> {
    commands_lines(s.commands, k) + marker_lines(s.skip)
}

/// A label is written as a good word that is not the marker.
proof fn lemma_written_label(label: Seq<char>)
    requires
        good_word(label),
    ensures
        good_word(written_label(label)),
        written_label(label) != "ignore"@,
{
    lemma_keys();
}

/// What follows a command begins with a line that is not indented, if it has
/// a line.
proof fn lemma_rest_headed(s: Specification, k: int)
    requires
        writable(s),
        0 <= k <= s.commands.len(),
    ensures
        rest_lines(s, k).len() > 0 ==> !is_blank(rest_lines(s, k)[0]) && indent_of(
            rest_lines(s, k)[0],
        ) == 0,
{
    lemma_keys();
    if k < s.commands.len() {
        let c = s.commands[k];
        assert(writable_label(c.label));
        lemma_written_label(c.label);
        lemma_key_line(0, written_label(c.label));
        assert(rest_lines(s, k)[0] == command_lines(c)[0]);
    } else {
        assert(rest_lines(s, k) =~= marker_lines(s.skip));
        lemma_key_line(0, "ignore"@);
    }
}

/// The parser reads the lines of the commands from index `k` on, and the
/// marker after them, into the commands before them.
proof fn lemma_read_commands(lines: Seq<Seq<char>>, p: int, s: Specification, k: int)
    requires
        writable(s),
        0 <= k <= s.commands.len(),
        block_at(lines, p, rest_lines(s, k)),
        p + rest_lines(s, k).len() == lines.len(),
    ensures
        commands_of(lines, p, Specification { skip: false, commands: s.commands.take(k) }) == Ok::<
            Specification,
            ParseError,
        >(s),
    decreases s.commands.len() - k,
{
    lemma_keys();
    let acc = Specification { skip: false, commands: s.commands.take(k) };
    if k < s.commands.len() {
        let c = s.commands[k];
        let word = written_label(c.label);
        let body = expectation_lines(c.expectation);
        let first = command_lines(c);
        let rest = rest_lines(s, k + 1);
        assert(rest_lines(s, k) =~= first + rest);
        lemma_block_split(lines, p, first, rest);
        lemma_block_split(lines, p, seq![key_line(0, word)], body);
        assert(lines[p + 0] == seq![key_line(0, word)][0]);
        assert(writable_label(c.label));
        assert(writable_expectation(c.expectation));
        lemma_written_label(c.label);
        lemma_key_line(0, word);
        let q = p + 1 + body.len();
        lemma_rest_headed(s, k + 1);
        if rest.len() > 0 {
            assert(lines[q + 0] == rest[0]);
        }
        lemma_read_expectation(lines, p + 1, c.expectation);
        assert(!acc.has_label(c.label)) by {
            if acc.has_label(c.label) {
                let i = choose|i: int|
                    0 <= i < acc.commands.len() && (#[trigger] acc.commands[i]).label == c.label;
                assert(s.commands[i].label != s.commands[k].label);
            }
        }
        let next = Specification { skip: false, commands: s.commands.take(k + 1) };
        assert(acc.with_command(c.label, c.expectation).commands =~= next.commands);
        lemma_read_commands(lines, q, s, k + 1);
        assert(lines[p] == key_line(0, word));
        assert(key_val_of(lines[p], 0) == Some((word, Seq::<char>::empty())));
        assert(lowercase(word) == c.label);
        assert(stops_entries(lines, q));
        assert(entries_of(lines, p + 1, 0, default_expectation()) == Ok::<
            (int, Expectation),
            ParseError,
        >((q, c.expectation)));
        assert(acc.with_command(c.label, c.expectation) == next);
        assert(commands_of(lines, p, acc) == commands_of(lines, q, next));
    } else {
        assert(s.commands.take(k) =~= s.commands);
        assert(rest_lines(s, k) =~= marker_lines(s.skip));
        if s.skip {
            assert(lines[p + 0] == marker_lines(s.skip)[0]);
            lemma_key_line(0, "ignore"@);
            assert(acc.skipped() == s);
            assert(commands_of(lines, p + 1, acc.skipped()) == Ok::<Specification, ParseError>(s));
            assert(commands_of(lines, p, acc) == commands_of(lines, p + 1, acc.skipped()));
        } else {
            assert(acc == s);
            assert(commands_of(lines, p, acc) == Ok::<Specification, ParseError>(s));
        }
    }
}

/// The parser reads the canonical lines of a specification back as the
/// specification.
pub proof fn lemma_canonical_lines_read(s: Specification)
    requires
        writable(s),
    ensures
        parsed(canonical_lines(s)) == Ok::<Specification, ParseError>(s),
{
    lemma_keys();
    let lines = canonical_lines(s);
    assert(lines == rest_lines(s, 0));
    if s.commands.len() == 0 {
        assert(lines =~= marker_lines(s.skip));
        if s.skip {
            lemma_key_line(0, "ignore"@);
            assert(begins_with_ignore(lines));
            assert(s.commands =~= Seq::<CommandView>::empty());
        }
    } else {
        let c = s.commands[0];
        assert(writable_label(c.label));
        lemma_written_label(c.label);
        lemma_key_line(0, written_label(c.label));
        assert(lines[0] == command_lines(c)[0]);
        assert(!begins_with_ignore(lines));
    }
    if !begins_with_ignore(lines) {
        assert(s.commands.take(0) =~= Seq::<CommandView>::empty());
        lemma_read_commands(lines, 0, s, 0);
    }
}

/// Whether every line of `block` is plain.
pub open spec fn all_plain(block: Seq<Seq<char>>) -> bool {
    forall|i: int| 0 <= i < block.len() ==> plain_line(#[trigger] block[i])
}

/// Plain lines after plain lines are plain lines.
proof fn lemma_plain_add(a: Seq<Seq<char>>, b: Seq<Seq<char>>)
    requires
        all_plain(a),
        all_plain(b),
    ensures
        all_plain(a + b),
{
    assert forall|i: int| 0 <= i < (a + b).len() implies plain_line(#[trigger] (a + b)[i]) by {
        if i < a.len() {
            assert((a + b)[i] == a[i]);
        } else {
            assert((a + b)[i] == b[i - a.len()]);
        }
    }
}

/// The lines of an entry with a tidy value are plain.
proof fn lemma_plain_entry(key: Seq<char>, value: Seq<Seq<char>>)
    requires
        good_word(key),
        tidy_value(value),
    ensures
        all_plain(entry_lines(key, value)),
{
    let block = entry_lines(key, value);
    lemma_key_line(2, key);
    assert forall|i: int| 0 <= i < block.len() implies plain_line(#[trigger] block[i]) by {
        if i > 0 {
            assert(block[i] == value_line(value[i - 1]));
            assert(tidy(value[i - 1]));
            lemma_value_line(value[i - 1]);
        }
    }
}

/// The lines of an expected output that can be written are plain.
proof fn lemma_plain_output(key: Seq<char>, output: Option<Seq<Pattern>>)
    requires
        good_word(key),
        writable_output(output),
    ensures
        all_plain(output_lines(key, output)),
{
    if output is Some {
        lemma_plain_entry(key, pattern_texts(output->0));
    }
}

/// The lines of the arguments of an expectation that can be written are
/// plain.
proof fn lemma_plain_args(e: Expectation, k: int)
    requires
        writable_expectation(e),
        0 <= k <= e.extra_args.len(),
    ensures
        all_plain(args_lines(e.extra_args, k)),
    decreases e.extra_args.len() - k,
{
    lemma_keys();
    if k < e.extra_args.len() {
        assert(tidy_value(arg_value(e.extra_args[k])));
        lemma_plain_entry("extra-args"@, arg_value(e.extra_args[k]));
        lemma_plain_args(e, k + 1);
        lemma_plain_add(
            entry_lines("extra-args"@, arg_value(e.extra_args[k])),
            args_lines(e.extra_args, k + 1),
        );
    }
}

/// The lines of the commands of a specification that can be written are
/// plain.
proof fn lemma_plain_commands(s: Specification, k: int)
    requires
        writable(s),
        0 <= k <= s.commands.len(),
    ensures
        all_plain(commands_lines(s.commands, k)),
    decreases s.commands.len() - k,
{
    lemma_keys();
    if k < s.commands.len() {
        let c = s.commands[k];
        let e = c.expectation;
        assert(writable_label(c.label));
        assert(writable_expectation(e));
        lemma_written_label(c.label);
        lemma_key_line(0, written_label(c.label));
        lemma_plain_args(e, 0);
        if !(e.status is Success) {
            lemma_status_text(e.status);
            lemma_plain_entry("status"@, seq![status_text(e.status)]);
        }
        lemma_plain_output("stdout"@, e.stdout);
        lemma_plain_output("stderr"@, e.stderr);
        lemma_plain_add(args_lines(e.extra_args, 0), status_lines(e.status));
        lemma_plain_add(
            args_lines(e.extra_args, 0) + status_lines(e.status),
            output_lines("stdout"@, e.stdout),
        );
        lemma_plain_add(
            args_lines(e.extra_args, 0) + status_lines(e.status) + output_lines(
                "stdout"@,
                e.stdout,
            ),
            output_lines("stderr"@, e.stderr),
        );
        lemma_plain_add(seq![key_line(0, written_label(c.label))], expectation_lines(e));
        lemma_plain_commands(s, k + 1);
        lemma_plain_add(command_lines(c), commands_lines(s.commands, k + 1));
    }
}

/// The parser reads the canonical text of a specification back as the
/// specification: for every specification that can be written, parsing what
/// was written gives the specification again.
pub proof fn lemma_canonical_text_read(s: Specification)
    requires
        writable(s),
    ensures
        parsed_text(canonical_text(s)) == Ok::<Specification, ParseError>(s),
{
    lemma_keys();
    let lines = canonical_lines(s);
    lemma_plain_commands(s, 0);
    lemma_key_line(0, "ignore"@);
    lemma_plain_add(commands_lines(s.commands, 0), marker_lines(s.skip));
    lemma_lines_of_terminated(lines, 0);
    assert(lines.subrange(0, lines.len() as int) =~= lines);
    lemma_canonical_lines_read(s);
}

} // verus!
