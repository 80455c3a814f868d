//! What the parser leaves is what the canonical text can write: every
//! specification that is read from a text can be written, and is read back
//! from what was written.
//!
//! `lemma_parse_write_parse` is the law of the whole: parsing a text, writing
//! what was read and parsing that again gives what the first parsing gave. It
//! asks that the labels can be written, which no more is known of than that
//! `str::to_lowercase` made them; `lemma_parse_write_parse_ascii` asks
//! nothing of a text of ASCII characters.

use vstd::prelude::*;
use vstd::utf8::is_ascii_chars;
use crate::canon::{arg_value, canonical_text, pattern_texts, split_feeds};
use crate::case::{lemma_lowercase_ascii_idempotent, lower_char, lowercase};
use crate::expectation::{default_expectation, Expectation, Specification};
use crate::parser::{
    commands_of, entries_of, entry_of, key_end, key_val_of, lemma_key_end, lemma_value_end,
    parsed_text, patterns_of, value_end, with_entry, ParseError, };
use crate::pattern::{pattern_of, pattern_text, wildcard, wildcard_at};
use crate::roundtrip::{
    good_word, lemma_canonical_text_read, lemma_joined_first, lemma_keys, lemma_line_end_is,
    tidy, tidy_value, writable, writable_expectation, writable_label, writable_output,
};
use crate::text::{
    all_trimmed, content_end, content_start, content_stop, indent_of, is_blank, is_space,
    joined, lemma_content_start, lemma_content_stop, lemma_line_end, lemma_spaces_end,
    lemma_spaces_start, line_end, lines_from, lines_of, spaces_end, spaces_start, stripped,
    trimmed,
};

verus! {

/// The text holds no line feed.
pub open spec fn feedless(t: Seq<char>) -> bool {
    forall|i: int| 0 <= i < t.len() ==> #[trigger] t[i] != '\n'
}

/// None of the lines holds a line feed.
pub open spec fn all_feedless(lines: Seq<Seq<char>>) -> bool {
    forall|i: int| 0 <= i < lines.len() ==> feedless(#[trigger] lines[i])
}

/// Every line is made of ASCII characters.
pub open spec fn all_ascii(lines: Seq<Seq<char>>) -> bool {
    forall|i: int| 0 <= i < lines.len() ==> is_ascii_chars(#[trigger] lines[i])
}

/// What is left of a text without line feed, when the whitespace at its ends
/// is taken off, is tidy.
pub proof fn lemma_trimmed_tidy(s: Seq<char>)
    requires
        feedless(s),
    ensures
        tidy(trimmed(s)),
{
    let a = spaces_end(s, 0);
    let b = spaces_start(s, s.len() as int);
    lemma_spaces_end(s, 0);
    lemma_spaces_start(s, s.len() as int);
    let t = trimmed(s);
    if a < b {
        assert(t[0] == s[a]);
        assert(t.last() == s[b - 1]);
        assert forall|i: int| 0 <= i < t.len() implies #[trigger] t[i] != '\n' by {
            assert(t[i] == s[a + i]);
        }
    }
}

/// The lines of a text hold no line feed, and where the text is made of ASCII
/// characters, so are they.
pub proof fn lemma_lines_feedless(s: Seq<char>, from: int)
    requires
        0 <= from <= s.len(),
    ensures
        all_feedless(lines_from(s, from)),
        is_ascii_chars(s) ==> all_ascii(lines_from(s, from)),
    decreases s.len() - from,
{
    if from < s.len() {
        lemma_line_end(s, from);
        let end = line_end(s, from);
        let stop = content_end(s, from, end);
        let first = s.subrange(from, stop);
        assert(feedless(first)) by {
            assert forall|i: int| 0 <= i < first.len() implies #[trigger] first[i] != '\n' by {
                assert(first[i] == s[from + i]);
            }
        }
        if is_ascii_chars(s) {
            assert forall|i: int| 0 <= i < first.len() implies '\0' <= #[trigger] first[i]
                <= '\u{7f}' by {
                assert(first[i] == s[from + i]);
            }
        }
        let rest = if end < s.len() {
            lines_from(s, end + 1)
        } else {
            Seq::<Seq<char>>::empty()
        };
        if end < s.len() {
            lemma_lines_feedless(s, end + 1);
        }
        let all = lines_from(s, from);
        assert(all == seq![first] + rest);
        assert forall|i: int| 0 <= i < all.len() implies feedless(#[trigger] all[i]) by {
            if i > 0 {
                assert(all[i] == rest[i - 1]);
            }
        }
        if is_ascii_chars(s) {
            assert forall|i: int| 0 <= i < all.len() implies is_ascii_chars(#[trigger] all[i]) by {
                if i > 0 {
                    assert(all[i] == rest[i - 1]);
                }
            }
        }
    }
}

/// Tidy lines without the empty ones at the two ends are a tidy value.
pub proof fn lemma_stripped_tidy(v: Seq<Seq<char>>)
    requires
        forall|i: int| 0 <= i < v.len() ==> tidy(#[trigger] v[i]),
    ensures
        tidy_value(stripped(v)),
{
    let a = content_start(v, 0);
    let b = content_stop(v, v.len() as int);
    lemma_content_start(v, 0);
    lemma_content_stop(v, v.len() as int);
    let w = stripped(v);
    if a < b {
        assert(w[0] == v[a]);
        assert(w.last() == v[b - 1]);
        assert forall|i: int| 0 <= i < w.len() implies tidy(#[trigger] w[i]) by {
            assert(w[i] == v[a + i]);
        }
    }
}

/// The value of an entry that the parser reads is tidy, and the entry ends
/// after the line at which it starts.
pub proof fn lemma_entry_tidy(lines: Seq<Seq<char>>, off: int, indent: int)
    requires
        0 <= off < lines.len(),
        all_feedless(lines),
        entry_of(lines, off, indent) is Some,
    ensures
        tidy_value(entry_of(lines, off, indent)->0.value),
        off < entry_of(lines, off, indent)->0.end <= lines.len(),
{
    let line = lines[off];
    let (key, first) = key_val_of(line, indent)->0;
    let end = value_end(lines, off + 1, indent);
    lemma_value_end(lines, off + 1, indent);
    let colon = spaces_end(line, key_end(line, indent));
    let rest = line.subrange(colon + 1, line.len() as int);
    assert(feedless(line));
    assert(feedless(rest)) by {
        assert forall|i: int| 0 <= i < rest.len() implies #[trigger] rest[i] != '\n' by {
            assert(rest[i] == line[colon + 1 + i]);
        }
    }
    lemma_trimmed_tidy(rest);
    let more = all_trimmed(lines.subrange(off + 1, end));
    let v = seq![first] + more;
    assert forall|i: int| 0 <= i < v.len() implies tidy(#[trigger] v[i]) by {
        if i > 0 {
            assert(v[i] == trimmed(lines[off + i]));
            assert(feedless(lines[off + i]));
            lemma_trimmed_tidy(lines[off + i]);
        }
    }
    lemma_stripped_tidy(v);
}

/// The parts of a text do not depend on what stands before them.
proof fn lemma_split_shift(x: Seq<char>, y: Seq<char>, j: int)
    requires
        0 <= j <= y.len(),
    ensures
        split_feeds(x + y, x.len() + j) == split_feeds(y, j),
    decreases y.len() - j,
{
    let s = x + y;
    let n = x.len() as int;
    lemma_line_end(y, j);
    let e = line_end(y, j);
    assert forall|i: int| n + j <= i < n + e implies #[trigger] s[i] != '\n' by {
        assert(s[i] == y[i - n]);
    }
    if e < y.len() {
        assert(s[n + e] == y[e]);
    }
    lemma_line_end_is(s, n + j, n + e);
    if e < y.len() {
        assert(s.subrange(n + j, n + e) =~= y.subrange(j, e));
        lemma_split_shift(x, y, e + 1);
    } else {
        assert(s.subrange(n + j, s.len() as int) =~= y.subrange(j, y.len() as int));
    }
}

/// Lines without line feed, joined and parted again, are those lines.
pub proof fn lemma_split_joined(v: Seq<Seq<char>>)
    requires
        v.len() > 0,
        all_feedless(v),
    ensures
        split_feeds(joined(v), 0) == v,
    decreases v.len(),
{
    let first = v[0];
    let s = joined(v);
    assert(feedless(first));
    if v.len() == 1 {
        assert(s == first);
        lemma_line_end_is(s, 0, s.len() as int);
        assert(s.subrange(0, s.len() as int) =~= s);
        assert(split_feeds(s, 0) =~= v);
    } else {
        let rest = v.subrange(1, v.len() as int);
        assert(v =~= seq![first] + rest);
        lemma_joined_first(first, rest);
        let head = first + seq!['\n'];
        assert(s =~= head + joined(rest));
        assert forall|i: int| 0 <= i < first.len() implies #[trigger] s[i] != '\n' by {
            assert(s[i] == first[i]);
        }
        assert(s[first.len() as int] == '\n');
        lemma_line_end_is(s, 0, first.len() as int);
        assert(s.subrange(0, first.len() as int) =~= first);
        assert forall|i: int| 0 <= i < rest.len() implies feedless(#[trigger] rest[i]) by {
            assert(rest[i] == v[i + 1]);
        }
        lemma_split_joined(rest);
        lemma_split_shift(head, joined(rest), 0);
        assert(split_feeds(s, (first.len() + 1) as int) == rest);
        assert(split_feeds(s, 0) =~= seq![first] + rest);
    }
}

/// The pattern that a text writes is written by that text.
pub proof fn lemma_pattern_text_of(t: Seq<char>)
    ensures
        pattern_text(pattern_of(t)) == t,
        pattern_of(pattern_text(pattern_of(t))) == pattern_of(t),
{
    let n = t.len() as int;
    let p = pattern_of(t);
    assert(pattern_text(p) =~= t) by {
        if n == 3 && wildcard_at(t, 0) {
        } else if n >= 6 && wildcard_at(t, 0) && wildcard_at(t, n - 3) {
            assert(t.subrange(0, 3) =~= wildcard());
            assert(t.subrange(n - 3, n) =~= wildcard());
            assert(t =~= t.subrange(0, 3) + t.subrange(3, n - 3) + t.subrange(n - 3, n));
        } else if wildcard_at(t, 0) {
            assert(t.subrange(0, 3) =~= wildcard());
            assert(t =~= t.subrange(0, 3) + t.subrange(3, n));
        } else if wildcard_at(t, n - 3) {
            assert(t.subrange(n - 3, n) =~= wildcard());
            assert(t =~= t.subrange(0, n - 3) + t.subrange(n - 3, n));
        }
    }
}

/// An entry with a tidy value leaves an expectation that can be written one
/// that can be written.
pub proof fn lemma_with_entry_writable(cmd: Expectation, key: Seq<char>, value: Seq<Seq<char>>)
    requires
        writable_expectation(cmd),
        tidy_value(value),
        with_entry(cmd, key, value) is Ok,
    ensures
        writable_expectation(with_entry(cmd, key, value)->Ok_0),
{
    let next = with_entry(cmd, key, value)->Ok_0;
    lemma_keys();
    if key == "extra-args"@ {
        let arg = joined(value);
        if value.len() > 0 && arg.len() > 0 {
            assert forall|i: int| 0 <= i < value.len() implies feedless(#[trigger] value[i]) by {
                assert(tidy(value[i]));
            }
            lemma_split_joined(value);
        }
        assert(tidy_value(arg_value(arg)));
        assert forall|i: int| 0 <= i < next.extra_args.len() implies tidy_value(
            arg_value(#[trigger] next.extra_args[i]),
        ) by {
            if i < cmd.extra_args.len() {
                assert(next.extra_args[i] == cmd.extra_args[i]);
            }
        }
    } else if key == "stderr"@ || key == "stdout"@ {
        let ps = patterns_of(value);
        assert(pattern_texts(ps) =~= value) by {
            assert forall|i: int| 0 <= i < value.len() implies pattern_texts(ps)[i] == value[i] by {
                lemma_pattern_text_of(value[i]);
            }
        }
        assert forall|i: int| 0 <= i < ps.len() implies pattern_of(pattern_text(#[trigger] ps[i]))
            == ps[i] by {
            lemma_pattern_text_of(value[i]);
        }
        assert(writable_output(Some(ps)));
    }
}

/// The entries that the parser reads into an expectation that can be written
/// leave one that can be written.
pub proof fn lemma_entries_writable(lines: Seq<Seq<char>>, off: int, indent: int, cmd: Expectation)
    requires
        0 <= off <= lines.len(),
        all_feedless(lines),
        writable_expectation(cmd),
        entries_of(lines, off, indent, cmd) is Ok,
    ensures
        writable_expectation(entries_of(lines, off, indent, cmd)->Ok_0.1),
        off <= entries_of(lines, off, indent, cmd)->Ok_0.0 <= lines.len(),
    decreases lines.len() - off,
{
    if off < lines.len() {
        if is_blank(lines[off]) {
            lemma_entries_writable(lines, off + 1, indent, cmd);
        } else if indent_of(lines[off]) != indent {
            let own = indent_of(lines[off]);
            let entry = entry_of(lines, off, own)->0;
            lemma_entry_tidy(lines, off, own);
            lemma_with_entry_writable(cmd, entry.key, entry.value);
            let next = with_entry(cmd, entry.key, entry.value)->Ok_0;
            lemma_entries_writable(lines, entry.end, indent, next);
        }
    }
}

/// The lower case of a good word of ASCII characters is a label that can be
/// written.
pub proof fn lemma_ascii_label(name: Seq<char>)
    requires
        good_word(name),
        is_ascii_chars(name),
    ensures
        writable_label(lowercase(name)),
{
    let label = lowercase(name);
    lemma_keys();
    lemma_lowercase_ascii_idempotent(name);
    assert forall|i: int| 0 <= i < label.len() implies !is_space(#[trigger] label[i]) && label[i]
        != ':' by {
        assert(label[i] == lower_char(name[i]));
        assert(!is_space(name[i]) && name[i] != ':');
    }
}

/// What holds of a specification that the parser has read, or has read so
/// far: no label comes twice, and every expectation can be written; and the
/// labels can be written where `labels` says so.
pub open spec fn tidy_spec(s: Specification, labels: bool) -> bool {
    &&& s.wf()
    &&& forall|i: int|
        0 <= i < s.commands.len() ==> writable_expectation((#[trigger] s.commands[i]).expectation)
    &&& labels ==> forall|i: int|
        0 <= i < s.commands.len() ==> writable_label((#[trigger] s.commands[i]).label)
}

/// One more command, under a label that is new, leaves a tidy specification
/// tidy.
proof fn lemma_with_command_tidy(acc: Specification, label: Seq<char>, e: Expectation, labels: bool)
    requires
        tidy_spec(acc, labels),
        !acc.has_label(label),
        writable_expectation(e),
        labels ==> writable_label(label),
    ensures
        tidy_spec(acc.with_command(label, e), labels),
{
    let next = acc.with_command(label, e);
    let n = acc.commands.len() as int;
    assert forall|i: int, j: int| 0 <= i < j < next.commands.len() implies (
    #[trigger] next.commands[i]).label != (#[trigger] next.commands[j]).label by {
        if j < n {
            assert(acc.commands[i].label != acc.commands[j].label);
        } else {
            assert(acc.commands[i].label != label);
        }
    }
    assert forall|i: int| 0 <= i < next.commands.len() implies writable_expectation(
        (#[trigger] next.commands[i]).expectation,
    ) by {
        if i < n {
            assert(writable_expectation(acc.commands[i].expectation));
        }
    }
    if labels {
        assert forall|i: int| 0 <= i < next.commands.len() implies writable_label(
            (#[trigger] next.commands[i]).label,
        ) by {
            if i < n {
                assert(writable_label(acc.commands[i].label));
            }
        }
    }
}

/// The commands that the parser reads into a tidy specification leave a tidy
/// one; from lines of ASCII characters its labels can be written.
pub proof fn lemma_commands_tidy(lines: Seq<Seq<char>>, off: int, acc: Specification)
    requires
        0 <= off <= lines.len(),
        all_feedless(lines),
        tidy_spec(acc, all_ascii(lines)),
        commands_of(lines, off, acc) is Ok,
    ensures
        tidy_spec(commands_of(lines, off, acc)->Ok_0, all_ascii(lines)),
    decreases lines.len() - off,
{
    if off < lines.len() {
        let line = lines[off];
        if is_blank(line) {
            lemma_commands_tidy(lines, off + 1, acc);
        } else {
            let indent = indent_of(line);
            let (name, value) = key_val_of(line, indent)->0;
            if name == "ignore"@ {
                lemma_commands_tidy(lines, off + 1, acc.skipped());
            } else {
                let label = lowercase(name);
                let found = entries_of(lines, off + 1, indent, default_expectation())->Ok_0;
                lemma_entries_writable(lines, off + 1, indent, default_expectation());
                if all_ascii(lines) {
                    lemma_spaces_end(line, 0);
                    lemma_key_end(line, indent);
                    assert(is_ascii_chars(line));
                    assert(is_ascii_chars(name)) by {
                        assert forall|i: int| 0 <= i < name.len() implies '\0' <= #[trigger] name[i]
                            <= '\u{7f}' by {
                            assert(name[i] == line[indent + i]);
                        }
                    }
                    assert(good_word(name)) by {
                        assert forall|i: int| 0 <= i < name.len() implies !is_space(
                            #[trigger] name[i],
                        ) && name[i] != ':' by {
                            assert(name[i] == line[indent + i]);
                        }
                    }
                    lemma_ascii_label(name);
                }
                lemma_with_command_tidy(acc, label, found.1, all_ascii(lines));
                lemma_commands_tidy(lines, found.0, acc.with_command(label, found.1));
            }
        }
    }
}

/// Every specification that the parser reads is tidy; one read from a text
/// of ASCII characters can be written.
pub proof fn lemma_parsed_tidy(text: Seq<char>)
    requires
        parsed_text(text) is Ok,
    ensures
        tidy_spec(parsed_text(text)->Ok_0, is_ascii_chars(text)),
        is_ascii_chars(text) ==> writable(parsed_text(text)->Ok_0),
{
    let lines = lines_of(text);
    lemma_lines_feedless(text, 0);
    let start = Specification::empty(false);
    if !crate::parser::begins_with_ignore(lines) {
        lemma_commands_tidy(lines, 0, start);
    }
}

/// Writing and reading again changes nothing: where a text is read as a
/// specification whose labels can be written, the canonical text of that
/// specification is read as the same specification.
pub proof fn lemma_parse_write_parse(text: Seq<char>, s: Specification)
    requires
        parsed_text(text) == Ok::<Specification, ParseError>(s),
        forall|i: int| 0 <= i < s.commands.len() ==> writable_label((#[trigger] s.commands[i]).label),
    ensures
        parsed_text(canonical_text(s)) == Ok::<Specification, ParseError>(s),
{
    lemma_parsed_tidy(text);
    lemma_canonical_text_read(s);
}

/// Writing and reading again changes nothing in what was read from a text of
/// ASCII characters.
pub proof fn lemma_parse_write_parse_ascii(text: Seq<char>, s: Specification)
    requires
        parsed_text(text) == Ok::<Specification, ParseError>(s),
        is_ascii_chars(text),
    ensures
        parsed_text(canonical_text(s)) == Ok::<Specification, ParseError>(s),
{
    lemma_parsed_tidy(text);
    lemma_canonical_text_read(s);
}

} // verus!
