//! The canonical text of a specification: what the parser reads back as the
//! same specification.

use vstd::prelude::*;
use crate::expectation::{
    CommandExpectation, CommandView, Expectation, ExpectedStatus, Specification,
    TestSpecification,
};
use crate::pattern::{pattern_text, Pattern, PatternLine};
use crate::text::{chars_of, line_end, str_eq, string_of, views};

verus! {

/// The text of a key or label line: the word, indented by `indent` spaces,
/// and a colon.
pub open spec fn key_line(indent: nat, word: Seq<char>) -> Seq<char> {
    Seq::new(indent, |i: int| ' ') + word + seq![':']
}

/// The text of a line of a value: the text indented by four spaces, or an
/// empty line for an empty text.
pub open spec fn value_line(t: Seq<char>) -> Seq<char> {
    if t.len() == 0 {
        t
    } else {
        Seq::new(4, |i: int| ' ') + t
    }
}

/// The lines of an entry: the key, indented by two spaces, and below it the
/// lines of the value.
pub open spec fn entry_lines(key: Seq<char>, value: Seq<Seq<char>>) -> Seq<Seq<char>> {
    seq![key_line(2, key)] + Seq::new(value.len(), |i: int| value_line(value[i]))
}

/// The parts of `s` between its line feeds. A text without line feed is one
/// part.
pub open spec fn split_feeds(s: Seq<char>, from: int) -> Seq<Seq<char>>
    decreases s.len() - from,
    via split_feeds_decreases
{
    let end = line_end(s, from);
    if 0 <= from <= end < s.len() {
        seq![s.subrange(from, end)] + split_feeds(s, end + 1)
    } else {
        seq![s.subrange(from, s.len() as int)]
    }
}

#[via_fn]
proof fn split_feeds_decreases(s: Seq<char>, from: int) {
}

/// The lines of the value that writes the argument `arg`.
pub open spec fn arg_value(arg: Seq<char>) -> Seq<Seq<char>> {
    if arg.len() == 0 {
        Seq::empty()
    } else {
        split_feeds(arg, 0)
    }
}

/// The decimal digit of `d`.
pub open spec fn digit_char(d: int) -> char {
    ((d + 48) as u8) as char
}

/// The decimal digits of `n`.
pub open spec fn digits_text(n: nat) -> Seq<char>
    decreases n,
{
    if n < 10 {
        seq![digit_char(n as int)]
    } else {
        digits_text(n / 10).push(digit_char((n % 10) as int))
    }
}

/// The number `n` in decimal, with `-` before a negative one.
pub open spec fn decimal_text(n: int) -> Seq<char> {
    if n < 0 {
        seq!['-'] + digits_text((-n) as nat)
    } else {
        digits_text(n as nat)
    }
}

/// The word that writes the status `status`.
pub open spec fn status_text(status: ExpectedStatus) -> Seq<char> {
    match status {
        ExpectedStatus::Success => "success"@,
        ExpectedStatus::Error => "error"@,
        ExpectedStatus::Signal => "signal"@,
        ExpectedStatus::ExitCode(code) => decimal_text(code as int),
    }
}

/// The lines of the `extra-args` entries of the arguments from index `k` on.
pub open spec fn args_lines(args: Seq<Seq<char>>, k: int) -> Seq<Seq<char>>
    decreases args.len() - k,
{
    if 0 <= k < args.len() {
        entry_lines("extra-args"@, arg_value(args[k])) + args_lines(args, k + 1)
    } else {
        Seq::empty()
    }
}

/// The lines of the `status` entry; success, which needs none, has none.
pub open spec fn status_lines(status: ExpectedStatus) -> Seq<Seq<char>> {
    if status is Success {
        Seq::empty()
    } else {
        entry_lines("status"@, seq![status_text(status)])
    }
}

/// The texts that write the patterns `ps`, one per pattern.
pub open spec fn pattern_texts(ps: Seq<Pattern>) -> Seq<Seq<char>> {
    Seq::new(ps.len(), |i: int| pattern_text(ps[i]))
}

/// The lines of the entry `key` for the expected output `output`; an output
/// of which nothing is expected has none.
pub open spec fn output_lines(key: Seq<char>, output: Option<Seq<Pattern>>) -> Seq<Seq<char>> {
    match output {
        None => Seq::empty(),
        Some(ps) => entry_lines(key, pattern_texts(ps)),
    }
}

/// The lines of the entries of `e`: the arguments, the status, the standard
/// output, the standard error.
pub open spec fn expectation_lines(e: Expectation) -> Seq<Seq<char>> {
    args_lines(e.extra_args, 0) + status_lines(e.status) + output_lines("stdout"@, e.stdout)
        + output_lines("stderr"@, e.stderr)
}

/// The label as it is written. The label `ignore` is written in capitals:
/// in small letters the word is the marker.
pub open spec fn written_label(label: Seq<char>) -> Seq<char> {
    if label == "ignore"@ {
        "IGNORE"@
    } else {
        label
    }
}

/// The lines of a command: its label, and its entries below it.
pub open spec fn command_lines(c: CommandView) -> Seq<Seq<char>> {
    seq![key_line(0, written_label(c.label))] + expectation_lines(c.expectation)
}

/// The lines of the commands from index `k` on.
pub open spec fn commands_lines(cs: Seq<CommandView>, k: int) -> Seq<Seq<char>>
    decreases cs.len() - k,
{
    if 0 <= k < cs.len() {
        command_lines(cs[k]) + commands_lines(cs, k + 1)
    } else {
        Seq::empty()
    }
}

/// The line of the `ignore` marker, where the specification is skipped. It
/// comes last, where it does not keep the commands from being read.
pub open spec fn marker_lines(skip: bool) -> Seq<Seq<char>> {
    if skip {
        seq![key_line(0, "ignore"@)]
    } else {
        Seq::empty()
    }
}

/// The lines of the canonical text of `s`.
pub open spec fn canonical_lines(s: Specification) -> Seq<Seq<char>> {
    commands_lines(s.commands, 0) + marker_lines(s.skip)
}

/// The lines from index `k` on, each with a line feed after it.
pub open spec fn terminated(lines: Seq<Seq<char>>, k: int) -> Seq<char>
    decreases lines.len() - k,
{
    if 0 <= k < lines.len() {
        lines[k] + seq!['\n'] + terminated(lines, k + 1)
    } else {
        Seq::empty()
    }
}

/// The canonical text of `s`.
pub open spec fn canonical_text(s: Specification) -> Seq<char> {
    terminated(canonical_lines(s), 0)
}


fn push_digits(r: &mut String, n: u32)
    ensures
        final(r)@ == old(r)@ + digits_text(n as nat),
    decreases n,
{
    if n >= 10 {
        push_digits(r, n / 10);
    }
    let d: u8 = (n % 10) as u8;
    r.push((d + 48) as char);
    assert(final(r)@ =~= old(r)@ + digits_text(n as nat));
}

/// The number `n` in decimal.
pub fn decimal_string(n: i32) -> (r: String)
    ensures
        r@ == decimal_text(n as int),
{
    let mut r = String::new();
    if n < 0 {
        r.push('-');
        let m: i64 = -(n as i64);
        push_digits(&mut r, m as u32);
    } else {
        push_digits(&mut r, n as u32);
    }
    assert(r@ =~= decimal_text(n as int));
    r
}

/// The word that writes the status `status`.
pub fn status_word(status: ExpectedStatus) -> (r: String)
    ensures
        r@ == status_text(status),
{
    match status {
        ExpectedStatus::Success => "success".to_owned(),
        ExpectedStatus::Error => "error".to_owned(),
        ExpectedStatus::Signal => "signal".to_owned(),
        ExpectedStatus::ExitCode(code) => decimal_string(code),
    }
}

/// The parts of `text` between its line feeds.
pub fn split_at_feeds(text: &str) -> (parts: Vec<String>)
    ensures
        views(parts@) == split_feeds(text@, 0),
{
    let cs = chars_of(text);
    let mut parts: Vec<String> = Vec::new();
    let mut from: usize = 0;
    loop
        invariant_except_break
            from <= cs.len(),
            cs@ == text@,
            views(parts@) + split_feeds(cs@, from as int) == split_feeds(cs@, 0),
        ensures
            cs@ == text@,
            views(parts@) == split_feeds(cs@, 0),
        decreases cs.len() - from,
    {
        let mut end: usize = from;
        while end < cs.len() && cs[end] != '\n'
            invariant
                from <= end <= cs.len(),
                line_end(cs@, from as int) == line_end(cs@, end as int),
            decreases cs.len() - end,
        {
            end += 1;
        }
        let part = string_of(cs.as_slice(), from, end);
        let ghost before = views(parts@);
        parts.push(part);
        assert(views(parts@) =~= before.push(part@));
        if end >= cs.len() {
            assert(views(parts@) =~= before + split_feeds(cs@, from as int));
            break;
        }
        assert(before.push(part@) + split_feeds(cs@, end + 1) =~= before + split_feeds(
            cs@,
            from as int,
        ));
        from = end + 1;
    }
    parts
}

fn key_line_string(indent: usize, word: &str) -> (r: String)
    ensures
        r@ == key_line(indent as nat, word@),
{
    let mut r = String::new();
    let mut i: usize = 0;
    while i < indent
        invariant
            i <= indent,
            r@ == Seq::new(i as nat, |k: int| ' '),
        decreases indent - i,
    {
        r.push(' ');
        i += 1;
        assert(r@ =~= Seq::new(i as nat, |k: int| ' '));
    }
    r.append(word);
    r.push(':');
    r
}

fn value_line_string(t: &str) -> (r: String)
    ensures
        r@ == value_line(t@),
{
    let mut r = String::new();
    if !t.is_empty() {
        r.push(' ');
        r.push(' ');
        r.push(' ');
        r.push(' ');
        assert(r@ =~= Seq::new(4, |i: int| ' '));
    }
    r.append(t);
    assert(r@ =~= value_line(t@));
    r
}

fn push_entry(lines: &mut Vec<String>, key: &str, value: &Vec<String>)
    ensures
        views(final(lines)@) == views(old(lines)@) + entry_lines(key@, views(value@)),
{
    let ghost before = views(lines@);
    let ghost block = entry_lines(key@, views(value@));
    lines.push(key_line_string(2, key));
    let mut i: usize = 0;
    assert(views(lines@) =~= before + block.take(1));
    while i < value.len()
        invariant
            i <= value.len(),
            block == entry_lines(key@, views(value@)),
            views(lines@) == before + block.take(1 + i),
        decreases value.len() - i,
    {
        let ghost so_far = views(lines@);
        let line = value_line_string(value[i].as_str());
        lines.push(line);
        assert(views(lines@) =~= so_far.push(line@));
        assert(block[1 + i] == line@);
        assert(block.take(1 + i).push(block[1 + i]) =~= block.take(2 + i));
        i += 1;
        assert(views(lines@) =~= before + block.take(1 + i));
    }
    assert(block.take(1 + value.len()) =~= block);
}

fn pattern_strings(ps: &Vec<PatternLine>) -> (r: Vec<String>)
    ensures
        views(r@) == pattern_texts(views(ps@)),
{
    let mut r: Vec<String> = Vec::new();
    let mut i: usize = 0;
    while i < ps.len()
        invariant
            i <= ps.len(),
            r.len() == i,
            forall|k: int| 0 <= k < i ==> r@[k]@ == pattern_text(ps@[k]@),
        decreases ps.len() - i,
    {
        r.push(ps[i].text());
        i += 1;
    }
    assert(views(r@) =~= pattern_texts(views(ps@)));
    r
}

fn push_output(lines: &mut Vec<String>, key: &str, output: &Option<Vec<PatternLine>>)
    ensures
        views(final(lines)@) == views(old(lines)@) + output_lines(
            key@,
            crate::expectation::output_view(*output),
        ),
{
    match output {
        None => {
            assert(views(lines@) =~= views(lines@) + Seq::<Seq<char>>::empty());
        },
        Some(ps) => {
            let value = pattern_strings(ps);
            push_entry(lines, key, &value);
        },
    }
}

fn push_expectation(lines: &mut Vec<String>, e: &CommandExpectation)
    ensures
        views(final(lines)@) == views(old(lines)@) + expectation_lines(e@),
{
    let ghost before = views(lines@);
    let ghost args = e@.extra_args;
    let mut k: usize = 0;
    assert(views(lines@) + args_lines(args, 0) =~= before + args_lines(args, 0));
    while k < e.extra_args.len()
        invariant
            k <= e.extra_args.len(),
            args == e@.extra_args,
            views(lines@) + args_lines(args, k as int) == before + args_lines(args, 0),
        decreases e.extra_args.len() - k,
    {
        let ghost so_far = views(lines@);
        let arg = e.extra_args[k].as_str();
        let value = if arg.is_empty() {
            Vec::new()
        } else {
            split_at_feeds(arg)
        };
        assert(views(value@) =~= arg_value(args[k as int]));
        push_entry(lines, "extra-args", &value);
        assert(views(lines@) + args_lines(args, k + 1) =~= so_far + args_lines(args, k as int));
        k += 1;
    }
    assert(views(lines@) =~= before + args_lines(args, 0));
    match e.expected_status {
        ExpectedStatus::Success => {},
        status => {
            let mut value: Vec<String> = Vec::new();
            value.push(status_word(status));
            assert(views(value@) =~= seq![status_text(status)]);
            push_entry(lines, "status", &value);
        },
    }
    assert(views(lines@) =~= before + args_lines(args, 0) + status_lines(e@.status));
    push_output(lines, "stdout", &e.expected_stdout);
    push_output(lines, "stderr", &e.expected_stderr);
    assert(views(lines@) =~= before + expectation_lines(e@));
}

/// The label as it is written.
fn label_string(label: &str) -> (r: &str)
    ensures
        r@ == written_label(label@),
{
    if str_eq(label, "ignore") {
        "IGNORE"
    } else {
        label
    }
}

/// The lines of the canonical text of `spec`.
pub fn canonical_lines_of(spec: &TestSpecification) -> (lines: Vec<String>)
    ensures
        views(lines@) == canonical_lines(spec@),
{
    let ghost cs = spec@.commands;
    let mut lines: Vec<String> = Vec::new();
    let mut k: usize = 0;
    assert(views(lines@) + commands_lines(cs, 0) =~= commands_lines(cs, 0));
    while k < spec.len()
        invariant
            k <= cs.len(),
            cs == spec@.commands,
            views(lines@) + commands_lines(cs, k as int) == commands_lines(cs, 0),
        decreases cs.len() - k,
    {
        let ghost so_far = views(lines@);
        let command = spec.command(k);
        let head = key_line_string(0, label_string(command.label.as_str()));
        lines.push(head);
        assert(views(lines@) =~= so_far.push(head@));
        push_expectation(&mut lines, &command.expectation);
        assert(views(lines@) =~= so_far + command_lines(cs[k as int]));
        assert(views(lines@) + commands_lines(cs, k + 1) =~= so_far + commands_lines(cs, k as int));
        k += 1;
    }
    assert(views(lines@) =~= commands_lines(cs, 0));
    if spec.skip() {
        let ghost so_far = views(lines@);
        let marker = key_line_string(0, "ignore");
        lines.push(marker);
        assert(views(lines@) =~= so_far + marker_lines(true));
    } else {
        assert(views(lines@) =~= views(lines@) + marker_lines(false));
    }
    lines
}

/// The canonical text of `spec`: the text that the parser reads back as
/// `spec`, where `spec` is one that a text can write.
pub fn to_text(spec: &TestSpecification) -> (r: String)
    ensures
        r@ == canonical_text(spec@),
{
    let lines = canonical_lines_of(spec);
    let ghost all = views(lines@);
    let mut r = String::new();
    let mut k: usize = 0;
    assert(r@ + terminated(all, 0) =~= terminated(all, 0));
    while k < lines.len()
        invariant
            k <= lines.len(),
            all == views(lines@),
            r@ + terminated(all, k as int) == terminated(all, 0),
        decreases lines.len() - k,
    {
        let ghost so_far = r@;
        r.append(lines[k].as_str());
        r.push('\n');
        assert(r@ + terminated(all, k + 1) =~= so_far + terminated(all, k as int));
        k += 1;
    }
    assert(r@ =~= terminated(all, 0));
    r
}

} // verus!
