//! Characters, whitespace and lines: the vocabulary that the rest of the crate
//! is stated in. Every text is modelled by the sequence of its characters.

use vstd::prelude::*;

verus! {

/// Taken on trust of `String::push`: the string afterwards holds the
/// characters that it held, and the character `c` after them.
pub assume_specification[ String::push ](s: &mut String, c: char)
    ensures
        final(s)@ == old(s)@.push(c),
;

/// The texts that a sequence of strings stands for, one per element.
pub open spec fn views<T: View>(v: Seq<T>) -> Seq<T::V> {
    Seq::new(v.len(), |i: int| v[i]@)
}

/// Whether `c` is a whitespace character: one of the code points to which
/// Unicode gives the property `White_Space`.
pub open spec fn is_space(c: char) -> bool {
    let n = c as u32;
    ||| 0x09 <= n <= 0x0d
    ||| n == 0x20
    ||| n == 0x85
    ||| n == 0xa0
    ||| n == 0x1680
    ||| 0x2000 <= n <= 0x200a
    ||| n == 0x2028
    ||| n == 0x2029
    ||| n == 0x202f
    ||| n == 0x205f
    ||| n == 0x3000
}

/// The first index at or after `from` that holds no whitespace character, or
/// the length of `s` where only whitespace follows.
pub open spec fn spaces_end(s: Seq<char>, from: int) -> int
    decreases s.len() - from,
{
    if 0 <= from < s.len() && is_space(s[from]) {
        spaces_end(s, from + 1)
    } else {
        from
    }
}

/// The index just after the last character before `to` that is no whitespace,
/// or 0 where only whitespace comes before `to`.
pub open spec fn spaces_start(s: Seq<char>, to: int) -> int
    decreases to,
{
    if 0 < to <= s.len() && is_space(s[to - 1]) {
        spaces_start(s, to - 1)
    } else {
        to
    }
}

/// The number of whitespace characters that `s` begins with.
pub open spec fn indent_of(s: Seq<char>) -> int {
    spaces_end(s, 0)
}

/// Whether `s` holds nothing but whitespace.
pub open spec fn is_blank(s: Seq<char>) -> bool {
    indent_of(s) == s.len()
}

/// `s` without the whitespace at its two ends.
pub open spec fn trimmed(s: Seq<char>) -> Seq<char> {
    let a = spaces_end(s, 0);
    let b = spaces_start(s, s.len() as int);
    if a < b {
        s.subrange(a, b)
    } else {
        Seq::empty()
    }
}

/// The first index at or after `from` that holds a line feed, or the length of
/// `s` where none follows.
pub open spec fn line_end(s: Seq<char>, from: int) -> int
    decreases s.len() - from,
{
    if 0 <= from < s.len() && s[from] != '\n' {
        line_end(s, from + 1)
    } else {
        from
    }
}

/// Where the line that starts at `from` and is cut off at `end` stops: a
/// carriage return directly before the line feed belongs to the line ending.
pub open spec fn content_end(s: Seq<char>, from: int, end: int) -> int {
    if from < end < s.len() && s[end - 1] == '\r' {
        end - 1
    } else {
        end
    }
}

/// The lines of `s` from index `from` on.
pub open spec fn lines_from(s: Seq<char>, from: int) -> Seq<Seq<char>>
    decreases s.len() - from,
    via lines_from_decreases
{
    if 0 <= from < s.len() {
        let end = line_end(s, from);
        let rest = if end < s.len() {
            lines_from(s, end + 1)
        } else {
            Seq::empty()
        };
        seq![s.subrange(from, content_end(s, from, end))] + rest
    } else {
        Seq::empty()
    }
}

#[via_fn]
proof fn lines_from_decreases(s: Seq<char>, from: int) {
    if 0 <= from < s.len() {
        lemma_line_end(s, from);
    }
}

/// The lines of `s`. A line ends at a line feed, or at a carriage return
/// followed by a line feed; neither belongs to the line. The last line needs
/// no line ending, and an empty text has no line.
pub open spec fn lines_of(s: Seq<char>) -> Seq<Seq<char>> {
    lines_from(s, 0)
}

/// The elements of `parts` in order, with a line feed between neighbours.
pub open spec fn joined(parts: Seq<Seq<char>>) -> Seq<char>
    decreases parts.len(),
{
    if parts.len() == 0 {
        Seq::empty()
    } else if parts.len() == 1 {
        parts[0]
    } else {
        joined(parts.drop_last()) + seq!['\n'] + parts.last()
    }
}

/// Where a run of whitespace ends: within the text, after whitespace only,
/// and before a character that is none.
pub proof fn lemma_spaces_end(s: Seq<char>, from: int)
    requires
        0 <= from <= s.len(),
    ensures
        from <= spaces_end(s, from) <= s.len(),
        forall|i: int| from <= i < spaces_end(s, from) ==> is_space(#[trigger] s[i]),
        spaces_end(s, from) < s.len() ==> !is_space(s[spaces_end(s, from)]),
    decreases s.len() - from,
{
    if from < s.len() && is_space(s[from]) {
        lemma_spaces_end(s, from + 1);
    }
}

/// Where a run of whitespace starts: within the text, before whitespace only,
/// and after a character that is none.
pub proof fn lemma_spaces_start(s: Seq<char>, to: int)
    requires
        0 <= to <= s.len(),
    ensures
        0 <= spaces_start(s, to) <= to,
        forall|i: int| spaces_start(s, to) <= i < to ==> is_space(#[trigger] s[i]),
        spaces_start(s, to) > 0 ==> !is_space(s[spaces_start(s, to) - 1]),
    decreases to,
{
    if 0 < to && is_space(s[to - 1]) {
        lemma_spaces_start(s, to - 1);
    }
}

/// Where a line ends: within the text, after characters that are no line
/// feed, and at a line feed or at the end of the text.
pub proof fn lemma_line_end(s: Seq<char>, from: int)
    requires
        0 <= from <= s.len(),
    ensures
        from <= line_end(s, from) <= s.len(),
        forall|i: int| from <= i < line_end(s, from) ==> #[trigger] s[i] != '\n',
        line_end(s, from) < s.len() ==> s[line_end(s, from)] == '\n',
    decreases s.len() - from,
{
    if from < s.len() && s[from] != '\n' {
        lemma_line_end(s, from + 1);
    }
}

/// Tells whether `c` is a whitespace character.
pub fn is_whitespace(c: char) -> (b: bool)
    ensures
        b == is_space(c),
{
    let n: u32 = c as u32;
    (0x09 <= n && n <= 0x0d) || n == 0x20 || n == 0x85 || n == 0xa0 || n == 0x1680 || (0x2000 <= n
        && n <= 0x200a) || n == 0x2028 || n == 0x2029 || n == 0x202f || n == 0x205f || n == 0x3000
}

/// The characters of `s`, in order.
pub fn chars_of(s: &str) -> (v: Vec<char>)
    ensures
        v@ == s@,
{
    let mut v: Vec<char> = Vec::new();
    for c in it: s.chars()
        invariant
            v@ == it.seq().take(it.index() as int),
            it.seq() == s@,
    {
        v.push(c);
    }
    v
}

/// The string made of the characters of `cs` from index `from` up to `to`.
pub fn string_of(cs: &[char], from: usize, to: usize) -> (r: String)
    requires
        from <= to <= cs.len(),
    ensures
        r@ == cs@.subrange(from as int, to as int),
{
    let mut r = String::new();
    let mut i: usize = from;
    while i < to
        invariant
            from <= i <= to <= cs.len(),
            r@ == cs@.subrange(from as int, i as int),
        decreases to - i,
    {
        r.push(cs[i]);
        i += 1;
    }
    r
}

/// Whether the two texts hold the same characters.
pub fn same_text(a: &[char], b: &[char]) -> (r: bool)
    ensures
        r == (a@ == b@),
{
    if a.len() != b.len() {
        return false;
    }
    let mut i: usize = 0;
    while i < a.len()
        invariant
            i <= a.len() == b.len(),
            a@.take(i as int) == b@.take(i as int),
        decreases a.len() - i,
    {
        if a[i] != b[i] {
            return false;
        }
        assert(a@.take(i + 1) == a@.take(i as int).push(a@[i as int]));
        assert(b@.take(i + 1) == b@.take(i as int).push(b@[i as int]));
        i += 1;
    }
    assert(a@ == a@.take(a.len() as int));
    assert(b@ == b@.take(b.len() as int));
    true
}

/// Whether the two strings hold the same characters.
pub fn str_eq(a: &str, b: &str) -> (r: bool)
    ensures
        r == (a@ == b@),
{
    let x = chars_of(a);
    let y = chars_of(b);
    same_text(x.as_slice(), y.as_slice())
}

/// The end of the run of whitespace that starts at `from`.
pub fn skip_spaces(cs: &[char], from: usize) -> (r: usize)
    requires
        from <= cs.len(),
    ensures
        r == spaces_end(cs@, from as int),
        from <= r <= cs.len(),
{
    let mut i: usize = from;
    while i < cs.len() && is_whitespace(cs[i])
        invariant
            from <= i <= cs.len(),
            spaces_end(cs@, from as int) == spaces_end(cs@, i as int),
        decreases cs.len() - i,
    {
        i += 1;
    }
    i
}

/// The start of the run of whitespace that ends just before `to`.
pub fn skip_spaces_back(cs: &[char], to: usize) -> (r: usize)
    requires
        to <= cs.len(),
    ensures
        r == spaces_start(cs@, to as int),
        r <= to,
{
    let mut i: usize = to;
    while i > 0 && is_whitespace(cs[i - 1])
        invariant
            i <= to <= cs.len(),
            spaces_start(cs@, to as int) == spaces_start(cs@, i as int),
        decreases i,
    {
        i -= 1;
    }
    i
}

/// The part of `s` that is left when the whitespace at both ends is taken off.
pub fn trim<'a>(s: &'a str) -> (r: &'a str)
    ensures
        r@ == trimmed(s@),
{
    let cs = chars_of(s);
    let a = skip_spaces(cs.as_slice(), 0);
    let b = skip_spaces_back(cs.as_slice(), cs.len());
    if a < b {
        s.substring_char(a, b)
    } else {
        s.substring_char(0, 0)
    }
}

/// The lines of `text`, in order.
pub fn split_lines(text: &str) -> (lines: Vec<String>)
    ensures
        views(lines@) == lines_of(text@),
{
    let cs = chars_of(text);
    let mut lines: Vec<String> = Vec::new();
    let mut start: usize = 0;
    while start < cs.len()
        invariant
            start <= cs.len(),
            cs@ == text@,
            views(lines@) + lines_from(cs@, start as int) == lines_of(cs@),
        decreases cs.len() - start,
    {
        let mut end: usize = start;
        while end < cs.len() && cs[end] != '\n'
            invariant
                start <= end <= cs.len(),
                line_end(cs@, start as int) == line_end(cs@, end as int),
            decreases cs.len() - end,
        {
            end += 1;
        }
        let stop: usize = if start < end && end < cs.len() && cs[end - 1] == '\r' {
            (end - 1) as usize
        } else {
            end
        };
        let line = string_of(cs.as_slice(), start, stop);
        proof {
            let before = views(lines@);
            assert(views(lines@.push(line)) == before.push(line@));
            assert(before.push(line@) + lines_from(cs@, end + 1) == before + lines_from(
                cs@,
                start as int,
            ));
        }
        lines.push(line);
        start = if end < cs.len() {
            (end + 1) as usize
        } else {
            end
        };
    }
    lines
}

/// Borrows each string of `v`.
pub fn borrow_all(v: &Vec<String>) -> (r: Vec<&str>)
    ensures
        views(r@) == views(v@),
{
    let mut r: Vec<&str> = Vec::new();
    let mut i: usize = 0;
    while i < v.len()
        invariant
            i <= v.len(),
            r.len() == i,
            forall|k: int| 0 <= k < i ==> r@[k]@ == v@[k]@,
        decreases v.len() - i,
    {
        r.push(v[i].as_str());
        i += 1;
    }
    assert(views(r@) =~= views(v@));
    r
}

/// The elements of `parts` in order, with a line feed between neighbours.
pub fn join_lines(parts: &[&str]) -> (r: String)
    ensures
        r@ == joined(views(parts@)),
{
    let mut r = String::new();
    let mut i: usize = 0;
    while i < parts.len()
        invariant
            i <= parts.len(),
            r@ == joined(views(parts@).take(i as int)),
        decreases parts.len() - i,
    {
        proof {
            let all = views(parts@);
            assert(all.take(i + 1).drop_last() == all.take(i as int));
            assert(all.take(i + 1).last() == parts@[i as int]@);
        }
        if i > 0 {
            r.push('\n');
        }
        r.append(parts[i]);
        i += 1;
    }
    assert(views(parts@).take(parts.len() as int) == views(parts@));
    r
}


/// The first index at or after `from` that holds a text with characters, or
/// the length of `v` where only empty texts follow.
pub open spec fn content_start(v: Seq<Seq<char>>, from: int) -> int
    decreases v.len() - from,
{
    if 0 <= from < v.len() && v[from].len() == 0 {
        content_start(v, from + 1)
    } else {
        from
    }
}

/// The index just after the last text before `to` that has characters, or 0
/// where only empty texts come before `to`.
pub open spec fn content_stop(v: Seq<Seq<char>>, to: int) -> int
    decreases to,
{
    if 0 < to <= v.len() && v[to - 1].len() == 0 {
        content_stop(v, to - 1)
    } else {
        to
    }
}

/// `v` without the empty texts at its two ends. Empty texts between others
/// stay.
pub open spec fn stripped(v: Seq<Seq<char>>) -> Seq<Seq<char>> {
    let a = content_start(v, 0);
    let b = content_stop(v, v.len() as int);
    if a < b {
        v.subrange(a, b)
    } else {
        Seq::empty()
    }
}

/// Each text of `v` without the whitespace at its two ends.
pub open spec fn all_trimmed(v: Seq<Seq<char>>) -> Seq<Seq<char>> {
    Seq::new(v.len(), |i: int| trimmed(v[i]))
}

/// Where the texts with characters start: after empty texts only, and at a
/// text that is not empty.
pub proof fn lemma_content_start(v: Seq<Seq<char>>, from: int)
    requires
        0 <= from <= v.len(),
    ensures
        from <= content_start(v, from) <= v.len(),
        forall|i: int| from <= i < content_start(v, from) ==> (#[trigger] v[i]).len() == 0,
        content_start(v, from) < v.len() ==> v[content_start(v, from)].len() > 0,
    decreases v.len() - from,
{
    if from < v.len() && v[from].len() == 0 {
        lemma_content_start(v, from + 1);
    }
}

/// Where the texts with characters stop: before empty texts only, and after
/// a text that is not empty.
pub proof fn lemma_content_stop(v: Seq<Seq<char>>, to: int)
    requires
        0 <= to <= v.len(),
    ensures
        0 <= content_stop(v, to) <= to,
        forall|i: int| content_stop(v, to) <= i < to ==> (#[trigger] v[i]).len() == 0,
        content_stop(v, to) > 0 ==> v[content_stop(v, to) - 1].len() > 0,
    decreases to,
{
    if 0 < to && v[to - 1].len() == 0 {
        lemma_content_stop(v, to - 1);
    }
}

/// The bounds of what is left of `v` when the empty strings at its two ends
/// are taken off: the index of the first string that stays, and the index just
/// after the last. The two are equal where nothing stays.
pub fn strip_bounds(v: &[&str]) -> (r: (usize, usize))
    ensures
        r.0 <= r.1 <= v.len(),
        r.0 == content_start(views(v@), 0),
        r.1 == if r.0 < content_stop(views(v@), v.len() as int) {
            content_stop(views(v@), v.len() as int)
        } else {
            r.0 as int
        },
        stripped(views(v@)) == views(v@).subrange(r.0 as int, r.1 as int),
{
    let ghost t = views(v@);
    let mut a: usize = 0;
    while a < v.len() && v[a].is_empty()
        invariant
            a <= v.len(),
            t == views(v@),
            content_start(t, 0) == content_start(t, a as int),
        decreases v.len() - a,
    {
        a += 1;
    }
    let mut b: usize = v.len();
    while b > 0 && v[b - 1].is_empty()
        invariant
            b <= v.len(),
            t == views(v@),
            content_stop(t, v.len() as int) == content_stop(t, b as int),
        decreases b,
    {
        b -= 1;
    }
    if a < b {
        (a, b)
    } else {
        assert(t.subrange(a as int, a as int) == Seq::<Seq<char>>::empty());
        (a, a)
    }
}

} // verus!
