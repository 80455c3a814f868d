//! The sequence matcher: whether captured lines are what a sequence of pattern
//! lines expects.

use vstd::prelude::*;
use crate::pattern::{
    matches_from, normalized, pattern_accepts, seq_matches, Pattern, PatternLine,
};
use crate::text::{all_trimmed, chars_of, strip_bounds, trim, views};

verus! {

/// The patterns from index `a` up to `end` are single-line patterns.
spec fn run_plain(ps: Seq<Pattern>, a: int, end: int) -> bool {
    forall|x: int| a <= x < end ==> 0 <= x < ps.len() && !(#[trigger] ps[x] is SkipAny)
}

/// The patterns from index `a` up to `end` are single-line patterns, and each
/// accepts its line, the first of them the line at index `b`.
spec fn run_accepted(ps: Seq<Pattern>, ls: Seq<Seq<char>>, a: int, b: int, end: int) -> bool {
    forall|x: int|
        a <= x < end ==> {
            &&& 0 <= x < ps.len()
            &&& !(#[trigger] ps[x] is SkipAny)
            &&& 0 <= x - a + b < ls.len()
            &&& pattern_accepts(ps[x], ls[x - a + b])
        }
}

/// Whether some index from `from` on is one at which the patterns from index
/// `i` on accept the rest of the lines.
spec fn matches_later(ps: Seq<Pattern>, ls: Seq<Seq<char>>, i: int, from: int) -> bool {
    exists|k: int| from <= k <= ls.len() && #[trigger] matches_from(ps, ls, i, k)
}

/// Single-line patterns take one line each: a match that starts at them goes
/// on after them, that many lines further.
proof fn lemma_run_forward(ps: Seq<Pattern>, ls: Seq<Seq<char>>, a: int, b: int, end: int)
    requires
        0 <= a <= end,
        0 <= b <= ls.len(),
        run_plain(ps, a, end),
        matches_from(ps, ls, a, b),
    ensures
        b + (end - a) <= ls.len(),
        matches_from(ps, ls, end, b + (end - a)),
    decreases end - a,
{
    if a < end {
        assert(!(ps[a] is SkipAny));
        lemma_run_forward(ps, ls, a + 1, b + 1, end);
    }
}

/// Where single-line patterns accept their lines and the match goes on after
/// them, it starts at them.
proof fn lemma_run_backward(ps: Seq<Pattern>, ls: Seq<Seq<char>>, a: int, b: int, end: int)
    requires
        0 <= a <= end,
        0 <= b,
        run_accepted(ps, ls, a, b, end),
        matches_from(ps, ls, end, b + (end - a)),
    ensures
        matches_from(ps, ls, a, b),
    decreases end - a,
{
    if a < end {
        assert(!(ps[a] is SkipAny));
        assert(pattern_accepts(ps[a], ls[a - a + b]));
        assert forall|x: int| a + 1 <= x < end implies {
            &&& 0 <= x < ps.len()
            &&& !(#[trigger] ps[x] is SkipAny)
            &&& 0 <= x - (a + 1) + (b + 1) < ls.len()
            &&& pattern_accepts(ps[x], ls[x - (a + 1) + (b + 1)])
        } by {
            assert(x - (a + 1) + (b + 1) == x - a + b);
        }
        lemma_run_backward(ps, ls, a + 1, b + 1, end);
    }
}

/// `SkipAny` at index `i` matches from line `j` exactly where the patterns
/// after it match from `j` or from a later line.
proof fn lemma_skip(ps: Seq<Pattern>, ls: Seq<Seq<char>>, i: int, j: int)
    requires
        0 <= i < ps.len(),
        ps[i] is SkipAny,
        0 <= j <= ls.len(),
    ensures
        matches_from(ps, ls, i, j) <==> matches_later(ps, ls, i + 1, j),
    decreases ls.len() - j,
{
    let i1 = i + 1;
    if j < ls.len() {
        lemma_skip(ps, ls, i, j + 1);
        if matches_from(ps, ls, i, j) {
            if matches_from(ps, ls, i1, j) {
                assert(j <= j <= ls.len() && matches_from(ps, ls, i1, j));
            } else {
                let k = choose|k: int| j + 1 <= k <= ls.len() && #[trigger] matches_from(ps, ls, i1, k);
                assert(j <= k <= ls.len() && matches_from(ps, ls, i1, k));
            }
        }
        if matches_later(ps, ls, i + 1, j) {
            let k = choose|k: int| j <= k <= ls.len() && #[trigger] matches_from(ps, ls, i1, k);
            if k > j {
                assert(j + 1 <= k <= ls.len() && matches_from(ps, ls, i1, k));
            }
        }
    } else {
        if matches_later(ps, ls, i + 1, j) {
            let k = choose|k: int| j <= k <= ls.len() && #[trigger] matches_from(ps, ls, i1, k);
            assert(k == j);
        }
        if matches_from(ps, ls, i, j) {
            assert(j <= j <= ls.len() && matches_from(ps, ls, i1, j));
        }
    }
}

/// With no line left, the patterns from index `i` on match exactly where all
/// of them are `SkipAny`: no line at all is what a sequence of `SkipAny`
/// alone, or of no pattern, accepts, and no other.
pub proof fn lemma_no_line_left(ps: Seq<Pattern>, ls: Seq<Seq<char>>, i: int)
    requires
        0 <= i <= ps.len(),
    ensures
        matches_from(ps, ls, i, ls.len() as int) <==> (forall|x: int|
            i <= x < ps.len() ==> #[trigger] ps[x] is SkipAny),
    decreases ps.len() - i,
{
    if i < ps.len() {
        lemma_no_line_left(ps, ls, i + 1);
        if ps[i] is SkipAny {
            assert forall|x: int| i <= x < ps.len() && (forall|y: int|
                i + 1 <= y < ps.len() ==> #[trigger] ps[y] is SkipAny) implies #[trigger] ps[x] is SkipAny by {
                if x > i {
                    assert(ps[x] is SkipAny);
                }
            }
        }
    }
}

/// Where the last pattern is a single-line pattern, it is held against the
/// last line: lines after the last that it accepts are not passed over, and
/// where it does not accept the last line, or there is no line, nothing
/// matches.
pub proof fn lemma_last_line_counts(ps: Seq<Pattern>, ls: Seq<Seq<char>>, i: int, j: int)
    requires
        0 <= i < ps.len(),
        0 <= j,
        !(ps.last() is SkipAny),
        ls.len() == 0 || !pattern_accepts(ps.last(), ls.last()),
    ensures
        !matches_from(ps, ls, i, j),
    decreases ps.len() - i, ls.len() - j,
{
    if i < ps.len() - 1 {
        if ps[i] is SkipAny {
            lemma_last_line_counts(ps, ls, i + 1, j);
            if j < ls.len() {
                lemma_last_line_counts(ps, ls, i, j + 1);
            }
        } else {
            lemma_last_line_counts(ps, ls, i + 1, j + 1);
        }
    } else {
        assert(ps[i] == ps.last());
        assert(matches_from(ps, ls, i + 1, j + 1) == (j + 1 >= ls.len()));
        if j + 1 == ls.len() {
            assert(ls[j] == ls.last());
        }
    }
}

/// `SkipAny` alone accepts every sequence of lines.
pub proof fn lemma_skip_any_accepts_all(ls: Seq<Seq<char>>)
    ensures
        seq_matches(seq![Pattern::SkipAny], ls),
        seq_matches(Seq::<Pattern>::empty(), Seq::<Seq<char>>::empty()),
{
    let ps = seq![Pattern::SkipAny];
    assert(matches_from(ps, ls, 1, ls.len() as int));
    lemma_skip(ps, ls, 0, 0);
    assert(0 <= ls.len() <= ls.len() && matches_from(ps, ls, 1, ls.len() as int));
}

/// The lines of `actual` as they are compared: each trimmed, and the blank
/// lines at the two ends left out.
fn normalize(actual: &[&str]) -> (lines: Vec<Vec<char>>)
    ensures
        views(lines@) == normalized(views(actual@)),
{
    let mut cut: Vec<&str> = Vec::new();
    let mut i: usize = 0;
    while i < actual.len()
        invariant
            i <= actual.len(),
            cut.len() == i,
            forall|k: int| 0 <= k < i ==> cut@[k]@ == crate::text::trimmed(actual@[k]@),
        decreases actual.len() - i,
    {
        cut.push(trim(actual[i]));
        i += 1;
    }
    assert(views(cut@) =~= all_trimmed(views(actual@)));
    let (a, b) = strip_bounds(cut.as_slice());
    let mut lines: Vec<Vec<char>> = Vec::new();
    let mut k: usize = a;
    while k < b
        invariant
            a <= k <= b <= cut.len(),
            lines.len() == k - a,
            forall|x: int| 0 <= x < k - a ==> lines@[x]@ == cut@[a + x]@,
        decreases b - k,
    {
        lines.push(chars_of(cut[k]));
        k += 1;
    }
    assert(views(lines@) =~= views(cut@).subrange(a as int, b as int));
    lines
}

/// Whether the lines `actual` are what the patterns `expected` ask for.
///
/// Each line is compared without the whitespace at its ends, and the blank
/// lines at the two ends of `actual` are left out. `SkipAny` stands for any
/// number of lines, every other pattern for one line that it accepts; the
/// lines must be used up.
pub fn matches(expected: &[PatternLine], actual: &[&str]) -> (r: bool)
    ensures
        r == seq_matches(views(expected@), normalized(views(actual@))),
{
    let lines = normalize(actual);
    matches_lines(expected, &lines)
}

/// Whether the patterns accept the lines, taken as they are. The scan keeps
/// the last `SkipAny` it passed and the line up to which that one has skipped;
/// where a later pattern fails, the `SkipAny` skips one line more and the
/// patterns after it are tried again.
fn matches_lines(expected: &[PatternLine], lines: &Vec<Vec<char>>) -> (r: bool)
    ensures
        r == seq_matches(views(expected@), views(lines@)),
{
    let ghost ps = views(expected@);
    let ghost ls = views(lines@);
    let n = expected.len();
    let m = lines.len();
    let mut i: usize = 0;
    let mut j: usize = 0;
    let mut anchored = false;
    let mut si: usize = 0;
    let mut sj: usize = 0;
    while j < m
        invariant
            ps == views(expected@),
            ls == views(lines@),
            n == expected.len(),
            m == lines.len(),
            i <= n,
            j <= m,
            si <= i,
            sj <= j,
            anchored ==> {
                &&& j - sj == i - si
                &&& run_accepted(ps, ls, si as int, sj as int, i as int)
                &&& (seq_matches(ps, ls) <==> matches_later(ps, ls, si as int, sj as int))
            },
            !anchored ==> si == 0 && sj == 0 && (seq_matches(ps, ls) <==> matches_from(
                ps,
                ls,
                i as int,
                j as int,
            )),
        decreases m - sj, n - si, m - j,
    {
        if i < n && expected[i].is_skip_any() {
            proof {
                let a = si as int;
                let i1 = i + 1;
                lemma_skip(ps, ls, i as int, j as int);
                if anchored {
                    if matches_later(ps, ls, a, sj as int) {
                        let k = choose|k: int|
                            sj <= k <= ls.len() && #[trigger] matches_from(ps, ls, a, k);
                        lemma_run_forward(ps, ls, a, k, i as int);
                        let k2 = k + (i - si);
                        lemma_skip(ps, ls, i as int, k2);
                        let k3 = choose|k3: int|
                            k2 <= k3 <= ls.len() && #[trigger] matches_from(ps, ls, i1, k3);
                        assert(j <= k3 <= ls.len() && matches_from(ps, ls, i1, k3));
                    }
                    if matches_later(ps, ls, i1, j as int) {
                        lemma_run_backward(ps, ls, a, sj as int, i as int);
                        assert(sj <= sj <= ls.len() && matches_from(ps, ls, a, sj as int));
                    }
                }
            }
            i += 1;
            anchored = true;
            si = i;
            sj = j;
        } else if i < n && expected[i].accepts_chars(lines[j].as_slice()) {
            proof {
                if anchored {
                    assert forall|x: int| si <= x < i + 1 implies {
                        &&& 0 <= x < ps.len()
                        &&& !(#[trigger] ps[x] is SkipAny)
                        &&& 0 <= x - si + sj < ls.len()
                        &&& pattern_accepts(ps[x], ls[x - si + sj])
                    } by {
                        if x == i {
                            assert(x - si + sj == j);
                        }
                    }
                }
            }
            i += 1;
            j += 1;
        } else if anchored {
            proof {
                let a = si as int;
                assert(!matches_from(ps, ls, a, sj as int)) by {
                    if matches_from(ps, ls, a, sj as int) {
                        lemma_run_forward(ps, ls, a, sj as int, i as int);
                    }
                }
                if matches_later(ps, ls, a, sj as int) {
                    let k = choose|k: int|
                        sj <= k <= ls.len() && #[trigger] matches_from(ps, ls, a, k);
                    assert(sj + 1 <= k <= ls.len() && matches_from(ps, ls, a, k));
                }
                if matches_later(ps, ls, a, sj + 1) {
                    let k = choose|k: int|
                        sj + 1 <= k <= ls.len() && #[trigger] matches_from(ps, ls, a, k);
                    assert(sj <= k <= ls.len() && matches_from(ps, ls, a, k));
                }
            }
            sj += 1;
            i = si;
            j = sj;
        } else {
            return false;
        }
    }
    let mut rest: usize = i;
    while rest < n && expected[rest].is_skip_any()
        invariant
            ps == views(expected@),
            n == expected.len(),
            i <= rest <= n,
            forall|x: int| i <= x < rest ==> #[trigger] ps[x] is SkipAny,
        decreases n - rest,
    {
        rest += 1;
    }
    proof {
        lemma_no_line_left(ps, ls, i as int);
        if rest < n {
            assert(!(ps[rest as int] is SkipAny));
        }
        if anchored {
            if rest == n {
                lemma_run_backward(ps, ls, si as int, sj as int, i as int);
                assert(sj <= sj <= ls.len() && matches_from(ps, ls, si as int, sj as int));
            } else {
                let a = si as int;
                assert(!matches_later(ps, ls, a, sj as int)) by {
                    if matches_later(ps, ls, a, sj as int) {
                        let k = choose|k: int|
                            sj <= k <= ls.len() && #[trigger] matches_from(ps, ls, a, k);
                        lemma_run_forward(ps, ls, a, k, i as int);
                        assert(k + (i - si) == ls.len());
                    }
                }
            }
        }
    }
    rest == n
}

} // verus!
