//! A whitespace-tolerant reader of the pattern part of RLE files.
//!
//! A pattern is optional whitespace, then runs, each followed by optional
//! whitespace, then `!`. A run is an optional count, a decimal number with
//! no leading zero that fits in a `u32`, then `b` (dead cells), `o` (alive
//! cells) or `$` (ends of lines). Whitespace is space, tab, carriage return
//! and line feed. What follows the `!` is ignored.

use vstd::prelude::*;

use crate::rle::{cells_from, digits_value, is_digit, lemma_digits_value_range, lemma_run_end_at, run_end, tag_char, PatternUnit, RleError};
use crate::Position;
use vstd::string::StringSliceAdditionalSpecFns;

verus! {

/// The width and height an RLE file declares.
pub struct Header {
    /// The declared width.
    pub width: u32,
    /// The declared height.
    pub height: u32,
}

/// The rule an RLE file declares: the neighbour counts of birth and of
/// survival.
pub struct RuleString {
    /// The neighbour counts at which a dead cell comes alive.
    pub birth: Vec<u8>,
    /// The neighbour counts at which an alive cell stays alive.
    pub survival: Vec<u8>,
}

/// The kinds of comment lines of an RLE file.
#[derive(Clone, Copy, Debug, PartialEq, Eq, Structural)]
pub enum CommentKind {
    /// A plain comment.
    Comment,
    /// The name of the pattern.
    Name,
    /// The author of the pattern.
    Author,
}

/// A comment line of an RLE file.
pub struct Comment {
    /// What the line says.
    pub kind: CommentKind,
    /// The text of the line.
    pub text: String,
}

/// A whole RLE file: comments, header and pattern.
pub struct RleFile {
    /// The comment lines.
    pub comments: Vec<Comment>,
    /// The header line.
    pub header: Header,
    /// The pattern.
    pub pattern: Pattern,
}

/// The runs of a pattern.
pub struct Pattern {
    runs: Vec<PatternUnit>,
}

/// Whether a byte is whitespace between runs.
pub open spec fn is_blank(b: u8) -> bool {
    b == 32 || b == 9 || b == 13 || b == 10
}

/// Whether a byte is a run's tag: `b`, `o` or `$`.
pub open spec fn is_tag(b: u8) -> bool {
    b == 98 || b == 111 || b == 36
}

/// The end of the whitespace from `i` on.
pub open spec fn blank_end(s: Seq<u8>, i: int) -> int {
    run_end(s, i, |b: u8| is_blank(b))
}

/// The run at position `i`, and the position after it and the whitespace
/// that follows it, if there is one.
pub open spec fn run_at(s: Seq<u8>, i: int) -> Option<(PatternUnit, int)> {
    let k = run_end(s, i, |b: u8| is_digit(b));
    let count_ok = k == i || (s[i] != 48 && digits_value(s.subrange(i, k)) <= u32::MAX);
    if 0 <= i && k < s.len() && is_tag(s[k]) && count_ok {
        let reps: u32 = if k == i {
            1
        } else {
            digits_value(s.subrange(i, k)) as u32
        };
        Some((PatternUnit { reps, tag: tag_char(s[k]) }, blank_end(s, k + 1)))
    } else {
        None
    }
}

/// The runs read from position `i` on, as many as there are, and the
/// position after the last of them.
pub open spec fn runs_from(s: Seq<u8>, i: int) -> (Seq<PatternUnit>, int)
    decreases s.len() - i,
{
    match run_at(s, i) {
        Some((u, j)) => if i < j <= s.len() {
            let (rest, end) = runs_from(s, j);
            (seq![u].add(rest), end)
        } else {
            (Seq::empty(), i)
        },
        None => (Seq::empty(), i),
    }
}

/// The runs of the pattern and the position of its `!`.
pub open spec fn pattern_runs(s: Seq<u8>) -> (Seq<PatternUnit>, int) {
    runs_from(s, blank_end(s, 0))
}

/// Whether the input is a pattern: its runs are followed by `!`.
pub open spec fn is_whitespace_pattern(s: Seq<u8>) -> bool {
    let end = pattern_runs(s).1;
    0 <= end < s.len() && s[end] == 33
}

/// Whether reading the runs from `x, y` on keeps every coordinate within
/// an `i64`.
pub open spec fn fits_i64_from(units: Seq<PatternUnit>, x: int, y: int) -> bool
    decreases units.len(),
{
    if units.len() == 0 {
        true
    } else {
        let u = units[0];
        let rest = units.drop_first();
        if u.tag == 'b' || u.tag == 'o' {
            x + u.reps <= i64::MAX && fits_i64_from(rest, x + u.reps, y)
        } else {
            y + u.reps <= i64::MAX && fits_i64_from(rest, 0, y + u.reps)
        }
    }
}

/// The end of the whitespace from `i` on.
fn skip_blanks(s: &[u8], i: usize) -> (j: usize)
    requires
        i <= s@.len(),
    ensures
        j == blank_end(s@, i as int),
        i <= j <= s@.len(),
{
    let mut j = i;
    while j < s.len() && (s[j] == 32 || s[j] == 9 || s[j] == 13 || s[j] == 10)
        invariant
            i <= j <= s@.len(),
            blank_end(s@, i as int) == blank_end(s@, j as int),
        decreases s@.len() - j,
    {
        j = j + 1;
    }
    j
}

/// The end of the run of digits from `i` on.
fn digits_end(s: &[u8], i: usize) -> (j: usize)
    requires
        i <= s@.len(),
    ensures
        j == run_end(s@, i as int, |b: u8| is_digit(b)),
        i <= j <= s@.len(),
        forall|k: int| i <= k < j ==> is_digit(#[trigger] s@[k]),
{
    let mut j = i;
    while j < s.len() && 48 <= s[j] && s[j] <= 57
        invariant
            i <= j <= s@.len(),
            run_end(s@, i as int, |b: u8| is_digit(b)) == run_end(s@, j as int, |b: u8| is_digit(b)),
            forall|k: int| i <= k < j ==> is_digit(#[trigger] s@[k]),
        decreases s@.len() - j,
    {
        j = j + 1;
    }
    j
}

/// The number the digits `s[i..k]` write, if it fits in a `u32`.
fn parse_count(s: &[u8], i: usize, k: usize) -> (r: Option<u32>)
    requires
        i <= k <= s@.len(),
        forall|m: int| i <= m < k ==> is_digit(#[trigger] s@[m]),
    ensures
        r is Some <==> digits_value(s@.subrange(i as int, k as int)) <= u32::MAX,
        r matches Some(n) ==> n == digits_value(s@.subrange(i as int, k as int)),
{
    let mut value: u32 = 0;
    let mut m = i;
    while m < k
        invariant
            i <= m <= k <= s@.len(),
            forall|q: int| i <= q < k ==> is_digit(#[trigger] s@[q]),
            value == digits_value(s@.subrange(i as int, m as int)),
        decreases k - m,
    {
        let digit = (s[m] - 48) as u32;
        proof {
            assert(s@.subrange(i as int, m + 1).drop_last() == s@.subrange(i as int, m as int));
        }
        if value > (u32::MAX - digit) / 10 {
            proof {
                lemma_digits_grow(s@.subrange(i as int, k as int), (m - i + 1) as int);
                assert(s@.subrange(i as int, k as int).subrange(0, m - i + 1) == s@.subrange(i as int, m + 1));
            }
            return None;
        }
        value = value * 10 + digit;
        m = m + 1;
    }
    Some(value)
}

/// The value of a prefix of digits is at most the value of all of them.
proof fn lemma_digits_grow(d: Seq<u8>, n: int)
    requires
        0 <= n <= d.len(),
    ensures
        digits_value(d.subrange(0, n)) <= digits_value(d),
    decreases d.len() - n,
{
    if n < d.len() {
        lemma_digits_grow(d, n + 1);
        assert(d.subrange(0, n + 1).drop_last() == d.subrange(0, n));
    } else {
        assert(d.subrange(0, n) == d);
    }
}

/// A run written as a count, digits from `i` up to `k` with no leading
/// zero, and then a tag at `k`, repeats the tag as many times as the whole
/// count says, every digit of it: `12o` is twelve alive cells.
pub proof fn lemma_run_count(s: Seq<u8>, i: int, k: int)
    requires
        0 <= i < k < s.len(),
        forall|m: int| i <= m < k ==> is_digit(#[trigger] s[m]),
        s[i] != 48,
        is_tag(s[k]),
        digits_value(s.subrange(i, k)) <= u32::MAX,
    ensures
        run_at(s, i) matches Some((u, _)) && u.reps == digits_value(s.subrange(i, k)) && u.tag == tag_char(s[k]),
        run_at(s, i) == Some(
            (PatternUnit { reps: digits_value(s.subrange(i, k)) as u32, tag: tag_char(s[k]) }, blank_end(s, k + 1)),
        ),
        run_at(s, i) matches Some((u, _)) && vstd::arithmetic::power::pow(10, (k - i - 1) as nat) <= u.reps
            < vstd::arithmetic::power::pow(10, (k - i) as nat),
{
    lemma_run_end_at(s, i, k, |b: u8| is_digit(b));
    let d = s.subrange(i, k);
    assert forall|m: int| 0 <= m < d.len() implies is_digit(#[trigger] d[m]) by {
        assert(d[m] == s[i + m]);
    }
    lemma_digits_value_range(d);
}

/// The run written first in a pattern, a count and a tag at its start,
/// is the first of its runs, whatever follows it.
pub proof fn lemma_first_run(s: Seq<u8>, k: int)
    requires
        0 < k < s.len(),
        forall|m: int| 0 <= m < k ==> is_digit(#[trigger] s[m]),
        s[0] != 48,
        is_tag(s[k]),
        digits_value(s.subrange(0, k)) <= u32::MAX,
    ensures
        pattern_runs(s).0.len() >= 1,
        pattern_runs(s).0[0] == (PatternUnit { reps: digits_value(s.subrange(0, k)) as u32, tag: tag_char(s[k]) }),
{
    lemma_run_end_at(s, 0, 0, |b: u8| is_blank(b));
    lemma_run_count(s, 0, k);
    let j = blank_end(s, k + 1);
    lemma_blank_end_bounds(s, k + 1);
    assert(0 < j <= s.len());
}

/// The whitespace from `i` on ends at or after `i` and within the input.
proof fn lemma_blank_end_bounds(s: Seq<u8>, i: int)
    requires
        0 <= i <= s.len(),
    ensures
        i <= blank_end(s, i) <= s.len(),
    decreases s.len() - i,
{
    if i < s.len() && is_blank(s[i]) {
        lemma_blank_end_bounds(s, i + 1);
    }
}

/// A pattern of one run, a count and a tag, then `!`: it is read as that
/// one run, repeated as many times as the whole count says; a run of alive
/// cells lists that many cells along the top row from the west.
pub proof fn lemma_single_run_pattern(s: Seq<u8>, k: int)
    requires
        0 < k,
        k + 1 < s.len(),
        forall|m: int| 0 <= m < k ==> is_digit(#[trigger] s[m]),
        s[0] != 48,
        is_tag(s[k]),
        s[k + 1] == 33,
        digits_value(s.subrange(0, k)) <= u32::MAX,
    ensures
        is_whitespace_pattern(s),
        pattern_runs(s).0 == seq![PatternUnit { reps: digits_value(s.subrange(0, k)) as u32, tag: tag_char(s[k]) }],
        s[k] == 111 ==> cells_from(pattern_runs(s).0, 0, 0).len() == digits_value(s.subrange(0, k)),
        s[k] == 111 ==> forall|m: int|
            0 <= m < digits_value(s.subrange(0, k)) ==> #[trigger] cells_from(pattern_runs(s).0, 0, 0)[m] == (m, 0int),
{
    lemma_run_end_at(s, 0, 0, |b: u8| is_blank(b));
    lemma_run_count(s, 0, k);
    lemma_run_end_at(s, k + 1, k + 1, |b: u8| is_blank(b));
    lemma_run_end_at(s, k + 1, k + 1, |b: u8| is_digit(b));
    let u = PatternUnit { reps: digits_value(s.subrange(0, k)) as u32, tag: tag_char(s[k]) };
    assert(blank_end(s, k + 1) == k + 1);
    assert(run_at(s, 0) == Some((u, k + 1)));
    assert(run_at(s, k + 1) is None);
    assert(runs_from(s, k + 1) == (Seq::<PatternUnit>::empty(), k + 1));
    assert(runs_from(s, 0) == (seq![u].add(Seq::<PatternUnit>::empty()), k + 1));
    assert(seq![u].add(Seq::<PatternUnit>::empty()) =~= seq![u]);
    if s[k] == 111 {
        let units = seq![u];
        assert(units.drop_first() =~= Seq::<PatternUnit>::empty());
        assert(cells_from(units.drop_first(), u.reps as int, 0) == Seq::<(int, int)>::empty());
    }
}

/// Reads the run at position `i`, if there is one.
fn parse_run(s: &[u8], i: usize) -> (r: Option<(PatternUnit, usize)>)
    requires
        i <= s@.len(),
    ensures
        match r {
            Some((u, j)) => run_at(s@, i as int) == Some((u, j as int)) && i < j <= s@.len(),
            None => run_at(s@, i as int) is None,
        },
{
    let k = digits_end(s, i);
    if k >= s.len() {
        return None;
    }
    let tag = if s[k] == 98 {
        'b'
    } else if s[k] == 111 {
        'o'
    } else if s[k] == 36 {
        '$'
    } else {
        return None;
    };
    let reps = if k == i {
        1
    } else if s[i] == 48 {
        return None;
    } else {
        match parse_count(s, i, k) {
            Some(n) => n,
            None => {
                return None;
            },
        }
    };
    let j = skip_blanks(s, k + 1);
    Some((PatternUnit { reps, tag }, j))
}

impl Pattern {
    /// The runs of the pattern.
    pub closed spec fn runs(&self) -> Seq<PatternUnit> {
        self.runs@
    }

    /// Reads a pattern; what follows its `!` is ignored.
    pub fn from_pattern(pattern: &str) -> (r: Result<Pattern, RleError>)
        ensures
            r is Ok <==> is_whitespace_pattern(pattern.spec_bytes()),
            r matches Ok(p) ==> p.runs() == pattern_runs(pattern.spec_bytes()).0,
            r matches Err(e) ==> e == RleError::Parse,
    {
        let s = pattern.as_bytes();
        let start = skip_blanks(s, 0);
        let mut runs: Vec<PatternUnit> = Vec::new();
        let mut i: usize = start;
        loop
            invariant_except_break
                i <= s@.len(),
                pattern_runs(s@) == (runs@ + runs_from(s@, i as int).0, runs_from(s@, i as int).1),
            ensures
                i <= s@.len(),
                pattern_runs(s@) == (runs@ + runs_from(s@, i as int).0, runs_from(s@, i as int).1),
                run_at(s@, i as int) is None,
            decreases s@.len() - i,
        {
            match parse_run(s, i) {
                Some((unit, j)) => {
                    proof {
                        let rest = runs_from(s@, j as int);
                        assert(runs_from(s@, i as int) == (seq![unit].add(rest.0), rest.1));
                        assert(runs@.push(unit) + rest.0 == runs@ + seq![unit].add(rest.0));
                    }
                    runs.push(unit);
                    i = j;
                },
                None => {
                    break;
                },
            }
        }
        proof {
            assert(runs_from(s@, i as int) == (Seq::<PatternUnit>::empty(), i as int));
            assert(runs@ + Seq::<PatternUnit>::empty() == runs@);
        }
        if i < s.len() && s[i] == 33 {
            Ok(Pattern { runs })
        } else {
            Err(RleError::Parse)
        }
    }

    /// The positions of the alive cells of the pattern, the origin at its
    /// northwest corner, in the order the pattern lists them.
    pub fn alive_cells(&self) -> (cells: Vec<Position>)
        requires
            fits_i64_from(self.runs(), 0, 0),
        ensures
            cells@.len() == cells_from(self.runs(), 0, 0).len(),
            forall|i: int|
                0 <= i < cells@.len() ==> #[trigger] cells@[i].x == cells_from(self.runs(), 0, 0)[i].0
                    && cells@[i].y == cells_from(self.runs(), 0, 0)[i].1,
    {
        let mut cells: Vec<Position> = Vec::new();
        let mut x: i64 = 0;
        let mut y: i64 = 0;
        let mut i: usize = 0;
        let ghost all = self.runs@;
        proof {
            assert(all.subrange(0, all.len() as int) == all);
        }
        while i < self.runs.len()
            invariant
                i <= all.len(),
                all == self.runs@,
                0 <= x,
                0 <= y,
                fits_i64_from(all.subrange(i as int, all.len() as int), x as int, y as int),
                cells@.len() + cells_from(all.subrange(i as int, all.len() as int), x as int, y as int).len()
                    == cells_from(all, 0, 0).len(),
                forall|k: int|
                    0 <= k < cells@.len() ==> #[trigger] cells@[k].x == cells_from(all, 0, 0)[k].0
                        && cells@[k].y == cells_from(all, 0, 0)[k].1,
                forall|k: int|
                    0 <= k < cells_from(all.subrange(i as int, all.len() as int), x as int, y as int).len()
                        ==> #[trigger] cells_from(all.subrange(i as int, all.len() as int), x as int, y as int)[k]
                        == cells_from(all, 0, 0)[cells@.len() + k],
            decreases all.len() - i,
        {
            let unit = self.runs[i];
            let ghost rest = all.subrange(i + 1, all.len() as int);
            proof {
                assert(all.subrange(i as int, all.len() as int).drop_first() == rest);
                assert(all.subrange(i as int, all.len() as int)[0] == unit);
            }
            let len = unit.reps as i64;
            if unit.tag == 'b' {
                x = x + len;
            } else if unit.tag == 'o' {
                let ghost before = cells@.len();
                let ghost x0 = x as int;
                proof {
                    crate::rle::lemma_cells_alive_unit(all.subrange(i as int, all.len() as int), x0, y as int);
                }
                let mut n: i64 = 0;
                while n < len
                    invariant
                        0 <= n <= len,
                        len == unit.reps,
                        x == x0 + n,
                        x0 + unit.reps <= i64::MAX,
                        cells@.len() == before + n,
                        forall|k: int|
                            0 <= k < cells@.len() ==> #[trigger] cells@[k].x == cells_from(all, 0, 0)[k].0
                                && cells@[k].y == cells_from(all, 0, 0)[k].1,
                        forall|k: int|
                            0 <= k < cells_from(all.subrange(i as int, all.len() as int), x0, y as int).len()
                                ==> #[trigger] cells_from(all.subrange(i as int, all.len() as int), x0, y as int)[k]
                                == cells_from(all, 0, 0)[before + k],
                        cells_from(all.subrange(i as int, all.len() as int), x0, y as int).len() == unit.reps
                            + cells_from(rest, x0 + unit.reps, y as int).len(),
                        forall|k: int| 0 <= k < unit.reps ==> #[trigger] cells_from(all.subrange(i as int, all.len() as int), x0, y as int)[k] == (x0 + k, y as int),
                        forall|k: int| 0 <= k < cells_from(rest, x0 + unit.reps, y as int).len() ==> #[trigger] cells_from(rest, x0 + unit.reps, y as int)[k] == cells_from(all.subrange(i as int, all.len() as int), x0, y as int)[unit.reps + k],
                    decreases len - n,
                {
                    proof {
                        assert(cells_from(all.subrange(i as int, all.len() as int), x0, y as int)[n as int] == (
                            x0 + n,
                            y as int,
                        ));
                    }
                    cells.push(Position::new(x, y));
                    x = x + 1;
                    n = n + 1;
                }
                proof {
                    assert forall|k: int| 0 <= k < cells_from(rest, x as int, y as int).len() implies #[trigger] cells_from(
                        rest,
                        x as int,
                        y as int,
                    )[k] == cells_from(all, 0, 0)[cells@.len() + k] by {
                        assert(cells_from(all.subrange(i as int, all.len() as int), x0, y as int)[unit.reps + k]
                            == cells_from(rest, x as int, y as int)[k]);
                    }
                }
            } else {
                x = 0;
                y = y + len;
            }
            i = i + 1;
        }
        cells
    }
}

} // verus!
