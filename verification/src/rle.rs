//! Run-length encoded (RLE) Life patterns.
//!
//! A pattern is a sequence of units, each an optional count followed by a
//! tag: `b` for dead cells, `o` for alive cells, `$` for ends of lines; it
//! ends with `!`. A missing count means one; whitespace may precede a unit.

use vstd::prelude::*;

verus! {

/// Lets the library name the error that `btoi` reports.
#[verifier::external_type_specification]
#[verifier::external_body]
pub struct ExParseIntegerError(btoi::ParseIntegerError);

/// An error reading an RLE pattern.
#[derive(Clone, Copy, Debug, PartialEq, Eq, Structural)]
pub enum RleError {
    /// The input could not be read.
    Io,
    /// The input is not an RLE pattern.
    Parse,
}

/// A single unit in an RLE pattern: a tag and how many times it repeats.
#[derive(Clone, Copy, Debug, PartialEq, Eq, Structural)]
pub struct PatternUnit {
    /// How many times the tag repeats.
    pub reps: u32,
    /// `b` for dead cells, `o` for alive cells, `$` for ends of lines.
    pub tag: char,
}

/// An RLE pattern.
pub struct Rle {
    units: Vec<PatternUnit>,
}

/// Whether a byte is whitespace, read as a character.
pub open spec fn is_space(b: u8) -> bool {
    (9 <= b <= 13) || b == 32 || b == 0x85 || b == 0xA0
}

/// Whether a byte is an ASCII decimal digit.
pub open spec fn is_digit(b: u8) -> bool {
    48 <= b <= 57
}

/// The decimal number written by a sequence of digits.
pub open spec fn digits_value(s: Seq<u8>) -> nat
    decreases s.len(),
{
    if s.len() == 0 {
        0
    } else {
        digits_value(s.drop_last()) * 10 + (s.last() - 48) as nat
    }
}

/// The end of the run of bytes from `i` on that satisfy `p`.
pub open spec fn run_end(s: Seq<u8>, i: int, p: spec_fn(u8) -> bool) -> int
    decreases s.len() - i,
{
    if i < 0 || i >= s.len() || !p(s[i]) {
        i
    } else {
        run_end(s, i + 1, p)
    }
}

/// The character of a unit tag.
pub open spec fn tag_char(b: u8) -> char {
    if b == 98 {
        'b'
    } else if b == 111 {
        'o'
    } else {
        '$'
    }
}

/// The unit at position `i` of the input and the position after it, if there
/// is one: whitespace, digits, then a tag.
pub open spec fn unit_at(s: Seq<u8>, i: int) -> Option<(PatternUnit, int)> {
    let j = run_end(s, i, |b: u8| is_space(b));
    let k = run_end(s, j, |b: u8| is_digit(b));
    if 0 <= i && k < s.len() && (s[k] == 98 || s[k] == 111 || s[k] == 36) && (k == j
        || digits_value(s.subrange(j, k)) <= u32::MAX) {
        let reps: u32 = if k == j {
            1
        } else {
            digits_value(s.subrange(j, k)) as u32
        };
        Some((PatternUnit { reps, tag: tag_char(s[k]) }, k + 1))
    } else {
        None
    }
}

/// The units read from position `i` on, as many as there are, and the
/// position after the last of them.
pub open spec fn units_from(s: Seq<u8>, i: int) -> (Seq<PatternUnit>, int)
    decreases s.len() - i,
{
    match unit_at(s, i) {
        Some((u, j)) => if i < j <= s.len() {
            let (rest, end) = units_from(s, j);
            (seq![u].add(rest), end)
        } else {
            (Seq::empty(), i)
        },
        None => (Seq::empty(), i),
    }
}

/// Whether the input is an RLE pattern: its units are followed by `!`.
pub open spec fn is_pattern(s: Seq<u8>) -> bool {
    let end = units_from(s, 0).1;
    0 <= end < s.len() && s[end] == 33
}

/// The position after the line that starts at `i`: its bytes up to the
/// first carriage return or line feed, then `\n` or `\r\n`. `None` when the
/// line does not end so.
pub open spec fn line_end(s: Seq<u8>, i: int) -> Option<int> {
    let j = run_end(s, i, |b: u8| b != 13 && b != 10);
    if 0 <= i && j < s.len() && s[j] == 10 {
        Some(j + 1)
    } else if 0 <= i && j + 1 < s.len() && s[j] == 13 && s[j + 1] == 10 {
        Some(j + 2)
    } else {
        None
    }
}

/// The position after the comment lines from `i` on: lines that start with
/// `#` and end with a line break.
pub open spec fn comments_end(s: Seq<u8>, i: int) -> int
    decreases s.len() - i,
{
    if 0 <= i < s.len() && s[i] == 35 {
        match line_end(s, i + 1) {
            Some(k) => if i < k <= s.len() {
                comments_end(s, k)
            } else {
                i
            },
            None => i,
        }
    } else {
        i
    }
}

/// The number written by the digits from `i` on, which some other byte
/// follows, and the position after them, if there is at least one digit and
/// the number fits in a `u32`.
pub open spec fn number_at(s: Seq<u8>, i: int) -> Option<(u32, int)> {
    let k = run_end(s, i, |b: u8| is_digit(b));
    if 0 <= i < k < s.len() && digits_value(s.subrange(i, k)) <= u32::MAX {
        Some((digits_value(s.subrange(i, k)) as u32, k))
    } else {
        None
    }
}

/// The position after the whitespace from `i` on, if the byte there is `b`.
pub open spec fn after_token(s: Seq<u8>, i: int, b: u8) -> Option<int> {
    let a = run_end(s, i, |c: u8| is_space(c));
    if 0 <= i && a < s.len() && s[a] == b {
        Some(a + 1)
    } else {
        None
    }
}

/// The header line from `i` on, `x = <width>, y = <height>` with whitespace
/// anywhere between and anything after the height up to the line break: the
/// width, the height and the position after the line.
pub open spec fn header_end(s: Seq<u8>, i: int) -> Option<(u32, u32, int)> {
    match after_token(s, i, 120) {
        Some(b) => match after_token(s, b, 61) {
            Some(c) => match number_at(s, run_end(s, c, |b: u8| is_space(b))) {
                Some((width, d)) => match after_token(s, d, 44) {
                    Some(f) => match after_token(s, f, 121) {
                        Some(g) => match after_token(s, g, 61) {
                            Some(h) => match number_at(s, run_end(s, h, |b: u8| is_space(b))) {
                                Some((height, k)) => match line_end(s, k) {
                                    Some(end) => Some((width, height, end)),
                                    None => None,
                                },
                                None => None,
                            },
                            None => None,
                        },
                        None => None,
                    },
                    None => None,
                },
                None => None,
            },
            None => None,
        },
        None => None,
    }
}

/// Whether the input is an RLE file: comment lines, the header line, then
/// units followed by `!`.
pub open spec fn is_rle_file(s: Seq<u8>) -> bool {
    match header_end(s, comments_end(s, 0)) {
        Some((_, _, j)) => {
            let end = units_from(s, j).1;
            0 <= end < s.len() && s[end] == 33
        },
        None => false,
    }
}

/// The units of an RLE file.
pub open spec fn file_units(s: Seq<u8>) -> Seq<PatternUnit> {
    match header_end(s, comments_end(s, 0)) {
        Some((_, _, j)) => units_from(s, j).0,
        None => Seq::empty(),
    }
}

/// The cells listed by the units from `x, y` on: `(x, y)` of the alive
/// ones, the origin at the northwest corner.
pub open spec fn cells_from(units: Seq<PatternUnit>, x: int, y: int) -> Seq<(int, int)>
    decreases units.len(),
{
    if units.len() == 0 {
        Seq::empty()
    } else {
        let u = units[0];
        let rest = units.drop_first();
        if u.tag == 'b' {
            cells_from(rest, x + u.reps, y)
        } else if u.tag == 'o' {
            Seq::new(u.reps as nat, |k: int| (x + k, y)).add(cells_from(rest, x + u.reps, y))
        } else {
            cells_from(rest, 0, y + u.reps)
        }
    }
}

/// Whether reading the units from `x, y` on keeps every coordinate within
/// a `u32`.
pub open spec fn fits_from(units: Seq<PatternUnit>, x: int, y: int) -> bool
    decreases units.len(),
{
    if units.len() == 0 {
        true
    } else {
        let u = units[0];
        let rest = units.drop_first();
        if u.tag == 'b' || u.tag == 'o' {
            x + u.reps <= u32::MAX && fits_from(rest, x + u.reps, y)
        } else {
            y + u.reps <= u32::MAX && fits_from(rest, 0, y + u.reps)
        }
    }
}

/// Reads a decimal number with `btoi`, as a `u64`.
///
/// `btoi::btoi` on a non-empty run of ASCII digits returns the number they
/// write, or an error when it does not fit the target type.
#[verifier::external_body]
pub(crate) fn parse_decimal(digits: &[u8]) -> (r: Result<u64, btoi::ParseIntegerError>)
    requires
        digits@.len() > 0,
        forall|i: int| 0 <= i < digits@.len() ==> is_digit(#[trigger] digits@[i]),
    ensures
        r is Ok <==> digits_value(digits@) <= u64::MAX,
        r matches Ok(n) ==> n == digits_value(digits@),
{
    btoi::btoi::<u64>(digits)
}

/// The end of the run of whitespace from `i` on.
pub(crate) fn skip_spaces(s: &[u8], i: usize) -> (j: usize)
    requires
        i <= s@.len(),
    ensures
        j == run_end(s@, i as int, |b: u8| is_space(b)),
        i <= j <= s@.len(),
{
    let mut j = i;
    while j < s.len() && (9 <= s[j] && s[j] <= 13 || s[j] == 32 || s[j] == 0x85 || s[j] == 0xA0)
        invariant
            i <= j <= s@.len(),
            run_end(s@, i as int, |b: u8| is_space(b)) == run_end(s@, j as int, |b: u8| is_space(b)),
        decreases s@.len() - j,
    {
        j = j + 1;
    }
    j
}

/// The end of the run of digits from `i` on.
pub(crate) fn skip_digits(s: &[u8], i: usize) -> (j: usize)
    requires
        i <= s@.len(),
    ensures
        j == run_end(s@, i as int, |b: u8| is_digit(b)),
        i <= j <= s@.len(),
        forall|k: int| i <= k < j ==> is_digit(#[trigger] s@[k]),
{
    let mut j = i;
    while j < s.len() && 48 <= s[j] && s[j] <= 57
        invariant
            i <= j <= s@.len(),
            run_end(s@, i as int, |b: u8| is_digit(b)) == run_end(s@, j as int, |b: u8| is_digit(b)),
            forall|k: int| i <= k < j ==> is_digit(#[trigger] s@[k]),
        decreases s@.len() - j,
    {
        j = j + 1;
    }
    j
}

/// Reads the unit at position `i`, if there is one.
fn parse_unit(s: &[u8], i: usize) -> (r: Option<(PatternUnit, usize)>)
    requires
        i <= s@.len(),
    ensures
        match r {
            Some((u, j)) => unit_at(s@, i as int) == Some((u, j as int)) && i < j <= s@.len(),
            None => unit_at(s@, i as int) is None,
        },
{
    let j = skip_spaces(s, i);
    let k = skip_digits(s, j);
    if k >= s.len() {
        return None;
    }
    let tag = if s[k] == 98 {
        'b'
    } else if s[k] == 111 {
        'o'
    } else if s[k] == 36 {
        '$'
    } else {
        return None;
    };
    let reps = if k == j {
        1
    } else {
        let digits = &s[j..k];
        proof {
            assert(digits@ == s@.subrange(j as int, k as int));
        }
        match parse_decimal(digits) {
            Ok(n) => {
                if n > u32::MAX as u64 {
                    return None;
                }
                n as u32
            },
            Err(_) => {
                return None;
            },
        }
    };
    Some((PatternUnit { reps, tag }, k + 1))
}

/// The position after the line that starts at `i`, as [`line_end`] says.
fn skip_line(s: &[u8], i: usize) -> (r: Option<usize>)
    requires
        i <= s@.len(),
    ensures
        match r {
            Some(k) => line_end(s@, i as int) == Some(k as int) && i < k <= s@.len(),
            None => line_end(s@, i as int) is None,
        },
{
    let mut j = i;
    while j < s.len() && s[j] != 13 && s[j] != 10
        invariant
            i <= j <= s@.len(),
            run_end(s@, i as int, |b: u8| b != 13 && b != 10) == run_end(s@, j as int, |b: u8| b != 13 && b != 10),
        decreases s@.len() - j,
    {
        j = j + 1;
    }
    if j < s.len() && s[j] == 10 {
        Some(j + 1)
    } else if j < s.len() && s[j] == 13 && j + 1 < s.len() && s[j + 1] == 10 {
        Some(j + 2)
    } else {
        None
    }
}

/// The number at `i`, as [`number_at`] says.
fn parse_number(s: &[u8], i: usize) -> (r: Option<(u32, usize)>)
    requires
        i <= s@.len(),
    ensures
        match r {
            Some((n, k)) => number_at(s@, i as int) == Some((n, k as int)) && i < k <= s@.len(),
            None => number_at(s@, i as int) is None,
        },
{
    let k = skip_digits(s, i);
    if k == i || k >= s.len() {
        return None;
    }
    let digits = &s[i..k];
    proof {
        assert(digits@ == s@.subrange(i as int, k as int));
    }
    match parse_decimal(digits) {
        Ok(n) => {
            if n > u32::MAX as u64 {
                None
            } else {
                Some((n as u32, k))
            }
        },
        Err(_) => None,
    }
}

/// The position after the whitespace from `i` on and the byte `b`, as
/// [`after_token`] says.
fn skip_token(s: &[u8], i: usize, b: u8) -> (r: Option<usize>)
    requires
        i <= s@.len(),
    ensures
        match r {
            Some(k) => after_token(s@, i as int, b) == Some(k as int) && i < k <= s@.len(),
            None => after_token(s@, i as int, b) is None,
        },
{
    let a = skip_spaces(s, i);
    if a < s.len() && s[a] == b {
        Some(a + 1)
    } else {
        None
    }
}

/// The header line from `i` on, as [`header_end`] says.
fn parse_header(s: &[u8], i: usize) -> (r: Option<(u32, u32, usize)>)
    requires
        i <= s@.len(),
    ensures
        match r {
            Some((w, h, k)) => header_end(s@, i as int) == Some((w, h, k as int)) && k <= s@.len(),
            None => header_end(s@, i as int) is None,
        },
{
    let b = match skip_token(s, i, 120) {
        Some(b) => b,
        None => return None,
    };
    let c = match skip_token(s, b, 61) {
        Some(c) => c,
        None => return None,
    };
    let (width, d) = match parse_number(s, skip_spaces(s, c)) {
        Some(r) => r,
        None => return None,
    };
    let f = match skip_token(s, d, 44) {
        Some(f) => f,
        None => return None,
    };
    let g = match skip_token(s, f, 121) {
        Some(g) => g,
        None => return None,
    };
    let h = match skip_token(s, g, 61) {
        Some(h) => h,
        None => return None,
    };
    let (height, k) = match parse_number(s, skip_spaces(s, h)) {
        Some(r) => r,
        None => return None,
    };
    match skip_line(s, k) {
        Some(end) => Some((width, height, end)),
        None => None,
    }
}

/// Reads the units from `start` on, as many as there are: the units and the
/// position after the last of them.
pub(crate) fn read_units(s: &[u8], start: usize) -> (r: (Vec<PatternUnit>, usize))
    requires
        start <= s@.len(),
    ensures
        (r.0@, r.1 as int) == units_from(s@, start as int),
        r.1 <= s@.len(),
{
    let mut units: Vec<PatternUnit> = Vec::new();
    let mut i: usize = start;
    loop
        invariant_except_break
            start <= i <= s@.len(),
            units_from(s@, start as int) == (units@ + units_from(s@, i as int).0, units_from(s@, i as int).1),
        ensures
            start <= i <= s@.len(),
            units_from(s@, start as int) == (units@ + units_from(s@, i as int).0, units_from(s@, i as int).1),
            unit_at(s@, i as int) is None,
        decreases s@.len() - i,
    {
        match parse_unit(s, i) {
            Some((unit, j)) => {
                proof {
                    let rest = units_from(s@, j as int);
                    assert(units_from(s@, i as int) == (seq![unit].add(rest.0), rest.1));
                    assert(units@.push(unit) + rest.0 == units@ + seq![unit].add(rest.0));
                }
                units.push(unit);
                i = j;
            },
            None => {
                break;
            },
        }
    }
    proof {
        assert(units_from(s@, i as int) == (Seq::<PatternUnit>::empty(), i as int));
        assert(units@ + Seq::<PatternUnit>::empty() == units@);
    }
    (units, i)
}

/// The cells listed by a run of alive cells and the units after it.
pub(crate) proof fn lemma_cells_alive_unit(units: Seq<PatternUnit>, x: int, y: int)
    requires
        units.len() > 0,
        units[0].tag == 'o',
    ensures
        cells_from(units, x, y).len() == units[0].reps + cells_from(units.drop_first(), x + units[0].reps, y).len(),
        forall|k: int| 0 <= k < units[0].reps ==> #[trigger] cells_from(units, x, y)[k] == (x + k, y),
        forall|k: int| 0 <= k < cells_from(units.drop_first(), x + units[0].reps, y).len() ==> #[trigger] cells_from(units.drop_first(), x + units[0].reps, y)[k] == cells_from(units, x, y)[units[0].reps + k],
{
}

/// The decimal value of digits: a single digit is its own value, and `n`
/// digits with no leading zero write a number with exactly `n` digits, at
/// least `10^(n-1)` and below `10^n`.
pub proof fn lemma_digits_value_range(d: Seq<u8>)
    requires
        d.len() > 0,
        forall|m: int| 0 <= m < d.len() ==> is_digit(#[trigger] d[m]),
        d[0] != 48,
    ensures
        d.len() == 1 ==> digits_value(d) == d[0] - 48,
        vstd::arithmetic::power::pow(10, (d.len() - 1) as nat) <= digits_value(d),
        digits_value(d) < vstd::arithmetic::power::pow(10, d.len()),
    decreases d.len(),
{
    reveal(vstd::arithmetic::power::pow);
    let n = d.len();
    let p = d.drop_last();
    if n == 1 {
        assert(p.len() == 0);
        assert(vstd::arithmetic::power::pow(10, 0) == 1);
        assert(vstd::arithmetic::power::pow(10, 1) == 10 * vstd::arithmetic::power::pow(10, 0));
    } else {
        assert forall|m: int| 0 <= m < p.len() implies is_digit(#[trigger] p[m]) by {
            assert(p[m] == d[m]);
        }
        assert(p[0] == d[0]);
        lemma_digits_value_range(p);
        assert(is_digit(d[n - 1]));
        assert(vstd::arithmetic::power::pow(10, (n - 1) as nat) == 10 * vstd::arithmetic::power::pow(
            10,
            (n - 2) as nat,
        ));
        assert(vstd::arithmetic::power::pow(10, n as nat) == 10 * vstd::arithmetic::power::pow(10, (n - 1) as nat));
    }
}

/// A unit written as a count, the digits from `i` up to `k`, and then a
/// tag at `k` repeats the tag as many times as the whole count says, every
/// digit of it, and reading goes on after the tag.
pub proof fn lemma_unit_count(s: Seq<u8>, i: int, k: int)
    requires
        0 <= i < k < s.len(),
        forall|m: int| i <= m < k ==> is_digit(#[trigger] s[m]),
        s[k] == 98 || s[k] == 111 || s[k] == 36,
        digits_value(s.subrange(i, k)) <= u32::MAX,
    ensures
        unit_at(s, i) == Some(
            (PatternUnit { reps: digits_value(s.subrange(i, k)) as u32, tag: tag_char(s[k]) }, k + 1),
        ),
{
    assert(!is_space(s[i]));
    lemma_run_end_at(s, i, i, |b: u8| is_space(b));
    lemma_run_end_at(s, i, k, |b: u8| is_digit(b));
}

/// A run from `i` on ends at `k` when the bytes from `i` up to `k` satisfy
/// the test and the byte at `k` does not.
pub(crate) proof fn lemma_run_end_at(s: Seq<u8>, i: int, k: int, f: spec_fn(u8) -> bool)
    requires
        0 <= i <= k < s.len(),
        forall|m: int| i <= m < k ==> f(#[trigger] s[m]),
        !f(s[k]),
    ensures
        run_end(s, i, f) == k,
    decreases k - i,
{
    if i < k {
        lemma_run_end_at(s, i + 1, k, f);
    }
}

/// A run from `i` on ends at or after `i` and within the input.
proof fn lemma_run_end_bounds(s: Seq<u8>, i: int, f: spec_fn(u8) -> bool)
    requires
        0 <= i <= s.len(),
    ensures
        i <= run_end(s, i, f) <= s.len(),
    decreases s.len() - i,
{
    if i < s.len() && f(s[i]) {
        lemma_run_end_bounds(s, i + 1, f);
    }
}

/// How many alive cells the units list: the counts of their `o` units.
pub open spec fn alive_count(units: Seq<PatternUnit>) -> nat
    decreases units.len(),
{
    if units.len() == 0 {
        0
    } else {
        (if units[0].tag == 'o' {
            units[0].reps as nat
        } else {
            0
        }) + alive_count(units.drop_first())
    }
}

/// The units list one cell per repetition of an `o`, row by row from the
/// north and, within a row, from the west, when every end of line counts
/// at least one line.
pub proof fn lemma_cells_in_row_order(units: Seq<PatternUnit>, x: int, y: int)
    requires
        forall|k: int| 0 <= k < units.len() && units[k].tag != 'b' && units[k].tag != 'o' ==> #[trigger] units[k].reps > 0,
    ensures
        cells_from(units, x, y).len() == alive_count(units),
        forall|i: int|
            0 <= i < cells_from(units, x, y).len() ==> #[trigger] cells_from(units, x, y)[i].1 > y || (
            cells_from(units, x, y)[i].1 == y && cells_from(units, x, y)[i].0 >= x),
        forall|i: int, j: int|
            0 <= i < j < cells_from(units, x, y).len() ==> #[trigger] cells_from(units, x, y)[i].1 < #[trigger] cells_from(
                units,
                x,
                y,
            )[j].1 || (cells_from(units, x, y)[i].1 == cells_from(units, x, y)[j].1 && cells_from(units, x, y)[i].0
                < cells_from(units, x, y)[j].0),
    decreases units.len(),
{
    if units.len() > 0 {
        let u = units[0];
        let rest = units.drop_first();
        assert forall|k: int| 0 <= k < rest.len() && rest[k].tag != 'b' && rest[k].tag != 'o' implies #[trigger] rest[k].reps > 0 by {
            assert(rest[k] == units[k + 1]);
        }
        let c = cells_from(units, x, y);
        if u.tag == 'b' {
            lemma_cells_in_row_order(rest, x + u.reps, y);
        } else if u.tag == 'o' {
            lemma_cells_in_row_order(rest, x + u.reps, y);
            let head = Seq::new(u.reps as nat, |k: int| (x + k, y));
            let tail = cells_from(rest, x + u.reps, y);
            assert(c == head.add(tail));
            assert forall|i: int, j: int| 0 <= i < j < c.len() implies #[trigger] c[i].1 < #[trigger] c[j].1 || (c[i].1
                == c[j].1 && c[i].0 < c[j].0) by {
                if j < u.reps {
                } else if i < u.reps {
                    assert(c[j] == tail[j - u.reps]);
                } else {
                    assert(c[i] == tail[i - u.reps]);
                    assert(c[j] == tail[j - u.reps]);
                }
            }
            assert forall|i: int| 0 <= i < c.len() implies #[trigger] c[i].1 > y || (c[i].1 == y && c[i].0 >= x) by {
                if i >= u.reps {
                    assert(c[i] == tail[i - u.reps]);
                }
            }
        } else {
            lemma_cells_in_row_order(rest, 0, y + u.reps);
        }
    }
}

/// A run that stops inside `h` stops at the same place in `h + p`.
proof fn lemma_run_end_prefix(h: Seq<u8>, p: Seq<u8>, i: int, f: spec_fn(u8) -> bool)
    requires
        0 <= i <= h.len(),
        run_end(h, i, f) < h.len(),
    ensures
        run_end(h + p, i, f) == run_end(h, i, f),
    decreases h.len() - i,
{
    assert((h + p)[i] == h[i]);
    if f(h[i]) {
        lemma_run_end_prefix(h, p, i + 1, f);
    }
}

/// A run in `p` is the same run in `h + p`, moved by the length of `h`.
proof fn lemma_run_end_shift(h: Seq<u8>, p: Seq<u8>, i: int, f: spec_fn(u8) -> bool)
    requires
        0 <= i <= p.len(),
    ensures
        run_end(h + p, h.len() + i, f) == h.len() + run_end(p, i, f),
    decreases p.len() - i,
{
    if i < p.len() {
        assert((h + p)[h.len() + i] == p[i]);
        if f(p[i]) {
            lemma_run_end_shift(h, p, i + 1, f);
        }
    }
}

/// The units of `p` read from `i` on are those of `h + p` read from
/// `h.len() + i` on.
proof fn lemma_units_shift(h: Seq<u8>, p: Seq<u8>, i: int)
    requires
        0 <= i <= p.len(),
    ensures
        units_from(h + p, h.len() + i) == (units_from(p, i).0, h.len() + units_from(p, i).1),
    decreases p.len() - i,
{
    let s = h + p;
    let n = h.len() as int;
    lemma_run_end_shift(h, p, i, |b: u8| is_space(b));
    lemma_run_end_bounds(p, i, |b: u8| is_space(b));
    let j = run_end(p, i, |b: u8| is_space(b));
    lemma_run_end_shift(h, p, j, |b: u8| is_digit(b));
    lemma_run_end_bounds(p, j, |b: u8| is_digit(b));
    let k = run_end(p, j, |b: u8| is_digit(b));
    assert(s.subrange(n + j, n + k) =~= p.subrange(j, k));
    if k < p.len() {
        assert(s[n + k] == p[k]);
    }
    match unit_at(p, i) {
        Some((u, e)) => {
            assert(unit_at(s, n + i) == Some((u, n + e)));
            if i < e <= p.len() {
                lemma_units_shift(h, p, e);
            }
        },
        None => {
            assert(unit_at(s, n + i) is None);
        },
    }
}

/// The line ending that `h` holds from `i` on is the one that `h + p`
/// holds.
proof fn lemma_line_end_prefix(h: Seq<u8>, p: Seq<u8>, i: int)
    requires
        0 <= i <= h.len(),
        line_end(h, i) is Some,
    ensures
        line_end(h + p, i) == line_end(h, i),
{
    lemma_run_end_prefix(h, p, i, |b: u8| b != 13 && b != 10);
    lemma_run_end_bounds(h, i, |b: u8| b != 13 && b != 10);
    let j = run_end(h, i, |b: u8| b != 13 && b != 10);
    assert((h + p)[j] == h[j]);
    if j + 1 < h.len() {
        assert((h + p)[j + 1] == h[j + 1]);
    }
}

/// The comment lines that `h` starts with, followed by a line that is not a
/// comment, are those that `h + p` starts with.
proof fn lemma_comments_prefix(h: Seq<u8>, p: Seq<u8>, i: int)
    requires
        0 <= i <= h.len(),
        comments_end(h, i) < h.len(),
        h[comments_end(h, i)] != 35,
    ensures
        comments_end(h + p, i) == comments_end(h, i),
    decreases h.len() - i,
{
    if i < h.len() {
        assert((h + p)[i] == h[i]);
        if h[i] == 35 {
            lemma_line_end_prefix(h, p, i + 1);
            match line_end(h, i + 1) {
                Some(k) => {
                    if i < k <= h.len() {
                        lemma_comments_prefix(h, p, k);
                    }
                },
                None => {},
            }
        }
    }
}

/// A token that `h` holds from `i` on is the one that `h + p` holds.
proof fn lemma_token_prefix(h: Seq<u8>, p: Seq<u8>, i: int, b: u8)
    requires
        0 <= i <= h.len(),
        after_token(h, i, b) is Some,
    ensures
        after_token(h + p, i, b) == after_token(h, i, b),
{
    lemma_run_end_prefix(h, p, i, |c: u8| is_space(c));
    lemma_run_end_bounds(h, i, |c: u8| is_space(c));
    assert((h + p)[run_end(h, i, |c: u8| is_space(c))] == h[run_end(h, i, |c: u8| is_space(c))]);
}

/// A number that `h` holds after the whitespace from `i` on is the one that
/// `h + p` holds.
proof fn lemma_number_prefix(h: Seq<u8>, p: Seq<u8>, i: int)
    requires
        0 <= i <= h.len(),
        number_at(h, run_end(h, i, |b: u8| is_space(b))) is Some,
    ensures
        run_end(h + p, i, |b: u8| is_space(b)) == run_end(h, i, |b: u8| is_space(b)),
        number_at(h + p, run_end(h, i, |b: u8| is_space(b))) == number_at(h, run_end(h, i, |b: u8| is_space(b))),
{
    let m = run_end(h, i, |b: u8| is_space(b));
    lemma_run_end_bounds(h, i, |b: u8| is_space(b));
    lemma_run_end_prefix(h, p, i, |b: u8| is_space(b));
    lemma_run_end_prefix(h, p, m, |b: u8| is_digit(b));
    let k = run_end(h, m, |b: u8| is_digit(b));
    assert((h + p).subrange(m, k) =~= h.subrange(m, k));
}

/// The header line that `h` holds from `i` on is the one that `h + p`
/// holds.
proof fn lemma_header_prefix(h: Seq<u8>, p: Seq<u8>, i: int)
    requires
        0 <= i <= h.len(),
        header_end(h, i) is Some,
    ensures
        header_end(h + p, i) == header_end(h, i),
{
    lemma_token_prefix(h, p, i, 120);
    let b = after_token(h, i, 120)->Some_0;
    lemma_token_prefix(h, p, b, 61);
    let c = after_token(h, b, 61)->Some_0;
    lemma_number_prefix(h, p, c);
    let d = number_at(h, run_end(h, c, |b: u8| is_space(b)))->Some_0.1;
    lemma_token_prefix(h, p, d, 44);
    let f = after_token(h, d, 44)->Some_0;
    lemma_token_prefix(h, p, f, 121);
    let g = after_token(h, f, 121)->Some_0;
    lemma_token_prefix(h, p, g, 61);
    let hh = after_token(h, g, 61)->Some_0;
    lemma_number_prefix(h, p, hh);
    let k = number_at(h, run_end(h, hh, |b: u8| is_space(b)))->Some_0.1;
    lemma_line_end_prefix(h, p, k);
}

/// An RLE pattern is no RLE file: after its leading whitespace comes a
/// digit, a tag or `!`, never the `x` of a header.
pub proof fn lemma_pattern_not_file(p: Seq<u8>)
    requires
        is_pattern(p),
    ensures
        !is_rle_file(p),
{
    let a = run_end(p, 0, |b: u8| is_space(b));
    assert(comments_end(p, 0) == 0) by {
        match unit_at(p, 0) {
            Some((u, e)) => {
                let k = run_end(p, a, |b: u8| is_digit(b));
                if a == 0 {
                    assert(p[0] != 35);
                }
            },
            None => {
                assert(units_from(p, 0).1 == 0);
            },
        }
    }
    match unit_at(p, 0) {
        Some((u, e)) => {},
        None => {
            assert(units_from(p, 0).1 == 0);
        },
    }
}

/// A file made of comment lines and a header line, then a pattern, is an
/// RLE file whose units, and so whose alive cells, are those of the
/// pattern; the pattern alone is no RLE file.
pub proof fn lemma_file_with_header(h: Seq<u8>, p: Seq<u8>)
    requires
        header_end(h, comments_end(h, 0)) matches Some((_, _, end)) && end == h.len(),
        is_pattern(p),
    ensures
        is_rle_file(h + p),
        file_units(h + p) == units_from(p, 0).0,
        cells_from(file_units(h + p), 0, 0) == cells_from(units_from(p, 0).0, 0, 0),
        !is_rle_file(p),
{
    lemma_pattern_not_file(p);
    let c = comments_end(h, 0);
    assert(0 <= c <= h.len()) by {
        lemma_comments_bounds(h, 0);
    }
    let a = run_end(h, c, |b: u8| is_space(b));
    lemma_run_end_bounds(h, c, |b: u8| is_space(b));
    assert(c <= a);
    assert(h[a] == 120);
    assert(c < h.len());
    lemma_comments_prefix(h, p, 0);
    lemma_header_prefix(h, p, c);
    lemma_units_shift(h, p, 0);
    let end = units_from(p, 0).1;
    assert((h + p)[h.len() + end] == p[end]);
}

/// The comment lines from `i` on end at or after `i` and within the input.
proof fn lemma_comments_bounds(s: Seq<u8>, i: int)
    requires
        0 <= i <= s.len(),
    ensures
        i <= comments_end(s, i) <= s.len(),
    decreases s.len() - i,
{
    if 0 <= i < s.len() && s[i] == 35 {
        match line_end(s, i + 1) {
            Some(k) => {
                if i < k <= s.len() {
                    lemma_comments_bounds(s, k);
                }
            },
            None => {},
        }
    }
}

impl Rle {
    /// The units of the pattern.
    pub closed spec fn units(&self) -> Seq<PatternUnit> {
        self.units@
    }

    /// The pattern with the given units.
    pub(crate) fn from_units(units: Vec<PatternUnit>) -> (rle: Rle)
        ensures
            rle.units() == units@,
    {
        Rle { units }
    }

    /// Reads an RLE pattern from the given bytes: units, then `!`; what
    /// follows the `!` is ignored.
    pub fn from_pattern(pattern: &[u8]) -> (r: Result<Rle, RleError>)
        ensures
            r is Ok <==> is_pattern(pattern@),
            r matches Ok(rle) ==> rle.units() == units_from(pattern@, 0).0,
            r matches Err(e) ==> e == RleError::Parse,
    {
        let (units, i) = read_units(pattern, 0);
        if i < pattern.len() && pattern[i] == 33 {
            Ok(Rle { units })
        } else {
            Err(RleError::Parse)
        }
    }

    /// Reads a whole RLE file from the given bytes: comment lines starting
    /// with `#`, the header line `x = <width>, y = <height>...`, then the
    /// pattern; what follows its `!` is ignored.
    pub fn from_file_contents(contents: &[u8]) -> (r: Result<Rle, RleError>)
        ensures
            r is Ok <==> is_rle_file(contents@),
            r matches Ok(rle) ==> rle.units() == file_units(contents@),
            r matches Err(e) ==> e == RleError::Parse,
    {
        let mut i: usize = 0;
        while i < contents.len() && contents[i] == 35
            invariant_except_break
                i <= contents@.len(),
                comments_end(contents@, 0) == comments_end(contents@, i as int),
            ensures
                i <= contents@.len(),
                comments_end(contents@, 0) == i,
            decreases contents@.len() - i,
        {
            match skip_line(contents, i + 1) {
                Some(k) => {
                    i = k;
                },
                None => {
                    break;
                },
            }
        }
        let j = match parse_header(contents, i) {
            Some((_width, _height, j)) => j,
            None => return Err(RleError::Parse),
        };
        let (units, end) = read_units(contents, j);
        if end < contents.len() && contents[end] == 33 {
            Ok(Rle { units })
        } else {
            Err(RleError::Parse)
        }
    }

    /// Returns the coordinates of the alive cells of the pattern, the origin
    /// at its northwest corner, in the order the pattern lists them.
    pub fn alive_cells(&self) -> (cells: Vec<(u32, u32)>)
        requires
            fits_from(self.units(), 0, 0),
        ensures
            cells@.len() == cells_from(self.units(), 0, 0).len(),
            forall|i: int|
                0 <= i < cells@.len() ==> #[trigger] cells@[i].0 == cells_from(self.units(), 0, 0)[i].0
                    && cells@[i].1 == cells_from(self.units(), 0, 0)[i].1,
    {
        let mut cells: Vec<(u32, u32)> = Vec::new();
        let mut x: u32 = 0;
        let mut y: u32 = 0;
        let mut i: usize = 0;
        let ghost all = self.units@;
        proof {
            assert(all.subrange(0, all.len() as int) == all);
        }
        while i < self.units.len()
            invariant
                i <= all.len(),
                all == self.units@,
                fits_from(all.subrange(i as int, all.len() as int), x as int, y as int),
                cells@.len() + cells_from(all.subrange(i as int, all.len() as int), x as int, y as int).len()
                    == cells_from(all, 0, 0).len(),
                forall|k: int|
                    0 <= k < cells@.len() ==> #[trigger] cells@[k].0 == cells_from(all, 0, 0)[k].0
                        && cells@[k].1 == cells_from(all, 0, 0)[k].1,
                forall|k: int|
                    0 <= k < cells_from(all.subrange(i as int, all.len() as int), x as int, y as int).len()
                        ==> #[trigger] cells_from(all.subrange(i as int, all.len() as int), x as int, y as int)[k]
                        == cells_from(all, 0, 0)[cells@.len() + k],
            decreases all.len() - i,
        {
            let unit = self.units[i];
            let ghost rest = all.subrange(i + 1, all.len() as int);
            proof {
                assert(all.subrange(i as int, all.len() as int).drop_first() == rest);
                assert(all.subrange(i as int, all.len() as int)[0] == unit);
            }
            if unit.tag == 'b' {
                x = x + unit.reps;
            } else if unit.tag == 'o' {
                let ghost before = cells@.len();
                let ghost x0 = x as int;
                proof {
                    lemma_cells_alive_unit(all.subrange(i as int, all.len() as int), x0, y as int);
                }
                let mut n: u32 = 0;
                while n < unit.reps
                    invariant
                        n <= unit.reps,
                        x == x0 + n,
                        x0 + unit.reps <= u32::MAX,
                        cells@.len() == before + n,
                        forall|k: int|
                            0 <= k < cells@.len() ==> #[trigger] cells@[k].0 == cells_from(all, 0, 0)[k].0
                                && cells@[k].1 == cells_from(all, 0, 0)[k].1,
                        forall|k: int|
                            0 <= k < cells_from(all.subrange(i as int, all.len() as int), x0, y as int).len()
                                ==> #[trigger] cells_from(all.subrange(i as int, all.len() as int), x0, y as int)[k]
                                == cells_from(all, 0, 0)[before + k],
                        cells_from(all.subrange(i as int, all.len() as int), x0, y as int).len() == unit.reps
                            + cells_from(rest, x0 + unit.reps, y as int).len(),
                        forall|k: int| 0 <= k < unit.reps ==> #[trigger] cells_from(all.subrange(i as int, all.len() as int), x0, y as int)[k] == (x0 + k, y as int),
                        forall|k: int| 0 <= k < cells_from(rest, x0 + unit.reps, y as int).len() ==> #[trigger] cells_from(rest, x0 + unit.reps, y as int)[k] == cells_from(all.subrange(i as int, all.len() as int), x0, y as int)[unit.reps + k],
                    decreases unit.reps - n,
                {
                    proof {
                        assert(cells_from(all.subrange(i as int, all.len() as int), x0, y as int)[n as int] == (
                            x0 + n,
                            y as int,
                        ));
                    }
                    cells.push((x, y));
                    x = x + 1;
                    n = n + 1;
                }
                proof {
                    assert forall|k: int| 0 <= k < cells_from(rest, x as int, y as int).len() implies #[trigger] cells_from(
                        rest,
                        x as int,
                        y as int,
                    )[k] == cells_from(all, 0, 0)[cells@.len() + k] by {
                        assert(cells_from(all.subrange(i as int, all.len() as int), x0, y as int)[unit.reps + k]
                            == cells_from(rest, x as int, y as int)[k]);
                    }
                }
            } else {
                x = 0;
                y = y + unit.reps;
            }
            i = i + 1;
        }
        cells
    }
}

impl Rle {
    /// Whether reading the pattern keeps every coordinate within a `u32`,
    /// as `alive_cells` needs.
    pub fn fits(&self) -> (ok: bool)
        ensures
            ok == fits_from(self.units(), 0, 0),
    {
        let ghost all = self.units@;
        let mut x: u64 = 0;
        let mut y: u64 = 0;
        let mut i: usize = 0;
        proof {
            assert(all.subrange(0, all.len() as int) == all);
        }
        while i < self.units.len()
            invariant
                i <= all.len(),
                all == self.units@,
                x <= u32::MAX,
                y <= u32::MAX,
                fits_from(all, 0, 0) == fits_from(all.subrange(i as int, all.len() as int), x as int, y as int),
            decreases all.len() - i,
        {
            let unit = self.units[i];
            proof {
                assert(all.subrange(i as int, all.len() as int).drop_first() == all.subrange(i + 1, all.len() as int));
                assert(all.subrange(i as int, all.len() as int)[0] == unit);
            }
            if unit.tag == 'b' || unit.tag == 'o' {
                if x + unit.reps as u64 > u32::MAX as u64 {
                    return false;
                }
                x = x + unit.reps as u64;
            } else {
                if y + unit.reps as u64 > u32::MAX as u64 {
                    return false;
                }
                x = 0;
                y = y + unit.reps as u64;
            }
            i = i + 1;
        }
        true
    }
}

} // verus!
