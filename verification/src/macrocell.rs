//! Macrocell files: the nodes of a quadtree, one per line.
//!
//! A file starts with the line `[M2]...`, then one comment line starting
//! with `#`. Each following line is a node: either a level 3 node written
//! with `.` (dead), `*` (alive) and `$` (end of a row), or a node of a
//! higher level written as its level and the line numbers of its four
//! children, separated by whitespace.
//!
//! Input is read as a stream that may not be over: a token that reaches
//! the end of the input is not known to be complete, so the line it is on
//! is not read.

use vstd::prelude::*;

use crate::rle::{digits_value, is_digit, is_space, lemma_run_end_at, parse_decimal, run_end, skip_digits, skip_spaces};

verus! {

/// A line of a macrocell file.
#[derive(Debug)]
pub enum Cell {
    /// A level 3 node, as written.
    LevelThree {
        /// The characters `.`, `*` and `$` of the line.
        cells: Vec<char>,
    },
    /// A node of a higher level.
    Interior {
        /// The level of the node.
        level: u8,
        /// The line numbers of the northwest, northeast, southwest and
        /// southeast children.
        children: [usize; 4],
    },
}

/// The nodes of a macrocell file.
pub struct Macrocell {
    /// The lines of the file after its comment line.
    pub cells: Vec<Cell>,
}

/// Why a macrocell file could not be read.
#[derive(Clone, Copy, Debug, PartialEq, Eq, Structural)]
pub enum MacrocellError {
    /// The file does not start with the `[M2]` line and a comment line.
    Parse,
    /// A line is read without moving on: a carriage return that no line feed
    /// follows stands where a line ends.
    Stalled,
}

/// What a line of a macrocell file says.
pub enum Line {
    /// A level 3 node.
    LevelThree(Seq<char>),
    /// A node of a higher level and its four children.
    Interior(u8, usize, usize, usize, usize),
}

/// How reading a token from a position ends: at the position after it,
/// with a mismatch, or at the end of the input before the token is over.
pub enum Outcome {
    /// The token ends before this position.
    Done(int),
    /// The input does not match.
    Fail,
    /// The input ends before the token is known to be over.
    More,
}

/// The rest of the line from `i` on, up to a line feed or a carriage return
/// followed by a line feed.
pub open spec fn not_line_ending(s: Seq<u8>, i: int) -> Outcome {
    let j = run_end(s, i, |b: u8| b != 13 && b != 10);
    if j >= s.len() {
        Outcome::More
    } else if s[j] == 10 {
        Outcome::Done(j)
    } else if j + 1 >= s.len() {
        Outcome::More
    } else if s[j + 1] == 10 {
        Outcome::Done(j)
    } else {
        Outcome::Fail
    }
}

/// A line feed, or a carriage return and a line feed, at `i`.
pub open spec fn line_ending(s: Seq<u8>, i: int) -> Outcome {
    if i >= s.len() {
        Outcome::More
    } else if s[i] == 10 {
        Outcome::Done(i + 1)
    } else if s[i] != 13 {
        Outcome::Fail
    } else if i + 1 >= s.len() {
        Outcome::More
    } else if s[i + 1] == 10 {
        Outcome::Done(i + 2)
    } else {
        Outcome::Fail
    }
}

/// A token that may be missing: a mismatch reads nothing.
pub open spec fn optional(o: Outcome, i: int) -> Outcome {
    match o {
        Outcome::Fail => Outcome::Done(i),
        _ => o,
    }
}

/// The whitespace from `i` on.
pub open spec fn whitespace(s: Seq<u8>, i: int) -> Outcome {
    let j = run_end(s, i, |b: u8| is_space(b));
    if j >= s.len() {
        Outcome::More
    } else {
        Outcome::Done(j)
    }
}

/// The digits from `i` on, read as a number of at most `max`.
pub open spec fn number(s: Seq<u8>, i: int, max: int) -> Option<(int, int)> {
    let k = run_end(s, i, |b: u8| is_digit(b));
    if 0 <= i < k < s.len() && digits_value(s.subrange(i, k)) <= max {
        Some((digits_value(s.subrange(i, k)) as int, k))
    } else {
        None
    }
}

/// The position after the `[M2]` line, if the input starts with it.
pub open spec fn header_end(s: Seq<u8>) -> Option<int> {
    if s.len() >= 4 && s[0] == 91 && s[1] == 77 && s[2] == 50 && s[3] == 93 {
        match not_line_ending(s, 4) {
            Outcome::Done(j) => match line_ending(s, j) {
                Outcome::Done(k) => Some(k),
                _ => None,
            },
            _ => None,
        }
    } else {
        None
    }
}

/// The position after the comment line at `i`, if there is one: `#`, the
/// rest of the line, and its line break if one follows.
pub open spec fn comment_end(s: Seq<u8>, i: int) -> Option<int> {
    if 0 <= i < s.len() && s[i] == 35 {
        match not_line_ending(s, i + 1) {
            Outcome::Done(j) => match optional(line_ending(s, j), j) {
                Outcome::Done(k) => Some(k),
                _ => None,
            },
            _ => None,
        }
    } else {
        None
    }
}

/// The position after the end of a node's line at `p`: the rest of the line
/// and its line break, each if it is there.
pub open spec fn line_rest(s: Seq<u8>, p: int) -> Option<int> {
    match optional(not_line_ending(s, p), p) {
        Outcome::Done(j) => match optional(line_ending(s, j), j) {
            Outcome::Done(k) => Some(k),
            _ => None,
        },
        _ => None,
    }
}

/// Whether a byte writes a cell of a level 3 node: `.`, `*` or `$`.
pub open spec fn is_cell_char(b: u8) -> bool {
    b == 46 || b == 42 || b == 36
}

/// The character a byte writes.
pub open spec fn byte_char(b: u8) -> char {
    if b == 46 {
        '.'
    } else if b == 42 {
        '*'
    } else {
        '$'
    }
}

/// The number at `i` and the whitespace after it: the number and the
/// position after the whitespace.
pub open spec fn number_then_space(s: Seq<u8>, i: int, max: int) -> Option<(int, int)> {
    match number(s, i, max) {
        Some((n, k)) => match whitespace(s, k) {
            Outcome::Done(j) => Some((n, j)),
            _ => None,
        },
        None => None,
    }
}

/// The node of a level above 3 written at `i`, and the position after its
/// line.
pub open spec fn interior_at(s: Seq<u8>, i: int) -> Option<(Line, int)> {
    match number_then_space(s, i, u8::MAX as int) {
        Some((level, a)) => match number_then_space(s, a, usize::MAX as int) {
            Some((nw, b)) => match number_then_space(s, b, usize::MAX as int) {
                Some((ne, c)) => match number_then_space(s, c, usize::MAX as int) {
                    Some((sw, d)) => match number(s, d, usize::MAX as int) {
                        Some((se, e)) => match line_rest(s, e) {
                            Some(k) => Some(
                                (Line::Interior(level as u8, nw as usize, ne as usize, sw as usize, se as usize), k),
                            ),
                            None => None,
                        },
                        None => None,
                    },
                    None => None,
                },
                None => None,
            },
            None => None,
        },
        None => None,
    }
}

/// The level 3 node written at `i`, and the position after its line.
pub open spec fn level_three_at(s: Seq<u8>, i: int) -> Option<(Line, int)> {
    let p = run_end(s, i, |b: u8| is_cell_char(b));
    if 0 <= i && p < s.len() {
        match line_rest(s, p) {
            Some(k) => Some((Line::LevelThree(s.subrange(i, p).map_values(|b: u8| byte_char(b))), k)),
            None => None,
        }
    } else {
        None
    }
}

/// The node written at `i`, either kind, and the position after its line.
pub open spec fn line_at(s: Seq<u8>, i: int) -> Option<(Line, int)> {
    match interior_at(s, i) {
        Some(r) => Some(r),
        None => level_three_at(s, i),
    }
}

/// The nodes read from `i` on, the position after the last of them, and
/// whether reading stopped at a line read without moving on.
pub open spec fn lines_from(s: Seq<u8>, i: int) -> (Seq<Line>, int, bool)
    decreases s.len() - i,
{
    match line_at(s, i) {
        Some((l, j)) => if i < j <= s.len() {
            let (rest, end, stalled) = lines_from(s, j);
            (seq![l].add(rest), end, stalled)
        } else {
            (Seq::empty(), i, true)
        },
        None => (Seq::empty(), i, false),
    }
}

/// The position where the nodes of a macrocell file start, if it starts
/// with the `[M2]` line and a comment line.
pub open spec fn body_start(s: Seq<u8>) -> Option<int> {
    match header_end(s) {
        Some(h) => comment_end(s, h),
        None => None,
    }
}

/// What a line of the file says.
pub open spec fn line_of(c: Cell) -> Line {
    match c {
        Cell::LevelThree { cells } => Line::LevelThree(cells@),
        Cell::Interior { level, children } => Line::Interior(
            level,
            children@[0],
            children@[1],
            children@[2],
            children@[3],
        ),
    }
}

/// Whether the bytes from `i` up to `k` are at least one decimal digit.
pub open spec fn digits_between(s: Seq<u8>, i: int, k: int) -> bool {
    &&& 0 <= i < k <= s.len()
    &&& forall|m: int| i <= m < k ==> is_digit(#[trigger] s[m])
}

/// The number written by digits from `i` on that end at `k`, and the space
/// after it, give the number and the position after the space.
proof fn lemma_number_space(s: Seq<u8>, i: int, k: int, max: int)
    requires
        digits_between(s, i, k),
        k + 1 < s.len(),
        s[k] == 32,
        is_digit(s[k + 1]),
        digits_value(s.subrange(i, k)) <= max,
    ensures
        number_then_space(s, i, max) == Some((digits_value(s.subrange(i, k)) as int, k + 1)),
{
    lemma_run_end_at(s, i, k, |b: u8| is_digit(b));
    lemma_run_end_at(s, k, k + 1, |b: u8| is_space(b));
}

/// A node line `L a b c d` of a level above 3: the level, then the line
/// numbers of the northwest, northeast, southwest and southeast children in
/// the order written, each number followed by one space but the last,
/// which ends the line. Reading it gives those five numbers in that order,
/// and goes on after the line feed.
pub proof fn lemma_interior_line(s: Seq<u8>, i: int, e0: int, e1: int, e2: int, e3: int, e4: int)
    requires
        digits_between(s, i, e0),
        digits_between(s, e0 + 1, e1),
        digits_between(s, e1 + 1, e2),
        digits_between(s, e2 + 1, e3),
        digits_between(s, e3 + 1, e4),
        e4 < s.len(),
        s[e0] == 32 && s[e1] == 32 && s[e2] == 32 && s[e3] == 32,
        s[e4] == 10,
        digits_value(s.subrange(i, e0)) <= u8::MAX,
        digits_value(s.subrange(e0 + 1, e1)) <= usize::MAX,
        digits_value(s.subrange(e1 + 1, e2)) <= usize::MAX,
        digits_value(s.subrange(e2 + 1, e3)) <= usize::MAX,
        digits_value(s.subrange(e3 + 1, e4)) <= usize::MAX,
    ensures
        line_at(s, i) == Some(
            (
                Line::Interior(
                    digits_value(s.subrange(i, e0)) as u8,
                    digits_value(s.subrange(e0 + 1, e1)) as usize,
                    digits_value(s.subrange(e1 + 1, e2)) as usize,
                    digits_value(s.subrange(e2 + 1, e3)) as usize,
                    digits_value(s.subrange(e3 + 1, e4)) as usize,
                ),
                e4 + 1,
            ),
        ),
        lines_from(s, i).0.len() >= 1,
        lines_from(s, i).0[0] == Line::Interior(
            digits_value(s.subrange(i, e0)) as u8,
            digits_value(s.subrange(e0 + 1, e1)) as usize,
            digits_value(s.subrange(e1 + 1, e2)) as usize,
            digits_value(s.subrange(e2 + 1, e3)) as usize,
            digits_value(s.subrange(e3 + 1, e4)) as usize,
        ),
{
    lemma_number_space(s, i, e0, u8::MAX as int);
    lemma_number_space(s, e0 + 1, e1, usize::MAX as int);
    lemma_number_space(s, e1 + 1, e2, usize::MAX as int);
    lemma_number_space(s, e2 + 1, e3, usize::MAX as int);
    lemma_run_end_at(s, e3 + 1, e4, |b: u8| is_digit(b));
    lemma_run_end_at(s, e4, e4, |b: u8| b != 13 && b != 10);
}

/// A node line of level 3, bytes `.`, `*` and `$` ending with a line feed:
/// reading it gives one character per byte in the order written, `.` for a
/// dead cell, `*` for an alive one and `$` for the end of a row, and goes on
/// after the line feed.
pub proof fn lemma_level_three_line(s: Seq<u8>, i: int, p: int)
    requires
        0 <= i <= p < s.len(),
        forall|m: int| i <= m < p ==> is_cell_char(#[trigger] s[m]),
        s[p] == 10,
    ensures
        line_at(s, i) matches Some((Line::LevelThree(chars), k)) && k == p + 1 && chars.len() == p - i && (forall|m: int|
            0 <= m < p - i ==> (#[trigger] chars[m] == '.' <==> s[i + m] == 46) && (chars[m] == '*' <==> s[i + m] == 42)
                && (chars[m] == '$' <==> s[i + m] == 36)),
{
    lemma_run_end_at(s, i, p, |b: u8| is_cell_char(b));
    lemma_run_end_at(s, p, p, |b: u8| b != 13 && b != 10);
    if i < p {
        assert(!is_digit(s[i]));
        lemma_run_end_at(s, i, i, |b: u8| is_digit(b));
    } else {
        lemma_run_end_at(s, i, i, |b: u8| is_digit(b));
    }
    assert(interior_at(s, i) is None);
    let chars = s.subrange(i, p).map_values(|b: u8| byte_char(b));
    assert forall|m: int| 0 <= m < p - i implies (#[trigger] chars[m] == '.' <==> s[i + m] == 46) && (chars[m] == '*'
        <==> s[i + m] == 42) && (chars[m] == '$' <==> s[i + m] == 36) by {
        assert(chars[m] == byte_char(s[i + m]));
        assert(is_cell_char(s[i + m]));
    }
}

/// The cell that a node line of a level above 3 gives lists the children
/// of the line in the order written: the line's second number is the
/// northwest child, its third the northeast, its fourth the southwest and
/// its fifth the southeast.
pub proof fn lemma_interior_children(c: Cell, level: u8, nw: usize, ne: usize, sw: usize, se: usize)
    requires
        line_of(c) == Line::Interior(level, nw, ne, sw, se),
    ensures
        c matches Cell::Interior { level: l, children } && l == level && children@ == seq![nw, ne, sw, se],
{
    match c {
        Cell::Interior { level: l, children } => {
            assert(children@ =~= seq![nw, ne, sw, se]);
        },
        Cell::LevelThree { cells } => {},
    }
}

/// The position after the rest of a node's line at `p`, as [`line_rest`]
/// says.
fn skip_line_rest(s: &[u8], p: usize) -> (r: Option<usize>)
    requires
        p <= s@.len(),
    ensures
        match r {
            Some(k) => line_rest(s@, p as int) == Some(k as int) && p <= k <= s@.len(),
            None => line_rest(s@, p as int) is None,
        },
{
    let mut j = p;
    while j < s.len() && s[j] != 13 && s[j] != 10
        invariant
            p <= j <= s@.len(),
            run_end(s@, p as int, |b: u8| b != 13 && b != 10) == run_end(s@, j as int, |b: u8| b != 13 && b != 10),
        decreases s@.len() - j,
    {
        j = j + 1;
    }
    let k = if j >= s.len() {
        return None;
    } else if s[j] == 10 {
        j
    } else if j + 1 >= s.len() {
        return None;
    } else if s[j + 1] == 10 {
        j
    } else {
        p
    };
    if k >= s.len() {
        None
    } else if s[k] == 10 {
        Some(k + 1)
    } else if s[k] != 13 {
        Some(k)
    } else if k + 1 >= s.len() {
        None
    } else if s[k + 1] == 10 {
        Some(k + 2)
    } else {
        Some(k)
    }
}

/// The number at `i`, as [`number`] says.
fn read_number(s: &[u8], i: usize, max: u64) -> (r: Option<(u64, usize)>)
    requires
        i <= s@.len(),
    ensures
        match r {
            Some((n, k)) => number(s@, i as int, max as int) == Some((n as int, k as int)) && i < k < s@.len(),
            None => number(s@, i as int, max as int) is None,
        },
{
    let k = skip_digits(s, i);
    if k == i || k >= s.len() {
        return None;
    }
    let digits = &s[i..k];
    proof {
        assert(digits@ == s@.subrange(i as int, k as int));
    }
    match parse_decimal(digits) {
        Ok(n) => if n <= max {
            Some((n, k))
        } else {
            None
        },
        Err(_) => None,
    }
}

/// The number at `i` and the whitespace after it, as [`number_then_space`]
/// says.
fn read_number_then_space(s: &[u8], i: usize, max: u64) -> (r: Option<(u64, usize)>)
    requires
        i <= s@.len(),
    ensures
        match r {
            Some((n, j)) => number_then_space(s@, i as int, max as int) == Some((n as int, j as int)) && i < j
                <= s@.len(),
            None => number_then_space(s@, i as int, max as int) is None,
        },
{
    match read_number(s, i, max) {
        Some((n, k)) => {
            let j = skip_spaces(s, k);
            if j >= s.len() {
                None
            } else {
                Some((n, j))
            }
        },
        None => None,
    }
}

/// The node of a level above 3 at `i`, as [`interior_at`] says.
fn read_interior(s: &[u8], i: usize) -> (r: Option<(Cell, usize)>)
    requires
        i <= s@.len(),
    ensures
        match r {
            Some((c, k)) => interior_at(s@, i as int) == Some((line_of(c), k as int)) && i < k <= s@.len(),
            None => interior_at(s@, i as int) is None,
        },
{
    let (level, a) = match read_number_then_space(s, i, 255) {
        Some(r) => r,
        None => return None,
    };
    let (nw, b) = match read_number_then_space(s, a, usize::MAX as u64) {
        Some(r) => r,
        None => return None,
    };
    let (ne, c) = match read_number_then_space(s, b, usize::MAX as u64) {
        Some(r) => r,
        None => return None,
    };
    let (sw, d) = match read_number_then_space(s, c, usize::MAX as u64) {
        Some(r) => r,
        None => return None,
    };
    let (se, e) = match read_number(s, d, usize::MAX as u64) {
        Some(r) => r,
        None => return None,
    };
    match skip_line_rest(s, e) {
        Some(k) => {
            let children: [usize; 4] = [nw as usize, ne as usize, sw as usize, se as usize];
            let cell = Cell::Interior { level: level as u8, children };
            proof {
                assert(children@[0] == nw && children@[1] == ne && children@[2] == sw && children@[3] == se);
            }
            Some((cell, k))
        },
        None => None,
    }
}

/// The level 3 node at `i`, as [`level_three_at`] says.
fn read_level_three(s: &[u8], i: usize) -> (r: Option<(Cell, usize)>)
    requires
        i <= s@.len(),
    ensures
        match r {
            Some((c, k)) => level_three_at(s@, i as int) == Some((line_of(c), k as int)) && i <= k <= s@.len(),
            None => level_three_at(s@, i as int) is None,
        },
{
    let mut chars: Vec<char> = Vec::new();
    let mut p = i;
    while p < s.len() && (s[p] == 46 || s[p] == 42 || s[p] == 36)
        invariant
            i <= p <= s@.len(),
            run_end(s@, i as int, |b: u8| is_cell_char(b)) == run_end(s@, p as int, |b: u8| is_cell_char(b)),
            chars@ == s@.subrange(i as int, p as int).map_values(|b: u8| byte_char(b)),
        decreases s@.len() - p,
    {
        let c = if s[p] == 46 {
            '.'
        } else if s[p] == 42 {
            '*'
        } else {
            '$'
        };
        let ghost before = chars@;
        chars.push(c);
        proof {
            assert(c == byte_char(s@[p as int]));
            assert(chars@ == before.push(c));
            assert(s@.subrange(i as int, p + 1) == s@.subrange(i as int, p as int).push(s@[p as int]));
            assert(s@.subrange(i as int, p + 1).map_values(|b: u8| byte_char(b)) =~= s@.subrange(
                i as int,
                p as int,
            ).map_values(|b: u8| byte_char(b)).push(byte_char(s@[p as int])));
        }
        p = p + 1;
    }
    if p >= s.len() {
        return None;
    }
    match skip_line_rest(s, p) {
        Some(k) => Some((Cell::LevelThree { cells: chars }, k)),
        None => None,
    }
}

/// Reads the nodes of a macrocell file: the `[M2]` line, one comment line,
/// then as many node lines as there are. Returns the position after the
/// last node read and the nodes.
pub fn macrocell(input: &[u8]) -> (r: Result<(usize, Vec<Cell>), MacrocellError>)
    ensures
        body_start(input@) is None ==> r == Err::<(usize, Vec<Cell>), MacrocellError>(MacrocellError::Parse),
        body_start(input@) matches Some(c) ==> {
            let (lines, end, stalled) = lines_from(input@, c);
            &&& stalled ==> r == Err::<(usize, Vec<Cell>), MacrocellError>(MacrocellError::Stalled)
            &&& !stalled ==> (r matches Ok((rest, cells)) && rest == end && cells@.map_values(|c: Cell| line_of(c))
                == lines)
        },
{
    let ghost s = input@;
    // The header line.
    if input.len() < 4 || input[0] != 91 || input[1] != 77 || input[2] != 50 || input[3] != 93 {
        return Err(MacrocellError::Parse);
    }
    let mut j: usize = 4;
    while j < input.len() && input[j] != 13 && input[j] != 10
        invariant
            4 <= j <= s.len(),
            s == input@,
            run_end(s, 4, |b: u8| b != 13 && b != 10) == run_end(s, j as int, |b: u8| b != 13 && b != 10),
        decreases s.len() - j,
    {
        j = j + 1;
    }
    let h = if j < input.len() && input[j] == 10 {
        j + 1
    } else if j < input.len() && input[j] == 13 && j + 1 < input.len() && input[j + 1] == 10 {
        j + 2
    } else {
        return Err(MacrocellError::Parse);
    };
    // The comment line.
    if h >= input.len() || input[h] != 35 {
        return Err(MacrocellError::Parse);
    }
    let mut m: usize = h + 1;
    while m < input.len() && input[m] != 13 && input[m] != 10
        invariant
            h + 1 <= m <= s.len(),
            s == input@,
            run_end(s, h + 1, |b: u8| b != 13 && b != 10) == run_end(s, m as int, |b: u8| b != 13 && b != 10),
        decreases s.len() - m,
    {
        m = m + 1;
    }
    if m >= input.len() || (input[m] == 13 && (m + 1 >= input.len() || input[m + 1] != 10)) {
        return Err(MacrocellError::Parse);
    }
    let start = if input[m] == 10 {
        m + 1
    } else {
        m + 2
    };
    proof {
        assert(header_end(s) == Some(h as int));
        assert(body_start(s) == Some(start as int));
    }
    // The nodes.
    let mut cells: Vec<Cell> = Vec::new();
    let mut i: usize = start;
    loop
        invariant_except_break
            start <= i <= s.len(),
            s == input@,
            body_start(s) == Some(start as int),
            lines_from(s, start as int) == (cells@.map_values(|c: Cell| line_of(c)) + lines_from(s, i as int).0, lines_from(
                s,
                i as int,
            ).1, lines_from(s, i as int).2),
        ensures
            start <= i <= s.len(),
            lines_from(s, start as int) == (cells@.map_values(|c: Cell| line_of(c)), i as int, false),
        decreases s.len() - i,
    {
        let ghost before = cells@;
        let next = match read_interior(input, i) {
            Some(r) => Some(r),
            None => read_level_three(input, i),
        };
        match next {
            Some((cell, k)) => {
                if k == i {
                    proof {
                        assert(lines_from(s, i as int) == (Seq::<Line>::empty(), i as int, true));
                        assert(cells@.map_values(|c: Cell| line_of(c)) + Seq::<Line>::empty() =~= cells@.map_values(|c: Cell| line_of(c)));
                    }
                    return Err(MacrocellError::Stalled);
                }
                let ghost l = line_of(cell);
                let ghost c0 = cell;
                cells.push(cell);
                proof {
                    assert(cells@ == before.push(c0));
                    let rest = lines_from(s, k as int);
                    assert(lines_from(s, i as int) == (seq![l].add(rest.0), rest.1, rest.2));
                    assert(cells@.map_values(|c: Cell| line_of(c)) =~= before.map_values(|c: Cell| line_of(c)).push(l));
                    assert(before.map_values(|c: Cell| line_of(c)).push(l) + rest.0 =~= before.map_values(|c: Cell| line_of(c)) + seq![l].add(rest.0));
                }
                i = k;
            },
            None => {
                proof {
                    assert(lines_from(s, i as int) == (Seq::<Line>::empty(), i as int, false));
                    assert(cells@.map_values(|c: Cell| line_of(c)) + Seq::<Line>::empty() =~= cells@.map_values(|c: Cell| line_of(c)));
                }
                break;
            },
        }
    }
    Ok((i, cells))
}

} // verus!
