//! From the text of a puzzle to the text of its solution.
//!
//! The text holds, on its first line, the number of numbered tiles; on its
//! second line the goal selector of the blank; and then, on as many lines as
//! the board has rows, the tiles, separated by white space.

use crate::grid::{unsolvable, Board, Direction, Grid};
use crate::ids::{find_solution, path_view, search};
use crate::text::{decimal, push_decimal};
use vstd::prelude::*;
use vstd::string::*;

verus! {

/// Whether the byte is white space.
pub open spec fn is_space(c: u8) -> bool {
    c == 32 || (9 <= c && c <= 13)
}

/// Whether the byte is a decimal digit.
pub open spec fn is_digit(c: u8) -> bool {
    48 <= c && c <= 57
}

/// The end of the line that starts at `i`: the place of the next line feed,
/// or the end of the text.
pub open spec fn line_end(s: Seq<u8>, i: int) -> int
    decreases s.len() - i,
{
    if i < 0 || i >= s.len() {
        s.len() as int
    } else if s[i] == 10 {
        i
    } else {
        line_end(s, i + 1)
    }
}

/// The first place from `i` on, before `end`, that holds no white space;
/// `end` when there is none.
pub open spec fn skip_spaces(s: Seq<u8>, i: int, end: int) -> int
    decreases end - i,
{
    if 0 <= i < end && is_space(s[i]) {
        skip_spaces(s, i + 1, end)
    } else {
        i
    }
}

/// The first place from `i` on, before `end`, that holds white space; `end`
/// when there is none.
pub open spec fn token_end(s: Seq<u8>, i: int, end: int) -> int
    decreases end - i,
{
    if 0 <= i < end && !is_space(s[i]) {
        token_end(s, i + 1, end)
    } else {
        i
    }
}

/// The number that a run of decimal digits stands for; an empty run stands
/// for zero.
pub open spec fn digits_acc(d: Seq<u8>) -> Option<nat>
    decreases d.len(),
{
    if d.len() == 0 {
        Some(0)
    } else {
        match digits_acc(d.drop_last()) {
            Some(v) => if is_digit(d.last()) {
                Some(v * 10 + (d.last() - 48) as nat)
            } else {
                None
            },
            None => None,
        }
    }
}

/// The number that a run of one or more decimal digits stands for.
pub open spec fn magnitude(d: Seq<u8>) -> Option<nat> {
    if d.len() == 0 {
        None
    } else {
        digits_acc(d)
    }
}

/// The number that a word stands for when no minus sign is allowed: digits,
/// or a plus sign and digits.
pub open spec fn unsigned_number(word: Seq<u8>) -> Option<int> {
    let m = if word.len() > 0 && word[0] == 43 {
        magnitude(word.skip(1))
    } else {
        magnitude(word)
    };
    match m {
        Some(v) => Some(v as int),
        None => None,
    }
}

/// The number that a word stands for: digits, or a sign and digits.
pub open spec fn signed_number(word: Seq<u8>) -> Option<int> {
    if word.len() > 0 && word[0] == 45 {
        match magnitude(word.skip(1)) {
            Some(v) => Some(-(v as int)),
            None => None,
        }
    } else {
        unsigned_number(word)
    }
}

/// The one word on the line from `start` to `end`, without the white space
/// around it. A line without a word has the empty word; a line with two
/// words has none.
pub open spec fn line_word(s: Seq<u8>, start: int, end: int) -> Option<Seq<u8>> {
    let a = skip_spaces(s, start, end);
    let b = token_end(s, a, end);
    if skip_spaces(s, b, end) == end {
        Some(s.subrange(a, b))
    } else {
        None
    }
}

/// The least edge length, from `edge` on, of a board with room for `count`
/// tiles. No board has more than 16 rows.
pub open spec fn edge_from(count: nat, edge: nat) -> nat
    decreases 16 - edge,
{
    if edge >= 16 || edge * edge >= count {
        edge
    } else {
        edge_from(count, edge + 1)
    }
}

/// The end of the `k` lines that start at `pos`, if the text has that many.
pub open spec fn lines_end(s: Seq<u8>, pos: int, k: nat) -> Option<int>
    decreases k,
{
    if k == 0 {
        Some(pos)
    } else if pos >= s.len() {
        None
    } else if k == 1 {
        Some(line_end(s, pos))
    } else {
        lines_end(s, line_end(s, pos) + 1, (k - 1) as nat)
    }
}

/// The tiles that the words from `i` to `end` stand for, if each of them is
/// a number that fits in a byte.
pub open spec fn tiles_from(s: Seq<u8>, i: int, end: int) -> Option<Seq<u8>>
    decreases end - i,
    when 0 <= i
    via tiles_from_decreases
{
    let a = skip_spaces(s, i, end);
    let b = token_end(s, a, end);
    if a >= end {
        Some(Seq::empty())
    } else {
        match (unsigned_number(s.subrange(a, b)), tiles_from(s, b, end)) {
            (Some(v), Some(rest)) => if v <= 255 {
                Some(seq![v as u8] + rest)
            } else {
                None
            },
            _ => None,
        }
    }
}

#[via_fn]
proof fn tiles_from_decreases(s: Seq<u8>, i: int, end: int) {
    lemma_skip_spaces(s, i, end);
    lemma_token_end(s, skip_spaces(s, i, end), end);
}

/// White space is skipped forwards, and up to a byte that is none.
pub proof fn lemma_skip_spaces(s: Seq<u8>, i: int, end: int)
    ensures
        i <= skip_spaces(s, i, end),
        i <= end ==> skip_spaces(s, i, end) <= end,
        0 <= i && skip_spaces(s, i, end) < end ==> !is_space(s[skip_spaces(s, i, end)]),
    decreases end - i,
{
    if 0 <= i < end && is_space(s[i]) {
        lemma_skip_spaces(s, i + 1, end);
    }
}

/// A word ends after its first byte, and not after `end`.
pub proof fn lemma_token_end(s: Seq<u8>, i: int, end: int)
    ensures
        i <= token_end(s, i, end),
        i <= end ==> token_end(s, i, end) <= end,
        0 <= i < end && !is_space(s[i]) ==> i < token_end(s, i, end),
    decreases end - i,
{
    if 0 <= i < end && !is_space(s[i]) {
        lemma_token_end(s, i + 1, end);
    }
}

/// The number of rows of the board that the first line announces: the
/// least edge length of a board with room for the number of tiles that the
/// line gives.
pub open spec fn announced_rows(s: Seq<u8>) -> Option<nat> {
    if s.len() == 0 {
        None
    } else {
        match line_word(s, 0, line_end(s, 0)) {
            Some(w) => match unsigned_number(w) {
                Some(count) => if count <= 255 {
                    Some(edge_from(count as nat, 0))
                } else {
                    None
                },
                None => None,
            },
            None => None,
        }
    }
}

/// What the first two lines say: the number of numbered tiles, the goal
/// selector of the blank, and the place where the third line starts.
pub open spec fn header(s: Seq<u8>) -> Option<(nat, int, int)> {
    let e1 = line_end(s, 0);
    let e2 = line_end(s, e1 + 1);
    if s.len() == 0 || e1 + 1 >= s.len() {
        None
    } else {
        match (line_word(s, 0, e1), line_word(s, e1 + 1, e2)) {
            (Some(w1), Some(w2)) => match (unsigned_number(w1), signed_number(w2)) {
                (Some(count), Some(goal)) => if count <= 255 && -128 <= goal <= 127 {
                    Some((count as nat, goal, e2 + 1))
                } else {
                    None
                },
                _ => None,
            },
            _ => None,
        }
    }
}

/// The board that the text describes, valid or not, if the text has the
/// form of a puzzle.
pub open spec fn parse(s: Seq<u8>) -> Option<Board> {
    match header(s) {
        Some((count, goal, body)) => {
            let side = edge_from(count, 0);
            match lines_end(s, body, side) {
                Some(end) => match tiles_from(s, body, end) {
                    Some(tiles) => Some(Board::make(tiles, side, goal)),
                    None => None,
                },
                None => None,
            }
        },
        None => None,
    }
}

/// A number read as far as its prefix is a number that is not larger.
pub proof fn lemma_digits_prefix(d: Seq<u8>, k: int)
    requires
        digits_acc(d) is Some,
        0 <= k <= d.len(),
    ensures
        digits_acc(d.subrange(0, k)) is Some,
        digits_acc(d.subrange(0, k))->0 <= digits_acc(d)->0,
    decreases d.len(),
{
    if k == d.len() {
        assert(d.subrange(0, k) == d);
    } else {
        lemma_digits_prefix(d.drop_last(), k);
        assert(d.drop_last().subrange(0, k) == d.subrange(0, k));
    }
}

fn find_line_end(s: &[u8], i: usize) -> (r: usize)
    requires
        i <= s@.len(),
    ensures
        r == line_end(s@, i as int),
        i <= r <= s@.len(),
{
    let mut j = i;
    while j < s.len() && s[j] != 10
        invariant
            i <= j <= s@.len(),
            line_end(s@, j as int) == line_end(s@, i as int),
        decreases s@.len() - j,
    {
        j = j + 1;
    }
    j
}

fn skip_white(s: &[u8], i: usize, end: usize) -> (r: usize)
    requires
        i <= end <= s@.len(),
    ensures
        r == skip_spaces(s@, i as int, end as int),
        i <= r <= end,
        r < end ==> !is_space(s@[r as int]),
{
    let mut j = i;
    while j < end && (s[j] == 32 || (9 <= s[j] && s[j] <= 13))
        invariant
            i <= j <= end,
            end <= s@.len(),
            skip_spaces(s@, j as int, end as int) == skip_spaces(s@, i as int, end as int),
        decreases end - j,
    {
        j = j + 1;
    }
    j
}

fn find_word_end(s: &[u8], i: usize, end: usize) -> (r: usize)
    requires
        i <= end <= s@.len(),
    ensures
        r == token_end(s@, i as int, end as int),
        i <= r <= end,
        i < end && !is_space(s@[i as int]) ==> i < r,
{
    let mut j = i;
    while j < end && !(s[j] == 32 || (9 <= s[j] && s[j] <= 13))
        invariant
            i <= j <= end,
            end <= s@.len(),
            token_end(s@, j as int, end as int) == token_end(s@, i as int, end as int),
            i < end && !is_space(s@[i as int]) && j == i ==> !is_space(s@[j as int]),
        decreases end - j,
    {
        j = j + 1;
    }
    j
}

/// The number that the digits from `a` to `b` stand for, if there is a
/// digit, there are only digits, and the number is at most `limit`.
fn read_magnitude(s: &[u8], a: usize, b: usize, limit: u32) -> (r: Option<u32>)
    requires
        a <= b <= s@.len(),
        limit <= 1000,
    ensures
        r is Some <==> magnitude(s@.subrange(a as int, b as int)) is Some && magnitude(
            s@.subrange(a as int, b as int),
        )->0 <= limit,
        r matches Some(v) ==> v == magnitude(s@.subrange(a as int, b as int))->0,
{
    let ghost d = s@.subrange(a as int, b as int);
    if a == b {
        return None;
    }
    let mut v: u32 = 0;
    let mut i = a;
    while i < b
        invariant
            a <= i <= b,
            b <= s@.len(),
            limit <= 1000,
            d == s@.subrange(a as int, b as int),
            digits_acc(d.subrange(0, i - a)) == Some(v as nat),
            v <= limit,
        decreases b - i,
    {
        let c = s[i];
        proof {
            assert(d.subrange(0, i + 1 - a).drop_last() == d.subrange(0, i - a));
            assert(d.subrange(0, i + 1 - a).last() == c);
            if digits_acc(d) is Some {
                lemma_digits_prefix(d, i + 1 - a);
            }
        }
        if c < 48 || c > 57 {
            return None;
        }
        v = v * 10 + (c - 48) as u32;
        if v > limit {
            return None;
        }
        i = i + 1;
    }
    assert(d.subrange(0, b - a) == d);
    Some(v)
}

/// The number that the word from `a` to `b` stands for when no minus sign
/// is allowed, if it is at most 255.
fn read_unsigned(s: &[u8], a: usize, b: usize) -> (r: Option<u8>)
    requires
        a <= b <= s@.len(),
    ensures
        r is Some <==> unsigned_number(s@.subrange(a as int, b as int)) is Some && unsigned_number(
            s@.subrange(a as int, b as int),
        )->0 <= 255,
        r matches Some(v) ==> v == unsigned_number(s@.subrange(a as int, b as int))->0,
{
    let ghost word = s@.subrange(a as int, b as int);
    let from = if a < b && s[a] == 43 {
        assert(word.skip(1) == s@.subrange(a + 1, b as int));
        a + 1
    } else {
        a
    };
    match read_magnitude(s, from, b, 255) {
        Some(v) => Some(v as u8),
        None => None,
    }
}

/// The number that the word from `a` to `b` stands for, if it lies between
/// -128 and 127.
fn read_signed(s: &[u8], a: usize, b: usize) -> (r: Option<i8>)
    requires
        a <= b <= s@.len(),
    ensures
        r is Some <==> signed_number(s@.subrange(a as int, b as int)) is Some && -128 <= signed_number(
            s@.subrange(a as int, b as int),
        )->0 <= 127,
        r matches Some(v) ==> v == signed_number(s@.subrange(a as int, b as int))->0,
{
    let ghost word = s@.subrange(a as int, b as int);
    if a < b && s[a] == 45 {
        assert(word.skip(1) == s@.subrange(a + 1, b as int));
        match read_magnitude(s, a + 1, b, 128) {
            Some(v) => Some((0 - v as i16) as i8),
            None => None,
        }
    } else {
        let from = if a < b && s[a] == 43 {
            assert(word.skip(1) == s@.subrange(a + 1, b as int));
            a + 1
        } else {
            a
        };
        match read_magnitude(s, from, b, 127) {
            Some(v) => Some(v as i8),
            None => None,
        }
    }
}

/// The bounds of the one word on the line from `start` to `end`.
fn read_line_word(s: &[u8], start: usize, end: usize) -> (r: Option<(usize, usize)>)
    requires
        start <= end <= s@.len(),
    ensures
        r is Some <==> line_word(s@, start as int, end as int) is Some,
        r matches Some((a, b)) ==> a <= b <= end && line_word(s@, start as int, end as int) == Some(
            s@.subrange(a as int, b as int),
        ),
{
    let a = skip_white(s, start, end);
    let b = find_word_end(s, a, end);
    let c = skip_white(s, b, end);
    if c == end {
        Some((a, b))
    } else {
        None
    }
}

/// The least edge length of a board with room for `count` tiles.
fn edge_for(count: u8) -> (r: u8)
    ensures
        r == edge_from(count as nat, 0),
        r <= 16,
{
    let mut side: u8 = 0;
    let mut square: u16 = 0;
    while side < 16 && square < count as u16
        invariant
            side <= 16,
            square == side * side,
            edge_from(count as nat, side as nat) == edge_from(count as nat, 0),
        decreases 16 - side,
    {
        proof {
            assert((side + 1) * (side + 1) == side * side + 2 * side + 1) by (nonlinear_arith);
        }
        square = square + 2 * (side as u16) + 1;
        side = side + 1;
    }
    side
}

/// The end of the `k` lines that start at `pos`, if the text has that many.
fn find_lines_end(s: &[u8], pos: usize, k: u8) -> (r: Option<usize>)
    requires
        pos <= s@.len(),
        k >= 1,
    ensures
        r is Some <==> lines_end(s@, pos as int, k as nat) is Some,
        r matches Some(e) ==> pos <= e <= s@.len() && lines_end(s@, pos as int, k as nat) == Some(e as int),
{
    let n = s.len();
    let mut from = pos;
    let mut left = k;
    loop
        invariant
            n == s@.len(),
            from <= n,
            pos <= from,
            1 <= left <= k,
            lines_end(s@, from as int, left as nat) == lines_end(s@, pos as int, k as nat),
        decreases left,
    {
        if from >= n {
            return None;
        }
        let end = find_line_end(s, from);
        if left == 1 {
            return Some(end);
        }
        if end >= n {
            assert(lines_end(s@, end + 1, (left - 1) as nat) is None);
            return None;
        }
        from = end + 1;
        left = left - 1;
    }
}

/// The tiles that the words from `start` to `end` stand for.
fn read_tiles(s: &[u8], start: usize, end: usize) -> (r: Option<Vec<u8>>)
    requires
        start <= end <= s@.len(),
    ensures
        r is Some <==> tiles_from(s@, start as int, end as int) is Some,
        r matches Some(tiles) ==> tiles_from(s@, start as int, end as int) == Some(tiles@),
{
    let mut tiles: Vec<u8> = Vec::new();
    let mut i = start;
    loop
        invariant
            start <= i <= end,
            end <= s@.len(),
            tiles_from(s@, start as int, end as int) == match tiles_from(s@, i as int, end as int) {
                Some(rest) => Some(tiles@ + rest),
                None => None,
            },
        decreases end - i,
    {
        let a = skip_white(s, i, end);
        if a >= end {
            assert(tiles@ + Seq::<u8>::empty() == tiles@);
            return Some(tiles);
        }
        let b = find_word_end(s, a, end);
        let ghost before = tiles@;
        match read_unsigned(s, a, b) {
            Some(v) => {
                tiles.push(v);
            },
            None => {
                return None;
            },
        }
        proof {
            match tiles_from(s@, b as int, end as int) {
                Some(rest) => {
                    assert(before + (seq![tiles@.last()] + rest) == tiles@ + rest);
                },
                None => {},
            }
        }
        i = b;
    }
}

/// What a puzzle comes to.
#[derive(Debug)]
pub enum Outcome {
    /// The input does not describe a valid board.
    InvalidBoard,
    /// The parity test shows that the goal cannot be reached.
    Unsolvable,
    /// The search reached the ceiling of its limits without a result.
    SearchAbandoned,
    /// The moves that lead to the goal, from the first to the last.
    Solved(Vec<Direction>),
}

/// Mathematical model of an `Outcome`.
pub enum Ending {
    /// The input does not describe a valid board.
    InvalidBoard,
    /// The parity test shows that the goal cannot be reached.
    Unsolvable,
    /// The search reached the ceiling of its limits without a result.
    SearchAbandoned,
    /// The labels of the moves that lead to the goal, from the first to the
    /// last.
    Solved(Seq<Direction>),
}

impl View for Outcome {
    type V = Ending;

    open spec fn view(&self) -> Ending {
        match self {
            Outcome::InvalidBoard => Ending::InvalidBoard,
            Outcome::Unsolvable => Ending::Unsolvable,
            Outcome::SearchAbandoned => Ending::SearchAbandoned,
            Outcome::Solved(moves) => Ending::Solved(moves@),
        }
    }
}

/// The labels of the moves of a path.
pub open spec fn moves_of(path: Seq<(Direction, Board)>) -> Seq<Direction> {
    path.map_values(|l: (Direction, Board)| l.0)
}

/// What a valid board comes to: nothing is searched when the parity test
/// shows that the goal cannot be reached.
pub open spec fn board_outcome(b: Board) -> Ending {
    if unsolvable(b.tiles, b.side) {
        Ending::Unsolvable
    } else {
        match search(b) {
            Some(path) => Ending::Solved(moves_of(path)),
            None => Ending::SearchAbandoned,
        }
    }
}

/// What a text comes to.
pub open spec fn text_outcome(text: Seq<u8>) -> Ending {
    match parse(text) {
        Some(b) => if b.valid() {
            board_outcome(b)
        } else {
            Ending::InvalidBoard
        },
        None => Ending::InvalidBoard,
    }
}

/// The names of the moves, each on a line of its own.
pub open spec fn move_lines(moves: Seq<Direction>) -> Seq<char>
    decreases moves.len(),
{
    if moves.len() == 0 {
        Seq::empty()
    } else if moves.len() == 1 {
        moves[0].name()
    } else {
        move_lines(moves.drop_last()) + "\n"@ + moves.last().name()
    }
}

/// The text of an ending: for a solution the number of moves on the first
/// line and then the names of the moves, each on a line of its own.
pub open spec fn render(v: Ending) -> Seq<char> {
    match v {
        Ending::InvalidBoard => "Invalid board"@,
        Ending::Unsolvable => "No solution"@,
        Ending::SearchAbandoned => "Search abandoned"@,
        Ending::Solved(moves) => decimal(moves.len()) + "\n"@ + move_lines(moves),
    }
}

impl Outcome {
    /// The text of the outcome.
    pub fn to_string(&self) -> (r: String)
        ensures
            r@ == render(self@),
    {
        match self {
            Outcome::InvalidBoard => String::from_str("Invalid board"),
            Outcome::Unsolvable => String::from_str("No solution"),
            Outcome::SearchAbandoned => String::from_str("Search abandoned"),
            Outcome::Solved(moves) => {
                let mut out = String::new();
                push_decimal(&mut out, moves.len());
                out.append("\n");
                let ghost head = out@;
                let mut i: usize = 0;
                while i < moves.len()
                    invariant
                        i <= moves@.len(),
                        out@ == head + move_lines(moves@.subrange(0, i as int)),
                    decreases moves@.len() - i,
                {
                    let ghost so_far = moves@.subrange(0, i as int);
                    let ghost next = moves@.subrange(0, i + 1);
                    proof {
                        assert(next.drop_last() == so_far);
                        assert(next.last() == moves@[i as int]);
                    }
                    if i > 0 {
                        out.append("\n");
                    }
                    let name = moves[i].to_string();
                    out.append(name.as_str());
                    proof {
                        if i == 0 {
                            assert(move_lines(so_far) == Seq::<char>::empty());
                            assert(move_lines(next) == moves@[0].name());
                            assert(head + Seq::<char>::empty() + moves@[0].name() == head + moves@[0].name());
                        } else {
                            assert(head + move_lines(so_far) + "\n"@ + moves@[i as int].name() == head + (
                            move_lines(so_far) + "\n"@ + moves@[i as int].name()));
                        }
                    }
                    i = i + 1;
                }
                assert(moves@.subrange(0, moves@.len() as int) == moves@);
                out
            },
        }
    }
}

/// The solver of puzzles given as text.
pub struct Solver {}

impl Solver {
    /// The number of lines of tiles that follow the first two lines of a
    /// text that starts with `input`, if its first line gives a number of
    /// tiles.
    pub fn rows_announced(input: &str) -> (r: Option<u8>)
        ensures
            r is Some <==> announced_rows(input.spec_bytes()) is Some,
            r matches Some(rows) ==> rows == announced_rows(input.spec_bytes())->0,
    {
        let s = input.as_bytes();
        if s.len() == 0 {
            return None;
        }
        let e1 = find_line_end(s, 0);
        match read_line_word(s, 0, e1) {
            Some((a, b)) => match read_unsigned(s, a, b) {
                Some(count) => Some(edge_for(count)),
                None => None,
            },
            None => None,
        }
    }

    /// The state that the text describes, if the text has the form of a
    /// puzzle and its board is valid.
    pub fn input_to_grid(input: &str) -> (r: Option<Grid>)
        ensures
            r is Some <==> parse(input.spec_bytes()) is Some && parse(input.spec_bytes())->0.valid(),
            r matches Some(g) ==> g@ == parse(input.spec_bytes())->0,
    {
        let s = input.as_bytes();
        let n = s.len();
        if n == 0 {
            return None;
        }
        let e1 = find_line_end(s, 0);
        if e1 >= n - 1 {
            return None;
        }
        let e2 = find_line_end(s, e1 + 1);
        let count = match read_line_word(s, 0, e1) {
            Some((a, b)) => match read_unsigned(s, a, b) {
                Some(v) => v,
                None => {
                    return None;
                },
            },
            None => {
                return None;
            },
        };
        let zero_number = match read_line_word(s, e1 + 1, e2) {
            Some((a, b)) => match read_signed(s, a, b) {
                Some(v) => v,
                None => {
                    return None;
                },
            },
            None => {
                return None;
            },
        };
        let grid_side = edge_for(count);
        assert(header(s@) == Some((count as nat, zero_number as int, e2 + 1)));
        if grid_side == 0 || e2 >= n {
            proof {
                if grid_side != 0 {
                    assert(lines_end(s@, e2 + 1, grid_side as nat) is None);
                }
            }
            return None;
        }
        let end = match find_lines_end(s, e2 + 1, grid_side) {
            Some(end) => end,
            None => {
                return None;
            },
        };
        let tiles = match read_tiles(s, e2 + 1, end) {
            Some(tiles) => tiles,
            None => {
                return None;
            },
        };
        Grid::new(grid_side, zero_number, &tiles)
    }

    /// What a valid board comes to.
    pub fn solve_grid(starting_grid: Grid) -> (r: Outcome)
        requires
            starting_grid@.valid(),
        ensures
            r@ == board_outcome(starting_grid@),
    {
        if starting_grid.is_unsolvable() {
            return Outcome::Unsolvable;
        }
        match find_solution(starting_grid) {
            None => Outcome::SearchAbandoned,
            Some(path) => {
                let mut moves: Vec<Direction> = Vec::new();
                let mut i: usize = 0;
                while i < path.len()
                    invariant
                        i <= path@.len(),
                        moves@ == moves_of(path_view(path@)).subrange(0, i as int),
                    decreases path@.len() - i,
                {
                    moves.push(path[i].0);
                    i = i + 1;
                }
                assert(moves@ == moves_of(path_view(path@)));
                Outcome::Solved(moves)
            },
        }
    }

    /// What the text of a puzzle comes to.
    pub fn outcome(input: &str) -> (r: Outcome)
        ensures
            r@ == text_outcome(input.spec_bytes()),
    {
        match Solver::input_to_grid(input) {
            Some(starting_grid) => Solver::solve_grid(starting_grid),
            None => Outcome::InvalidBoard,
        }
    }

    /// The text of what the text of a puzzle comes to.
    pub fn solve(input: &str) -> (r: String)
        ensures
            r@ == render(text_outcome(input.spec_bytes())),
    {
        Solver::outcome(input).to_string()
    }
}

} // verus!
