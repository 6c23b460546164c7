//! Board states of the sliding-tile puzzle.

use crate::text::{decimal, push_decimal};
use vstd::arithmetic::div_mod::{lemma_fundamental_div_mod, lemma_fundamental_div_mod_converse, lemma_mod_bound};
use vstd::prelude::*;
use vstd::seq_lib::seq_to_set_is_finite;
use vstd::set_lib::{lemma_int_range, lemma_len_subset, lemma_map_size, set_int_range};
use vstd::std_specs::cmp::PartialEqSpecImpl;
use vstd::string::*;

verus! {

/// The direction in which the tile that fills the blank travels.
#[derive(Debug, Clone, Copy, PartialEq, Eq, Structural)]
pub enum Direction {
    Up,
    Right,
    Down,
    Left,
}

impl Direction {
    /// The lower-case name of the direction.
    pub open spec fn name(self) -> Seq<char> {
        match self {
            Direction::Up => "up"@,
            Direction::Right => "right"@,
            Direction::Down => "down"@,
            Direction::Left => "left"@,
        }
    }

    /// The direction in which a tile travels when the move labelled `self`
    /// is taken back.
    pub open spec fn opposite(self) -> Direction {
        match self {
            Direction::Up => Direction::Down,
            Direction::Right => Direction::Left,
            Direction::Down => Direction::Up,
            Direction::Left => Direction::Right,
        }
    }

    /// The lower-case name of the direction.
    pub fn to_string(&self) -> (r: String)
        ensures
            r@ == self.name(),
    {
        match self {
            Direction::Up => String::from_str("up"),
            Direction::Right => String::from_str("right"),
            Direction::Down => String::from_str("down"),
            Direction::Left => String::from_str("left"),
        }
    }

    /// The label of the move that takes the move labelled `self` back.
    pub fn reversed(&self) -> (r: Direction)
        ensures
            r == self.opposite(),
    {
        match self {
            Direction::Up => Direction::Down,
            Direction::Right => Direction::Left,
            Direction::Down => Direction::Up,
            Direction::Left => Direction::Right,
        }
    }
}

/// Distance between two coordinates on one axis.
pub open spec fn gap(a: int, b: int) -> nat {
    if a >= b {
        (a - b) as nat
    } else {
        (b - a) as nat
    }
}

/// Mathematical model of a board: the tiles in row-major order, the edge
/// length, and the selector of the blank's goal cell.
pub struct Board {
    pub tiles: Seq<u8>,
    pub side: nat,
    pub blank_goal: int,
}

impl Board {
    /// The board with these tiles, edge length and goal selector.
    pub open spec fn make(tiles: Seq<u8>, side: nat, blank_goal: int) -> Board {
        Board { tiles, side, blank_goal }
    }

    /// A board is valid when its tiles are a permutation of `0..side*side`
    /// (so exactly one cell is blank) and the blank's goal selector is either
    /// positive or negative. Tiles are bytes, so the edge is at most 16.
    pub open spec fn valid(self) -> bool {
        &&& 1 <= self.side <= 16
        &&& self.tiles.len() == self.side * self.side
        &&& forall|i: int| 0 <= i < self.tiles.len() ==> (#[trigger] self.tiles[i]) < self.tiles.len()
        &&& forall|i: int, j: int|
            0 <= i < j < self.tiles.len() ==> #[trigger] self.tiles[i] != #[trigger] self.tiles[j]
        &&& exists|i: int| 0 <= i < self.tiles.len() && #[trigger] self.tiles[i] == 0
        &&& self.blank_goal != 0
        &&& -128 <= self.blank_goal <= 127
    }

    /// Linear index of the blank.
    pub open spec fn blank_index(self) -> int {
        choose|i: int| 0 <= i < self.tiles.len() && #[trigger] self.tiles[i] == 0
    }

    /// Column of the blank.
    pub open spec fn blank_x(self) -> int {
        self.blank_index() % (self.side as int)
    }

    /// Row of the blank.
    pub open spec fn blank_y(self) -> int {
        self.blank_index() / (self.side as int)
    }

    /// Linear index of the cell in column `x` of row `y`.
    pub open spec fn cell(self, x: int, y: int) -> int {
        y * self.side + x
    }

    /// The board with the contents of cells `i` and `j` exchanged.
    pub open spec fn swapped(self, i: int, j: int) -> Board {
        Board {
            tiles: self.tiles.update(i, self.tiles[j]).update(j, self.tiles[i]),
            side: self.side,
            blank_goal: self.blank_goal,
        }
    }

    /// The board after the tile next to the blank travels in direction `d`
    /// into the blank, if there is such a tile.
    pub open spec fn slide(self, d: Direction) -> Option<Board> {
        let b = self.blank_index();
        match d {
            Direction::Right => if self.blank_x() > 0 {
                Some(self.swapped(b, b - 1))
            } else {
                None
            },
            Direction::Left => if self.blank_x() < self.side - 1 {
                Some(self.swapped(b, b + 1))
            } else {
                None
            },
            Direction::Down => if self.blank_y() > 0 {
                Some(self.swapped(b, b - self.side))
            } else {
                None
            },
            Direction::Up => if self.blank_y() < self.side - 1 {
                Some(self.swapped(b, b + self.side))
            } else {
                None
            },
        }
    }

    /// `acc` followed by the result of sliding in direction `d`, if any.
    pub open spec fn emit(self, acc: Seq<(Board, Direction)>, d: Direction) -> Seq<(Board, Direction)> {
        match self.slide(d) {
            Some(b) => acc.push((b, d)),
            None => acc,
        }
    }

    /// The adjacent boards with their move labels, in the order in which
    /// they are tried: right, left, down, up.
    pub open spec fn neighbors(self) -> Seq<(Board, Direction)> {
        self.emit(
            self.emit(self.emit(self.emit(Seq::empty(), Direction::Right), Direction::Left), Direction::Down),
            Direction::Up,
        )
    }

    /// Matrix position assigned to a linear position by the distance measure.
    pub open spec fn matrix_pos(self, pos: int) -> (int, int) {
        (pos / (self.side as int), pos % (self.side as int))
    }

    /// Linear index at which `value` sits in the goal configuration.
    pub open spec fn expected_index(self, value: u8) -> int {
        if value == 0 {
            if self.blank_goal >= 0 {
                self.blank_goal - 1
            } else {
                self.tiles.len() - 1
            }
        } else {
            value - 1
        }
    }

    /// Matrix position at which `value` sits in the goal configuration.
    pub open spec fn expected_pos(self, value: u8) -> (int, int) {
        self.matrix_pos(self.expected_index(value))
    }

    /// Whether the content of cell `i` sits at its goal position.
    pub open spec fn in_place(self, i: int) -> bool {
        self.matrix_pos(i) == self.expected_pos(self.tiles[i])
    }

    /// Manhattan distance between cell `i` and the goal position of its content.
    pub open spec fn distance(self, i: int) -> nat {
        let current = self.matrix_pos(i);
        let expected = self.expected_pos(self.tiles[i]);
        gap(current.0, expected.0) + gap(current.1, expected.1)
    }

    /// Sum of the distances of the first `n` cells.
    pub open spec fn distance_sum(self, n: nat) -> nat
        decreases n,
    {
        if n == 0 {
            0
        } else {
            self.distance_sum((n - 1) as nat) + self.distance(n - 1)
        }
    }

    /// Sum of the distances of all cells.
    pub open spec fn heuristic(self) -> nat {
        self.distance_sum(self.tiles.len())
    }
}

/// Whether the tiles at `i` and `j` are both numbered and out of order.
pub open spec fn inverted(tiles: Seq<u8>, i: int, j: int) -> bool {
    tiles[i] != 0 && tiles[j] != 0 && tiles[i] > tiles[j]
}

/// Number of positions `j` with `i < j < end` that are inverted against `i`.
pub open spec fn inversions_after(tiles: Seq<u8>, i: int, end: int) -> nat
    decreases end - i,
{
    if end <= i + 1 {
        0
    } else {
        inversions_after(tiles, i, end - 1) + if inverted(tiles, i, end - 1) {
            1nat
        } else {
            0nat
        }
    }
}

/// Number of inverted pairs whose first position is below `n`.
pub open spec fn inversions_below(tiles: Seq<u8>, n: int) -> nat
    decreases n,
{
    if n <= 0 {
        0
    } else {
        inversions_below(tiles, n - 1) + inversions_after(tiles, n - 1, tiles.len() as int)
    }
}

/// Number of inverted pairs of numbered tiles.
pub open spec fn inversions(tiles: Seq<u8>) -> nat {
    inversions_below(tiles, tiles.len() as int)
}

/// Row of the first blank of `tiles` on a board of edge `side`.
pub open spec fn blank_row(tiles: Seq<u8>, side: nat) -> int {
    (Board { tiles, side, blank_goal: -1 }).blank_y()
}

/// The parity test: it reads the tiles and the edge length and nothing else.
pub open spec fn unsolvable(tiles: Seq<u8>, side: nat) -> bool {
    if side % 2 == 0 {
        (inversions(tiles) + blank_row(tiles, side)) % 2 == 0
    } else {
        inversions(tiles) % 2 == 1
    }
}

/// A cell's linear index splits back into its column and row.
pub proof fn lemma_cell_coords(side: int, x: int, y: int)
    requires
        0 <= x < side,
        0 <= y,
    ensures
        (y * side + x) / side == y,
        (y * side + x) % side == x,
        y < side ==> y * side + x < side * side,
{
    assert(y * side == side * y) by (nonlinear_arith);
    lemma_fundamental_div_mod_converse(y * side + x, side, y, x);
    if y < side {
        assert(y * side + x < side * side) by (nonlinear_arith)
            requires
                0 <= x < side,
                0 <= y < side,
        ;
    }
}

/// A linear index on the board has a column and a row on the board.
pub proof fn lemma_index_coords(side: int, i: int)
    requires
        0 < side,
        0 <= i < side * side,
    ensures
        0 <= i % side < side,
        0 <= i / side < side,
        (i / side) * side + i % side == i,
{
    lemma_fundamental_div_mod(i, side);
    lemma_mod_bound(i, side);
    let q = i / side;
    assert(q * side == side * q) by (nonlinear_arith);
    assert(0 <= q < side) by (nonlinear_arith)
        requires
            0 < side,
            0 <= i < side * side,
            i == side * q + i % side,
            0 <= i % side < side,
    ;
}

/// A board of bytes on which no tile occurs twice has at most 256 cells,
/// and so at most 16 rows: the bound on the edge length in `valid` leaves
/// out no board that meets the rest of it.
pub proof fn lemma_bytes_bound_edge(tiles: Seq<u8>, side: nat)
    requires
        tiles.len() == side * side,
        forall|i: int, j: int| 0 <= i < j < tiles.len() ==> #[trigger] tiles[i] != #[trigger] tiles[j],
    ensures
        tiles.len() <= 256,
        side <= 16,
{
    assert(tiles.no_duplicates()) by {
        assert forall|i: int, j: int| 0 <= i < tiles.len() && 0 <= j < tiles.len() && i != j implies tiles[i]
            != tiles[j] by {
            if i < j {
                assert(tiles[i] != tiles[j]);
            } else {
                assert(tiles[j] != tiles[i]);
            }
        }
    }
    tiles.unique_seq_to_set();
    seq_to_set_is_finite(tiles);
    let values = tiles.to_set();
    let f = |v: u8| v as int;
    let image = values.map(f);
    lemma_map_size(values, image, f);
    lemma_int_range(0, 256);
    assert(image.subset_of(set_int_range(0, 256)));
    lemma_len_subset(image, set_int_range(0, 256));
    assert(side <= 16) by (nonlinear_arith)
        requires
            side * side <= 256,
    ;
}

/// On a valid board the blank is where a zero is found.
pub proof fn lemma_blank_unique(b: Board, i: int)
    requires
        b.valid(),
        0 <= i < b.tiles.len(),
        b.tiles[i] == 0,
    ensures
        b.blank_index() == i,
{
    let z = b.blank_index();
    assert(0 <= z < b.tiles.len() && b.tiles[z] == 0);
    if z < i {
        assert(b.tiles[z] != b.tiles[i]);
    } else if i < z {
        assert(b.tiles[i] != b.tiles[z]);
    }
}

/// On a valid board the blank has a column and a row on the board.
pub proof fn lemma_blank_coords(b: Board)
    requires
        b.valid(),
    ensures
        0 <= b.blank_index() < b.tiles.len(),
        b.tiles[b.blank_index()] == 0,
        0 <= b.blank_x() < b.side,
        0 <= b.blank_y() < b.side,
        b.cell(b.blank_x(), b.blank_y()) == b.blank_index(),
{
    lemma_index_coords(b.side as int, b.blank_index());
}

/// Exchanging two cells of a valid board gives a valid board.
pub proof fn lemma_swapped_valid(b: Board, i: int, j: int)
    requires
        b.valid(),
        0 <= i < b.tiles.len(),
        0 <= j < b.tiles.len(),
    ensures
        b.swapped(i, j).valid(),
{
    let s = b.swapped(i, j);
    let n = b.tiles.len() as int;
    let src = |k: int| if k == i { j } else if k == j { i } else { k };
    assert forall|k: int| 0 <= k < n implies #[trigger] s.tiles[k] == b.tiles[src(k)] by {}
    assert forall|k: int| 0 <= k < n implies (#[trigger] s.tiles[k]) < n by {
        assert(s.tiles[k] == b.tiles[src(k)]);
    }
    assert forall|a: int, c: int| 0 <= a < c < n implies #[trigger] s.tiles[a] != #[trigger] s.tiles[c] by {
        assert(s.tiles[a] == b.tiles[src(a)]);
        assert(s.tiles[c] == b.tiles[src(c)]);
        if src(a) < src(c) {
            assert(b.tiles[src(a)] != b.tiles[src(c)]);
        } else {
            assert(b.tiles[src(c)] != b.tiles[src(a)]);
        }
    }
    let z = b.blank_index();
    assert(0 <= z < n && b.tiles[z] == 0);
    assert(s.tiles[src(z)] == b.tiles[z]);
}

/// Every board that a slide produces is valid.
pub proof fn lemma_slide_valid(b: Board, d: Direction)
    requires
        b.valid(),
        b.slide(d) is Some,
    ensures
        b.slide(d)->0.valid(),
{
    lemma_blank_coords(b);
    let z = b.blank_index();
    let side = b.side as int;
    lemma_cell_coords(side, b.blank_x(), b.blank_y());
    match d {
        Direction::Right => {
            lemma_swapped_valid(b, z, z - 1);
        },
        Direction::Left => {
            lemma_cell_coords(side, b.blank_x() + 1, b.blank_y());
            lemma_swapped_valid(b, z, z + 1);
        },
        Direction::Down => {
            lemma_cell_coords(side, b.blank_x(), b.blank_y() - 1);
            assert((b.blank_y() - 1) * side == b.blank_y() * side - side) by (nonlinear_arith);
            lemma_swapped_valid(b, z, z - side);
        },
        Direction::Up => {
            lemma_cell_coords(side, b.blank_x(), b.blank_y() + 1);
            assert((b.blank_y() + 1) * side == b.blank_y() * side + side) by (nonlinear_arith);
            lemma_swapped_valid(b, z, z + side);
        },
    }
}

/// On a valid board no cell is farther than 141 steps from the goal
/// position of its content.
pub proof fn lemma_distance_bound(b: Board, i: int)
    requires
        b.valid(),
        0 <= i < b.tiles.len(),
    ensures
        b.distance(i) <= 141,
        0 <= b.expected_index(b.tiles[i]) <= 255,
{
    let side = b.side as int;
    assert(1 <= side * side <= 256) by (nonlinear_arith)
        requires
            1 <= side <= 16,
    ;
    lemma_index_coords(side, i);
    let e = b.expected_index(b.tiles[i]);
    assert(0 <= e <= 255);
    lemma_fundamental_div_mod(e, side);
    lemma_mod_bound(e, side);
    let q = e / side;
    assert(0 <= q <= 255) by (nonlinear_arith)
        requires
            1 <= side,
            0 <= e <= 255,
            e == side * q + e % side,
            0 <= e % side < side,
    ;
    if b.tiles[i] != 0 || b.blank_goal < 0 {
        assert(0 <= e < side * side);
        lemma_index_coords(side, e);
    } else {
        assert(e <= 126);
        assert(q <= 126) by (nonlinear_arith)
            requires
                1 <= side,
                0 <= e <= 126,
                e == side * q + e % side,
                0 <= e % side < side,
        ;
    }
}

/// The boards and labels that a list of neighbors holds.
pub open spec fn labelled_boards(v: Seq<(Grid, Direction)>) -> Seq<(Board, Direction)> {
    v.map_values(|e: (Grid, Direction)| (e.0@, e.1))
}

/// The distances of the first `n` cells add up to zero exactly when each
/// of them is zero.
pub proof fn lemma_distance_sum_zero(b: Board, n: nat)
    ensures
        b.distance_sum(n) == 0 <==> forall|i: int| 0 <= i < n ==> #[trigger] b.distance(i) == 0,
    decreases n,
{
    if n > 0 {
        lemma_distance_sum_zero(b, (n - 1) as nat);
        if b.distance_sum(n) == 0 {
            assert forall|i: int| 0 <= i < n implies #[trigger] b.distance(i) == 0 by {
                if i < n - 1 {
                } else {
                    assert(i == n - 1);
                }
            }
        }
    }
}

/// The heuristic of a board is zero exactly when the content of every
/// cell, the blank included, sits at its goal position.
pub proof fn lemma_heuristic_zero_iff_in_place(b: Board)
    ensures
        b.heuristic() == 0 <==> forall|i: int| 0 <= i < b.tiles.len() ==> #[trigger] b.in_place(i),
{
    lemma_distance_sum_zero(b, b.tiles.len());
    if b.heuristic() == 0 {
        assert forall|i: int| 0 <= i < b.tiles.len() implies #[trigger] b.in_place(i) by {
            assert(b.distance(i) == 0);
        }
    }
    if forall|i: int| 0 <= i < b.tiles.len() ==> #[trigger] b.in_place(i) {
        assert forall|i: int| 0 <= i < b.tiles.len() implies #[trigger] b.distance(i) == 0 by {
            assert(b.in_place(i));
        }
    }
}

/// Whether the blank sits in the first or the last column.
pub open spec fn blank_on_side_column(b: Board) -> bool {
    b.blank_x() == 0 || b.blank_x() == b.side - 1
}

/// Whether the blank sits in the first or the last row.
pub open spec fn blank_on_side_row(b: Board) -> bool {
    b.blank_y() == 0 || b.blank_y() == b.side - 1
}

/// Whether cells `i` and `j` touch along an edge on a board of this size.
pub open spec fn adjacent_cells(side: int, i: int, j: int) -> bool {
    gap(i % side, j % side) + gap(i / side, j / side) == 1
}

/// On a board with at least two rows the blank has two neighbors in a
/// corner, three on an edge and four inside.
pub proof fn lemma_neighbor_count(b: Board)
    requires
        b.valid(),
        b.side >= 2,
    ensures
        2 <= b.neighbors().len() <= 4,
        blank_on_side_column(b) && blank_on_side_row(b) ==> b.neighbors().len() == 2,
        blank_on_side_column(b) != blank_on_side_row(b) ==> b.neighbors().len() == 3,
        !blank_on_side_column(b) && !blank_on_side_row(b) ==> b.neighbors().len() == 4,
{
    lemma_blank_coords(b);
}

/// Every neighbor is the board with the blank and one cell that touches
/// it exchanged, it is a valid board, and its label is the direction in
/// which that cell's tile travelled.
pub proof fn lemma_neighbor_is_adjacent_swap(b: Board, k: int)
    requires
        b.valid(),
        0 <= k < b.neighbors().len(),
    ensures
        b.slide(b.neighbors()[k].1) == Some(b.neighbors()[k].0),
        b.neighbors()[k].0.valid(),
        exists|c: int|
            0 <= c < b.tiles.len() && adjacent_cells(b.side as int, b.blank_index(), c)
                && b.neighbors()[k].0 == #[trigger] b.swapped(b.blank_index(), c),
{
    lemma_blank_coords(b);
    let side = b.side as int;
    let z = b.blank_index();
    let x = b.blank_x();
    let y = b.blank_y();
    let d = b.neighbors()[k].1;
    assert(b.slide(d) == Some(b.neighbors()[k].0));
    lemma_slide_valid(b, d);
    lemma_cell_coords(side, x, y);
    let c = match d {
        Direction::Right => z - 1,
        Direction::Left => z + 1,
        Direction::Down => z - side,
        Direction::Up => z + side,
    };
    match d {
        Direction::Right => {
            lemma_cell_coords(side, x - 1, y);
        },
        Direction::Left => {
            lemma_cell_coords(side, x + 1, y);
        },
        Direction::Down => {
            assert((y - 1) * side == y * side - side) by (nonlinear_arith);
            lemma_cell_coords(side, x, y - 1);
        },
        Direction::Up => {
            assert((y + 1) * side == y * side + side) by (nonlinear_arith);
            lemma_cell_coords(side, x, y + 1);
        },
    }
    assert(b.neighbors()[k].0 == b.swapped(z, c));
}

/// Sliding back in the opposite direction restores the board.
pub proof fn lemma_slide_back(b: Board, d: Direction)
    requires
        b.valid(),
        b.slide(d) is Some,
    ensures
        b.slide(d)->0.slide(d.opposite()) == Some(b),
{
    lemma_blank_coords(b);
    lemma_slide_valid(b, d);
    let side = b.side as int;
    let z = b.blank_index();
    let x = b.blank_x();
    let y = b.blank_y();
    let s = b.slide(d)->0;
    lemma_cell_coords(side, x, y);
    let c = match d {
        Direction::Right => z - 1,
        Direction::Left => z + 1,
        Direction::Down => z - side,
        Direction::Up => z + side,
    };
    match d {
        Direction::Right => {
            lemma_cell_coords(side, x - 1, y);
        },
        Direction::Left => {
            lemma_cell_coords(side, x + 1, y);
        },
        Direction::Down => {
            assert((y - 1) * side == y * side - side) by (nonlinear_arith);
            lemma_cell_coords(side, x, y - 1);
        },
        Direction::Up => {
            assert((y + 1) * side == y * side + side) by (nonlinear_arith);
            lemma_cell_coords(side, x, y + 1);
        },
    }
    assert(s == b.swapped(z, c));
    assert(s.tiles[c] == 0);
    lemma_blank_unique(s, c);
    assert(s.swapped(c, z).tiles =~= b.tiles);
}

/// Slides in two different directions lead to two different boards.
pub proof fn lemma_slide_injective(b: Board, d1: Direction, d2: Direction)
    requires
        b.valid(),
        b.slide(d1) is Some,
        b.slide(d2) is Some,
        b.slide(d1)->0.tiles == b.slide(d2)->0.tiles,
    ensures
        d1 == d2,
{
    lemma_blank_coords(b);
    let side = b.side as int;
    let z = b.blank_index();
    let x = b.blank_x();
    let y = b.blank_y();
    lemma_cell_coords(side, x, y);
    lemma_slide_back(b, d1);
    lemma_slide_back(b, d2);
    let s1 = b.slide(d1)->0;
    let s2 = b.slide(d2)->0;
    lemma_slide_valid(b, d1);
    lemma_slide_valid(b, d2);
    let c1 = match d1 {
        Direction::Right => z - 1,
        Direction::Left => z + 1,
        Direction::Down => z - side,
        Direction::Up => z + side,
    };
    let c2 = match d2 {
        Direction::Right => z - 1,
        Direction::Left => z + 1,
        Direction::Down => z - side,
        Direction::Up => z + side,
    };
    if x > 0 {
        lemma_cell_coords(side, x - 1, y);
    }
    if x < side - 1 {
        lemma_cell_coords(side, x + 1, y);
    }
    if y > 0 {
        assert((y - 1) * side == y * side - side) by (nonlinear_arith);
        lemma_cell_coords(side, x, y - 1);
    }
    if y < side - 1 {
        assert((y + 1) * side == y * side + side) by (nonlinear_arith);
        lemma_cell_coords(side, x, y + 1);
    }
    assert(s1.tiles[c1] == 0);
    assert(s2.tiles[c2] == 0);
    lemma_blank_unique(s1, c1);
    lemma_blank_unique(s1, c2);
}

/// The neighbors are exactly the results of the slides that exist.
pub proof fn lemma_neighbors_cover_slides(b: Board, d: Direction)
    requires
        b.slide(d) is Some,
    ensures
        exists|k: int| 0 <= k < b.neighbors().len() && #[trigger] b.neighbors()[k] == (b.slide(d)->0, d),
{
    let s0 = Seq::<(Board, Direction)>::empty();
    let s1 = b.emit(s0, Direction::Right);
    let s2 = b.emit(s1, Direction::Left);
    let s3 = b.emit(s2, Direction::Down);
    let s4 = b.emit(s3, Direction::Up);
    assert(s4 == b.neighbors());
    let e = (b.slide(d)->0, d);
    match d {
        Direction::Right => {
            assert(s1[s1.len() - 1] == e);
            assert(s4[s1.len() - 1] == e);
        },
        Direction::Left => {
            assert(s2[s2.len() - 1] == e);
            assert(s4[s2.len() - 1] == e);
        },
        Direction::Down => {
            assert(s3[s3.len() - 1] == e);
            assert(s4[s3.len() - 1] == e);
        },
        Direction::Up => {
            assert(s4[s4.len() - 1] == e);
        },
    }
}

/// Each neighbor is the result of the slide that it is labelled with.
pub proof fn lemma_neighbors_are_slides(b: Board, k: int)
    requires
        0 <= k < b.neighbors().len(),
    ensures
        b.slide(b.neighbors()[k].1) == Some(b.neighbors()[k].0),
{
}

/// Two valid boards with equally many tiles have the same edge length.
pub proof fn lemma_side_of_len(a: Board, b: Board)
    requires
        a.valid(),
        b.valid(),
        a.tiles.len() == b.tiles.len(),
    ensures
        a.side == b.side,
{
    let x = a.side as int;
    let y = b.side as int;
    assert(x == y) by (nonlinear_arith)
        requires
            x >= 1,
            y >= 1,
            x * x == y * y,
    ;
}

/// A number that equal tile sequences share, by which states are filed.
pub open spec fn tiles_digest(tiles: Seq<u8>) -> nat
    decreases tiles.len(),
{
    if tiles.len() == 0 {
        0
    } else {
        ((tiles_digest(tiles.drop_last()) * 257 + tiles.last()) % 1_000_000_007) as nat
    }
}

/// The first `m` tiles of row `y`, separated by commas.
pub open spec fn row_text(b: Board, y: int, m: nat) -> Seq<char>
    decreases m,
{
    if m == 0 {
        Seq::empty()
    } else if m == 1 {
        decimal(b.tiles[b.cell(0, y)] as nat)
    } else {
        row_text(b, y, (m - 1) as nat) + ","@ + decimal(b.tiles[b.cell(m - 1, y)] as nat)
    }
}

/// The first `k` rows, each on a line of its own and set in by two blanks.
pub open spec fn rows_text(b: Board, k: nat) -> Seq<char>
    decreases k,
{
    if k == 0 {
        Seq::empty()
    } else if k == 1 {
        "  "@ + row_text(b, 0, b.side)
    } else {
        rows_text(b, (k - 1) as nat) + "\n"@ + "  "@ + row_text(b, k - 1, b.side)
    }
}

/// The board as text: its rows between a line that opens and a line that
/// closes the board.
pub open spec fn board_text(b: Board) -> Seq<char> {
    "Grid: [\n"@ + rows_text(b, b.side) + "\n]"@
}

/// A board state. Once built it always holds a valid board.
#[derive(Debug)]
pub struct Grid {
    data: Vec<u8>,
    grid_side: u8,
    zero_number: i8,
}

impl View for Grid {
    type V = Board;

    closed spec fn view(&self) -> Board {
        Board { tiles: self.data@, side: self.grid_side as nat, blank_goal: self.zero_number as int }
    }
}

impl Clone for Grid {
    fn clone(&self) -> (r: Self)
        ensures
            r@ == self@,
    {
        Grid { data: self.data.clone(), grid_side: self.grid_side, zero_number: self.zero_number }
    }
}

impl PartialEq for Grid {
    fn eq(&self, other: &Self) -> (r: bool) {
        self.same_board(other)
    }
}

impl PartialEqSpecImpl for Grid {
    open spec fn obeys_eq_spec() -> bool {
        true
    }

    open spec fn eq_spec(&self, other: &Self) -> bool {
        self@.tiles == other@.tiles && self@.side == other@.side
    }
}

impl Eq for Grid {

}

impl Grid {
    /// Whether two states hold the same tiles on boards of the same size.
    /// The goal selector takes no part in this.
    pub fn same_board(&self, other: &Grid) -> (r: bool)
        ensures
            r == (self@.tiles == other@.tiles && self@.side == other@.side),
    {
        if self.grid_side != other.grid_side || self.data.len() != other.data.len() {
            return false;
        }
        let n = self.data.len();
        let mut i: usize = 0;
        while i < n
            invariant
                n == self.data@.len(),
                n == other.data@.len(),
                i <= n,
                forall|k: int| 0 <= k < i ==> self.data@[k] == other.data@[k],
            decreases n - i,
        {
            if self.data[i] != other.data[i] {
                return false;
            }
            i = i + 1;
        }
        assert(self.data@ =~= other.data@);
        true
    }

    /// Builds a board of edge length `grid_side` from `input`, or refuses when
    /// the input is not a valid board.
    pub fn new(grid_side: u8, zero_number: i8, input: &Vec<u8>) -> (r: Option<Self>)
        ensures
            r is Some <==> Board::make(input@, grid_side as nat, zero_number as int).valid(),
            r matches Some(g) ==> g@ == Board::make(input@, grid_side as nat, zero_number as int),
    {
        if grid_side < 1 || grid_side > 16 || zero_number == 0 {
            return None;
        }
        assert(1 <= grid_side * grid_side <= 256) by (nonlinear_arith)
            requires
                1 <= grid_side <= 16,
        ;
        let n: usize = (grid_side as usize) * (grid_side as usize);
        if input.len() != n {
            return None;
        }
        let mut seen: Vec<bool> = Vec::new();
        let mut k: usize = 0;
        while k < n
            invariant
                k <= n,
                seen@.len() == k,
                forall|v: int| 0 <= v < k ==> !#[trigger] seen@[v],
            decreases n - k,
        {
            seen.push(false);
            k = k + 1;
        }
        let mut grid_data: Vec<u8> = Vec::new();
        let mut i: usize = 0;
        while i < n
            invariant
                i <= n,
                n == input@.len(),
                n <= 256,
                seen@.len() == n,
                grid_data@ == input@.subrange(0, i as int),
                forall|a: int| 0 <= a < i ==> (#[trigger] input@[a]) < n,
                forall|a: int, b: int| 0 <= a < b < i ==> #[trigger] input@[a] != #[trigger] input@[b],
                forall|v: int|
                    0 <= v < n ==> (#[trigger] seen@[v] <==> exists|a: int|
                        0 <= a < i && #[trigger] input@[a] == v),
            decreases n - i,
        {
            let t: u8 = input[i];
            if t as usize >= n {
                return None;
            }
            if seen[t as usize] {
                return None;
            }
            seen.set(t as usize, true);
            grid_data.push(t);
            assert(grid_data@ == input@.subrange(0, i + 1));
            i = i + 1;
        }
        assert(grid_data@ == input@);
        if !seen[0] {
            return None;
        }
        proof {
            let board = Board::make(input@, grid_side as nat, zero_number as int);
            let a = choose|a: int| 0 <= a < n && #[trigger] input@[a] == 0;
            assert(0 <= a < board.tiles.len() && board.tiles[a] == 0);
            assert(board.tiles.len() == board.side * board.side);
            assert forall|i: int| 0 <= i < board.tiles.len() implies (#[trigger] board.tiles[i]) < board.tiles.len() by {
                assert(input@[i] < n);
            }
            assert forall|i: int, j: int| 0 <= i < j < board.tiles.len() implies #[trigger] board.tiles[i]
                != #[trigger] board.tiles[j] by {
                assert(input@[i] != input@[j]);
            }
            assert(board.valid());
        }
        Some(Grid { data: grid_data, grid_side, zero_number })
    }

    /// Builds a board from `input`, taking as edge length the least number
    /// whose square holds all of `input`.
    pub fn from_vec(zero_number: i8, input: &Vec<u8>) -> (r: Option<Self>)
        ensures
            r is Some <==> exists|side: nat| #[trigger] Board::make(input@, side, zero_number as int).valid(),
            r matches Some(g) ==> g@.valid() && g@.tiles == input@ && g@.blank_goal == zero_number,
    {
        let len = input.len();
        let mut side: u8 = 0;
        let mut square: usize = 0;
        while side < 17 && square < len
            invariant
                side <= 17,
                square == side * side,
                forall|s: nat| s < side ==> #[trigger] (s * s) < len,
            decreases 17 - side,
        {
            proof {
                let cur = side as nat;
                assert forall|s: nat| s < cur + 1 implies #[trigger] (s * s) < len by {
                    if s < cur {
                    } else {
                        assert(s == cur);
                    }
                }
                assert((side + 1) * (side + 1) == side * side + 2 * side + 1) by (nonlinear_arith);
                assert(side * side <= 256) by (nonlinear_arith)
                    requires
                        0 <= side <= 16,
                ;
            }
            square = square + 2 * (side as usize) + 1;
            side = side + 1;
        }
        let r = Grid::new(side, zero_number, input);
        proof {
            if r is None {
                assert forall|s: nat| !#[trigger] Board::make(input@, s, zero_number as int).valid() by {
                    let b = Board::make(input@, s, zero_number as int);
                    if b.valid() {
                        if s < side {
                            assert(s * s < len);
                        } else if s > side {
                            assert(side < 17);
                            assert(side * side >= len);
                            assert(s * s > side * side) by (nonlinear_arith)
                                requires
                                    s > side >= 0,
                            ;
                        }
                    }
                }
            }
        }
        r
    }

    /// Linear index of the cell in column `x` of row `y`.
    fn matrix_pos_to_linear_pos(&self, x: u8, y: u8) -> (r: usize)
        ensures
            r == self@.cell(x as int, y as int),
    {
        assert(y * self.grid_side <= 255 * 255) by (nonlinear_arith)
            requires
                0 <= y <= 255,
                0 <= self.grid_side <= 255,
        ;
        (y as usize) * (self.grid_side as usize) + (x as usize)
    }

    /// The content of the cell in column `x` of row `y`, if the board has
    /// a cell at that linear index.
    pub fn get(&self, x: u8, y: u8) -> (r: Option<&u8>)
        ensures
            r == (if self@.cell(x as int, y as int) < self@.tiles.len() {
                Some(&self@.tiles[self@.cell(x as int, y as int)])
            } else {
                None
            }),
    {
        let idx = self.matrix_pos_to_linear_pos(x, y);
        if idx < self.data.len() {
            Some(&self.data[idx])
        } else {
            None
        }
    }

    /// Column and row of the blank.
    pub fn current_zero_position(&self) -> (r: (u8, u8))
        requires
            self@.valid(),
        ensures
            r.0 == self@.blank_x(),
            r.1 == self@.blank_y(),
            r.0 < self@.side,
            r.1 < self@.side,
    {
        let side = self.grid_side;
        let mut j: u8 = 0;
        while j < side
            invariant
                self@.valid(),
                side == self.grid_side,
                j <= side,
                forall|k: int| 0 <= k < j * side ==> #[trigger] self.data@[k] != 0,
            decreases side - j,
        {
            let mut i: u8 = 0;
            while i < side
                invariant
                    self@.valid(),
                    side == self.grid_side,
                    j < side,
                    i <= side,
                    forall|k: int| 0 <= k < j * side + i ==> #[trigger] self.data@[k] != 0,
                decreases side - i,
            {
                proof {
                    lemma_cell_coords(side as int, i as int, j as int);
                }
                let idx = self.matrix_pos_to_linear_pos(i, j);
                if self.data[idx] == 0 {
                    proof {
                        lemma_blank_unique(self@, idx as int);
                    }
                    return (i, j);
                }
                i = i + 1;
            }
            proof {
                assert((j + 1) * side == j * side + side) by (nonlinear_arith);
            }
            j = j + 1;
        }
        // Not reached: a valid board has a blank, and every cell was looked at.
        proof {
            let z = self@.blank_index();
            assert(0 <= z < self.data@.len() && self.data@[z] == 0);
            assert(false);
        }
        (0, 0)
    }

    /// Exchanges the contents of the cells at the two positions.
    pub fn swap_indices(&mut self, a: (u8, u8), b: (u8, u8))
        requires
            old(self)@.valid(),
            a.0 < old(self)@.side,
            a.1 < old(self)@.side,
            b.0 < old(self)@.side,
            b.1 < old(self)@.side,
        ensures
            final(self)@ == old(self)@.swapped(
                old(self)@.cell(a.0 as int, a.1 as int),
                old(self)@.cell(b.0 as int, b.1 as int),
            ),
            final(self)@.valid(),
    {
        proof {
            lemma_cell_coords(self.grid_side as int, a.0 as int, a.1 as int);
            lemma_cell_coords(self.grid_side as int, b.0 as int, b.1 as int);
        }
        let idx1 = self.matrix_pos_to_linear_pos(a.0, a.1);
        let idx2 = self.matrix_pos_to_linear_pos(b.0, b.1);
        let t1 = self.data[idx1];
        let t2 = self.data[idx2];
        self.data.set(idx1, t2);
        self.data.set(idx2, t1);
        proof {
            lemma_swapped_valid(old(self)@, idx1 as int, idx2 as int);
        }
    }

    /// A copy of the board with the contents of the two cells exchanged.
    pub fn clone_with_swapped_indices(&self, idx1: (u8, u8), idx2: (u8, u8)) -> (r: Grid)
        requires
            self@.valid(),
            idx1.0 < self@.side,
            idx1.1 < self@.side,
            idx2.0 < self@.side,
            idx2.1 < self@.side,
        ensures
            r@ == self@.swapped(
                self@.cell(idx1.0 as int, idx1.1 as int),
                self@.cell(idx2.0 as int, idx2.1 as int),
            ),
            r@.valid(),
    {
        let mut new_grid = self.clone();
        new_grid.swap_indices(idx1, idx2);
        new_grid
    }

    /// The adjacent boards with their move labels, in the order right,
    /// left, down, up.
    pub fn generate_neighbors(&self) -> (results: Vec<(Grid, Direction)>)
        requires
            self@.valid(),
        ensures
            labelled_boards(results@) == self@.neighbors(),
            forall|k: int| 0 <= k < results@.len() ==> (#[trigger] results@[k]).0@.valid(),
            results@.len() <= 4,
            self@.side >= 2 ==> results@.len() >= 2,
    {
        let mut results: Vec<(Grid, Direction)> = Vec::new();
        let (x, y) = self.current_zero_position();
        let ghost me = self@;
        let ghost side = self@.side as int;
        proof {
            if me.side >= 2 {
                lemma_neighbor_count(me);
            }
            lemma_blank_coords(me);
            lemma_cell_coords(side, x as int, y as int);
            assert(labelled_boards(results@) == Seq::<(Board, Direction)>::empty());
        }
        let ghost s0 = labelled_boards(results@);

        if x > 0 {
            proof {
                lemma_cell_coords(side, x - 1, y as int);
                lemma_slide_valid(me, Direction::Right);
            }
            let adj = self.clone_with_swapped_indices((x, y), (x - 1, y));
            results.push((adj, Direction::Right));
            assert(labelled_boards(results@) == s0.push((me.slide(Direction::Right)->0, Direction::Right)));
        }
        let ghost s1 = labelled_boards(results@);
        assert(s1 == me.emit(s0, Direction::Right));

        if x < self.grid_side - 1 {
            proof {
                lemma_cell_coords(side, x + 1, y as int);
                lemma_slide_valid(me, Direction::Left);
            }
            let adj = self.clone_with_swapped_indices((x, y), (x + 1, y));
            results.push((adj, Direction::Left));
            assert(labelled_boards(results@) == s1.push((me.slide(Direction::Left)->0, Direction::Left)));
        }
        let ghost s2 = labelled_boards(results@);
        assert(s2 == me.emit(s1, Direction::Left));

        if y > 0 {
            proof {
                lemma_cell_coords(side, x as int, y - 1);
                assert((y - 1) * side == y * side - side) by (nonlinear_arith);
                lemma_slide_valid(me, Direction::Down);
            }
            let adj = self.clone_with_swapped_indices((x, y), (x, y - 1));
            results.push((adj, Direction::Down));
            assert(labelled_boards(results@) == s2.push((me.slide(Direction::Down)->0, Direction::Down)));
        }
        let ghost s3 = labelled_boards(results@);
        assert(s3 == me.emit(s2, Direction::Down));

        if y < self.grid_side - 1 {
            proof {
                lemma_cell_coords(side, x as int, y + 1);
                assert((y + 1) * side == y * side + side) by (nonlinear_arith);
                lemma_slide_valid(me, Direction::Up);
            }
            let adj = self.clone_with_swapped_indices((x, y), (x, y + 1));
            results.push((adj, Direction::Up));
            assert(labelled_boards(results@) == s3.push((me.slide(Direction::Up)->0, Direction::Up)));
        }
        assert(labelled_boards(results@) == me.emit(s3, Direction::Up));
        assert(results@.len() == labelled_boards(results@).len());

        results
    }

    /// Matrix position that the distance measure assigns to a linear position.
    pub fn linear_pos_to_matrix_pos(&self, pos: u8) -> (r: (u8, u8))
        requires
            self@.side >= 1,
        ensures
            (r.0 as int, r.1 as int) == self@.matrix_pos(pos as int),
    {
        let x = pos / self.grid_side;
        let y = pos % self.grid_side;
        (x, y)
    }

    /// Matrix position at which `val` sits in the goal configuration.
    pub fn expected_pos(&self, val: &u8) -> (r: (u8, u8))
        requires
            self@.valid(),
        ensures
            (r.0 as int, r.1 as int) == self@.expected_pos(*val),
    {
        proof {
            assert(1 <= self.grid_side * self.grid_side <= 256) by (nonlinear_arith)
                requires
                    1 <= self.grid_side <= 16,
            ;
        }
        let expected_idx: u8 = if *val == 0 {
            if self.zero_number >= 0 {
                self.zero_number as u8 - 1
            } else {
                (self.data.len() - 1) as u8
            }
        } else {
            *val - 1
        };

        self.linear_pos_to_matrix_pos(expected_idx)
    }

    /// Manhattan distance between cell `idx` and the goal position of its
    /// content.
    pub fn heuristic_for_index(&self, idx: u8) -> (r: u8)
        requires
            self@.valid(),
            idx < self@.tiles.len(),
        ensures
            r == self@.distance(idx as int),
            r <= 141,
    {
        proof {
            lemma_distance_bound(self@, idx as int);
        }
        let (current_x, current_y) = self.linear_pos_to_matrix_pos(idx);
        let (expected_x, expected_y) = self.expected_pos(&self.data[idx as usize]);
        let dx: u8 = if current_x >= expected_x {
            current_x - expected_x
        } else {
            expected_x - current_x
        };
        let dy: u8 = if current_y >= expected_y {
            current_y - expected_y
        } else {
            expected_y - current_y
        };
        dx + dy
    }

    /// Sum over all cells of the Manhattan distance between the cell and
    /// the goal position of its content.
    pub fn heuristic(&self) -> (r: u16)
        requires
            self@.valid(),
        ensures
            r == self@.heuristic(),
            r == 0 <==> forall|i: int| 0 <= i < self@.tiles.len() ==> #[trigger] self@.in_place(i),
    {
        proof {
            lemma_heuristic_zero_iff_in_place(self@);
        }
        proof {
            assert(1 <= self.grid_side * self.grid_side <= 256) by (nonlinear_arith)
                requires
                    1 <= self.grid_side <= 16,
            ;
        }
        let n = self.data.len();
        let mut sum: u16 = 0;
        let mut i: usize = 0;
        while i < n
            invariant
                self@.valid(),
                n == self.data@.len(),
                n <= 256,
                i <= n,
                sum == self@.distance_sum(i as nat),
                sum <= 141 * i,
            decreases n - i,
        {
            let d = self.heuristic_for_index(i as u8);
            sum = sum + d as u16;
            i = i + 1;
        }
        sum
    }

    /// The parity test that tells boards from which the goal cannot be
    /// reached.
    pub fn is_unsolvable(&self) -> (r: bool)
        requires
            self@.valid(),
        ensures
            r == unsolvable(self@.tiles, self@.side),
    {
        proof {
            assert(1 <= self.grid_side * self.grid_side <= 256) by (nonlinear_arith)
                requires
                    1 <= self.grid_side <= 16,
            ;
        }
        let n = self.data.len();
        let mut inversions: u32 = 0;
        let mut i: usize = 0;
        while i < n
            invariant
                n == self.data@.len(),
                n <= 256,
                i <= n,
                inversions == inversions_below(self.data@, i as int),
                inversions <= 256 * i,
            decreases n - i,
        {
            let mut row: u32 = 0;
            let mut j: usize = i + 1;
            while j < n
                invariant
                    n == self.data@.len(),
                    n <= 256,
                    i < n,
                    i < j <= n,
                    row == inversions_after(self.data@, i as int, j as int),
                    row <= j - i - 1,
                decreases n - j,
            {
                if self.data[i] != 0 && self.data[j] != 0 && self.data[i] > self.data[j] {
                    row = row + 1;
                }
                j = j + 1;
            }
            inversions = inversions + row;
            i = i + 1;
        }

        if self.grid_side % 2 == 0 {
            let (_, zero_y) = self.current_zero_position();
            (inversions + zero_y as u32) % 2 == 0
        } else {
            inversions % 2 == 1
        }
    }

    /// The number by which this state is filed.
    pub fn digest(&self) -> (r: u64)
        ensures
            r == tiles_digest(self@.tiles),
    {
        let n = self.data.len();
        let mut h: u64 = 0;
        let mut i: usize = 0;
        while i < n
            invariant
                n == self.data@.len(),
                i <= n,
                h == tiles_digest(self.data@.subrange(0, i as int)),
                h < 1_000_000_007,
            decreases n - i,
        {
            assert(self.data@.subrange(0, i + 1).drop_last() == self.data@.subrange(0, i as int));
            h = (h * 257 + self.data[i] as u64) % 1_000_000_007;
            i = i + 1;
        }
        assert(self.data@.subrange(0, n as int) == self.data@);
        h
    }

    /// The board as text, row by row.
    pub fn describe(&self) -> (r: String)
        requires
            self@.valid(),
        ensures
            r@ == board_text(self@),
    {
        let mut out = String::from_str("Grid: [\n");
        let ghost head = out@;
        let side = self.grid_side;
        let mut j: u8 = 0;
        while j < side
            invariant
                self@.valid(),
                side == self.grid_side,
                j <= side,
                out@ == head + rows_text(self@, j as nat),
            decreases side - j,
        {
            if j > 0 {
                out.append("\n");
            }
            out.append("  ");
            let ghost row_head = out@;
            let mut i: u8 = 0;
            while i < side
                invariant
                    self@.valid(),
                    side == self.grid_side,
                    j < side,
                    i <= side,
                    out@ == row_head + row_text(self@, j as int, i as nat),
                decreases side - i,
            {
                proof {
                    lemma_cell_coords(side as int, i as int, j as int);
                }
                if i > 0 {
                    out.append(",");
                }
                let ghost before = out@;
                let idx = self.matrix_pos_to_linear_pos(i, j);
                push_decimal(&mut out, self.data[idx] as usize);
                proof {
                    let cell = decimal(self@.tiles[self@.cell(i as int, j as int)] as nat);
                    if i == 0 {
                        assert(row_head + Seq::<char>::empty() + cell == row_head + cell);
                    } else {
                        assert(row_head + row_text(self@, j as int, i as nat) + ","@ + cell == row_head + (row_text(
                            self@,
                            j as int,
                            i as nat,
                        ) + ","@ + cell));
                    }
                }
                i = i + 1;
            }
            proof {
                let row = row_text(self@, j as int, side as nat);
                if j == 0 {
                    assert(head + Seq::<char>::empty() + "  "@ + row == head + ("  "@ + row));
                } else {
                    assert(head + rows_text(self@, j as nat) + "\n"@ + "  "@ + row == head + (rows_text(
                        self@,
                        j as nat,
                    ) + "\n"@ + "  "@ + row));
                }
            }
            j = j + 1;
        }
        out.append("\n]");
        out
    }
}

} // verus!
