//! Why the parity test is safe: a move never changes its answer, and it
//! does not reject a board whose heuristic is zero. So from a board that it
//! rejects no sequence of moves leads to the goal.

use crate::grid::{
    inversions, inversions_after, inversions_below, inverted, lemma_blank_coords, lemma_blank_unique,
    lemma_cell_coords, lemma_heuristic_zero_iff_in_place, lemma_index_coords, lemma_slide_valid, unsolvable, Board,
    Direction,
};
use crate::ids::{lemma_search_solves, search, solves};
use vstd::prelude::*;

verus! {

/// The tiles with the contents of places `i` and `j` exchanged.
pub open spec fn exchanged(t: Seq<u8>, i: int, j: int) -> Seq<u8> {
    t.update(i, t[j]).update(j, t[i])
}

/// 1 when the tiles at `i` and `j` are both numbered and out of order.
pub open spec fn inverted_count(t: Seq<u8>, i: int, j: int) -> nat {
    if inverted(t, i, j) {
        1
    } else {
        0
    }
}

/// Number of places from `lo` to `hi` that hold a numbered tile smaller
/// than the numbered tile `v`.
pub open spec fn smaller_between(t: Seq<u8>, v: u8, lo: int, hi: int) -> nat
    decreases hi - lo,
{
    if hi <= lo {
        0
    } else {
        smaller_between(t, v, lo, hi - 1) + if v != 0 && t[hi - 1] != 0 && v > t[hi - 1] {
            1nat
        } else {
            0nat
        }
    }
}

/// The inversions to the right of a place are the smaller numbered tiles
/// to its right.
proof fn lemma_after_is_smaller(t: Seq<u8>, i: int, end: int)
    ensures
        inversions_after(t, i, end) == smaller_between(t, t[i], i + 1, end),
    decreases end - i,
{
    if end > i + 1 {
        lemma_after_is_smaller(t, i, end - 1);
    }
}

/// A stretch can be counted in two parts.
proof fn lemma_smaller_split(t: Seq<u8>, v: u8, lo: int, mid: int, hi: int)
    requires
        lo <= mid <= hi,
    ensures
        smaller_between(t, v, lo, hi) == smaller_between(t, v, lo, mid) + smaller_between(t, v, mid, hi),
    decreases hi - mid,
{
    if hi > mid {
        lemma_smaller_split(t, v, lo, mid, hi - 1);
    }
}

/// Stretches that hold the same tiles count the same.
proof fn lemma_smaller_frame(t1: Seq<u8>, t2: Seq<u8>, v: u8, lo: int, hi: int)
    requires
        forall|j: int| lo <= j < hi ==> t1[j] == t2[j],
    ensures
        smaller_between(t1, v, lo, hi) == smaller_between(t2, v, lo, hi),
    decreases hi - lo,
{
    if hi > lo {
        lemma_smaller_frame(t1, t2, v, lo, hi - 1);
    }
}

/// Exchanging two neighbors in a stretch does not change how many tiles of
/// the stretch are smaller than `v`.
proof fn lemma_smaller_exchanged(t: Seq<u8>, p: int, v: u8, lo: int, hi: int)
    requires
        0 <= lo <= p,
        p + 1 < hi <= t.len(),
    ensures
        smaller_between(exchanged(t, p, p + 1), v, lo, hi) == smaller_between(t, v, lo, hi),
{
    let s = exchanged(t, p, p + 1);
    lemma_smaller_split(t, v, lo, p, hi);
    lemma_smaller_split(t, v, p, p + 2, hi);
    lemma_smaller_split(s, v, lo, p, hi);
    lemma_smaller_split(s, v, p, p + 2, hi);
    lemma_smaller_frame(s, t, v, lo, p);
    lemma_smaller_frame(s, t, v, p + 2, hi);
    assert(smaller_between(s, v, p, p + 2) == smaller_between(t, v, p, p + 2)) by {
        reveal_with_fuel(smaller_between, 3);
    }
}

/// Before the exchanged places, and after them, every place has as many
/// inversions to its right as before.
proof fn lemma_after_unchanged(t: Seq<u8>, p: int, i: int)
    requires
        0 <= p,
        p + 1 < t.len(),
        0 <= i < t.len(),
        i != p,
        i != p + 1,
    ensures
        inversions_after(exchanged(t, p, p + 1), i, t.len() as int) == inversions_after(t, i, t.len() as int),
{
    let s = exchanged(t, p, p + 1);
    let n = t.len() as int;
    lemma_after_is_smaller(t, i, n);
    lemma_after_is_smaller(s, i, n);
    if i < p {
        lemma_smaller_exchanged(t, p, t[i], i + 1, n);
    } else {
        lemma_smaller_frame(s, t, t[i], i + 1, n);
    }
}

/// The inversions that start before the exchanged places stay as many.
proof fn lemma_below_unchanged_before(t: Seq<u8>, p: int, n: int)
    requires
        0 <= p,
        p + 1 < t.len(),
        0 <= n <= p,
    ensures
        inversions_below(exchanged(t, p, p + 1), n) == inversions_below(t, n),
    decreases n,
{
    if n > 0 {
        lemma_below_unchanged_before(t, p, n - 1);
        lemma_after_unchanged(t, p, n - 1);
        assert(exchanged(t, p, p + 1).len() == t.len());
    }
}

/// Exchanging two neighbors changes the number of inversions by the
/// inversion between the two alone.
proof fn lemma_below_exchanged(t: Seq<u8>, p: int, n: int)
    requires
        0 <= p,
        p + 1 < t.len(),
        p + 2 <= n <= t.len(),
    ensures
        inversions_below(exchanged(t, p, p + 1), n) + inverted_count(t, p, p + 1) == inversions_below(t, n)
            + inverted_count(exchanged(t, p, p + 1), p, p + 1),
    decreases n,
{
    let s = exchanged(t, p, p + 1);
    let len = t.len() as int;
    assert(s.len() == t.len());
    if n > p + 2 {
        lemma_below_exchanged(t, p, n - 1);
        lemma_after_unchanged(t, p, n - 1);
    } else {
        lemma_below_unchanged_before(t, p, p);
        lemma_after_is_smaller(t, p, len);
        lemma_after_is_smaller(t, p + 1, len);
        lemma_after_is_smaller(s, p, len);
        lemma_after_is_smaller(s, p + 1, len);
        lemma_smaller_split(t, t[p], p + 1, p + 2, len);
        lemma_smaller_split(s, s[p], p + 1, p + 2, len);
        lemma_smaller_frame(s, t, t[p + 1], p + 2, len);
        lemma_smaller_frame(s, t, t[p], p + 2, len);
        assert(smaller_between(t, t[p], p + 1, p + 2) == inverted_count(t, p, p + 1)) by {
            reveal_with_fuel(smaller_between, 2);
        }
        assert(smaller_between(s, s[p], p + 1, p + 2) == inverted_count(s, p, p + 1)) by {
            reveal_with_fuel(smaller_between, 2);
        }
        assert(inversions_below(s, p + 2) == inversions_below(s, p) + inversions_after(s, p, len) + inversions_after(
            s,
            p + 1,
            len,
        )) by {
            reveal_with_fuel(inversions_below, 3);
        }
        assert(inversions_below(t, p + 2) == inversions_below(t, p) + inversions_after(t, p, len) + inversions_after(
            t,
            p + 1,
            len,
        )) by {
            reveal_with_fuel(inversions_below, 3);
        }
    }
}

/// Exchanging two neighbors of which one is the blank leaves the number of
/// inversions as it is; exchanging two different numbered neighbors changes
/// it by one.
pub proof fn lemma_neighbors_exchanged(t: Seq<u8>, p: int)
    requires
        0 <= p,
        p + 1 < t.len(),
    ensures
        t[p] == 0 || t[p + 1] == 0 ==> inversions(exchanged(t, p, p + 1)) == inversions(t),
        t[p] != 0 && t[p + 1] != 0 && t[p] != t[p + 1] ==> (inversions(exchanged(t, p, p + 1)) + inversions(t)) % 2
            == 1,
{
    lemma_below_exchanged(t, p, t.len() as int);
    assert(exchanged(t, p, p + 1).len() == t.len());
}

/// Exchanging the blank with a tile further on, past numbered tiles that
/// differ from one another, changes the number of inversions by as much
/// as the number of tiles in between, up to an even number.
pub proof fn lemma_blank_exchanged(t: Seq<u8>, z: int, w: int)
    requires
        0 <= z < w < t.len(),
        t[z] == 0,
        forall|j: int| z < j <= w ==> t[j] != 0,
        forall|i: int, j: int| z < i < j <= w ==> t[i] != t[j],
    ensures
        (inversions(exchanged(t, z, w)) + inversions(t) + (w - z - 1)) % 2 == 0,
    decreases w - z,
{
    if w == z + 1 {
        lemma_neighbors_exchanged(t, z);
    } else {
        let t1 = exchanged(t, w - 1, w);
        lemma_neighbors_exchanged(t, w - 1);
        assert(t1[z] == 0);
        assert forall|j: int| z < j <= w - 1 implies t1[j] != 0 by {
            if j == w - 1 {
                assert(t1[j] == t[w]);
            } else {
                assert(t1[j] == t[j]);
            }
        }
        assert forall|i: int, j: int| z < i < j <= w - 1 implies t1[i] != t1[j] by {
            assert(t1[i] == t[i]);
            if j == w - 1 {
                assert(t1[j] == t[w]);
            } else {
                assert(t1[j] == t[j]);
            }
        }
        lemma_blank_exchanged(t1, z, w - 1);
        let t2 = exchanged(t1, z, w - 1);
        assert(t2[w - 1] == 0);
        lemma_neighbors_exchanged(t2, w - 1);
        assert(exchanged(t2, w - 1, w) =~= exchanged(t, z, w));
    }
}

/// The row of the blank of a valid board is the row of the place that
/// holds a zero.
proof fn lemma_blank_row(b: Board, z: int)
    requires
        b.valid(),
        0 <= z < b.tiles.len(),
        b.tiles[z] == 0,
    ensures
        crate::grid::blank_row(b.tiles, b.side) == z / (b.side as int),
{
    let plain = Board { tiles: b.tiles, side: b.side, blank_goal: -1 };
    assert(plain.valid()) by {
        let i = choose|i: int| 0 <= i < b.tiles.len() && #[trigger] b.tiles[i] == 0;
        assert(plain.tiles[i] == 0);
    }
    lemma_blank_unique(plain, z);
}

/// The cell with which the blank changes places in the move `d`.
pub open spec fn other_cell(b: Board, d: Direction) -> int {
    match d {
        Direction::Right => b.blank_index() - 1,
        Direction::Left => b.blank_index() + 1,
        Direction::Down => b.blank_index() - b.side,
        Direction::Up => b.blank_index() + b.side,
    }
}

/// Whether the move `d` is one along a column.
pub open spec fn vertical(d: Direction) -> bool {
    d == Direction::Down || d == Direction::Up
}

/// A move exchanges the blank with a cell of the board, in the same row
/// or in the same column of the next row.
pub proof fn lemma_move_places(b: Board, d: Direction)
    requires
        b.valid(),
        b.slide(d) is Some,
    ensures
        0 <= other_cell(b, d) < b.tiles.len(),
        other_cell(b, d) != b.blank_index(),
        b.slide(d)->0.tiles == exchanged(b.tiles, b.blank_index(), other_cell(b, d)),
        b.slide(d)->0.side == b.side,
        b.slide(d)->0.tiles[other_cell(b, d)] == 0,
        d == Direction::Right ==> other_cell(b, d) == b.blank_index() - 1 && other_cell(b, d) / (b.side as int)
            == b.blank_y(),
        d == Direction::Left ==> other_cell(b, d) == b.blank_index() + 1 && other_cell(b, d) / (b.side as int)
            == b.blank_y(),
        d == Direction::Down ==> other_cell(b, d) == b.blank_index() - b.side && other_cell(b, d) / (b.side as int)
            == b.blank_y() - 1,
        d == Direction::Up ==> other_cell(b, d) == b.blank_index() + b.side && other_cell(b, d) / (b.side as int)
            == b.blank_y() + 1,
{
    lemma_blank_coords(b);
    let side = b.side as int;
    let z = b.blank_index();
    let x = b.blank_x();
    let y = b.blank_y();
    lemma_cell_coords(side, x, y);
    match d {
        Direction::Right => {
            lemma_cell_coords(side, x - 1, y);
        },
        Direction::Left => {
            lemma_cell_coords(side, x + 1, y);
        },
        Direction::Down => {
            assert((y - 1) * side == y * side - side) by (nonlinear_arith);
            lemma_cell_coords(side, x, y - 1);
        },
        Direction::Up => {
            assert((y + 1) * side == y * side + side) by (nonlinear_arith);
            lemma_cell_coords(side, x, y + 1);
        },
    }
    assert(b.slide(d)->0.tiles =~= exchanged(b.tiles, z, other_cell(b, d)));
}

/// Exchanging the blank of a valid board with another cell changes the
/// number of inversions by as much as the number of cells in between, up
/// to an even number.
proof fn lemma_board_blank_exchanged(b: Board, c: int)
    requires
        b.valid(),
        0 <= c < b.tiles.len(),
        c != b.blank_index(),
    ensures
        c > b.blank_index() ==> (inversions(exchanged(b.tiles, b.blank_index(), c)) + inversions(b.tiles) + (c
            - b.blank_index() - 1)) % 2 == 0,
        c < b.blank_index() ==> (inversions(exchanged(b.tiles, b.blank_index(), c)) + inversions(b.tiles) + (
        b.blank_index() - c - 1)) % 2 == 0,
{
    lemma_blank_coords(b);
    let z = b.blank_index();
    let t = b.tiles;
    let s = exchanged(t, z, c);
    assert forall|j: int| 0 <= j < t.len() && j != z implies t[j] != 0 by {
        if t[j] == 0 {
            lemma_blank_unique(b, j);
        }
    }
    if c > z {
        assert forall|i: int, j: int| z < i < j <= c implies t[i] != t[j] by {
            assert(b.tiles[i] != b.tiles[j]);
        }
        lemma_blank_exchanged(t, z, c);
    } else {
        assert(s[c] == 0);
        assert forall|j: int| c < j <= z implies s[j] != 0 by {
            if j == z {
                assert(s[j] == t[c]);
            } else {
                assert(s[j] == t[j]);
            }
        }
        assert forall|i: int, j: int| c < i < j <= z implies s[i] != s[j] by {
            assert(s[i] == t[i]);
            if j == z {
                assert(s[j] == t[c]);
                assert(b.tiles[c] != b.tiles[i]);
            } else {
                assert(s[j] == t[j]);
                assert(b.tiles[i] != b.tiles[j]);
            }
        }
        lemma_blank_exchanged(s, c, z);
        assert(exchanged(s, c, z) =~= t);
    }
}

/// The answer of the parity test is the same for two boards of one size
/// whose numbers of inversions and whose rows of the blank differ as they
/// do after a move.
proof fn lemma_same_answer(side: int, count: int, row: int, new_count: int, new_row: int, far: bool)
    requires
        side >= 1,
        count >= 0,
        new_count >= 0,
        row >= 0,
        new_row >= 0,
        !far ==> new_row == row && (new_count + count) % 2 == 0,
        far ==> (new_row == row - 1 || new_row == row + 1) && (new_count + count + side - 1) % 2 == 0,
    ensures
        (if side % 2 == 0 {
            (new_count + new_row) % 2 == 0
        } else {
            new_count % 2 == 1
        }) == (if side % 2 == 0 {
            (count + row) % 2 == 0
        } else {
            count % 2 == 1
        }),
{
}

/// A move does not change the answer of the parity test.
pub proof fn lemma_move_keeps_answer(b: Board, d: Direction)
    requires
        b.valid(),
        b.slide(d) is Some,
    ensures
        b.slide(d)->0.side == b.side,
        unsolvable(b.slide(d)->0.tiles, b.side) == unsolvable(b.tiles, b.side),
{
    lemma_blank_coords(b);
    lemma_slide_valid(b, d);
    lemma_move_places(b, d);
    let side = b.side as int;
    let z = b.blank_index();
    let c = other_cell(b, d);
    let s = b.slide(d)->0;
    lemma_board_blank_exchanged(b, c);
    lemma_blank_row(b, z);
    lemma_blank_row(s, c);
    lemma_same_answer(
        side,
        inversions(b.tiles) as int,
        z / side,
        inversions(s.tiles) as int,
        c / side,
        vertical(d),
    );
}

/// Tiles among which no two are out of order have no inversions.
proof fn lemma_no_inversions(t: Seq<u8>)
    requires
        forall|i: int, j: int| 0 <= i < j < t.len() ==> !inverted(t, i, j),
    ensures
        inversions(t) == 0,
{
    lemma_none_below(t, t.len() as int);
}

/// In tiles among which no two are out of order no place has an
/// inversion to its right.
proof fn lemma_none_after(t: Seq<u8>, i: int, end: int)
    requires
        0 <= i,
        end <= t.len(),
        forall|a: int, j: int| 0 <= a < j < t.len() ==> !inverted(t, a, j),
    ensures
        inversions_after(t, i, end) == 0,
    decreases end - i,
{
    if end > i + 1 {
        lemma_none_after(t, i, end - 1);
        assert(!inverted(t, i, end - 1));
    }
}

/// In tiles among which no two are out of order no inversion starts
/// below any place.
proof fn lemma_none_below(t: Seq<u8>, n: int)
    requires
        n <= t.len(),
        forall|a: int, j: int| 0 <= a < j < t.len() ==> !inverted(t, a, j),
    ensures
        inversions_below(t, n) == 0,
    decreases n,
{
    if n > 0 {
        lemma_none_below(t, n - 1);
        lemma_none_after(t, n - 1, t.len() as int);
    }
}

/// On a valid board whose heuristic is zero every numbered tile `v` sits
/// in cell `v - 1` and the blank sits in the last cell.
pub proof fn lemma_goal_board(b: Board)
    requires
        b.valid(),
        b.heuristic() == 0,
    ensures
        b.tiles[b.tiles.len() - 1] == 0,
        forall|i: int| 0 <= i < b.tiles.len() - 1 ==> #[trigger] b.tiles[i] == i + 1,
{
    let side = b.side as int;
    let n = b.tiles.len() as int;
    lemma_heuristic_zero_iff_in_place(b);
    assert(1 <= side * side <= 256) by (nonlinear_arith)
        requires
            1 <= side <= 16,
    ;
    assert forall|i: int| 0 <= i < n implies b.expected_index(#[trigger] b.tiles[i]) == i by {
        assert(b.in_place(i));
        let e = b.expected_index(b.tiles[i]);
        lemma_index_coords(side, i);
        vstd::arithmetic::div_mod::lemma_fundamental_div_mod(e, side);
        assert(side * (e / side) == (e / side) * side) by (nonlinear_arith);
    }
    if b.tiles[n - 1] != 0 {
        assert(b.expected_index(b.tiles[n - 1]) == n - 1);
        assert(b.tiles[n - 1] < n);
    }
    assert forall|i: int| 0 <= i < n - 1 implies #[trigger] b.tiles[i] == i + 1 by {
        assert(b.expected_index(b.tiles[i]) == i);
        if b.tiles[i] == 0 {
            assert(b.tiles[i] != b.tiles[n - 1]);
        }
    }
}

/// The parity test does not reject a valid board whose heuristic is zero.
pub proof fn lemma_goal_passes(b: Board)
    requires
        b.valid(),
        b.heuristic() == 0,
    ensures
        !unsolvable(b.tiles, b.side),
{
    let side = b.side as int;
    let n = b.tiles.len() as int;
    lemma_goal_board(b);
    assert forall|i: int, j: int| 0 <= i < j < n implies !inverted(b.tiles, i, j) by {
        if j < n - 1 {
            assert(b.tiles[i] == i + 1);
            assert(b.tiles[j] == j + 1);
        }
    }
    lemma_no_inversions(b.tiles);
    lemma_blank_row(b, n - 1);
    lemma_cell_coords(side, side - 1, side - 1);
    assert((side - 1) * side + (side - 1) == side * side - 1) by (nonlinear_arith);
}

/// From a valid board that the parity test rejects no moves lead to a
/// board whose heuristic is zero.
pub proof fn lemma_rejected_has_no_way(start: Board, path: Seq<(Direction, Board)>)
    requires
        start.valid(),
        unsolvable(start.tiles, start.side),
    ensures
        !solves(start, path),
    decreases path.len(),
{
    if solves(start, path) {
        if path.len() == 0 {
            lemma_goal_passes(start);
        } else {
            lemma_slide_valid(start, path[0].0);
            lemma_move_keeps_answer(start, path[0].0);
            lemma_rejected_has_no_way(path[0].1, path.drop_first());
        }
    }
}

/// The search finds nothing from a valid board that the parity test
/// rejects: the test, which comes first, keeps no solution back.
pub proof fn lemma_rejected_is_not_solved(start: Board)
    requires
        start.valid(),
        unsolvable(start.tiles, start.side),
    ensures
        search(start) is None,
{
    if search(start) is Some {
        lemma_search_solves(start);
        lemma_rejected_has_no_way(start, search(start)->0);
    }
}

} // verus!
