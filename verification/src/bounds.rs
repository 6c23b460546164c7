//! How long the moves that the search finds can be: at most twice as many
//! as on any way to the goal that visits no board twice.

use crate::grid::{gap, lemma_blank_coords, lemma_cell_coords, lemma_slide_valid, Board, Direction};
use crate::ids::{admitted, lemma_search_takes_least_limit, search, solves, LIMIT_CEILING};
use crate::parity::{lemma_move_places, other_cell};
use vstd::prelude::*;

verus! {

/// Whether the moves of `path` from `start` lead through boards that are
/// new to the path: none of them is in `on_path`, the start, or a board
/// that was passed before.
pub open spec fn fresh(start: Board, path: Seq<(Direction, Board)>, on_path: Set<Seq<u8>>) -> bool
    decreases path.len(),
{
    if path.len() == 0 {
        true
    } else {
        &&& !on_path.insert(start.tiles).contains(path[0].1.tiles)
        &&& fresh(path[0].1, path.drop_first(), on_path.insert(start.tiles))
    }
}

/// Two boards of one kind that differ in cells `p` and `q` at most differ
/// in the sum of distances by what these two cells make out.
proof fn lemma_sum_differs(b: Board, s: Board, p: int, q: int, n: nat)
    requires
        b.side == s.side,
        b.blank_goal == s.blank_goal,
        b.tiles.len() == s.tiles.len(),
        p != q,
        forall|i: int| 0 <= i < b.tiles.len() && i != p && i != q ==> b.tiles[i] == s.tiles[i],
        n <= b.tiles.len(),
    ensures
        s.distance_sum(n) + (if 0 <= p < n {
            b.distance(p)
        } else {
            0
        }) + (if 0 <= q < n {
            b.distance(q)
        } else {
            0
        }) == b.distance_sum(n) + (if 0 <= p < n {
            s.distance(p)
        } else {
            0
        }) + (if 0 <= q < n {
            s.distance(q)
        } else {
            0
        }),
    decreases n,
{
    if n > 0 {
        lemma_sum_differs(b, s, p, q, (n - 1) as nat);
        if n - 1 != p && n - 1 != q {
            assert(b.tiles[n - 1] == s.tiles[n - 1]);
        }
    }
}

/// Between two cells that touch, the distance to any position differs by
/// one at most.
proof fn lemma_step_changes_gap(side: int, i: int, j: int, ex: int, ey: int)
    requires
        side >= 1,
        0 <= i,
        0 <= j,
        (j == i + 1 && i / side == j / side) || (i == j + 1 && i / side == j / side) || j == i + side || i == j
            + side,
    ensures
        gap(j / side, ex) + gap(j % side, ey) <= gap(i / side, ex) + gap(i % side, ey) + 1,
{
    vstd::arithmetic::div_mod::lemma_fundamental_div_mod(i, side);
    vstd::arithmetic::div_mod::lemma_fundamental_div_mod(j, side);
    vstd::arithmetic::div_mod::lemma_mod_bound(i, side);
    vstd::arithmetic::div_mod::lemma_mod_bound(j, side);
    if j == i + side {
        assert((i / side + 1) * side == side * (i / side) + side) by (nonlinear_arith);
        vstd::arithmetic::div_mod::lemma_fundamental_div_mod_converse(j, side, i / side + 1, i % side);
    } else if i == j + side {
        assert((j / side + 1) * side == side * (j / side) + side) by (nonlinear_arith);
        vstd::arithmetic::div_mod::lemma_fundamental_div_mod_converse(i, side, j / side + 1, j % side);
    }
}

/// A move changes the heuristic by two at most.
pub proof fn lemma_move_changes_heuristic(b: Board, d: Direction)
    requires
        b.valid(),
        b.slide(d) is Some,
    ensures
        b.heuristic() <= b.slide(d)->0.heuristic() + 2,
        b.slide(d)->0.heuristic() <= b.heuristic() + 2,
{
    lemma_blank_coords(b);
    lemma_slide_valid(b, d);
    lemma_move_places(b, d);
    let side = b.side as int;
    let z = b.blank_index();
    let c = other_cell(b, d);
    let s = b.slide(d)->0;
    lemma_sum_differs(b, s, z, c, b.tiles.len());
    let blank = b.expected_pos(0);
    let tile = b.expected_pos(b.tiles[c]);
    assert(s.expected_pos(0) == blank);
    assert(s.expected_pos(b.tiles[c]) == tile);
    assert(s.tiles[z] == b.tiles[c]);
    lemma_cell_coords(side, b.blank_x(), b.blank_y());
    lemma_step_changes_gap(side, z, c, blank.0, blank.1);
    lemma_step_changes_gap(side, c, z, blank.0, blank.1);
    lemma_step_changes_gap(side, z, c, tile.0, tile.1);
    lemma_step_changes_gap(side, c, z, tile.0, tile.1);
}

/// The heuristic of a board is at most twice the number of moves on any
/// way from there to a board whose heuristic is zero.
pub proof fn lemma_heuristic_at_most_twice_the_moves(b: Board, path: Seq<(Direction, Board)>)
    requires
        b.valid(),
        solves(b, path),
    ensures
        b.heuristic() <= 2 * path.len(),
    decreases path.len(),
{
    if path.len() > 0 {
        lemma_slide_valid(b, path[0].0);
        lemma_move_changes_heuristic(b, path[0].0);
        lemma_heuristic_at_most_twice_the_moves(path[0].1, path.drop_first());
    }
}

/// A probe admits every way to the goal through boards that are new to
/// the path, if its limit leaves room for twice the moves of that way.
pub proof fn lemma_fresh_way_admitted(
    b: Board,
    path: Seq<(Direction, Board)>,
    depth: nat,
    limit: nat,
    on_path: Set<Seq<u8>>,
)
    requires
        b.valid(),
        solves(b, path),
        fresh(b, path, on_path),
        depth + 2 * path.len() < limit,
    ensures
        admitted(b, path, depth, limit, on_path),
    decreases path.len(),
{
    lemma_heuristic_at_most_twice_the_moves(b, path);
    if path.len() > 0 {
        lemma_slide_valid(b, path[0].0);
        lemma_fresh_way_admitted(path[0].1, path.drop_first(), depth + 1, limit, on_path.insert(b.tiles));
    }
}

/// What a probe admits has fewer moves than the limit leaves room for.
pub proof fn lemma_admitted_is_short(
    b: Board,
    path: Seq<(Direction, Board)>,
    depth: nat,
    limit: nat,
    on_path: Set<Seq<u8>>,
)
    requires
        admitted(b, path, depth, limit, on_path),
    ensures
        depth + path.len() < limit,
    decreases path.len(),
{
    if path.len() > 0 {
        lemma_admitted_is_short(path[0].1, path.drop_first(), depth + 1, limit, on_path.insert(b.tiles));
    }
}

/// Where some way leads from a valid board to the goal through boards
/// that are all different, with fewer than half as many moves as the
/// ceiling of the limits, the search succeeds, and it finds at most twice
/// as many moves as that way has.
pub proof fn lemma_at_most_twice_as_long(start: Board, way: Seq<(Direction, Board)>)
    requires
        start.valid(),
        solves(start, way),
        fresh(start, way, Set::empty()),
        2 * way.len() + 1 < LIMIT_CEILING,
    ensures
        search(start) is Some,
        search(start)->0.len() <= 2 * way.len(),
{
    let limit = (2 * way.len() + 1) as nat;
    lemma_fresh_way_admitted(start, way, 0, limit, Set::empty());
    lemma_search_takes_least_limit(start, limit, way);
    let first = choose|first: nat|
        first <= limit && #[trigger] admitted(start, search(start)->0, 0, first, Set::empty());
    lemma_admitted_is_short(start, search(start)->0, 0, first, Set::empty());
}

} // verus!
