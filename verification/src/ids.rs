//! Iterative-deepening search for a sequence of moves that reaches the goal.

use crate::graph_builder::GraphBuilder;
use crate::grid::{Board, Direction, Grid};
use std::collections::HashSet;
use vstd::prelude::*;

verus! {

broadcast use vstd::std_specs::hash::group_hash_axioms;

/// No probe runs with a limit of this size or more: a search that gets
/// here is abandoned.
pub const LIMIT_CEILING: u16 = 0xffff;

/// One depth-first probe from board `b`, reached by `depth` moves, with the
/// tiles of the boards on the current path in `on_path`. A branch ends
/// without result where the moves made plus the heuristic reach `limit`. The
/// probe succeeds at a board whose heuristic is zero; elsewhere it tries the
/// neighbors in their order and takes the first that succeeds. The result
/// lists the moves, each with the board it leads to, from the last to the
/// first.
pub open spec fn probe(b: Board, depth: nat, limit: nat, on_path: Set<Seq<u8>>) -> Option<Seq<(Direction, Board)>>
    decreases limit - depth, 1nat, 0nat,
{
    if depth + b.heuristic() >= limit {
        None
    } else if b.heuristic() == 0 {
        Some(Seq::empty())
    } else {
        probe_rest(b, 0, depth, limit, on_path.insert(b.tiles))
    }
}

/// Whether a probe that comes to board `b` after `depth` moves goes no
/// further: the moves made plus the heuristic reach the limit, or the
/// heuristic is zero.
pub open spec fn stops_at(b: Board, depth: nat, limit: nat) -> bool {
    depth + b.heuristic() >= limit || b.heuristic() == 0
}

/// The part of a probe that tries the neighbors of `b` from the `k`-th on.
pub open spec fn probe_rest(b: Board, k: nat, depth: nat, limit: nat, on_path: Set<Seq<u8>>) -> Option<
    Seq<(Direction, Board)>,
>
    decreases limit - depth, 0nat, b.neighbors().len() - k,
{
    let near = b.neighbors();
    if depth >= limit || k >= near.len() {
        None
    } else if on_path.contains(near[k as int].0.tiles) {
        probe_rest(b, k + 1, depth, limit, on_path)
    } else {
        match probe(near[k as int].0, depth + 1, limit, on_path) {
            Some(p) => Some(p.push((near[k as int].1, near[k as int].0))),
            None => probe_rest(b, k + 1, depth, limit, on_path),
        }
    }
}

/// The search from board `b` with the limits from `limit` on: the first
/// probe that succeeds gives the moves, now from the first to the last.
pub open spec fn search_from(b: Board, limit: nat) -> Option<Seq<(Direction, Board)>>
    decreases LIMIT_CEILING - limit,
{
    if limit >= LIMIT_CEILING {
        None
    } else {
        match probe(b, 0, limit, Set::empty()) {
            Some(p) => Some(p.reverse()),
            None => search_from(b, limit + 1),
        }
    }
}

/// The search from board `b`: its first limit is the heuristic of `b`.
pub open spec fn search(b: Board) -> Option<Seq<(Direction, Board)>> {
    search_from(b, b.heuristic())
}

/// Whether the moves of `path`, taken from `start` in their order, are
/// moves of the puzzle that lead through the boards of `path` to a board
/// whose heuristic is zero.
pub open spec fn solves(start: Board, path: Seq<(Direction, Board)>) -> bool
    decreases path.len(),
{
    if path.len() == 0 {
        start.heuristic() == 0
    } else {
        start.slide(path[0].0) == Some(path[0].1) && solves(path[0].1, path.drop_first())
    }
}

/// As `solves`, for moves listed from the last to the first.
pub open spec fn solves_backwards(start: Board, path: Seq<(Direction, Board)>) -> bool
    decreases path.len(),
{
    if path.len() == 0 {
        start.heuristic() == 0
    } else {
        start.slide(path.last().0) == Some(path.last().1) && solves_backwards(path.last().1, path.drop_last())
    }
}

/// Whether a probe from `start` with this depth, limit and path admits the
/// moves of `path`, listed from the first to the last: they are moves of the
/// puzzle, they lead through boards that are new to the path to a board
/// whose heuristic is zero, and at no board on the way, the start and the
/// end among them, do the moves made plus the heuristic reach the limit.
pub open spec fn admitted(
    start: Board,
    path: Seq<(Direction, Board)>,
    depth: nat,
    limit: nat,
    on_path: Set<Seq<u8>>,
) -> bool
    decreases path.len(),
{
    &&& depth + start.heuristic() < limit
    &&& if path.len() == 0 {
        start.heuristic() == 0
    } else {
        &&& start.slide(path[0].0) == Some(path[0].1)
        &&& !on_path.insert(start.tiles).contains(path[0].1.tiles)
        &&& admitted(path[0].1, path.drop_first(), depth + 1, limit, on_path.insert(start.tiles))
    }
}

/// The limit of the first probe that succeeds, among the limits from
/// `limit` on.
pub open spec fn first_limit(b: Board, limit: nat) -> Option<nat>
    decreases LIMIT_CEILING - limit,
{
    if limit >= LIMIT_CEILING {
        None
    } else if probe(b, 0, limit, Set::empty()) is Some {
        Some(limit)
    } else {
        first_limit(b, limit + 1)
    }
}

/// The tiles of the boards stored under the identifiers in `used`.
pub open spec fn tiles_of(cache: &GraphBuilder, used: Set<usize>) -> Set<Seq<u8>> {
    Set::new(
        |t: Seq<u8>|
            exists|id: usize|
                used.contains(id) && id < cache.nodes().len() && (#[trigger] cache.nodes()[id as int]).tiles == t,
    )
}

/// The moves and boards that a list of moves and identifiers stands for.
pub open spec fn path_boards(cache: &GraphBuilder, path: Seq<(Direction, usize)>) -> Seq<(Direction, Board)> {
    path.map_values(|l: (Direction, usize)| (l.0, cache.nodes()[l.1 as int]))
}

/// The moves and boards that a list of moves and states holds.
pub open spec fn path_view(path: Seq<(Direction, Grid)>) -> Seq<(Direction, Board)> {
    path.map_values(|l: (Direction, Grid)| (l.0, l.1@))
}

/// Whether `out` holds a list of moves and identifiers of `cache` that
/// stands for the moves and boards of `expected`.
pub open spec fn holds_path(
    cache: &GraphBuilder,
    out: Option<Vec<(Direction, usize)>>,
    expected: Option<Seq<(Direction, Board)>>,
) -> bool {
    &&& out is Some
    &&& expected is Some
    &&& path_in(cache, out->0@)
    &&& path_boards(cache, out->0@) == expected->0
}

/// Whether every identifier in `path` names a node of `cache`.
pub open spec fn path_in(cache: &GraphBuilder, path: Seq<(Direction, usize)>) -> bool {
    forall|k: int| 0 <= k < path.len() ==> (#[trigger] path[k]).1 < cache.nodes().len()
}

/// A probe that succeeds returns moves of the puzzle that lead to a board
/// whose heuristic is zero.
pub proof fn lemma_probe_solves(b: Board, depth: nat, limit: nat, on_path: Set<Seq<u8>>)
    requires
        probe(b, depth, limit, on_path) is Some,
    ensures
        solves_backwards(b, probe(b, depth, limit, on_path)->0),
    decreases limit - depth, 1nat, 0nat,
{
    if b.heuristic() != 0 {
        lemma_probe_rest_solves(b, 0, depth, limit, on_path.insert(b.tiles));
    }
}

/// As `lemma_probe_solves`, for the part of a probe that tries the
/// neighbors from the `k`-th on.
pub proof fn lemma_probe_rest_solves(b: Board, k: nat, depth: nat, limit: nat, on_path: Set<Seq<u8>>)
    requires
        probe_rest(b, k, depth, limit, on_path) is Some,
    ensures
        solves_backwards(b, probe_rest(b, k, depth, limit, on_path)->0),
    decreases limit - depth, 0nat, b.neighbors().len() - k,
{
    let near = b.neighbors();
    if on_path.contains(near[k as int].0.tiles) {
        lemma_probe_rest_solves(b, k + 1, depth, limit, on_path);
    } else {
        match probe(near[k as int].0, depth + 1, limit, on_path) {
            Some(p) => {
                lemma_probe_solves(near[k as int].0, depth + 1, limit, on_path);
                crate::grid::lemma_neighbors_are_slides(b, k as int);
                let q = p.push((near[k as int].1, near[k as int].0));
                assert(q.drop_last() == p);
            },
            None => {
                lemma_probe_rest_solves(b, k + 1, depth, limit, on_path);
            },
        }
    }
}

/// Moves that solve the puzzle when read from the last to the first solve
/// it in reversed order when read from the first to the last.
pub proof fn lemma_solves_reversed(start: Board, path: Seq<(Direction, Board)>)
    requires
        solves_backwards(start, path),
    ensures
        solves(start, path.reverse()),
    decreases path.len(),
{
    if path.len() > 0 {
        lemma_solves_reversed(path.last().1, path.drop_last());
        assert(path.reverse().drop_first() == path.drop_last().reverse());
    }
}

/// Whatever the search returns solves the puzzle: its moves, taken from
/// the start in their order, lead to a board whose heuristic is zero.
pub proof fn lemma_search_solves(start: Board)
    requires
        search(start) is Some,
    ensures
        solves(start, search(start)->0),
{
    lemma_search_from_solves(start, start.heuristic());
}

/// As `lemma_search_solves`, for the search with the limits from `limit` on.
pub proof fn lemma_search_from_solves(start: Board, limit: nat)
    requires
        search_from(start, limit) is Some,
    ensures
        solves(start, search_from(start, limit)->0),
    decreases LIMIT_CEILING - limit,
{
    match probe(start, 0, limit, Set::empty()) {
        Some(p) => {
            lemma_probe_solves(start, 0, limit, Set::empty());
            lemma_solves_reversed(start, p);
        },
        None => {
            lemma_search_from_solves(start, limit + 1);
        },
    }
}

/// What a probe returns, it admits.
pub proof fn lemma_probe_admitted(b: Board, depth: nat, limit: nat, on_path: Set<Seq<u8>>)
    requires
        probe(b, depth, limit, on_path) is Some,
    ensures
        admitted(b, probe(b, depth, limit, on_path)->0.reverse(), depth, limit, on_path),
    decreases limit - depth, 1nat, 0nat,
{
    if b.heuristic() == 0 {
        assert(Seq::<(Direction, Board)>::empty().reverse() =~= Seq::<(Direction, Board)>::empty());
    } else {
        lemma_probe_rest_admitted(b, 0, depth, limit, on_path.insert(b.tiles));
    }
}

/// As `lemma_probe_admitted`, for the part of a probe that tries the
/// neighbors from the `k`-th on.
pub proof fn lemma_probe_rest_admitted(b: Board, k: nat, depth: nat, limit: nat, on_path: Set<Seq<u8>>)
    requires
        probe_rest(b, k, depth, limit, on_path) is Some,
    ensures
        ({
            let path = probe_rest(b, k, depth, limit, on_path)->0.reverse();
            &&& path.len() > 0
            &&& b.slide(path[0].0) == Some(path[0].1)
            &&& !on_path.contains(path[0].1.tiles)
            &&& admitted(path[0].1, path.drop_first(), depth + 1, limit, on_path)
        }),
    decreases limit - depth, 0nat, b.neighbors().len() - k,
{
    let near = b.neighbors();
    if on_path.contains(near[k as int].0.tiles) {
        lemma_probe_rest_admitted(b, k + 1, depth, limit, on_path);
    } else {
        match probe(near[k as int].0, depth + 1, limit, on_path) {
            Some(p) => {
                lemma_probe_admitted(near[k as int].0, depth + 1, limit, on_path);
                crate::grid::lemma_neighbors_are_slides(b, k as int);
                let q = p.push((near[k as int].1, near[k as int].0));
                assert(q.reverse()[0] == (near[k as int].1, near[k as int].0));
                assert(q.reverse().drop_first() =~= p.reverse());
            },
            None => {
                lemma_probe_rest_admitted(b, k + 1, depth, limit, on_path);
            },
        }
    }
}

/// Where a probe admits some moves, it succeeds.
pub proof fn lemma_admitted_found(
    b: Board,
    path: Seq<(Direction, Board)>,
    depth: nat,
    limit: nat,
    on_path: Set<Seq<u8>>,
)
    requires
        admitted(b, path, depth, limit, on_path),
    ensures
        probe(b, depth, limit, on_path) is Some,
    decreases path.len(),
{
    if b.heuristic() != 0 {
        let inner = on_path.insert(b.tiles);
        lemma_admitted_found(path[0].1, path.drop_first(), depth + 1, limit, inner);
        crate::grid::lemma_neighbors_cover_slides(b, path[0].0);
        let k = choose|k: int|
            0 <= k < b.neighbors().len() && #[trigger] b.neighbors()[k] == (b.slide(path[0].0)->0, path[0].0);
        lemma_rest_found(b, 0, k as nat, depth, limit, inner);
    }
}

/// The part of a probe that tries the neighbors from the `k`-th on
/// succeeds when a probe from a later neighbor that is new to the path
/// succeeds.
pub proof fn lemma_rest_found(b: Board, k: nat, later: nat, depth: nat, limit: nat, on_path: Set<Seq<u8>>)
    requires
        k <= later < b.neighbors().len(),
        depth < limit,
        !on_path.contains(b.neighbors()[later as int].0.tiles),
        probe(b.neighbors()[later as int].0, depth + 1, limit, on_path) is Some,
    ensures
        probe_rest(b, k, depth, limit, on_path) is Some,
    decreases later - k,
{
    if k < later {
        lemma_rest_found(b, k + 1, later, depth, limit, on_path);
    }
}

/// The search succeeds exactly when one of its probes does.
pub proof fn lemma_search_at_first_limit(b: Board, limit: nat)
    ensures
        search_from(b, limit) is Some <==> first_limit(b, limit) is Some,
        first_limit(b, limit) matches Some(first) ==> limit <= first < LIMIT_CEILING && search_from(b, limit)
            == Some(probe(b, 0, first, Set::empty())->0.reverse()) && probe(b, 0, first, Set::empty()) is Some,
    decreases LIMIT_CEILING - limit,
{
    if limit < LIMIT_CEILING && probe(b, 0, limit, Set::empty()) is None {
        lemma_search_at_first_limit(b, limit + 1);
    }
}

/// No probe with a limit from `limit` on and below the first limit that
/// succeeds admits any moves.
pub proof fn lemma_nothing_below_first_limit(b: Board, limit: nat, below: nat, path: Seq<(Direction, Board)>)
    requires
        limit <= below < LIMIT_CEILING,
        first_limit(b, limit) is None || below < first_limit(b, limit)->0,
    ensures
        !admitted(b, path, 0, below, Set::empty()),
    decreases below - limit,
{
    if admitted(b, path, 0, below, Set::empty()) {
        lemma_admitted_found(b, path, 0, below, Set::empty());
    }
    if limit < below {
        lemma_nothing_below_first_limit(b, limit + 1, below, path);
    }
}

/// The search succeeds exactly when, for some limit below the ceiling,
/// there are moves that a probe from the start with that limit admits.
pub proof fn lemma_search_succeeds_iff_admitted(start: Board)
    ensures
        search(start) is Some <==> exists|limit: nat, path: Seq<(Direction, Board)>|
            limit < LIMIT_CEILING && #[trigger] admitted(start, path, 0, limit, Set::empty()),
{
    let h = start.heuristic();
    lemma_search_at_first_limit(start, h);
    if search(start) is Some {
        let first = first_limit(start, h)->0;
        lemma_probe_admitted(start, 0, first, Set::empty());
        assert(admitted(start, search(start)->0, 0, first, Set::empty()));
    }
    if exists|limit: nat, path: Seq<(Direction, Board)>|
        limit < LIMIT_CEILING && #[trigger] admitted(start, path, 0, limit, Set::empty()) {
        let (limit, path) = choose|limit: nat, path: Seq<(Direction, Board)>|
            limit < LIMIT_CEILING && #[trigger] admitted(start, path, 0, limit, Set::empty());
        if search(start) is None {
            lemma_nothing_below_first_limit(start, h, limit, path);
        }
    }
}

/// The moves that the search returns are admitted by a probe with the
/// least limit with which a probe from the start admits any moves at all.
pub proof fn lemma_search_takes_least_limit(start: Board, limit: nat, path: Seq<(Direction, Board)>)
    requires
        limit < LIMIT_CEILING,
        admitted(start, path, 0, limit, Set::empty()),
    ensures
        search(start) is Some,
        exists|first: nat| first <= limit && #[trigger] admitted(start, search(start)->0, 0, first, Set::empty()),
{
    let h = start.heuristic();
    lemma_search_at_first_limit(start, h);
    if first_limit(start, h) is None || limit < first_limit(start, h)->0 {
        lemma_nothing_below_first_limit(start, h, limit, path);
    }
    let first = first_limit(start, h)->0;
    lemma_probe_admitted(start, 0, first, Set::empty());
    assert(admitted(start, search(start)->0, 0, first, Set::empty()));
}

/// What a probe admits are moves that solve the puzzle.
pub proof fn lemma_admitted_solves(
    start: Board,
    path: Seq<(Direction, Board)>,
    depth: nat,
    limit: nat,
    on_path: Set<Seq<u8>>,
)
    requires
        admitted(start, path, depth, limit, on_path),
    ensures
        solves(start, path),
    decreases path.len(),
{
    if path.len() > 0 {
        lemma_admitted_solves(path[0].1, path.drop_first(), depth + 1, limit, on_path.insert(start.tiles));
    }
}

/// The boards stored under identifiers of a graph are the same in every
/// graph that extends it.
pub proof fn lemma_tiles_of_stays(before: &GraphBuilder, after: &GraphBuilder, used: Set<usize>)
    requires
        after.extends(before),
        forall|id: usize| used.contains(id) ==> id < before.nodes().len(),
    ensures
        tiles_of(after, used) == tiles_of(before, used),
{
    assert forall|t: Seq<u8>| tiles_of(after, used).contains(t) == tiles_of(before, used).contains(t) by {
        if tiles_of(after, used).contains(t) {
            let id = choose|id: usize|
                used.contains(id) && id < after.nodes().len() && (#[trigger] after.nodes()[id as int]).tiles == t;
            assert(after.nodes().subrange(0, before.nodes().len() as int)[id as int] == before.nodes()[id as int]);
            assert(before.nodes()[id as int].tiles == t);
        }
        if tiles_of(before, used).contains(t) {
            let id = choose|id: usize|
                used.contains(id) && id < before.nodes().len() && (#[trigger] before.nodes()[id as int]).tiles == t;
            assert(after.nodes().subrange(0, before.nodes().len() as int)[id as int] == before.nodes()[id as int]);
            assert(after.nodes()[id as int].tiles == t);
        }
    }
    assert(tiles_of(after, used) =~= tiles_of(before, used));
}

/// One more identifier on the path is one more board on the path.
pub proof fn lemma_tiles_of_insert(cache: &GraphBuilder, used: Set<usize>, node: usize)
    requires
        node < cache.nodes().len(),
    ensures
        tiles_of(cache, used.insert(node)) == tiles_of(cache, used).insert(cache.nodes()[node as int].tiles),
{
    let a = tiles_of(cache, used.insert(node));
    let b = tiles_of(cache, used).insert(cache.nodes()[node as int].tiles);
    assert forall|t: Seq<u8>| a.contains(t) == b.contains(t) by {
        if a.contains(t) {
            let id = choose|id: usize|
                used.insert(node).contains(id) && id < cache.nodes().len() && (#[trigger] cache.nodes()[id as int]).tiles
                    == t;
            if id != node {
                assert(used.contains(id));
                assert(tiles_of(cache, used).contains(t));
            }
        }
        if b.contains(t) {
            if t == cache.nodes()[node as int].tiles {
                assert(used.insert(node).contains(node));
            } else {
                let id = choose|id: usize|
                    used.contains(id) && id < cache.nodes().len() && (#[trigger] cache.nodes()[id as int]).tiles == t;
                assert(used.insert(node).contains(id));
            }
        }
    }
    assert(a =~= b);
}

/// A stored board is on the path exactly when its identifier is.
pub proof fn lemma_on_path(cache: &GraphBuilder, used: Set<usize>, node: usize)
    requires
        cache.wf(),
        node < cache.nodes().len(),
    ensures
        tiles_of(cache, used).contains(cache.nodes()[node as int].tiles) <==> used.contains(node),
{
    if tiles_of(cache, used).contains(cache.nodes()[node as int].tiles) {
        let id = choose|id: usize|
            used.contains(id) && id < cache.nodes().len() && (#[trigger] cache.nodes()[id as int]).tiles
                == cache.nodes()[node as int].tiles;
        cache.lemma_stored_once(id as int, node as int);
    }
}

/// A list of moves and identifiers stands for the same boards in every
/// graph that extends the one it was made for.
pub proof fn lemma_path_stays(before: &GraphBuilder, after: &GraphBuilder, path: Seq<(Direction, usize)>)
    requires
        after.extends(before),
        path_in(before, path),
    ensures
        path_in(after, path),
        path_boards(after, path) == path_boards(before, path),
        after.labelled(path) == before.labelled(path),
{
    assert forall|k: int| 0 <= k < path.len() implies after.nodes()[(#[trigger] path[k]).1 as int]
        == before.nodes()[path[k].1 as int] by {
        assert(after.nodes().subrange(0, before.nodes().len() as int)[path[k].1 as int]
            == before.nodes()[path[k].1 as int]);
    }
    assert(path_boards(after, path) =~= path_boards(before, path));
    assert(after.labelled(path) =~= before.labelled(path));
}

/// The heuristic of `grid`, and its sum with the length of the path that
/// led there.
fn f(grid: &Grid, path_len: u16) -> (r: (u32, u16))
    requires
        grid@.valid(),
    ensures
        r.0 == path_len + grid@.heuristic(),
        r.1 == grid@.heuristic(),
{
    let heuristic = grid.heuristic();
    (path_len as u32 + heuristic as u32, heuristic)
}

/// One depth-first probe from node `node` of `cache`, reached by `depth`
/// moves, with the identifiers of the nodes on the current path in `used`.
/// The nodes that the probe visits are expanded in `cache`, and the probe
/// walks the edges of `cache`. When it succeeds, `output_path` holds the
/// moves from the last to the first, each with the identifier of the node
/// it leads to. `used` is left as it was.
pub fn find_solution_helper(
    cache: &mut GraphBuilder,
    node: usize,
    depth: u16,
    f_limit: u16,
    used: &mut HashSet<usize>,
    output_path: &mut Option<Vec<(Direction, usize)>>,
) -> (found: bool)
    requires
        old(cache).wf(),
        node < old(cache).nodes().len(),
        !old(used)@.contains(node),
        forall|id: usize| old(used)@.contains(id) ==> id < old(cache).nodes().len(),
    ensures
        final(cache).wf(),
        final(cache).extends(old(cache)),
        final(used)@ == old(used)@,
        found == probe(
            old(cache).nodes()[node as int],
            depth as nat,
            f_limit as nat,
            tiles_of(old(cache), old(used)@),
        ) is Some,
        found ==> holds_path(
            final(cache),
            *final(output_path),
            probe(old(cache).nodes()[node as int], depth as nat, f_limit as nat, tiles_of(old(cache), old(used)@)),
        ),
        !found ==> *final(output_path) == *old(output_path),
        stops_at(old(cache).nodes()[node as int], depth as nat, f_limit as nat) ==> final(cache).same_as(old(cache)),
        !stops_at(old(cache).nodes()[node as int], depth as nat, f_limit as nat) ==> final(cache).expanded().contains(
            node,
        ),
    decreases f_limit - depth,
{
    let ghost b = cache.nodes()[node as int];
    let ghost on_path = tiles_of(cache, used@);
    let (f_val, h_val) = f(cache.state(node), depth);
    if f_val >= f_limit as u32 {
        return false;
    }
    if h_val == 0 {
        *output_path = Some(Vec::new());
        assert(path_boards(cache, Seq::<(Direction, usize)>::empty()) =~= Seq::<(Direction, Board)>::empty());
        return true;
    }
    used.insert(node);
    cache.generate_node_neighbors(node);
    let links = cache.neighbor_links(node);
    let ghost inner = on_path.insert(b.tiles);
    let ghost near = b.neighbors();
    proof {
        assert(cache.nodes().subrange(0, old(cache).nodes().len() as int)[node as int] == b);
        lemma_tiles_of_insert(old(cache), old(used)@, node);
        lemma_tiles_of_stays(old(cache), cache, used@);
        assert(near.len() == links@.len());
    }
    let mut found = false;
    let mut k: usize = 0;
    while k < links.len() && !found
        invariant
            cache.wf(),
            cache.extends(old(cache)),
            node < old(cache).nodes().len(),
            cache.nodes()[node as int] == b,
            cache.expanded().contains(node),
            depth < f_limit,
            used@ == old(used)@.insert(node),
            forall|id: usize| used@.contains(id) ==> id < cache.nodes().len(),
            tiles_of(cache, used@) == inner,
            near == b.neighbors(),
            cache.labelled(links@) == near,
            path_in(cache, links@),
            k <= links@.len(),
            !found ==> probe_rest(b, k as nat, depth as nat, f_limit as nat, inner) == probe_rest(
                b,
                0,
                depth as nat,
                f_limit as nat,
                inner,
            ) && *output_path == *old(output_path),
            found ==> holds_path(cache, *output_path, probe_rest(b, 0, depth as nat, f_limit as nat, inner)),
        decreases links@.len() - k,
    {
        let dir = links[k].0;
        let adj = links[k].1;
        let ghost mid = *cache;
        proof {
            assert(cache.labelled(links@)[k as int] == (cache.nodes()[adj as int], dir));
            assert(near[k as int] == (cache.nodes()[adj as int], dir));
            lemma_on_path(cache, used@, adj);
        }
        if !used.contains(&adj) {
            if find_solution_helper(cache, adj, depth + 1, f_limit, used, output_path) {
                let mut path = output_path.take().unwrap();
                let ghost tail = path@;
                path.push((dir, adj));
                proof {
                    assert(mid.nodes().subrange(0, mid.nodes().len() as int) == mid.nodes());
                    assert(cache.nodes().subrange(0, mid.nodes().len() as int)[adj as int] == mid.nodes()[adj as int]);
                    assert(path_boards(cache, path@) =~= path_boards(cache, tail).push(
                        (dir, cache.nodes()[adj as int]),
                    ));
                }
                *output_path = Some(path);
                found = true;
            }
            proof {
                lemma_tiles_of_stays(&mid, cache, used@);
                lemma_path_stays(&mid, cache, links@);
                assert(cache.nodes().subrange(0, mid.nodes().len() as int)[node as int] == mid.nodes()[node as int]);
            }
        }
        k = k + 1;
    }
    used.remove(&node);
    assert(used@ =~= old(used)@);
    found
}

/// Searches for moves that lead from `start_grid` to the goal: probes with
/// growing limits, the first of them the heuristic of the start, until one
/// succeeds. The result lists the moves from the first to the last, each
/// with the state it leads to. Nothing is returned when the search is
/// abandoned at the ceiling of the limits: that is when no probe with a
/// limit below the ceiling admits any moves.
pub fn find_solution(start_grid: Grid) -> (r: Option<Vec<(Direction, Grid)>>)
    requires
        start_grid@.valid(),
    ensures
        r is Some <==> search(start_grid@) is Some,
        r is Some <==> exists|limit: nat, path: Seq<(Direction, Board)>|
            limit < LIMIT_CEILING && #[trigger] admitted(start_grid@, path, 0, limit, Set::empty()),
        r matches Some(path) ==> path_view(path@) == search(start_grid@)->0 && solves(start_grid@, path_view(path@)),
{
    let ghost start = start_grid@;
    proof {
        lemma_search_succeeds_iff_admitted(start);
    }
    let mut path: Option<Vec<(Direction, usize)>> = None;
    let (_, h_val) = f(&start_grid, 0);
    let mut f_threshold: u16 = h_val;
    let mut cache = GraphBuilder::new();
    assert(!cache.holds(start.tiles));
    let start_idx = cache.get_or_create_node(start_grid);
    let mut used: HashSet<usize> = HashSet::new();
    let mut found = false;
    while f_threshold < LIMIT_CEILING && !found
        invariant
            cache.wf(),
            start_idx < cache.nodes().len(),
            cache.nodes()[start_idx as int] == start,
            used@ == Set::<usize>::empty(),
            f_threshold <= LIMIT_CEILING,
            !found ==> search_from(start, f_threshold as nat) == search(start),
            found ==> search(start) is Some && path is Some && path_in(&cache, path->0@) && path_boards(
                &cache,
                path->0@,
            ).reverse() == search(start)->0,
        decreases LIMIT_CEILING - f_threshold + (if found { 0int } else { 1int }),
    {
        let ghost mid = cache;
        proof {
            assert(tiles_of(&cache, used@) =~= Set::<Seq<u8>>::empty());
        }
        if find_solution_helper(&mut cache, start_idx, 0, f_threshold, &mut used, &mut path) {
            found = true;
        } else {
            f_threshold = f_threshold + 1;
        }
        proof {
            assert(cache.nodes().subrange(0, mid.nodes().len() as int)[start_idx as int] == mid.nodes()[start_idx as int]);
        }
    }
    if !found {
        return None;
    }
    let ids = path.unwrap();
    let ghost backwards = path_boards(&cache, ids@);
    let mut out: Vec<(Direction, Grid)> = Vec::new();
    let mut i: usize = ids.len();
    while i > 0
        invariant
            cache.wf(),
            path_in(&cache, ids@),
            backwards == path_boards(&cache, ids@),
            i <= ids@.len(),
            out@.len() == ids@.len() - i,
            forall|j: int| 0 <= j < out@.len() ==> path_view(out@)[j] == backwards[ids@.len() - 1 - j],
        decreases i,
    {
        i = i - 1;
        let state = cache.state(ids[i].1).clone();
        let ghost before = out@;
        out.push((ids[i].0, state));
        proof {
            assert(backwards[i as int] == (ids@[i as int].0, cache.nodes()[ids@[i as int].1 as int]));
            assert forall|j: int| 0 <= j < out@.len() implies path_view(out@)[j] == backwards[ids@.len() - 1 - j] by {
                if j < before.len() {
                    assert(out@[j] == before[j]);
                    assert(path_view(before)[j] == backwards[ids@.len() - 1 - j]);
                }
            }
        }
    }
    proof {
        assert(path_view(out@) =~= backwards.reverse());
        lemma_search_solves(start);
    }
    Some(out)
}

} // verus!
