//! The lazily expanded graph of board states.
//!
//! Nodes and labelled edges live in a `petgraph` graph. Verus does not read
//! that crate: what this module relies on is stated in the contracts of the
//! small functions at the top of the file, each of which makes one call.

use crate::grid::{
    labelled_boards, lemma_neighbor_is_adjacent_swap, lemma_neighbors_cover_slides, lemma_side_of_len,
    lemma_slide_back, lemma_slide_injective, tiles_digest, Board, Direction, Grid,
};
use petgraph::graph::{EdgeIndex, Graph, NodeIndex};
use petgraph::Undirected;
use std::collections::{HashMap, HashSet};
use vstd::prelude::*;

verus! {

broadcast use vstd::std_specs::hash::group_hash_axioms;

/// `petgraph::graph::Graph`, taken as a whole: what it holds is named by
/// `graph_nodes` and `graph_edges`.
#[verifier::external_type_specification]
#[verifier::external_body]
#[verifier::reject_recursive_types(N)]
#[verifier::reject_recursive_types(E)]
#[verifier::reject_recursive_types(Ty)]
#[verifier::reject_recursive_types(Ix)]
pub struct ExGraph<N, E, Ty, Ix>(Graph<N, E, Ty, Ix>);

/// `petgraph::Undirected`, the marker of graphs whose edges have no
/// direction.
#[verifier::external_type_specification]
#[verifier::external_body]
pub struct ExUndirected(Undirected);

/// The boards stored as node weights, by node index.
pub uninterp spec fn graph_nodes(g: Graph<Grid, Direction, Undirected, usize>) -> Seq<Board>;

/// The edges by edge index: the two node indices in the order in which
/// they were given when the edge was added, and the edge's weight.
pub uninterp spec fn graph_edges(g: Graph<Grid, Direction, Undirected, usize>) -> Seq<(int, int, Direction)>;

/// Whether the edge `e` joins `a` and `b`, in either order.
pub open spec fn joins(e: (int, int, Direction), a: int, b: int) -> bool {
    (e.0 == a && e.1 == b) || (e.0 == b && e.1 == a)
}

/// Whether `list` holds exactly the nodes that an edge joins with `a`.
pub open spec fn lists_neighbors(list: Seq<usize>, edges: Seq<(int, int, Direction)>, a: int) -> bool {
    forall|b: usize|
        list.contains(b) <==> exists|e: int| 0 <= e < edges.len() && joins(#[trigger] edges[e], a, b as int)
}

/// `Graph::with_capacity`, asked for no room in advance: a graph without
/// nodes and edges.
#[verifier::external_body]
fn graph_new() -> (g: Graph<Grid, Direction, Undirected, usize>)
    ensures
        graph_nodes(g) == Seq::<Board>::empty(),
        graph_edges(g) == Seq::<(int, int, Direction)>::empty(),
{
    Graph::with_capacity(0, 0)
}

/// `Graph::node_count`: the number of nodes.
#[verifier::external_body]
fn graph_node_count(g: &Graph<Grid, Direction, Undirected, usize>) -> (r: usize)
    ensures
        r == graph_nodes(*g).len(),
{
    g.node_count()
}

/// `Graph::add_node`: the weight becomes the last node, whose index is
/// returned; the other nodes and the edges stay. With `usize` indices the
/// graph has no limit of its own on the number of nodes; it keeps them in
/// a `Vec`, so their number fits in `usize`.
#[verifier::external_body]
fn graph_add_node(g: &mut Graph<Grid, Direction, Undirected, usize>, weight: Grid) -> (r: usize)
    ensures
        graph_nodes(*final(g)) == graph_nodes(*old(g)).push(weight@),
        graph_nodes(*final(g)).len() <= usize::MAX,
        graph_edges(*final(g)) == graph_edges(*old(g)),
        r == graph_nodes(*old(g)).len(),
{
    g.add_node(weight).index()
}

/// `Graph::node_weight`: the weight of node `a`, or nothing when the graph
/// has no such node.
#[verifier::external_body]
fn graph_node_weight(g: &Graph<Grid, Direction, Undirected, usize>, a: usize) -> (r: Option<&Grid>)
    ensures
        a < graph_nodes(*g).len() ==> r is Some && r->0@ == graph_nodes(*g)[a as int],
        a >= graph_nodes(*g).len() ==> r is None,
{
    g.node_weight(NodeIndex::new(a))
}

/// `Graph::add_edge`: the edge from `a` to `b` becomes the last edge, whose
/// index is returned; the nodes and the other edges stay. The call panics
/// when a node is missing, which `requires` leaves out; with `usize`
/// indices the graph has no limit of its own on the number of edges; it
/// keeps them in a `Vec`, so their number fits in `usize`.
#[verifier::external_body]
fn graph_add_edge(g: &mut Graph<Grid, Direction, Undirected, usize>, a: usize, b: usize, weight: Direction) -> (r:
    usize)
    requires
        a < graph_nodes(*old(g)).len(),
        b < graph_nodes(*old(g)).len(),
    ensures
        graph_nodes(*final(g)) == graph_nodes(*old(g)),
        graph_edges(*final(g)) == graph_edges(*old(g)).push((a as int, b as int, weight)),
        graph_edges(*final(g)).len() <= usize::MAX,
        r == graph_edges(*old(g)).len(),
{
    g.add_edge(NodeIndex::new(a), NodeIndex::new(b), weight).index()
}

/// `Graph::find_edge_undirected`: the index of an edge that joins `a` and
/// `b`, with `true` when it was added from `a` to `b` and `false` when it
/// was added from `b` to `a`; nothing when no edge joins them.
#[verifier::external_body]
fn graph_find_edge(g: &Graph<Grid, Direction, Undirected, usize>, a: usize, b: usize) -> (r: Option<
    (usize, bool),
>)
    ensures
        r matches Some((e, forward)) ==> e < graph_edges(*g).len() && graph_edges(*g)[e as int].0 == (if forward {
            a
        } else {
            b
        }) && graph_edges(*g)[e as int].1 == (if forward {
            b
        } else {
            a
        }),
        r is None ==> forall|e: int|
            0 <= e < graph_edges(*g).len() ==> !joins(#[trigger] graph_edges(*g)[e], a as int, b as int),
{
    match g.find_edge_undirected(NodeIndex::new(a), NodeIndex::new(b)) {
        Some((e, petgraph::Direction::Outgoing)) => Some((e.index(), true)),
        Some((e, petgraph::Direction::Incoming)) => Some((e.index(), false)),
        None => None,
    }
}

/// `Graph::edge_weight`: the weight of edge `e`, or nothing when the graph
/// has no such edge.
#[verifier::external_body]
fn graph_edge_weight(g: &Graph<Grid, Direction, Undirected, usize>, e: usize) -> (r: Option<&Direction>)
    ensures
        e < graph_edges(*g).len() ==> r == Some(&graph_edges(*g)[e as int].2),
        e >= graph_edges(*g).len() ==> r is None,
{
    g.edge_weight(EdgeIndex::new(e))
}

/// `Graph::neighbors`: the nodes that an edge joins with `a`. The order in
/// which they come and how often one comes are left open.
#[verifier::external_body]
fn graph_neighbors(g: &Graph<Grid, Direction, Undirected, usize>, a: usize) -> (r: Vec<usize>)
    ensures
        lists_neighbors(r@, graph_edges(*g), a as int),
{
    g.neighbors(NodeIndex::new(a)).map(|n| n.index()).collect()
}

/// Whether one of the edges joins `a` and `b`.
pub open spec fn joined_in(edges: Seq<(int, int, Direction)>, a: int, b: int) -> bool {
    exists|e: int| 0 <= e < edges.len() && joins(#[trigger] edges[e], a, b)
}

/// Whether one of the boards holds these tiles.
pub open spec fn held_in(nodes: Seq<Board>, tiles: Seq<u8>) -> bool {
    exists|i: int| 0 <= i < nodes.len() && (#[trigger] nodes[i]).tiles == tiles
}

/// The place of a board that holds these tiles.
pub open spec fn place_in(nodes: Seq<Board>, tiles: Seq<u8>) -> int {
    choose|i: int| 0 <= i < nodes.len() && (#[trigger] nodes[i]).tiles == tiles
}

/// The nodes and edges after the neighbor `adj` of node `a`, which the move
/// `dir` leads to, has been looked up or else stored, and joined to `a`
/// unless an edge joined the two already.
pub open spec fn with_neighbor(
    nodes: Seq<Board>,
    edges: Seq<(int, int, Direction)>,
    a: int,
    adj: Board,
    dir: Direction,
) -> (Seq<Board>, Seq<(int, int, Direction)>) {
    let id = if held_in(nodes, adj.tiles) {
        place_in(nodes, adj.tiles)
    } else {
        nodes.len() as int
    };
    (
        if held_in(nodes, adj.tiles) {
            nodes
        } else {
            nodes.push(adj)
        },
        if joined_in(edges, a, id) {
            edges
        } else {
            edges.push((a, id, dir))
        },
    )
}

/// The nodes and edges after the first `k` of the neighbors `near` of node
/// `a` have been looked up or stored, and joined to `a`, one after the
/// other.
pub open spec fn with_neighbors(
    nodes: Seq<Board>,
    edges: Seq<(int, int, Direction)>,
    a: int,
    near: Seq<(Board, Direction)>,
    k: nat,
) -> (Seq<Board>, Seq<(int, int, Direction)>)
    decreases k,
{
    if k == 0 {
        (nodes, edges)
    } else {
        let before = with_neighbors(nodes, edges, a, near, (k - 1) as nat);
        with_neighbor(before.0, before.1, a, near[k - 1].0, near[k - 1].1)
    }
}

/// The nodes and edges after the nodes from `next` on have been expanded
/// one after the other, and the number of the node at which this ended:
/// the first that does not exist, or `stop`.
pub open spec fn grown(nodes: Seq<Board>, edges: Seq<(int, int, Direction)>, next: nat, stop: nat) -> (
    Seq<Board>,
    Seq<(int, int, Direction)>,
    nat,
)
    decreases stop - next,
{
    if next >= stop || next >= nodes.len() {
        (nodes, edges, next)
    } else {
        let near = nodes[next as int].neighbors();
        let after = with_neighbors(nodes, edges, next as int, near, near.len());
        grown(after.0, after.1, next + 1, stop)
    }
}

/// The one of four entries that belongs to direction `d`.
pub open spec fn slot(
    right: Option<usize>,
    left: Option<usize>,
    down: Option<usize>,
    up: Option<usize>,
    d: Direction,
) -> Option<usize> {
    match d {
        Direction::Right => right,
        Direction::Left => left,
        Direction::Down => down,
        Direction::Up => up,
    }
}

/// The graph of the board states met so far. Each state is stored once and
/// keeps its identifier; a node is expanded at most once.
pub struct GraphBuilder {
    graph: Graph<Grid, Direction, Undirected, usize>,
    weight_idx_hash: HashMap<u64, Vec<usize>>,
    processed_nodes: HashSet<usize>,
}

impl GraphBuilder {
    /// The stored boards, by identifier.
    pub closed spec fn nodes(&self) -> Seq<Board> {
        graph_nodes(self.graph)
    }

    /// The edges in the order in which they were added: the node that was
    /// expanded, the adjacent node, and the label of the move from the first
    /// to the second.
    pub closed spec fn edges(&self) -> Seq<(int, int, Direction)> {
        graph_edges(self.graph)
    }

    /// The identifiers of the expanded nodes.
    pub closed spec fn expanded(&self) -> Set<usize> {
        self.processed_nodes@
    }

    /// Whether an edge joins `a` and `b`.
    pub open spec fn linked(&self, a: int, b: int) -> bool {
        joined_in(self.edges(), a, b)
    }

    /// Whether a node holds these tiles.
    pub open spec fn holds(&self, tiles: Seq<u8>) -> bool {
        held_in(self.nodes(), tiles)
    }

    /// The identifier of the node that holds these tiles.
    pub open spec fn id_of(&self, tiles: Seq<u8>) -> int {
        place_in(self.nodes(), tiles)
    }

    /// Whether `board` may be stored: it is valid and of the same size and
    /// goal as the boards already stored.
    pub open spec fn admits(&self, board: Board) -> bool {
        &&& board.valid()
        &&& self.nodes().len() > 0 ==> board.side == self.nodes()[0].side && board.blank_goal
            == self.nodes()[0].blank_goal
    }

    /// Edge `e` leads from a node to the node that holds the result of the
    /// move that the edge is labelled with.
    pub open spec fn edge_sound(&self, e: int) -> bool {
        let edge = self.edges()[e];
        &&& 0 <= edge.0 < self.nodes().len()
        &&& 0 <= edge.1 < self.nodes().len()
        &&& self.nodes()[edge.0].slide(edge.2) == Some(self.nodes()[edge.1])
    }

    /// If node `a` has a neighbor in direction `d`, that neighbor is stored
    /// and an edge joins the two.
    pub open spec fn covered(&self, a: int, d: Direction) -> bool {
        self.nodes()[a].slide(d) is Some ==> exists|b: int|
            0 <= b < self.nodes().len() && #[trigger] self.linked(a, b) && self.nodes()[b] == self.nodes()[a].slide(
                d,
            )->0
    }

    /// Every state is filed under its digest, and what is filed under a
    /// digest is a state with that digest.
    pub closed spec fn filed(&self) -> bool {
        &&& forall|i: int|
            0 <= i < self.nodes().len() ==> {
                let h = tiles_digest((#[trigger] self.nodes()[i]).tiles) as u64;
                self.weight_idx_hash@.contains_key(h) && self.weight_idx_hash@[h]@.contains(i as usize)
            }
        &&& forall|h: u64, k: int|
            self.weight_idx_hash@.contains_key(h) && 0 <= k < self.weight_idx_hash@[h]@.len() ==> {
                let id = #[trigger] self.weight_idx_hash@[h]@[k];
                id < self.nodes().len() && tiles_digest(self.nodes()[id as int].tiles) == h
            }
    }

    /// The invariant of the graph.
    pub open spec fn wf(&self) -> bool {
        &&& self.filed()
        &&& self.nodes().len() <= usize::MAX
        &&& self.edges().len() <= usize::MAX
        &&& forall|i: int| 0 <= i < self.nodes().len() ==> (#[trigger] self.nodes()[i]).valid()
        &&& forall|i: int|
            0 <= i < self.nodes().len() ==> (#[trigger] self.nodes()[i]).side == self.nodes()[0].side
                && self.nodes()[i].blank_goal == self.nodes()[0].blank_goal
        &&& forall|i: int, j: int|
            0 <= i < j < self.nodes().len() ==> (#[trigger] self.nodes()[i]).tiles != (#[trigger] self.nodes()[j]).tiles
        &&& forall|e: int| 0 <= e < self.edges().len() ==> #[trigger] self.edge_sound(e)
        &&& forall|a: usize| #[trigger] self.expanded().contains(a) ==> a < self.nodes().len()
        &&& forall|a: usize, d: Direction| self.expanded().contains(a) ==> #[trigger] self.covered(a as int, d)
    }

    /// Whether this graph holds the same nodes, edges and expansions as
    /// `other`.
    pub open spec fn same_as(&self, other: &GraphBuilder) -> bool {
        &&& self.nodes() == other.nodes()
        &&& self.edges() == other.edges()
        &&& self.expanded() == other.expanded()
    }

    /// Whether this graph is `before` with nodes, edges and expansions added.
    pub open spec fn extends(&self, before: &GraphBuilder) -> bool {
        &&& before.nodes().len() <= self.nodes().len()
        &&& self.nodes().subrange(0, before.nodes().len() as int) =~= before.nodes()
        &&& before.edges().len() <= self.edges().len()
        &&& self.edges().subrange(0, before.edges().len() as int) =~= before.edges()
        &&& before.expanded().subset_of(self.expanded())
    }

    /// In a well-formed graph no two identifiers hold the same tiles.
    pub proof fn lemma_stored_once(&self, i: int, j: int)
        requires
            self.wf(),
            0 <= i < self.nodes().len(),
            0 <= j < self.nodes().len(),
            self.nodes()[i].tiles == self.nodes()[j].tiles,
        ensures
            i == j,
            self.nodes()[i] == self.nodes()[j],
    {
        if i < j {
            assert(self.nodes()[i].tiles != self.nodes()[j].tiles);
        } else if j < i {
            assert(self.nodes()[j].tiles != self.nodes()[i].tiles);
        }
    }

    /// An empty graph.
    pub fn new() -> (r: Self)
        ensures
            r.wf(),
            r.nodes().len() == 0,
            r.edges().len() == 0,
            r.expanded() == Set::<usize>::empty(),
    {
        GraphBuilder { graph: graph_new(), weight_idx_hash: HashMap::new(), processed_nodes: HashSet::new() }
    }

    /// The number of stored states.
    pub fn node_count(&self) -> (r: usize)
        ensures
            r == self.nodes().len(),
    {
        graph_node_count(&self.graph)
    }

    /// The state stored under `id`.
    pub fn state(&self, id: usize) -> (r: &Grid)
        requires
            self.wf(),
            id < self.nodes().len(),
        ensures
            r@ == self.nodes()[id as int],
    {
        graph_node_weight(&self.graph, id).unwrap()
    }

    /// Whether node `id` has been expanded.
    pub fn is_expanded(&self, id: usize) -> (r: bool)
        ensures
            r == self.expanded().contains(id),
    {
        self.processed_nodes.contains(&id)
    }

    /// The identifier under which the tiles of `weight` are stored, if they
    /// are.
    fn get_node_idx_by_weight(&self, weight: &Grid) -> (r: Option<usize>)
        requires
            self.wf(),
            weight@.valid(),
        ensures
            r matches Some(i) ==> i < self.nodes().len() && self.nodes()[i as int].tiles == weight@.tiles,
            r is None ==> !self.holds(weight@.tiles),
    {
        let h = weight.digest();
        match self.weight_idx_hash.get(&h) {
            None => {
                proof {
                    if self.holds(weight@.tiles) {
                        let i = self.id_of(weight@.tiles);
                        assert(self.nodes()[i].tiles == weight@.tiles);
                    }
                }
                None
            },
            Some(bucket) => {
                let mut k: usize = 0;
                while k < bucket.len()
                    invariant
                        self.wf(),
                        weight@.valid(),
                        self.weight_idx_hash@.contains_key(h),
                        self.weight_idx_hash@[h] == *bucket,
                        k <= bucket@.len(),
                        forall|j: int| 0 <= j < k ==> self.nodes()[(#[trigger] bucket@[j]) as int].tiles != weight@.tiles,
                    decreases bucket@.len() - k,
                {
                    let id = bucket[k];
                    assert(id == self.weight_idx_hash@[h]@[k as int]);
                    let stored = graph_node_weight(&self.graph, id).unwrap();
                    if stored.same_board(weight) {
                        return Some(id);
                    }
                    proof {
                        if stored@.tiles == weight@.tiles {
                            assert(self.nodes()[id as int].valid());
                            lemma_side_of_len(stored@, weight@);
                        }
                    }
                    k = k + 1;
                }
                proof {
                    if self.holds(weight@.tiles) {
                        let i = self.id_of(weight@.tiles);
                        assert(self.nodes()[i].tiles == weight@.tiles);
                        assert(bucket@.contains(i as usize));
                        let j = choose|j: int| 0 <= j < bucket@.len() && bucket@[j] == i as usize;
                        assert(self.nodes()[bucket@[j] as int].tiles != weight@.tiles);
                    }
                }
                None
            },
        }
    }

    /// Stores a state that is not stored yet and files it under its digest.
    fn insert_node(&mut self, state: Grid) -> (r: usize)
        requires
            old(self).wf(),
            old(self).admits(state@),
            !old(self).holds(state@.tiles),
        ensures
            final(self).wf(),
            final(self).nodes() == old(self).nodes().push(state@),
            final(self).edges() == old(self).edges(),
            final(self).expanded() == old(self).expanded(),
            r == old(self).nodes().len(),
    {
        let h = state.digest();
        let ghost board = state@;
        let ghost before = self.nodes();
        let ghost filed_before = self.weight_idx_hash@;
        let id = graph_add_node(&mut self.graph, state);
        let mut bucket = match self.weight_idx_hash.remove(&h) {
            Some(b) => b,
            None => Vec::new(),
        };
        let ghost bucket_before = bucket@;
        bucket.push(id);
        self.weight_idx_hash.insert(h, bucket);
        proof {
            let after = self.nodes();
            assert(after == before.push(board));
            assert forall|i: int| 0 <= i < after.len() implies {
                let hh = tiles_digest((#[trigger] after[i]).tiles) as u64;
                self.weight_idx_hash@.contains_key(hh) && self.weight_idx_hash@[hh]@.contains(i as usize)
            } by {
                let hh = tiles_digest(after[i].tiles) as u64;
                if i < before.len() {
                    assert(after[i] == before[i]);
                    assert(filed_before.contains_key(hh) && filed_before[hh]@.contains(i as usize));
                    if hh == h {
                        let j = choose|j: int| 0 <= j < bucket_before.len() && bucket_before[j] == i as usize;
                        assert(bucket@[j] == i as usize);
                    }
                } else {
                    assert(bucket@[bucket@.len() - 1] == id);
                }
            }
            assert forall|hh: u64, k: int|
                self.weight_idx_hash@.contains_key(hh) && 0 <= k < self.weight_idx_hash@[hh]@.len() implies {
                let x = #[trigger] self.weight_idx_hash@[hh]@[k];
                x < after.len() && tiles_digest(after[x as int].tiles) == hh
            } by {
                if hh == h {
                    if k < bucket_before.len() {
                        assert(bucket@[k] == bucket_before[k]);
                        assert(filed_before.contains_key(h));
                        assert(filed_before[h]@[k] == bucket_before[k]);
                    }
                } else {
                    assert(filed_before.contains_key(hh));
                    assert(self.weight_idx_hash@[hh] == filed_before[hh]);
                    let x = filed_before[hh]@[k];
                    assert(x < before.len());
                }
            }
            assert forall|i: int, j: int| 0 <= i < j < after.len() implies (#[trigger] after[i]).tiles != (
            #[trigger] after[j]).tiles by {
                if j == before.len() {
                    assert(before[i].tiles != board.tiles);
                }
            }
            assert forall|e: int| 0 <= e < self.edges().len() implies #[trigger] self.edge_sound(e) by {
                assert(old(self).edge_sound(e));
            }
            assert(self.expanded() == old(self).expanded());
            assert forall|a: usize| #[trigger] self.expanded().contains(a) implies a < self.nodes().len() by {
                assert(old(self).expanded().contains(a));
            }
            assert forall|a: usize, d: Direction| self.expanded().contains(a) implies #[trigger] self.covered(
                a as int,
                d,
            ) by {
                assert(old(self).expanded().contains(a));
                assert(old(self).covered(a as int, d));
                lemma_linked_stays(old(self), self, a as int, d);
            }
        }
        id
    }

    /// Adds the edge for the move labelled `d` from node `a` to node `b`.
    fn link(&mut self, a: usize, b: usize, d: Direction)
        requires
            old(self).wf(),
            a < old(self).nodes().len(),
            b < old(self).nodes().len(),
            old(self).nodes()[a as int].slide(d) == Some(old(self).nodes()[b as int]),
        ensures
            final(self).wf(),
            final(self).nodes() == old(self).nodes(),
            final(self).edges() == old(self).edges().push((a as int, b as int, d)),
            final(self).expanded() == old(self).expanded(),
            final(self).linked(a as int, b as int),
    {
        graph_add_edge(&mut self.graph, a, b, d);
        proof {
            let n = old(self).edges().len() as int;
            assert(self.expanded() == old(self).expanded());
            assert forall|x: usize| #[trigger] self.expanded().contains(x) implies x < self.nodes().len() by {
                assert(old(self).expanded().contains(x));
            }
            assert(self.edges()[n] == (a as int, b as int, d));
            assert(joins(self.edges()[n], a as int, b as int));
            assert forall|e: int| 0 <= e < self.edges().len() implies #[trigger] self.edge_sound(e) by {
                if e < n {
                    assert(old(self).edge_sound(e));
                }
            }
            assert forall|x: usize, dd: Direction| self.expanded().contains(x) implies #[trigger] self.covered(
                x as int,
                dd,
            ) by {
                assert(old(self).expanded().contains(x));
                assert(old(self).covered(x as int, dd));
                lemma_linked_stays(old(self), self, x as int, dd);
            }
        }
    }

    /// The identifier of the node that holds the tiles of `state`; the
    /// state is stored first if it is not stored yet. No edge is added.
    pub fn get_or_create_node(&mut self, state: Grid) -> (r: usize)
        requires
            old(self).wf(),
            old(self).admits(state@),
        ensures
            final(self).wf(),
            final(self).extends(old(self)),
            final(self).edges() == old(self).edges(),
            final(self).expanded() == old(self).expanded(),
            old(self).holds(state@.tiles) ==> final(self).nodes() == old(self).nodes() && r == old(self).id_of(
                state@.tiles,
            ),
            !old(self).holds(state@.tiles) ==> final(self).nodes() == old(self).nodes().push(state@),
            !old(self).holds(state@.tiles) ==> r == old(self).nodes().len(),
    {
        match self.get_node_idx_by_weight(&state) {
            Some(id) => {
                proof {
                    self.lemma_stored_once(id as int, self.id_of(state@.tiles));
                }
                id
            },
            None => self.insert_node(state),
        }
    }

    /// The label of the move from node `a` to node `b`, if an edge joins
    /// them. It is the label under which the edge was added when the edge
    /// leads from `a` to `b`, and the opposite one when it leads from `b` to
    /// `a`.
    pub fn edge_label(&self, a: usize, b: usize) -> (r: Option<Direction>)
        requires
            self.wf(),
            a < self.nodes().len(),
            b < self.nodes().len(),
        ensures
            r is Some <==> self.linked(a as int, b as int),
            r matches Some(d) ==> self.nodes()[a as int].slide(d) == Some(self.nodes()[b as int]),
    {
        match graph_find_edge(&self.graph, a, b) {
            None => None,
            Some((e, forward)) => {
                assert(self.edge_sound(e as int));
                assert(joins(self.edges()[e as int], a as int, b as int));
                let d = *graph_edge_weight(&self.graph, e).unwrap();
                if forward {
                    Some(d)
                } else {
                    proof {
                        lemma_slide_back(self.nodes()[b as int], d);
                    }
                    Some(d.reversed())
                }
            },
        }
    }

    /// Looks up or else stores the neighbor `adj` of node `a`, which the
    /// move `dir` leads to, and joins it to `a` unless an edge joins the two
    /// already. Returns the identifier of the neighbor.
    fn attach(&mut self, a: usize, adj: &Grid, dir: Direction) -> (r: usize)
        requires
            old(self).wf(),
            a < old(self).nodes().len(),
            old(self).nodes()[a as int].valid(),
            old(self).nodes()[a as int].slide(dir) == Some(adj@),
        ensures
            final(self).wf(),
            final(self).extends(old(self)),
            final(self).expanded() == old(self).expanded(),
            (final(self).nodes(), final(self).edges()) == with_neighbor(
                old(self).nodes(),
                old(self).edges(),
                a as int,
                adj@,
                dir,
            ),
            r < final(self).nodes().len(),
            final(self).nodes()[r as int] == adj@,
            final(self).linked(a as int, r as int),
    {
        proof {
            crate::grid::lemma_slide_valid(self.nodes()[a as int], dir);
            assert(self.nodes()[0].side == self.nodes()[a as int].side);
        }
        let adj_idx = match self.get_node_idx_by_weight(adj) {
            Some(adj_idx) => {
                proof {
                    self.lemma_stored_once(adj_idx as int, self.id_of(adj@.tiles));
                }
                adj_idx
            },
            None => self.insert_node(adj.clone()),
        };
        match graph_find_edge(&self.graph, a, adj_idx) {
            None => {
                self.link(a, adj_idx, dir);
            },
            Some((e, forward)) => {
                assert(joins(self.edges()[e as int], a as int, adj_idx as int));
            },
        }
        adj_idx
    }

    /// Expands node `grid_idx`: every neighbor of its state is looked up or
    /// stored, and joined to the node by an edge that carries the label of
    /// the move, unless an edge joins the two already. Expanding a node a
    /// second time changes nothing.
    pub fn generate_node_neighbors(&mut self, grid_idx: usize)
        requires
            old(self).wf(),
            grid_idx < old(self).nodes().len(),
        ensures
            final(self).wf(),
            final(self).extends(old(self)),
            final(self).expanded() == old(self).expanded().insert(grid_idx),
            old(self).expanded().contains(grid_idx) ==> final(self).nodes() == old(self).nodes() && final(self).edges()
                == old(self).edges(),
            !old(self).expanded().contains(grid_idx) ==> (final(self).nodes(), final(self).edges()) == with_neighbors(
                old(self).nodes(),
                old(self).edges(),
                grid_idx as int,
                old(self).nodes()[grid_idx as int].neighbors(),
                old(self).nodes()[grid_idx as int].neighbors().len(),
            ),
    {
        if self.processed_nodes.contains(&grid_idx) {
            assert(old(self).expanded().insert(grid_idx) =~= old(self).expanded());
            return ;
        }
        let neighbors = self.state(grid_idx).generate_neighbors();
        let ghost source = self.nodes()[grid_idx as int];
        proof {
            assert(neighbors@.len() == labelled_boards(neighbors@).len());
        }
        let mut k: usize = 0;
        while k < neighbors.len()
            invariant
                self.wf(),
                self.extends(old(self)),
                self.expanded() == old(self).expanded(),
                grid_idx < old(self).nodes().len(),
                self.nodes()[grid_idx as int] == source,
                source.valid(),
                labelled_boards(neighbors@) == source.neighbors(),
                k <= neighbors@.len(),
                (self.nodes(), self.edges()) == with_neighbors(
                    old(self).nodes(),
                    old(self).edges(),
                    grid_idx as int,
                    source.neighbors(),
                    k as nat,
                ),
                forall|j: int|
                    0 <= j < k ==> exists|b: int|
                        0 <= b < self.nodes().len() && #[trigger] self.linked(grid_idx as int, b)
                            && self.nodes()[b] == (#[trigger] neighbors@[j]).0@,
            decreases neighbors@.len() - k,
        {
            let ghost before = *self;
            proof {
                assert(labelled_boards(neighbors@)[k as int] == (neighbors@[k as int].0@, neighbors@[k as int].1));
                lemma_neighbor_is_adjacent_swap(source, k as int);
            }
            let adj_idx = self.attach(grid_idx, &neighbors[k].0, neighbors[k].1);
            proof {
                assert(self.nodes().subrange(0, before.nodes().len() as int)[grid_idx as int]
                    == before.nodes()[grid_idx as int]);
                assert forall|j: int| 0 <= j < k + 1 implies exists|b: int|
                    0 <= b < self.nodes().len() && #[trigger] self.linked(grid_idx as int, b) && self.nodes()[b] == (
                    #[trigger] neighbors@[j]).0@ by {
                    if j < k {
                        let b = choose|b: int|
                            0 <= b < before.nodes().len() && #[trigger] before.linked(grid_idx as int, b)
                                && before.nodes()[b] == neighbors@[j].0@;
                        lemma_link_stays(&before, self, grid_idx as int, b);
                        assert(self.nodes().subrange(0, before.nodes().len() as int)[b] == before.nodes()[b]);
                    } else {
                        assert(self.linked(grid_idx as int, adj_idx as int));
                    }
                }
            }
            k = k + 1;
        }
        let ghost mid = *self;
        self.processed_nodes.insert(grid_idx);
        proof {
            assert(self.nodes() == mid.nodes());
            assert(self.edges() == mid.edges());
            assert(self.extends(&mid));
            assert forall|e: int| 0 <= e < self.edges().len() implies #[trigger] self.edge_sound(e) by {
                assert(mid.edge_sound(e));
            }
            assert forall|a: usize, d: Direction| self.expanded().contains(a) implies #[trigger] self.covered(
                a as int,
                d,
            ) by {
                if a == grid_idx {
                    if source.slide(d) is Some {
                        lemma_neighbors_cover_slides(source, d);
                        let j = choose|j: int|
                            0 <= j < source.neighbors().len() && #[trigger] source.neighbors()[j] == (
                                source.slide(d)->0,
                                d,
                            );
                        assert(labelled_boards(neighbors@)[j] == (neighbors@[j].0@, neighbors@[j].1));
                        let b = choose|b: int|
                            0 <= b < mid.nodes().len() && #[trigger] mid.linked(grid_idx as int, b)
                                && mid.nodes()[b] == neighbors@[j].0@;
                        lemma_link_stays(&mid, self, grid_idx as int, b);
                        assert(self.linked(a as int, b));
                    }
                } else {
                    assert(old(self).expanded().contains(a));
                    assert(old(self).covered(a as int, d));
                    lemma_linked_stays(old(self), self, a as int, d);
                }
            }
        }
    }

    /// The boards and labels that a list of labelled identifiers stands
    /// for.
    pub open spec fn labelled(&self, links: Seq<(Direction, usize)>) -> Seq<(Board, Direction)> {
        links.map_values(|l: (Direction, usize)| (self.nodes()[l.1 as int], l.0))
    }

    /// The neighbors of the expanded node `a`, each with the label of the
    /// move that leads to it, in the order right, left, down, up. They are
    /// read from the edges of the graph.
    pub fn neighbor_links(&self, a: usize) -> (r: Vec<(Direction, usize)>)
        requires
            self.wf(),
            a < self.nodes().len(),
            self.expanded().contains(a),
        ensures
            self.labelled(r@) == self.nodes()[a as int].neighbors(),
            forall|k: int| 0 <= k < r@.len() ==> (#[trigger] r@[k]).1 < self.nodes().len(),
    {
        let near = graph_neighbors(&self.graph, a);
        let ghost me = self.nodes()[a as int];
        let mut right: Option<usize> = None;
        let mut left: Option<usize> = None;
        let mut down: Option<usize> = None;
        let mut up: Option<usize> = None;
        let mut k: usize = 0;
        while k < near.len()
            invariant
                self.wf(),
                a < self.nodes().len(),
                me == self.nodes()[a as int],
                lists_neighbors(near@, self.edges(), a as int),
                k <= near@.len(),
                forall|d: Direction| (#[trigger] slot(right, left, down, up, d)) matches Some(b) ==> b < self.nodes().len()
                    && me.slide(d) == Some(self.nodes()[b as int]),
                forall|j: int|
                    0 <= j < k ==> exists|d: Direction|
                        #[trigger] slot(right, left, down, up, d) == Some(#[trigger] near@[j]),
            decreases near@.len() - k,
        {
            let b = near[k];
            let ghost before = (right, left, down, up);
            proof {
                assert(near@.contains(b));
                let e = choose|e: int|
                    0 <= e < self.edges().len() && joins(#[trigger] self.edges()[e], a as int, b as int);
                assert(self.edge_sound(e));
                assert(self.linked(a as int, b as int));
            }
            let label = self.edge_label(a, b);
            match label {
                Some(Direction::Right) => {
                    right = Some(b);
                },
                Some(Direction::Left) => {
                    left = Some(b);
                },
                Some(Direction::Down) => {
                    down = Some(b);
                },
                Some(Direction::Up) => {
                    up = Some(b);
                },
                None => {},
            }
            proof {
                let taken = label->0;
                assert(slot(right, left, down, up, taken) == Some(b));
                assert forall|d: Direction| (#[trigger] slot(right, left, down, up, d)) is Some implies slot(
                    right,
                    left,
                    down,
                    up,
                    d,
                )->0 < self.nodes().len() && me.slide(d) == Some(
                    self.nodes()[slot(right, left, down, up, d)->0 as int],
                ) by {
                    if d != taken {
                        assert(slot(right, left, down, up, d) == slot(before.0, before.1, before.2, before.3, d));
                    }
                }
                assert forall|j: int| 0 <= j < k + 1 implies exists|d: Direction| #[trigger]
                    slot(right, left, down, up, d) == Some(#[trigger] near@[j]) by {
                    if j < k {
                        let d = choose|d: Direction|
                            #[trigger] slot(before.0, before.1, before.2, before.3, d) == Some(near@[j]);
                        if d == taken {
                            self.lemma_stored_once(near@[j] as int, b as int);
                        }
                        assert(slot(right, left, down, up, d) == Some(near@[j]));
                    } else {
                        assert(slot(right, left, down, up, taken) == Some(near@[j]));
                    }
                }
            }
            k = k + 1;
        }
        proof {
            assert forall|d: Direction| me.slide(d) is Some implies (#[trigger] slot(right, left, down, up, d)) is Some by {
                assert(self.covered(a as int, d));
                let b = choose|b: int|
                    0 <= b < self.nodes().len() && #[trigger] self.linked(a as int, b) && self.nodes()[b]
                        == me.slide(d)->0;
                let e = choose|e: int| 0 <= e < self.edges().len() && joins(#[trigger] self.edges()[e], a as int, b);
                assert(near@.contains(b as usize));
                let j = choose|j: int| 0 <= j < near@.len() && near@[j] == b as usize;
                let dd = choose|dd: Direction| #[trigger] slot(right, left, down, up, dd) == Some(near@[j]);
                lemma_slide_injective(me, d, dd);
            }
        }
        let mut r: Vec<(Direction, usize)> = Vec::new();
        let ghost s0 = self.labelled(r@);
        assert(s0 == Seq::<(Board, Direction)>::empty());
        assert(slot(right, left, down, up, Direction::Right) == right);
        assert(slot(right, left, down, up, Direction::Left) == left);
        assert(slot(right, left, down, up, Direction::Down) == down);
        assert(slot(right, left, down, up, Direction::Up) == up);
        match right {
            Some(b) => {
                r.push((Direction::Right, b));
                assert(self.labelled(r@) == s0.push((self.nodes()[b as int], Direction::Right)));
            },
            None => {},
        }
        let ghost s1 = self.labelled(r@);
        assert(s1 == me.emit(s0, Direction::Right));
        match left {
            Some(b) => {
                r.push((Direction::Left, b));
                assert(self.labelled(r@) == s1.push((self.nodes()[b as int], Direction::Left)));
            },
            None => {},
        }
        let ghost s2 = self.labelled(r@);
        assert(s2 == me.emit(s1, Direction::Left));
        match down {
            Some(b) => {
                r.push((Direction::Down, b));
                assert(self.labelled(r@) == s2.push((self.nodes()[b as int], Direction::Down)));
            },
            None => {},
        }
        let ghost s3 = self.labelled(r@);
        assert(s3 == me.emit(s2, Direction::Down));
        match up {
            Some(b) => {
                r.push((Direction::Up, b));
                assert(self.labelled(r@) == s3.push((self.nodes()[b as int], Direction::Up)));
            },
            None => {},
        }
        assert(self.labelled(r@) == me.emit(s3, Direction::Up));
        r
    }
}

/// The graph of the states that can be reached from `grid`, which becomes
/// node 0: the nodes are expanded in the order of their identifiers, which
/// is the order in which they were met, until every node is expanded or
/// `max_nodes` nodes are. Returns the graph and the number of expanded
/// nodes.
pub fn generate_graph(grid: &Grid, max_nodes: usize) -> (r: (GraphBuilder, usize))
    requires
        grid@.valid(),
    ensures
        r.0.wf(),
        (r.0.nodes(), r.0.edges(), r.1 as nat) == grown(
            seq![grid@],
            Seq::<(int, int, Direction)>::empty(),
            0,
            max_nodes as nat,
        ),
        forall|a: usize| r.0.expanded().contains(a) <==> a < r.1,
        r.1 <= max_nodes,
        r.1 <= r.0.nodes().len(),
        r.1 == max_nodes || r.1 == r.0.nodes().len(),
{
    let mut cache = GraphBuilder::new();
    assert(!cache.holds(grid@.tiles));
    cache.get_or_create_node(grid.clone());
    assert(cache.nodes() =~= seq![grid@]);
    assert(cache.edges() =~= Seq::<(int, int, Direction)>::empty());
    let mut curr_idx: usize = 0;
    while curr_idx < max_nodes && curr_idx < cache.node_count()
        invariant
            cache.wf(),
            curr_idx <= max_nodes,
            curr_idx <= cache.nodes().len(),
            forall|a: usize| cache.expanded().contains(a) <==> a < curr_idx,
            grown(cache.nodes(), cache.edges(), curr_idx as nat, max_nodes as nat) == grown(
                seq![grid@],
                Seq::<(int, int, Direction)>::empty(),
                0,
                max_nodes as nat,
            ),
        decreases max_nodes - curr_idx,
    {
        cache.generate_node_neighbors(curr_idx);
        curr_idx = curr_idx + 1;
    }
    (cache, curr_idx)
}

/// What is joined in a graph stays joined in a graph that extends it.
pub proof fn lemma_link_stays(before: &GraphBuilder, after: &GraphBuilder, a: int, b: int)
    requires
        after.extends(before),
        before.linked(a, b),
    ensures
        after.linked(a, b),
{
    let e = choose|e: int| 0 <= e < before.edges().len() && joins(#[trigger] before.edges()[e], a, b);
    assert(after.edges().subrange(0, before.edges().len() as int)[e] == before.edges()[e]);
    assert(joins(after.edges()[e], a, b));
}

/// What is joined in a graph stays joined in a graph that extends it, and
/// a neighbor that was covered stays covered.
pub proof fn lemma_linked_stays(before: &GraphBuilder, after: &GraphBuilder, a: int, d: Direction)
    requires
        after.extends(before),
        0 <= a < before.nodes().len(),
        before.covered(a, d),
    ensures
        after.covered(a, d),
{
    assert(after.nodes()[a] == before.nodes()[a]) by {
        assert(after.nodes().subrange(0, before.nodes().len() as int)[a] == before.nodes()[a]);
    }
    if before.nodes()[a].slide(d) is Some {
        let b = choose|b: int|
            0 <= b < before.nodes().len() && #[trigger] before.linked(a, b) && before.nodes()[b]
                == before.nodes()[a].slide(d)->0;
        let e = choose|e: int| 0 <= e < before.edges().len() && joins(#[trigger] before.edges()[e], a, b);
        assert(after.edges().subrange(0, before.edges().len() as int)[e] == before.edges()[e]);
        assert(joins(after.edges()[e], a, b));
        assert(after.linked(a, b));
        assert(after.nodes().subrange(0, before.nodes().len() as int)[b] == before.nodes()[b]);
    }
}

} // verus!
