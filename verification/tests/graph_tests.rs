use sliding_puzzle::graph_builder::{generate_graph, GraphBuilder};
use sliding_puzzle::grid::{Direction, Grid};

fn board(tiles: Vec<u8>) -> Grid {
    Grid::from_vec(-1, &tiles).unwrap()
}

#[test]
fn a_state_is_stored_once() {
    let mut cache = GraphBuilder::new();
    let a = cache.get_or_create_node(board(vec![1, 2, 3, 0]));
    let b = cache.get_or_create_node(board(vec![1, 2, 0, 3]));
    let c = cache.get_or_create_node(board(vec![1, 2, 3, 0]));
    let d = cache.get_or_create_node(board(vec![1, 0, 3, 2]));
    let e = cache.get_or_create_node(board(vec![1, 2, 0, 3]));
    assert_eq!((a, b, c, d, e), (0, 1, 0, 2, 1));
    assert_eq!(cache.state(0), &board(vec![1, 2, 3, 0]));
    assert_eq!(cache.state(1), &board(vec![1, 2, 0, 3]));
    assert_eq!(cache.state(2), &board(vec![1, 0, 3, 2]));
    // no edge comes with a node
    assert_eq!(cache.edge_label(0, 1), None);
    assert_eq!(cache.edge_label(1, 0), None);
    assert!(!cache.is_expanded(0));
}

#[test]
fn expansion_stores_and_joins_the_neighbors() {
    let mut cache = GraphBuilder::new();
    let start = cache.get_or_create_node(board(vec![1, 2, 3, 4, 0, 5, 6, 7, 8]));
    assert_eq!(start, 0);
    cache.generate_node_neighbors(start);
    assert!(cache.is_expanded(start));
    assert_eq!(cache.state(1), &board(vec![1, 2, 3, 0, 4, 5, 6, 7, 8]));
    assert_eq!(cache.state(2), &board(vec![1, 2, 3, 4, 5, 0, 6, 7, 8]));
    assert_eq!(cache.state(3), &board(vec![1, 0, 3, 4, 2, 5, 6, 7, 8]));
    assert_eq!(cache.state(4), &board(vec![1, 2, 3, 4, 7, 5, 6, 0, 8]));
    assert_eq!(
        cache.neighbor_links(start),
        vec![(Direction::Right, 1), (Direction::Left, 2), (Direction::Down, 3), (Direction::Up, 4)]
    );
    assert_eq!(cache.edge_label(0, 1), Some(Direction::Right));
    assert_eq!(cache.edge_label(0, 2), Some(Direction::Left));
    assert_eq!(cache.edge_label(0, 3), Some(Direction::Down));
    assert_eq!(cache.edge_label(0, 4), Some(Direction::Up));
    // against the edge the label is the opposite one
    assert_eq!(cache.edge_label(1, 0), Some(Direction::Left));
    assert_eq!(cache.edge_label(2, 0), Some(Direction::Right));
    assert_eq!(cache.edge_label(3, 0), Some(Direction::Up));
    assert_eq!(cache.edge_label(4, 0), Some(Direction::Down));
    assert_eq!(cache.edge_label(1, 2), None);
    assert_eq!(cache.edge_label(0, 0), None);
    assert!(!cache.is_expanded(1));
}

#[test]
fn expanding_again_changes_nothing() {
    let mut cache = GraphBuilder::new();
    let start = cache.get_or_create_node(board(vec![1, 2, 3, 0]));
    cache.generate_node_neighbors(start);
    let links = cache.neighbor_links(start);
    cache.generate_node_neighbors(start);
    assert_eq!(cache.neighbor_links(start), links);
    assert_eq!(links, vec![(Direction::Right, 1), (Direction::Down, 2)]);
    // the next state would get the next identifier
    assert_eq!(cache.get_or_create_node(board(vec![0, 2, 1, 3])), 3);
}

#[test]
fn neighbors_keep_their_order_when_they_were_stored_before() {
    let mut cache = GraphBuilder::new();
    let start = cache.get_or_create_node(board(vec![1, 2, 3, 4, 0, 5, 6, 7, 8]));
    let up = cache.get_or_create_node(board(vec![1, 2, 3, 4, 7, 5, 6, 0, 8]));
    let left = cache.get_or_create_node(board(vec![1, 2, 3, 4, 5, 0, 6, 7, 8]));
    assert_eq!((start, up, left), (0, 1, 2));
    // the edge to `up` is added from the other side first
    cache.generate_node_neighbors(up);
    assert_eq!(cache.edge_label(up, start), Some(Direction::Down));
    assert_eq!(cache.edge_label(start, up), Some(Direction::Up));
    cache.generate_node_neighbors(start);
    let links = cache.neighbor_links(start);
    assert_eq!(links.len(), 4);
    assert_eq!(links[0].0, Direction::Right);
    assert_eq!(links[1], (Direction::Left, left));
    assert_eq!(links[2].0, Direction::Down);
    assert_eq!(links[3], (Direction::Up, up));
    assert_eq!(cache.state(links[0].1), &board(vec![1, 2, 3, 0, 4, 5, 6, 7, 8]));
    assert_eq!(cache.state(links[2].1), &board(vec![1, 0, 3, 4, 2, 5, 6, 7, 8]));
    // the neighbors of `up`, one of them the start
    assert_eq!(cache.neighbor_links(up)[2], (Direction::Down, start));
}

#[test]
fn the_whole_two_by_two_graph_has_twelve_states() {
    let mut cache = GraphBuilder::new();
    cache.get_or_create_node(board(vec![1, 2, 3, 0]));
    let mut next = 0;
    let mut count = 1;
    while next < count {
        cache.generate_node_neighbors(next);
        for (_, id) in cache.neighbor_links(next) {
            if id >= count {
                count = id + 1;
            }
        }
        next += 1;
    }
    assert_eq!(count, 12);
    for a in 0..count {
        assert!(cache.is_expanded(a));
        assert_eq!(cache.neighbor_links(a).len(), 2);
        for b in 0..count {
            if a != b {
                assert!(cache.state(a) != cache.state(b));
            }
            match (cache.edge_label(a, b), cache.edge_label(b, a)) {
                (Some(there), Some(back)) => assert_eq!(there.reversed(), back),
                (None, None) => {}
                _ => panic!("an edge in one direction only"),
            }
        }
    }
}

#[test]
fn whole_graphs_by_breadth() {
    let (cache, expanded) = generate_graph(&board(vec![1, 2, 3, 0]), 1000);
    assert_eq!(cache.node_count(), 12);
    assert_eq!(expanded, 12);
    for a in 0..12 {
        assert!(cache.is_expanded(a));
    }
    assert_eq!(cache.state(0), &board(vec![1, 2, 3, 0]));
    assert_eq!(cache.state(1), &board(vec![1, 2, 0, 3]));
    assert_eq!(cache.state(2), &board(vec![1, 0, 3, 2]));
    assert_eq!(cache.state(3), &board(vec![0, 2, 1, 3]));
    assert_eq!(cache.state(4), &board(vec![0, 1, 3, 2]));

    let (cache, expanded) = generate_graph(&board(vec![1, 2, 3, 4, 5, 6, 7, 8, 0]), 1_000_000);
    assert_eq!(cache.node_count(), 181440);
    assert_eq!(expanded, 181440);
}

#[test]
fn graph_growth_stops_at_the_given_number() {
    let (cache, expanded) = generate_graph(&board(vec![1, 2, 3, 4, 5, 6, 7, 8, 0]), 3);
    assert_eq!(expanded, 3);
    assert!(cache.is_expanded(0) && cache.is_expanded(1) && cache.is_expanded(2));
    assert!(!cache.is_expanded(3));
    // the start has two neighbors, each of them two that are new
    assert_eq!(cache.node_count(), 7);
    let (cache, expanded) = generate_graph(&board(vec![1, 2, 3, 0]), 0);
    assert_eq!((cache.node_count(), expanded), (1, 0));
    let (cache, expanded) = generate_graph(&board(vec![0]), 5);
    assert_eq!((cache.node_count(), expanded), (1, 1));
}
