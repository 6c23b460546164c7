use sliding_puzzle::graph_builder::GraphBuilder;
use sliding_puzzle::grid::{Direction, Grid};
use sliding_puzzle::ids::{find_solution, find_solution_helper, LIMIT_CEILING};
use std::collections::HashSet;

fn names(path: &Vec<(Direction, Grid)>) -> Vec<String> {
    path.iter().map(|(d, _)| d.to_string()).collect()
}

fn replay(start: &Grid, path: &Vec<(Direction, Grid)>) -> Grid {
    let mut current = start.clone();
    for (label, reached) in path {
        let next = current
            .generate_neighbors()
            .into_iter()
            .find(|(_, d)| d == label)
            .expect("a move of the puzzle");
        assert_eq!(&next.0, reached);
        current = next.0;
    }
    current
}

#[test]
fn moves_of_the_two_by_two_board() {
    let start = Grid::new(2, -1, &vec![3, 1, 2, 0]).unwrap();
    let path = find_solution(start.clone()).unwrap();
    assert_eq!(names(&path), vec!["right", "down", "left", "up"]);
    let boards: Vec<Grid> = path.iter().map(|(_, g)| g.clone()).collect();
    assert_eq!(
        boards,
        vec![
            Grid::new(2, -1, &vec![3, 1, 0, 2]).unwrap(),
            Grid::new(2, -1, &vec![0, 1, 3, 2]).unwrap(),
            Grid::new(2, -1, &vec![1, 0, 3, 2]).unwrap(),
            Grid::new(2, -1, &vec![1, 2, 3, 0]).unwrap(),
        ]
    );
}

#[test]
fn moves_lead_from_the_start_to_the_goal() {
    for tiles in [
        vec![3, 1, 2, 0],
        vec![1, 2, 3, 4, 5, 6, 7, 8, 0],
        vec![4, 3, 5, 6, 0, 1, 8, 7, 2],
        vec![1, 2, 3, 4, 5, 6, 0, 7, 8],
        vec![0, 1, 3, 4, 2, 5, 7, 8, 6],
    ] {
        let start = Grid::from_vec(-1, &tiles).unwrap();
        assert!(!start.is_unsolvable());
        let path = find_solution(start.clone()).unwrap();
        let end = replay(&start, &path);
        assert_eq!(end.heuristic(), 0);
    }
}

#[test]
fn known_lengths() {
    let solved = Grid::from_vec(-1, &vec![1, 2, 3, 4, 5, 6, 7, 8, 0]).unwrap();
    assert_eq!(find_solution(solved).unwrap().len(), 0);
    let hard = Grid::from_vec(-1, &vec![4, 3, 5, 6, 0, 1, 8, 7, 2]).unwrap();
    assert_eq!(find_solution(hard).unwrap().len(), 22);
    let near = Grid::from_vec(-1, &vec![1, 2, 3, 4, 5, 6, 0, 7, 8]).unwrap();
    assert_eq!(names(&find_solution(near).unwrap()), vec!["left", "left"]);
}

#[test]
fn a_goal_that_cannot_be_is_not_found() {
    // with the blank's goal on a cell that a tile claims too, no board has
    // every cell in place; on the single component of this board the search
    // runs through all limits
    let start = Grid::new(1, 5, &vec![0]).unwrap();
    assert!(start.heuristic() > 0);
    assert!(find_solution(start).is_none());
}

#[test]
fn a_probe_finds_nothing_below_its_limit() {
    let start = Grid::new(2, -1, &vec![3, 1, 2, 0]).unwrap();
    let h = start.heuristic();
    assert_eq!(h, 4);
    let mut cache = GraphBuilder::new();
    let id = cache.get_or_create_node(start);
    let mut used: HashSet<usize> = HashSet::new();
    let mut path = None;
    // moves made plus heuristic reach the limit at once
    assert!(!find_solution_helper(&mut cache, id, 0, 4, &mut used, &mut path));
    assert!(path.is_none());
    assert!(used.is_empty());
    assert!(!cache.is_expanded(id));
    assert!(!find_solution_helper(&mut cache, id, 0, 5, &mut used, &mut path));
    assert!(cache.is_expanded(id));
    assert!(!find_solution_helper(&mut cache, id, 0, 6, &mut used, &mut path));
    assert!(path.is_none());
    assert!(find_solution_helper(&mut cache, id, 0, 7, &mut used, &mut path));
    assert!(used.is_empty());
    // from the last move to the first, with the nodes that they lead to
    let found = path.unwrap();
    let labels: Vec<Direction> = found.iter().map(|l| l.0).collect();
    assert_eq!(labels, vec![Direction::Up, Direction::Left, Direction::Down, Direction::Right]);
    assert_eq!(cache.state(found[0].1).heuristic(), 0);
    assert_eq!(cache.state(found[3].1), &Grid::new(2, -1, &vec![3, 1, 0, 2]).unwrap());
    assert_eq!(cache.edge_label(id, found[3].1), Some(Direction::Right));
}

#[test]
fn a_probe_does_not_step_on_its_own_path() {
    let start = Grid::new(2, -1, &vec![3, 1, 0, 2]).unwrap();
    let mut cache = GraphBuilder::new();
    let from = cache.get_or_create_node(Grid::new(2, -1, &vec![3, 1, 2, 0]).unwrap());
    let id = cache.get_or_create_node(start);
    let mut used: HashSet<usize> = HashSet::new();
    used.insert(from);
    let mut path = None;
    assert!(find_solution_helper(&mut cache, id, 1, 7, &mut used, &mut path));
    assert_eq!(path.unwrap().len(), 3);
    assert_eq!(used.len(), 1);
    assert!(used.contains(&from));
}

#[test]
fn the_ceiling_is_the_largest_limit() {
    assert_eq!(LIMIT_CEILING, u16::MAX);
}

#[test]
fn the_first_path_found_may_be_longer_than_the_shortest() {
    // the shortest way to the goal from this board has 20 moves
    let start = Grid::from_vec(-1, &vec![8, 4, 2, 6, 0, 5, 1, 3, 7]).unwrap();
    let path = find_solution(start.clone()).unwrap();
    assert_eq!(path.len(), 22);
    assert_eq!(replay(&start, &path).heuristic(), 0);
}

#[test]
fn moves_of_more_boards() {
    let cases: Vec<(Vec<u8>, &str)> = vec![
        (vec![1, 6, 7, 4, 0, 8, 3, 2, 5], "up right down left up left down down right up left up right down right up left left down down right up up left"),
        (vec![3, 2, 8, 6, 7, 1, 4, 0, 5], "down left down right up right down left up right up left left down right down left up right up left"),
        (vec![5, 4, 6, 0, 1, 3, 7, 2, 8], "left down right up left left down right up up left down down right up left up"),
        (vec![7, 6, 3, 1, 5, 4, 0, 2, 8], "down left up right down down left up up right down left left down right right up left down left up right up left"),
        (vec![5, 2, 3, 7, 6, 0, 4, 1, 8], "right up right down left up left down down right right up left down left up up"),
        (vec![2, 6, 5, 7, 3, 8, 0, 1, 4], "left left down right right up left down down left up right down right up up left left"),
        (vec![1, 2, 3, 4, 5, 6, 11, 7, 9, 14, 10, 8, 13, 0, 15, 12], "down left down left up up"),
        (vec![1, 2, 7, 3, 9, 5, 6, 4, 13, 10, 11, 8, 14, 0, 15, 12], "right down down left left down left up up up"),
        (vec![1, 2, 0, 8, 5, 6, 4, 3, 9, 10, 15, 12, 13, 14, 7, 11], "up left up right up left down down down right up up up left"),
    ];
    for (tiles, moves) in cases {
        let start = Grid::from_vec(-1, &tiles).unwrap();
        let path = find_solution(start.clone()).unwrap();
        assert_eq!(names(&path).join(" "), moves);
        assert_eq!(replay(&start, &path).heuristic(), 0);
    }
}

#[test]
fn what_is_found_is_at_most_twice_the_shortest() {
    // boards with the number of moves of their shortest solutions
    let cases: Vec<(Vec<u8>, usize)> = vec![
        (vec![8, 4, 2, 6, 0, 5, 1, 3, 7], 20),
        (vec![4, 3, 5, 6, 0, 1, 8, 7, 2], 22),
        (vec![3, 1, 2, 0], 4),
        (vec![1, 2, 3, 4, 5, 6, 0, 7, 8], 2),
    ];
    for (tiles, shortest) in cases {
        let start = Grid::from_vec(-1, &tiles).unwrap();
        let found = find_solution(start).unwrap().len();
        assert!(shortest <= found && found <= 2 * shortest);
    }
}

#[test]
fn nothing_is_found_from_a_board_that_the_parity_test_rejects() {
    // with nothing but this board and its neighbor to visit, the search runs
    // through all its limits
    let start = Grid::new(2, -1, &vec![2, 1, 3, 0]).unwrap();
    assert!(start.is_unsolvable());
    let mut cache = GraphBuilder::new();
    let id = cache.get_or_create_node(start);
    let mut used: HashSet<usize> = HashSet::new();
    let mut path = None;
    for limit in 0..40 {
        assert!(!find_solution_helper(&mut cache, id, 0, limit, &mut used, &mut path));
    }
    assert!(path.is_none());
    assert_eq!(cache.node_count(), 12);
}
