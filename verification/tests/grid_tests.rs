use sliding_puzzle::grid::{Direction, Grid};

fn grids(vectors: Vec<(Vec<u8>, Direction)>) -> Vec<(Grid, Direction)> {
    let mut res = vec![];

    for (v, d) in vectors {
        res.push((Grid::from_vec(-1, &v).unwrap(), d));
    }

    res
}

#[test]
fn test_generating_adjacents() {
    let grid = Grid::from_vec(-1, &vec![1, 2, 3, 0]).unwrap();
    let adjacents = grid.generate_neighbors();
    let expected_adjacents = grids(vec![
        (vec![1, 2, 0, 3], Direction::Right),
        (vec![1, 0, 3, 2], Direction::Down),
    ]);
    assert_eq!(adjacents, expected_adjacents);

    let grid = Grid::from_vec(-1, &vec![0, 2, 3, 1]).unwrap();
    let adjacents = grid.generate_neighbors();
    let expected_adjacents = grids(vec![
        (vec![2, 0, 3, 1], Direction::Left),
        (vec![3, 2, 0, 1], Direction::Up),
    ]);
    assert_eq!(adjacents, expected_adjacents);

    let grid = Grid::from_vec(-1, &vec![1, 0, 3, 4, 5, 6, 7, 8, 2]).unwrap();
    let adjacents = grid.generate_neighbors();
    let expected_adjacents = grids(vec![
        (vec![0, 1, 3, 4, 5, 6, 7, 8, 2], Direction::Right),
        (vec![1, 3, 0, 4, 5, 6, 7, 8, 2], Direction::Left),
        (vec![1, 5, 3, 4, 0, 6, 7, 8, 2], Direction::Up),
    ]);
    assert_eq!(adjacents, expected_adjacents);
}

#[test]
fn test_linear_pos_to_matrix_pos() {
    let grid = Grid::new(3, -1, &vec![1, 2, 3, 4, 5, 6, 7, 8, 0]).unwrap();

    assert_eq!(grid.linear_pos_to_matrix_pos(0), (0, 0));
    assert_eq!(grid.linear_pos_to_matrix_pos(3), (1, 0));
    assert_eq!(grid.linear_pos_to_matrix_pos(7), (2, 1));
    assert_eq!(grid.linear_pos_to_matrix_pos(8), (2, 2));
}

#[test]
fn test_expected_pos() {
    let grid = Grid::new(3, -1, &vec![1, 2, 3, 4, 5, 6, 7, 8, 0]).unwrap();

    assert_eq!(grid.expected_pos(&1), (0, 0));
    assert_eq!(grid.expected_pos(&4), (1, 0));
    assert_eq!(grid.expected_pos(&8), (2, 1));

    // Test the zero
    assert_eq!(grid.expected_pos(&0), (2, 2));

    let grid = Grid::new(3, 4, &vec![1, 2, 3, 4, 5, 6, 7, 8, 0]).unwrap();
    assert_eq!(grid.expected_pos(&0), (1, 0));

    let grid = Grid::new(3, 6, &vec![1, 2, 3, 4, 5, 6, 7, 8, 0]).unwrap();
    assert_eq!(grid.expected_pos(&4), (1, 0));
    assert_eq!(grid.expected_pos(&0), (1, 2));
}

#[test]
fn test_heuristic_for_index() {
    let grid = Grid::new(3, -1, &vec![1, 2, 3, 4, 5, 6, 7, 8, 0]).unwrap();

    for i in 0..=8 {
        assert_eq!(grid.heuristic_for_index(i), 0);
    }

    let grid = Grid::new(3, -1, &vec![1, 2, 4, 5, 6, 3, 7, 8, 0]).unwrap();
    assert_eq!(grid.heuristic_for_index(0), 0);
    assert_eq!(grid.heuristic_for_index(1), 0);
    assert_eq!(grid.heuristic_for_index(2), 3);
    assert_eq!(grid.heuristic_for_index(3), 1);
    assert_eq!(grid.heuristic_for_index(4), 1);
    assert_eq!(grid.heuristic_for_index(5), 1);
    assert_eq!(grid.heuristic_for_index(6), 0);
    assert_eq!(grid.heuristic_for_index(7), 0);
    assert_eq!(grid.heuristic_for_index(8), 0);
}

#[test]
fn test_heuristic() {
    let grid = Grid::new(3, -1, &vec![1, 2, 3, 4, 5, 6, 7, 8, 0]).unwrap();
    assert_eq!(grid.heuristic(), 0);

    let grid = Grid::new(3, -1, &vec![1, 2, 4, 5, 6, 3, 7, 8, 0]).unwrap();
    assert_eq!(grid.heuristic(), 6);
}

#[test]
fn new_refuses_boards_that_are_not_permutations() {
    // wrong number of tiles for the edge length
    assert!(Grid::new(2, -1, &vec![1, 2, 0]).is_none());
    assert!(Grid::new(2, -1, &vec![1, 2, 3, 0, 4]).is_none());
    assert!(Grid::new(3, -1, &vec![1, 2, 3, 0]).is_none());
    // a tile twice
    assert!(Grid::new(2, -1, &vec![1, 1, 3, 0]).is_none());
    // two blanks, no blank
    assert!(Grid::new(2, -1, &vec![0, 1, 2, 0]).is_none());
    assert!(Grid::new(2, -1, &vec![1, 2, 3, 4]).is_none());
    // a tile out of range
    assert!(Grid::new(2, -1, &vec![1, 2, 9, 0]).is_none());
    // no rows, too many rows
    assert!(Grid::new(0, -1, &vec![]).is_none());
    assert!(Grid::new(17, -1, &vec![0; 289]).is_none());
    // a goal selector that is neither positive nor negative
    assert!(Grid::new(2, 0, &vec![1, 2, 3, 0]).is_none());
}

#[test]
fn new_accepts_the_smallest_and_the_largest_board() {
    let one = Grid::new(1, -1, &vec![0]).unwrap();
    assert_eq!(one.current_zero_position(), (0, 0));
    assert_eq!(one.generate_neighbors().len(), 0);
    assert_eq!(one.heuristic(), 0);
    assert!(!one.is_unsolvable());

    let mut tiles: Vec<u8> = (1..=255).collect();
    tiles.push(0);
    let big = Grid::new(16, -1, &tiles).unwrap();
    assert_eq!(big.current_zero_position(), (15, 15));
    assert_eq!(big.heuristic(), 0);
    assert_eq!(big.expected_pos(&0), (15, 15));
    assert_eq!(big.expected_pos(&255), (15, 14));
    assert_eq!(big.generate_neighbors().len(), 2);
    assert!(!big.is_unsolvable());
}

#[test]
fn from_vec_takes_the_edge_from_the_length() {
    assert!(Grid::from_vec(-1, &vec![1, 2, 3, 0]).is_some());
    assert!(Grid::from_vec(-1, &vec![1, 2, 0]).is_none());
    assert!(Grid::from_vec(-1, &vec![1, 2, 3, 4, 0]).is_none());
    assert!(Grid::from_vec(-1, &vec![]).is_none());
    assert!(Grid::from_vec(-1, &vec![0]).is_some());
    assert!(Grid::from_vec(0, &vec![0]).is_none());
    let a = Grid::from_vec(-1, &vec![8, 7, 6, 5, 4, 3, 2, 1, 0]).unwrap();
    let b = Grid::new(3, -1, &vec![8, 7, 6, 5, 4, 3, 2, 1, 0]).unwrap();
    assert_eq!(a, b);
    assert_eq!(a.linear_pos_to_matrix_pos(5), (1, 2));
}

#[test]
fn get_reads_a_cell_by_column_and_row() {
    let grid = Grid::new(3, -1, &vec![4, 3, 5, 6, 0, 1, 8, 7, 2]).unwrap();
    assert_eq!(grid.get(0, 0), Some(&4));
    assert_eq!(grid.get(2, 0), Some(&5));
    assert_eq!(grid.get(0, 1), Some(&6));
    assert_eq!(grid.get(1, 2), Some(&7));
    assert_eq!(grid.get(2, 2), Some(&2));
    assert_eq!(grid.get(0, 3), None);
    assert_eq!(grid.get(255, 255), None);
    // a column past the edge reads on into the next row
    assert_eq!(grid.get(3, 0), Some(&6));
}

#[test]
fn zero_position_is_column_then_row() {
    let grid = Grid::new(3, -1, &vec![4, 3, 5, 6, 7, 0, 8, 1, 2]).unwrap();
    assert_eq!(grid.current_zero_position(), (2, 1));
    let grid = Grid::new(2, -1, &vec![0, 3, 2, 1]).unwrap();
    assert_eq!(grid.current_zero_position(), (0, 0));
}

#[test]
fn swap_exchanges_two_cells() {
    let mut grid = Grid::new(2, -1, &vec![1, 2, 3, 0]).unwrap();
    grid.swap_indices((0, 0), (1, 1));
    assert_eq!(grid, Grid::new(2, -1, &vec![0, 2, 3, 1]).unwrap());
    grid.swap_indices((1, 0), (1, 0));
    assert_eq!(grid, Grid::new(2, -1, &vec![0, 2, 3, 1]).unwrap());

    let source = Grid::new(3, -1, &vec![1, 2, 3, 4, 5, 6, 7, 8, 0]).unwrap();
    let copy = source.clone_with_swapped_indices((2, 2), (2, 1));
    assert_eq!(copy, Grid::new(3, -1, &vec![1, 2, 3, 4, 5, 0, 7, 8, 6]).unwrap());
    assert_eq!(source, Grid::new(3, -1, &vec![1, 2, 3, 4, 5, 6, 7, 8, 0]).unwrap());
}

#[test]
fn neighbors_of_an_inner_blank_come_in_order() {
    let grid = Grid::new(3, -1, &vec![1, 2, 3, 4, 0, 5, 6, 7, 8]).unwrap();
    let expected = grids(vec![
        (vec![1, 2, 3, 0, 4, 5, 6, 7, 8], Direction::Right),
        (vec![1, 2, 3, 4, 5, 0, 6, 7, 8], Direction::Left),
        (vec![1, 0, 3, 4, 2, 5, 6, 7, 8], Direction::Down),
        (vec![1, 2, 3, 4, 7, 5, 6, 0, 8], Direction::Up),
    ]);
    assert_eq!(grid.generate_neighbors(), expected);
}

#[test]
fn neighbor_count_follows_the_blank() {
    for at in 0..9usize {
        let mut tiles: Vec<u8> = Vec::new();
        let mut next = 1u8;
        for i in 0..9usize {
            if i == at {
                tiles.push(0);
            } else {
                tiles.push(next);
                next += 1;
            }
        }
        let grid = Grid::new(3, -1, &tiles).unwrap();
        let corner = at == 0 || at == 2 || at == 6 || at == 8;
        let inner = at == 4;
        let expected = if corner { 2 } else if inner { 4 } else { 3 };
        assert_eq!(grid.generate_neighbors().len(), expected);
    }
}

#[test]
fn every_neighbor_differs_by_one_swap_with_the_blank() {
    let tiles = vec![4, 3, 5, 6, 0, 1, 8, 7, 2];
    let grid = Grid::new(3, -1, &tiles).unwrap();
    for (adj, _) in grid.generate_neighbors() {
        let mut changed = 0;
        for y in 0..3u8 {
            for x in 0..3u8 {
                if adj.get(x, y) != grid.get(x, y) {
                    changed += 1;
                }
            }
        }
        assert_eq!(changed, 2);
        let (zx, zy) = adj.current_zero_position();
        let (x, y) = grid.current_zero_position();
        let dx = if zx > x { zx - x } else { x - zx };
        let dy = if zy > y { zy - y } else { y - zy };
        assert_eq!(dx + dy, 1);
        assert_eq!(adj.get(x, y), grid.get(zx, zy));
    }
}

#[test]
fn heuristic_is_the_manhattan_distance() {
    let grid = Grid::new(3, -1, &vec![4, 3, 5, 6, 0, 1, 8, 7, 2]).unwrap();
    let per_cell: Vec<u8> = (0..9).map(|i| grid.heuristic_for_index(i)).collect();
    assert_eq!(per_cell, vec![1, 1, 2, 2, 2, 3, 1, 1, 3]);
    assert_eq!(grid.heuristic(), 16);
    assert_eq!(Grid::new(2, -1, &vec![3, 1, 2, 0]).unwrap().heuristic(), 4);
}

#[test]
fn heuristic_is_zero_only_in_the_goal() {
    let goal = Grid::new(2, -1, &vec![1, 2, 3, 0]).unwrap();
    assert_eq!(goal.heuristic(), 0);
    for i in 0..4 {
        assert_eq!(goal.linear_pos_to_matrix_pos(i), goal.expected_pos(goal.get(i % 2, i / 2).unwrap()));
    }
    // the blank's goal is the last cell under a positive selector of that cell too
    assert_eq!(Grid::new(2, 4, &vec![1, 2, 3, 0]).unwrap().heuristic(), 0);
    // under a selector of another cell the blank is out of place
    assert_eq!(Grid::new(2, 2, &vec![1, 2, 3, 0]).unwrap().heuristic(), 1);
    let other = Grid::new(2, -1, &vec![1, 2, 0, 3]).unwrap();
    assert!(other.heuristic() > 0);
}

#[test]
fn parity_test_on_even_and_odd_boards() {
    assert!(!Grid::new(2, -1, &vec![3, 1, 2, 0]).unwrap().is_unsolvable());
    assert!(!Grid::new(2, -1, &vec![1, 2, 3, 0]).unwrap().is_unsolvable());
    assert!(Grid::new(2, -1, &vec![2, 1, 3, 0]).unwrap().is_unsolvable());
    assert!(Grid::new(3, -1, &vec![1, 2, 3, 4, 5, 6, 8, 7, 0]).unwrap().is_unsolvable());
    assert!(!Grid::new(3, -1, &vec![4, 3, 5, 6, 0, 1, 8, 7, 2]).unwrap().is_unsolvable());
    let mut tiles: Vec<u8> = (1..=13).collect();
    tiles.extend_from_slice(&[15, 14, 0]);
    assert!(Grid::new(4, -1, &tiles).unwrap().is_unsolvable());
}

#[test]
fn parity_test_gives_the_same_answer_again_and_ignores_the_goal() {
    let grid = Grid::new(3, -1, &vec![1, 2, 3, 4, 5, 6, 8, 7, 0]).unwrap();
    let first = grid.is_unsolvable();
    assert_eq!(grid.is_unsolvable(), first);
    assert_eq!(grid.clone().is_unsolvable(), first);
    let other_goal = Grid::new(3, 5, &vec![1, 2, 3, 4, 5, 6, 8, 7, 0]).unwrap();
    assert_eq!(other_goal.is_unsolvable(), first);
}

#[test]
fn states_are_equal_by_tiles_and_edge() {
    let a = Grid::new(2, -1, &vec![1, 2, 3, 0]).unwrap();
    let b = Grid::new(2, 3, &vec![1, 2, 3, 0]).unwrap();
    let c = Grid::new(2, -1, &vec![1, 2, 0, 3]).unwrap();
    assert!(a == b);
    assert!(a.same_board(&b));
    assert!(a != c);
    assert!(!a.same_board(&c));
    assert_eq!(a.digest(), b.digest());
    assert_eq!(a.digest(), 17107462);
    assert_eq!(Grid::new(3, -1, &vec![4, 3, 5, 6, 0, 1, 8, 7, 2]).unwrap().digest(), 546063485);
}

#[test]
fn directions_have_names_and_opposites() {
    assert_eq!(Direction::Up.to_string(), "up");
    assert_eq!(Direction::Right.to_string(), "right");
    assert_eq!(Direction::Down.to_string(), "down");
    assert_eq!(Direction::Left.to_string(), "left");
    assert_eq!(Direction::Up.reversed(), Direction::Down);
    assert_eq!(Direction::Down.reversed(), Direction::Up);
    assert_eq!(Direction::Left.reversed(), Direction::Right);
    assert_eq!(Direction::Right.reversed(), Direction::Left);
}

#[test]
fn a_board_is_described_row_by_row() {
    let grid = Grid::new(3, -1, &vec![4, 3, 5, 6, 0, 1, 8, 7, 2]).unwrap();
    assert_eq!(grid.describe(), "Grid: [\n  4,3,5\n  6,0,1\n  8,7,2\n]");
    let grid = Grid::new(1, -1, &vec![0]).unwrap();
    assert_eq!(grid.describe(), "Grid: [\n  0\n]");
    let mut tiles: Vec<u8> = (1..=15).collect();
    tiles.insert(5, 0);
    let grid = Grid::new(4, -1, &tiles).unwrap();
    assert_eq!(grid.describe(), "Grid: [\n  1,2,3,4\n  5,0,6,7\n  8,9,10,11\n  12,13,14,15\n]");
}

#[test]
fn a_move_keeps_the_answer_of_the_parity_test() {
    let boards: Vec<(u8, Vec<u8>)> = vec![
        (2, vec![3, 1, 2, 0]),
        (2, vec![2, 1, 3, 0]),
        (2, vec![0, 3, 1, 2]),
        (3, vec![4, 3, 5, 6, 0, 1, 8, 7, 2]),
        (3, vec![1, 2, 3, 4, 5, 6, 8, 7, 0]),
        (3, vec![0, 8, 7, 6, 5, 4, 3, 2, 1]),
        (4, vec![1, 2, 3, 4, 5, 6, 0, 8, 9, 10, 7, 12, 13, 14, 11, 15]),
        (4, vec![15, 14, 13, 12, 11, 10, 9, 8, 7, 6, 5, 4, 3, 2, 1, 0]),
        (4, vec![2, 1, 3, 4, 5, 6, 7, 8, 9, 10, 11, 12, 13, 14, 15, 0]),
    ];
    for (side, tiles) in boards {
        let grid = Grid::new(side, -1, &tiles).unwrap();
        let answer = grid.is_unsolvable();
        for (adj, _) in grid.generate_neighbors() {
            assert_eq!(adj.is_unsolvable(), answer);
            for (next, _) in adj.generate_neighbors() {
                assert_eq!(next.is_unsolvable(), answer);
            }
        }
    }
}

#[test]
fn a_move_changes_the_heuristic_by_two_at_most() {
    let grid = Grid::new(3, -1, &vec![4, 3, 5, 6, 0, 1, 8, 7, 2]).unwrap();
    let h = grid.heuristic();
    assert_eq!(h, 16);
    let after: Vec<u16> = grid.generate_neighbors().iter().map(|(g, _)| g.heuristic()).collect();
    assert_eq!(after, vec![16, 14, 18, 16]);
    for (adj, _) in grid.generate_neighbors() {
        let k = adj.heuristic();
        assert!(k <= h + 2 && h <= k + 2);
    }
}

#[test]
fn the_goal_passes_the_parity_test() {
    for side in 1..=16u8 {
        let n = side as usize * side as usize;
        let mut tiles: Vec<u8> = (1..n).map(|v| v as u8).collect();
        tiles.push(0);
        let goal = Grid::new(side, -1, &tiles).unwrap();
        assert_eq!(goal.heuristic(), 0);
        assert!(!goal.is_unsolvable());
    }
}
