use sliding_puzzle::grid::{Direction, Grid};
use sliding_puzzle::solver::{Outcome, Solver};

#[test]
fn end_to_end_tests() {
    // 2x2
    let input = "3
            -1
            3 1
            2 0";
    let solution = Solver::solve(input);
    assert_eq!(solution, "4\nright\ndown\nleft\nup");

    // 3x3
    let input = "8
            -1
            1 2 3
            4 5 6
            7 8 0";
    let solution = Solver::solve(input);
    assert_eq!(solution, "0\n");

    let input = "8
            -1
            4 3 5
            6 0 1
            8 7 2";
    let solution = Solver::solve(input);
    assert_eq!(solution, "22\nright\nup\nleft\ndown\nleft\ndown\nright\nup\nright\ndown\nleft\nleft\nup\nup\nright\ndown\nleft\ndown\nright\nup\nleft\nup");
}

#[test]
fn two_by_two_is_solved_in_four_moves() {
    let grid = Grid::new(2, -1, &vec![3, 1, 2, 0]).unwrap();
    match Solver::solve_grid(grid) {
        Outcome::Solved(moves) => {
            assert_eq!(moves, vec![Direction::Right, Direction::Down, Direction::Left, Direction::Up]);
        }
        _ => panic!("a solvable board"),
    }
}

#[test]
fn solved_board_needs_no_move() {
    let grid = Grid::new(3, -1, &vec![1, 2, 3, 4, 5, 6, 7, 8, 0]).unwrap();
    match Solver::solve_grid(grid) {
        Outcome::Solved(moves) => assert_eq!(moves.len(), 0),
        _ => panic!("a solved board"),
    }
}

#[test]
fn three_by_three_is_solved_in_twenty_two_moves() {
    let grid = Grid::new(3, -1, &vec![4, 3, 5, 6, 0, 1, 8, 7, 2]).unwrap();
    match Solver::solve_grid(grid) {
        Outcome::Solved(moves) => assert_eq!(moves.len(), 22),
        _ => panic!("a solvable board"),
    }
}

#[test]
fn unsolvable_board_is_told_without_search() {
    let input = "3\n-1\n2 1\n3 0";
    assert!(matches!(Solver::outcome(input), Outcome::Unsolvable));
    assert_eq!(Solver::solve(input), "No solution");
    let input = "8\n-1\n1 2 3\n4 5 6\n8 7 0\n";
    assert_eq!(Solver::solve(input), "No solution");
}

#[test]
fn malformed_text_is_an_invalid_board() {
    let cases = [
        "",
        "3",
        "3\n",
        "3\n-1",
        "3\n-1\n",
        "3\n-1\n3 1",
        "3\n-1\n3 1\n",
        "3\n-1\n3 1 2 0",
        "3\n-1\n3 1 2 0\n",
        "x\n-1\n3 1\n2 0",
        "3 3\n-1\n3 1\n2 0",
        "-3\n-1\n3 1\n2 0",
        "3\n- 1\n3 1\n2 0",
        "3\n-\n3 1\n2 0",
        "3\n+\n3 1\n2 0",
        "3\n1x\n3 1\n2 0",
        "3\n-129\n3 1\n2 0",
        "3\n128\n3 1\n2 0",
        "256\n-1\n3 1\n2 0",
        "3\n0\n3 1\n2 0",
        "3\n-1\n3 1\n2 a",
        "3\n-1\n3 1\n2 256",
        "3\n-1\n3 1\n2 -0",
        "3\n-1\n3 1\n2",
        "3\n-1\n3 1\n2 0 4",
        "3\n-1\n3 1\n2 2",
        "3\n-1\n3 1\n2 1",
        "3\n-1\n\n3 1\n2 0",
        "0\n-1\n",
        "0\n-1\n0",
    ];
    for input in cases {
        assert!(Solver::input_to_grid(input).is_none(), "{:?}", input);
        assert!(matches!(Solver::outcome(input), Outcome::InvalidBoard), "{:?}", input);
        assert_eq!(Solver::solve(input), "Invalid board", "{:?}", input);
    }
}

#[test]
fn text_may_carry_signs_zeros_and_white_space() {
    let expected = Grid::new(2, -1, &vec![3, 1, 2, 0]).unwrap();
    let cases = [
        "3\n-1\n3 1\n2 0",
        "3\n-1\n3 1\n2 0\n",
        "3\r\n-1\r\n3 1\r\n2 0\r\n",
        "  +3\t\n\t-01 \n  3\t1 \n 2   0 \nthe rest is not read",
        "4\n-1\n+3 001\n2 0",
        "2\n-1\n3 1 2\n0",
        "3\n-1\n3 1 2 0\n\n",
        "3\n-1\n\n3 1 2 0\n",
    ];
    for input in cases {
        let grid = Solver::input_to_grid(input);
        assert!(grid.is_some(), "{:?}", input);
        assert_eq!(grid.unwrap(), expected, "{:?}", input);
    }
    let grid = Solver::input_to_grid("8\n+6\n1 2 3\n4 5 6\n7 8 0").unwrap();
    assert_eq!(grid.expected_pos(&0), (1, 2));
    let grid = Solver::input_to_grid("0\n-1\n0").map(|g| g.heuristic());
    assert_eq!(grid, None);
    let grid = Solver::input_to_grid("1\n-1\n0").unwrap();
    assert_eq!(grid, Grid::new(1, -1, &vec![0]).unwrap());
    assert_eq!(Solver::solve("1\n-1\n0"), "0\n");
}

#[test]
fn edge_comes_from_the_count_of_tiles() {
    // 15 numbered tiles: four rows
    let input = "15\n-1\n1 2 3 4\n5 6 7 8\n9 10 11 12\n13 14 0 15";
    assert_eq!(Solver::solve(input), "1\nleft");
    let input = "15\n-1\n1 2 3 4\n5 6 7 8\n9 10 0 12\n13 14 11 15";
    assert_eq!(Solver::solve(input), "2\nup\nleft");
    // 10 to 16 give four rows too
    let input = "10\n-1\n1 2 3 4\n5 6 7 8\n9 10 11 12\n13 14 0 15";
    assert_eq!(Solver::solve(input), "1\nleft");
    // 9 gives three rows: the fourth line is not read
    let input = "9\n-1\n1 2 3\n4 5 6\n7 0 8\n13 14 0 15";
    assert_eq!(Solver::solve(input), "1\nleft");
}

#[test]
fn a_search_without_end_is_abandoned() {
    // one cell, and the blank's goal off the board: nothing to move, never in place
    let input = "1\n5\n0";
    assert!(matches!(Solver::outcome(input), Outcome::SearchAbandoned));
    assert_eq!(Solver::solve(input), "Search abandoned");
}

#[test]
fn outcomes_have_their_texts() {
    assert_eq!(Outcome::InvalidBoard.to_string(), "Invalid board");
    assert_eq!(Outcome::Unsolvable.to_string(), "No solution");
    assert_eq!(Outcome::SearchAbandoned.to_string(), "Search abandoned");
    assert_eq!(Outcome::Solved(vec![]).to_string(), "0\n");
    assert_eq!(Outcome::Solved(vec![Direction::Up]).to_string(), "1\nup");
    assert_eq!(Outcome::Solved(vec![Direction::Left; 10]).to_string(), format!("10{}", "\nleft".repeat(10)));
    assert_eq!(Outcome::Solved(vec![Direction::Down; 123]).to_string(), format!("123{}", "\ndown".repeat(123)));
}

#[test]
fn first_line_announces_the_rows() {
    assert_eq!(Solver::rows_announced("3\n"), Some(2));
    assert_eq!(Solver::rows_announced("  8 \r\n-1\n"), Some(3));
    assert_eq!(Solver::rows_announced("9"), Some(3));
    assert_eq!(Solver::rows_announced("10"), Some(4));
    assert_eq!(Solver::rows_announced("15\n"), Some(4));
    assert_eq!(Solver::rows_announced("+0\n"), Some(0));
    assert_eq!(Solver::rows_announced("1"), Some(1));
    assert_eq!(Solver::rows_announced("255"), Some(16));
    assert_eq!(Solver::rows_announced("256"), None);
    assert_eq!(Solver::rows_announced(""), None);
    assert_eq!(Solver::rows_announced("\n3"), None);
    assert_eq!(Solver::rows_announced("three\n"), None);
    assert_eq!(Solver::rows_announced("3 4\n"), None);
}
