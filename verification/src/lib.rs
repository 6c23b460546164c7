//! Solver for the sliding-tile puzzle on square boards.
//!
//! - `grid`: board states, their neighbors, the distance heuristic and the
//!   parity test.
//! - `graph_builder`: the graph of the states met so far, expanded node by
//!   node, in which every state is stored once.
//! - `ids`: the iterative-deepening search over that graph.
//! - `solver`: from the text of a puzzle to the text of its solution.
//! - `parity`: why the parity test rejects no board that can be solved.
//! - `bounds`: how long the moves that the search finds can be.
//! - `text`: numbers as decimal text.

pub mod bounds;
pub mod graph_builder;
pub mod grid;
pub mod ids;
pub mod parity;
pub mod solver;
pub mod text;
