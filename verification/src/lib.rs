//! Turn-based grid games on a rectangular board: Tic-Tac-Toe and a
//! generalized Connect-N, together with the shared board-geometry
//! machinery (line cursors and diagonal enumeration) that their
//! win-detection rests on.

pub mod board;
pub mod connectn;
pub mod game;
pub mod tictactoe;
