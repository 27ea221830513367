//! MENACE: a tabular reinforcement learner for tic-tac-toe.
//!
//! The engine keeps a table of bead counts per visited board state,
//! selects moves by weighted random sampling, records each episode,
//! and adjusts the visited counts when a game ends. The table can be
//! written to and read back from a single structured document.

pub mod adjust;
pub mod codec;
pub mod ext;
pub mod laws;
pub mod menace;
pub mod symbol;
pub mod tictactoe;
