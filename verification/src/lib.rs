//! Rules engine and move history for the game of Go.
//!
//! The engine keeps, for every stone, the group it belongs to and that
//! group's liberties; it decides whether a move is legal (no stone on a
//! taken point, no suicide, no position of the whole board twice), applies
//! moves with their captures, and keeps the history of a game as a tree of
//! moves with undo, redo, saved states and a record as text.
//!
//! - [`cells`]: board sizes, coordinates and their row-major order.
//! - [`go`]: stones, groups, liberties, the hasher of positions, and the
//!   functions that find groups, count liberties, and judge and play moves.
//! - [`chain`], [`capture`], [`akin`], [`position`]: what these functions
//!   compute, stated over grids.
//! - [`game`]: the tree of moves, saved states, and the record as text.
//! - [`sgf`]: the grammar of the record, written and read.
//! - [`report`]: what a change of the board is reported as.
//! - [`session`]: one running game and its operations.
//! - [`names`]: names of the files that games are stored in.
//! - [`laws`], [`groups`], [`history`], [`record`]: what holds of the
//!   whole: liberties, groups, undo and redo, writing and reading.

pub mod akin;
pub mod capture;
pub mod cells;
pub mod chain;
pub mod game;
pub mod go;
pub mod groups;
pub mod history;
pub mod laws;
pub mod names;
pub mod position;
pub mod record;
pub mod report;
pub mod session;
pub mod sgf;
