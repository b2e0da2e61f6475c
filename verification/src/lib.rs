//! Polyomino tiling puzzles as exact-cover problems.
//!
//! A puzzle is a board (a set of unit cells) and a list of pieces.  Every
//! piece is brought into its distinct orientations, every orientation is
//! laid on every anchor of the board where it fits, and each such placement
//! becomes one row of a sparse 0/1 matrix.  A dancing-links search then
//! enumerates the selections of rows that cover every column exactly once.
pub mod bridge;
pub mod cells;
pub mod dlx;
pub mod exact;
pub mod game;
pub mod geometry;
pub mod links;
pub mod parser;
pub mod placing;
pub mod ring;
pub mod text;
pub mod tile;
