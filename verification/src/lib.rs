//! Rule engine of a mine-clearing puzzle: a rectangular board of covered,
//! flagged and uncovered cells, mines laid on the first reveal, cascading
//! reveals through blank regions, chorded reveals and flag bookkeeping.
//!
//! The contracts of the executable functions are written over the ghost
//! model [`board::Board`], and Verus proves them. What is taken on trust is
//! the random number generator of `rand`, declared in [`generate`].

pub mod board;
pub mod cell;
pub mod counting;
pub mod game;
pub mod generate;
pub mod input;
pub mod laws;
pub mod play;
pub mod region;
pub mod uncover;

pub use cell::{Cell, CellContent, CellState, Glyph, Tint};
pub use game::Minesweeper;
pub use input::{InputAction, InputEvent, Key, MouseButton, MouseKind};
pub use play::Status;
pub use uncover::Outcome;
