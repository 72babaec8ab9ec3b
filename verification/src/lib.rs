//! The rules of a falling-block puzzle in a bottomless well: piece shapes and
//! wall kicks, the well of stacked rows, the score ledger, the seven-piece bag
//! and the game state that ties them together.

pub mod arith;
pub mod bag;
pub mod game;
pub mod glyphs;
pub mod ledger;
pub mod piece;
pub mod scene;
pub mod well;

pub use bag::Queue;
pub use game::{Game, RESETS};
pub use ledger::{Ledger, Spin};
pub use piece::{cells, kicks, Fall, Kind, COLS, FLOOR, KEEP, ROWS, SHIFT};
pub use well::Well;
