pub mod board;
pub mod draw;
pub mod lines;
pub mod play;

pub use board::{Four, GameState};
