//! Rules of a falling-block puzzle game: pieces, the board of settled cells,
//! line clearing, scoring and the controller that sequences them.

pub mod block;
pub mod board;
pub mod game;
