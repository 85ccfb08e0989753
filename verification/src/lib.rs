//! Game logic of a terminal typing game: words drift towards a shield,
//! the player types them away, and a highscore table records the results.

pub mod structs;
pub mod text;
pub mod highscore;
pub mod game;
pub mod render;
mod random;
