pub mod game;
pub mod rect;
