pub mod point;
pub mod board;
pub mod game;
