pub mod data;
pub mod solver;
pub mod game;
pub mod shop;
pub mod table;
pub mod text;
pub mod model;
