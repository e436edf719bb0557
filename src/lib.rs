pub mod geometry;
pub mod grid;
pub mod random;
pub mod corridor;
pub mod records;
pub mod planning;
pub mod generator;
pub mod spawner;
