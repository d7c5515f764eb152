pub mod alpha;
pub mod balloon;
pub mod fill_laws;
pub mod geometry;
pub mod laws;
pub mod polygon;
pub mod scaling;
pub mod statistics;
pub mod strategy;
