//! Overlapping-model wave function collapse: pattern extraction from an
//! exemplar, the adjacency model built from it, and the collapse engine that
//! fills an output grid with patterns that agree with their neighbours.

mod bits;
pub mod cli;
pub mod colour;
pub mod consistency;
pub mod engine;
pub mod entropy_coord;
pub mod direction;
pub mod grid2d;
pub mod image_container;
pub mod image_reader;
pub mod log2;
pub mod model;
mod random;
pub mod sample;
pub mod vector2;
