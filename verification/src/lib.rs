//! Word-search puzzle generation.
//!
//! Given a grid width and height and a list of words, the generator places
//! each word along one of eight compass directions, fills the remaining
//! cells with random uppercase letters, and reports the words that could
//! not be placed.

pub mod coordinate;
pub mod direction;
pub mod generator;
pub mod grid;
