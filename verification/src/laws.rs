//! What the library guarantees of what comes out for what goes in.
//!
//! The contracts of the functions name their results. Here it is said of these
//! results, in numbers and sequences, what the modes rely on.

pub mod arithmetic;
pub mod bindings;
pub mod colors;
pub mod cursor;
pub mod detection;
pub mod forest;
pub mod hints;
pub mod models;
pub mod outputs;
pub mod pointer;
pub mod quadrants;
pub mod text;
