//! Verified core of a modal, keyboard-driven virtual pointer for Wayland.
//!
//! The library decides; the program around it talks to the compositor. Positions
//! are double-precision numbers, made of integers (see [`number`]), and coordinates
//! in units that hold what comes from and goes to the compositor (see [`fixed`]).
//! So what a key press does to the pointer is stated and proved with its rounding.

pub mod areas;
pub mod cli;
pub mod config;
pub mod contours;
pub mod double;
pub mod fixed;
pub mod grid;
pub mod hint;
pub mod input;
pub mod laws;
pub mod modes;
pub mod normal;
pub mod number;
pub mod pointer;
pub mod target_detection;
pub mod text;
pub mod wayland;
