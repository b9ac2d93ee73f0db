//! A small fixed-step billiards simulation on integer fixed-point coordinates.
//!
//! Balls are circles of one common radius on a rectangular table. Each tick
//! moves every ball, slows it by friction, resolves overlapping pairs and
//! reflects balls at the table's walls. Every function is verified.

pub mod aim;
pub mod ball;
pub mod collision;
pub mod fixed;
pub mod laws;
pub mod state;
pub mod table;
