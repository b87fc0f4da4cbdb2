//! Directions and axes.
pub mod axis;
pub mod facing;
