//! A one-dimensional cutting-stock solver: partition a sorted list of piece
//! lengths into as few planks (bins) of a fixed capacity as the search finds,
//! with every plank's total within capacity and no piece lost or duplicated.
//!
//! Lengths are unsigned integers; a caller working in fractional units picks a
//! scale (for example hundredths) and converts once at the boundary, which
//! keeps every comparison and sum exact.

pub mod model;
pub mod frontier;
pub mod plank;
pub mod solver;
