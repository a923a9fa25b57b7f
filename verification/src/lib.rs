//! Brute-force K-nearest-neighbor search for particles in a periodic unit
//! cube, under the minimum-image distance convention.
//!
//! The crate has three parts: [`geometry`] computes squared minimum-image
//! distances between fixed-point cube positions, [`neighbors`] maintains one
//! particle's bounded sorted candidate list, and [`search`] runs the all-pairs
//! scan that fills one such list per particle.

pub mod geometry;
pub mod neighbors;
pub mod search;
