//! A particle-life simulation core: toroidal plane math, a spatial hash grid
//! for radius queries, a colour-interaction model, and the per-tick force and
//! integration step. All world quantities are fixed-point integers in units of
//! one thousandth of a world unit.

pub mod buckets;
pub mod colour;
pub mod math;
pub mod model;
mod rng;
pub mod simulation;
pub mod size;
pub mod spatial_hash;
