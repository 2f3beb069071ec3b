//! A uniform spatial hash grid for bounded-radius neighbour queries over many
//! moving 2D particles.
//!
//! Particles are partitioned into square grid cells; integer cell coordinates
//! are hashed into a fixed-size bucket table, and a query for a point streams
//! the candidate particle ids of the 3x3 block of cells around it. The result
//! is a conservative superset: callers apply an exact distance filter.

pub mod entries;
pub mod hashing;
pub mod laws;
pub mod spatial_index;
