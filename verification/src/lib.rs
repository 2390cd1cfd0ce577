//! Geohash: a point on the map of the world is turned into a short base32 text
//! that names the grid cell holding it.
use vstd::prelude::*;

pub mod bits;
pub mod grid;
pub mod codec;
pub mod laws;
pub mod direction;
