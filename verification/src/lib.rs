//! Cellular automata and particle simulations: the integer-valued core.
//!
//! The modules here hold the parts of the simulations that are exact: the
//! two-state generation buffer, the row-major grid and its neighbourhoods,
//! the chunk index for neighbour search, Conway-style automata, bitmaps
//! rasterised from RGBA images and their byte format, exact squared distance
//! transforms, input snapshots and the image buffers handed to a renderer.
use vstd::prelude::*;

pub mod bitmap;
pub mod buffer;
pub mod chunks;
pub mod conway;
pub mod edt;
pub mod grid;
pub mod handles;
pub mod image;
pub mod input;
pub mod rng;
pub mod species;

verus! {

} // verus!
