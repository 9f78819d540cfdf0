//! Conway's Game of Life (B3/S23): a sparse tiled engine (`grid`) and a
//! HashLife quadtree engine (`hashlife`), with the pattern codecs and the
//! viewport snapshot they share.

pub mod actions;
pub mod arith;
pub mod bloom;
pub mod coord;
pub mod export;
pub mod grid;
pub mod hashlife;
pub mod neighbourhood;
pub mod snapshot;
pub mod step;
pub mod tiles;

