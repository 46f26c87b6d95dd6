//! Tiling, pixel bookkeeping and scheduling for a multisampled Mandelbrot
//! renderer.
//!
//! - `tiles`: the image is cut into a square grid of equal tiles.
//! - `worker`: the cells of a tile in order, and each pixel's colour as the
//!   mean of its samples.
//! - `pixel`: colour packing and row-major framebuffer positions.
//! - `framebuffer`: pixels written into the linear framebuffer.
//! - `pool`: the admission protocol that keeps at most `num_threads`
//!   workers running.
use vstd::prelude::*;

pub mod config;
pub mod framebuffer;
pub mod pixel;
pub mod pool;
pub mod tiles;
pub mod worker;

verus! {

} // verus!
