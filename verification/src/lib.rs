//! The control core of a scanline path tracer: the commands that are handed
//! to render workers, the round-robin dispatcher that picks a worker for each
//! scanline, the pixel cursor of a tile, the bounce budget of a light path,
//! and the buffer that puts finished scanlines back into row order.
//!
//! Everything here works on row numbers, pixel coordinates and counters; the
//! colour type of a scanline and the scene that a command carries are type
//! parameters.

pub mod dispatch;
pub mod job;
pub mod path;
pub mod reassembly;
pub mod tile;
