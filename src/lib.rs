//! Integer core of a tile-based Monte Carlo path tracer: resolved pixels and
//! their text encoding, the partition of an image into tiles, the coordinator
//! that hands tiles to workers and merges the results, and the worker-count
//! flag.

pub mod color;
pub mod image;
pub mod tile;
pub mod render;
pub mod args;
