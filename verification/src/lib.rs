//! Craws core: the verified heart of a tiled, content-addressed image pipeline.
//!
//! Pixel-independent logic lives here: geometry, pipeline validation, content
//! hashing, tile grids and gathers, region edits, composition geometry, the
//! tile cache and the engine's cache planning, session handles, colors,
//! parameter parsing and codec framing. Where a step needs colour arithmetic
//! on floating-point pixels, the functions here take it as a closure and state
//! their result in terms of what that closure returns.

pub mod geometry;
pub mod color;
pub mod pipeline;
pub mod hash;
pub mod tile;
pub mod ops;
pub mod compose;
pub mod mosaic;
pub mod cache;
pub mod parse;
pub mod codecs;
pub mod session;
pub mod engine;
pub mod tools;
pub mod preview;
