//! In-memory voxel storage for Minecraft-compatible chunk columns.
//!
//! Block states and biomes are held in paletted containers (one value, a
//! local palette of indices, or global IDs directly) over fixed-width
//! values packed into 64-bit words. Columns stack 24 sections and are
//! decoded from, and encoded to, the post-1.18 network format.
pub mod bit_array;
pub mod chunk;
pub mod coords;
pub mod encoding;
pub mod palette;
pub mod parsing;
