//! Least-significant-bit steganography over RGB pixel grids: a bit-exact
//! embedding codec and the integer statistics used to detect hidden data.

pub mod bits;
pub mod capacity;
pub mod codec;
pub mod error;
pub mod frame;
pub mod grid;
pub mod render;
pub mod stats;
pub mod windows;
