//! Escape entry points per target: each picks the byte-by-byte routine for short
//! inputs and the block-wise routine, with that target's block size, otherwise.
pub mod aarch64;
pub mod fallback;
pub mod wasm32;
pub mod x86_64;
