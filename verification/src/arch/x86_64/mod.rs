//! Escape entry points for x86_64: AVX2 vectors hold 32 bytes, SSE2 vectors 16.
pub mod avx;
pub mod sse;
