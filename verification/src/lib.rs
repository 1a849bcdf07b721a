//! Escaping of strings: a table of ASCII bytes and their replacements, the
//! byte-by-byte and block-wise escaping routines built on it, and the code
//! generator's classification of escape tables into range masks.
pub mod replace;
pub mod writer;
pub mod escapes;
pub mod generic;
pub mod arch;
pub mod builder;
pub mod codegen_base;
pub mod codegen;
pub mod html;
