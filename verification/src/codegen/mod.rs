//! The standalone code generator: the analysis of a template's pairs and the
//! documentation it writes for the generated crate.
pub mod generator;
pub mod docs;
pub mod manifest;
