//! The code generator's analysis of an escape table: the pairs of bytes and
//! escape sequences, their mask, and the tables the generated code looks up.
pub mod switch;
pub mod ranges;
pub mod pairs;
pub mod generator;
pub mod table;
pub mod template;
pub mod lex;
