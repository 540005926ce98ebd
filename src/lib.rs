//! A deterministic finite automaton read from a small line-oriented text
//! format, with a verified parser and a verified acceptance check.

pub mod text;
pub mod automaton;
pub mod parser;
pub mod serialize;
