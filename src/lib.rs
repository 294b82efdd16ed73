//! A small toolkit: a verified tokenizer and parser for a JSON-like text
//! format, and a flat two-dimensional grid of integers.
pub mod grid;
pub mod laws;
pub mod number;
pub mod parse;
pub mod token;
pub mod tokenize;
pub mod value;
