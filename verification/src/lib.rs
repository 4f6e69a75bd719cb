//! A byte-level unigram tokenizer: a vocabulary of weighted byte pieces, a
//! multi-pattern matcher over them, and a dynamic-programming pass that cuts
//! any byte input into the most probable sequence of pieces.
//!
//! - [`model`] reads the table of pieces from a serialized model.
//! - [`weight`] turns counts into weights, binary logarithms in fixed point.
//! - [`matcher`] holds the searcher that finds every occurrence of a piece.
//! - [`utils`] divides a text into lines.
//! - [`segment`] is the pass over one line, and proves its cuts the best.
//! - [`vocabulary`] says what tokenizing, encoding and decoding mean, and
//!   proves what holds of them.
//! - [`tokenizer`] is the tokenizer itself.
//! - [`trainer`] counts the n-grams that training starts from.
//!
//! The library works in integers throughout. Every function is proved to do
//! what its contract says for every input, and never to panic; what is taken
//! on trust of other crates is stated where they are called.

pub mod common;
pub mod error;
pub mod matcher;
pub mod model;
pub mod segment;
pub mod tokenizer;
pub mod trainer;
pub mod utils;
pub mod vocabulary;
pub mod weight;

pub use error::Error;
pub use tokenizer::Tokenize;
