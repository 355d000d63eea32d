//! Byte pair encoding: a greedy pair-merging tokenizer.
//!
//! A [`Vocabulary`] registers symbols under dense identifiers, learns
//! composite symbols from a text by repeatedly promoting its most frequent
//! adjacent pairs, and expands identifiers back into text.
//!
//! - [`token`]: the symbols, and the integers that stand for symbols and
//!   digrams in hash maps.
//! - [`model`]: a vocabulary as a sequence of symbols, and what
//!   registering and decoding mean on it.
//! - [`vocabulary`]: the registry and the decoder.
//! - [`digram`]: counting the adjacent pairs of a sequence.
//! - [`sort`] and [`select`]: ranking the counted digrams and selecting
//!   the most frequent ones.
//! - [`rewrite`]: putting one identifier in place of a digram.
//! - [`learn`]: the learning loop.

pub mod digram;
pub mod learn;
pub mod model;
pub mod rewrite;
pub mod select;
pub mod sort;
pub mod token;
pub mod vocabulary;

pub use token::{TknDiagram, TknId, TknMaxAmount, Token};
pub use vocabulary::Vocabulary;
