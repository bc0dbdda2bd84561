//! A compressor for short natural-language strings: a greedy tokenizer over
//! static dictionaries, numbers and repetitions, and a dense byte code for the
//! resulting tokens.
//!
//! [`Builder`] configures an [`Engine`] (a custom word list and whether custom
//! words also match after a space); [`Engine::compress`] and
//! [`Engine::decompress`] do the work, and [`compress`] and [`decompress`] use
//! the default configuration. The proofs of what holds of every input are in
//! [`laws`].
pub mod builder;
pub mod codec;
pub mod dictionary;
pub mod engine;
pub mod error;
pub mod ir;
pub mod iterator;
pub mod laws;
pub mod matcher;
pub mod tables;
pub mod text;

pub use crate::builder::{compress, decompress, Builder};
pub use crate::engine::Engine;
pub use crate::error::{Error, Result};
pub use crate::ir::CodeType;
