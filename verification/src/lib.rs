//! Japanese morphological analysis: dictionary resources, a Viterbi lattice
//! and a tokenizer, with their behaviour stated in contracts.

pub mod category;
pub mod text;
pub mod error;
pub mod types;
pub mod bytes;
pub mod connection;
pub mod morpheme_index;
pub mod resource;
pub mod lattice;
pub mod dictionary;
pub mod chunking;
pub mod token;
pub mod tokenizer;
pub mod loader;
pub mod uniqueness;
