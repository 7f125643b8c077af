//! The language-model components.

pub mod bpe;
pub mod clm_model;
pub mod error;
pub mod evaluate;
pub mod likelihoods;
pub mod ngram_model;
pub mod persistence;
pub mod repeatability;
pub mod roundtrip;
pub mod text;
pub mod token_map;
pub mod tokenizer;
pub mod trainer;
pub mod training_options;
pub mod trie;
pub mod uniform_model;
pub mod vocabulary;
