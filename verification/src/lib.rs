//! A compression-based language model: a byte-pair tokenizer, the integer
//! core of a dictionary-ensemble predictor, and reference baseline models,
//! each with a machine-checked contract.

pub mod clm;
