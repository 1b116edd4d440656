//! Superseded components kept for compatibility.

pub mod tokenizer;
