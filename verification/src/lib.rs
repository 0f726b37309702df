//! issen: a linter for Japanese technical prose in Markdown.

pub mod utf;
pub mod tokenizer;
pub mod sentence;
pub mod document;
pub mod diagnostic;
pub mod config;
pub mod rules;
pub mod engine;
pub mod format;
