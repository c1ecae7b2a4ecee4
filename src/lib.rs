//! Arithmetic over single-digit expression trees: an arena of nodes addressed
//! by integer handles, an evaluator with exact integer division, and a
//! tokenizer and precedence-climbing parser that populate the arena.
pub mod arena;
pub mod expressions;
pub mod parser;
pub mod evaluation;
