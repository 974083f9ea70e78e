//! Core logic for generating asset configurations: a canonical identifier
//! encoder, a similarity search engine for suggesting alternatives to
//! unknown symbols, a selection planner, and a config assembler.
pub mod assemble;
pub mod encoder;
pub mod paths;
pub mod plan;
pub mod suggest;
pub mod text;
