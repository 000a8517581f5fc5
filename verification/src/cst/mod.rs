//! Concrete syntax tree of a HOI4 script: a lossless token stream with trivia,
//! a recovering parser over it, and the lowering to the abstract syntax tree.
pub mod diagnostic;
pub mod token;
pub mod types;
pub mod lexer;
pub mod parser;
pub mod lower;
pub mod model;
pub mod lexmodel;
pub mod preserve;
pub mod bom;
pub mod token_laws;
