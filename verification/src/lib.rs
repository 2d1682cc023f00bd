pub mod common;
pub mod predicate;
pub mod ast;
pub mod eval;
pub mod tern;
pub mod bitset;
pub mod bititer;
pub mod inputsource;
pub mod lexer;
pub mod errors;
pub mod arena;
pub mod endpoint;
pub mod serde;
pub mod solutions;
pub mod queryable;
pub mod store;
pub mod prompt;
pub mod native;
pub mod vec_storage;
pub mod grammar;
pub mod parser;
pub mod stmt_grammar;
pub mod stmt_parser;
pub mod tree;
pub mod round;
pub mod polyp;
pub mod kickoff;
pub mod setup;
