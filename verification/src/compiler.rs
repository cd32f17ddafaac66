//! The game script compiler front end: tokens, the tokenizer, the syntax
//! tree and the parser.

pub mod abstract_syntax_tree_generator;
pub mod parser;
pub mod token;
pub mod token_tree;
pub mod tokenizer;
