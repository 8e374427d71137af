//! A lexical scanner for a small scripting language, with its behaviour
//! stated against a mathematical model of the lexical grammar.

pub mod errors;
pub mod grammar;
pub mod lemmas;
pub mod recovery;
pub mod scanner;
pub mod text;
pub mod theorems;
pub mod token;
