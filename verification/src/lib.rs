//! Grammar-driven command line front end: a quote-aware tokenizer, a tree of
//! named commands, and the parser and completer that walk that tree.

pub mod completer;
pub mod continuation;
pub mod grammar;
pub mod helper;
pub mod interpreter;
pub mod layout;
pub mod parser;
pub mod tokenizer;
