//! A small lexing front end: a string-interning symbol table, a sorted
//! operator registry with longest-prefix lookup, and a backtracking
//! tokenizer that turns source text into a stream of classified tokens.

pub mod chars;
pub mod dfa;
pub mod exec;
pub mod lex;
pub mod registry;
pub mod scan;
pub mod strutil;
pub mod symbol;
pub mod val;
