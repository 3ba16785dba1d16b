//! A regular-expression compiler for byte strings: a pattern is lexed into
//! tokens, built into a Thompson NFA, closed over its epsilon edges and turned
//! into a DFA whose states carry the capture groups that open and close there.
pub mod charset;
pub mod config;
pub mod lexer;
pub mod nfa_uncooked;
pub mod nfa;
pub mod dfa;
pub mod regex;
