//! A small regular-expression engine: patterns are tokenized, compiled into a
//! nondeterministic automaton, made deterministic, pruned and then matched
//! against input strings.

pub mod assemble;
pub mod assemble_spec;
pub mod automata;
pub mod build_spec;
pub mod builder;
pub mod chars;
pub mod class;
pub mod counting;
pub mod determinize;
pub mod dfa;
pub mod epsilon;
pub mod graph;
pub mod language;
pub mod laws;
pub mod matcher;
pub mod nfa;
pub mod node;
pub mod parse_regex;
pub mod parts;
pub mod postfix;
pub mod prune;
pub mod quantifier;
pub mod regex;
pub mod scan;
pub mod search;
pub mod tokens;
pub mod validate;
