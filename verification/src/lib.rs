//! A deterministic finite automaton (DFA) library.
//!
//! The crate turns a textual machine description into a validated,
//! immutable automaton and simulates it against an input string:
//!
//! - [`fsm_parser`] parses the source text into an unresolved
//!   intermediate representation (declared states, declared transitions,
//!   a declared start-state name) without any semantic checking.
//! - [`fsm`] resolves that representation into a well-formed automaton
//!   (total and deterministic transition relation, resolved state
//!   identities) or reports a structured validation error, and runs the
//!   automaton over an input string.

pub mod fsm;
pub mod fsm_parser;
