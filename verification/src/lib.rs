//! A deterministic finite automaton (DFA) engine.
//!
//! The engine is built from five textual fields (alphabet, states,
//! transitions, start state, accept states) and classifies input strings
//! as accepted or rejected by following the transition table one symbol
//! at a time.

pub mod dfa;
pub mod split;

pub use dfa::DfaError;
pub use dfa::Transition;
pub use dfa::DFA;
