//! Rewriting of sequence rules, repetitions of one symbol with bounds and a
//! separator, into ordinary rules of a context-free grammar.

pub mod symbol;
pub mod sequence;
pub mod rule;
pub mod history;
pub mod grammar;
pub mod expansion;
pub mod sequence_destination;
pub mod laws;
