//! A small language for Turing-machine-like automata: symbol selectors,
//! parameterised state templates, their specialisation into a flat machine,
//! and an engine that runs such a machine over a tape.

pub mod chained;
pub mod concrete;
pub mod env;
pub mod error;
pub mod execution;
pub mod mask;
pub mod parse;
pub mod parse_abstract;
pub mod resolved;
pub mod skeleton;
pub mod specialize;
pub mod tape;
pub mod tree;
