//! Pairwise elastic-distance matrices between collections of numeric
//! sequences.
//!
//! The crate is organised around a banded wavefront dynamic-programming
//! engine ([`diagonal`]), a pairwise matrix orchestrator ([`distances`]) and a
//! few shared utilities ([`utils`]).  The engine and the orchestrator are
//! generic over the cell value type and over the cost evaluators, which the
//! embedding supplies as closures; their contracts pin down the structure of
//! the computation (band clamping, wavefront traversal, matrix shape and
//! symmetry) for every choice of evaluator, and [`laws`] states what whole
//! runs guarantee: with deterministic evaluators the banded table, the
//! engine's result and the self-comparison matrix are functions of the
//! inputs alone.

pub mod diagonal;
pub mod distances;
pub mod laws;
pub mod utils;
