//! Core of a graph-reduction virtual machine for a small lazy functional
//! language: a heap of tagged graph nodes, a tracing mark-sweep collector,
//! and a stack-of-frames spine evaluator with fixed-arity arithmetic
//! combinators.

pub mod builtins;
pub mod gc;
pub mod laws;
pub mod prog;
pub mod semantics;
