//! Compiler middle-end data model: an intermediate representation with a
//! scoped storage model (arena-backed spaces, name maps), basic blocks and a
//! control-flow graph, and an iterative dataflow engine instantiated with a
//! reaching-definitions analysis.

pub mod bits;
pub mod block;
pub mod cfg;
pub mod graph;
pub mod ir;
pub mod lattice;
pub mod ops;
pub mod pool;
pub mod reach;
