//! An optimizing toolchain for a small one-register assembly language:
//! a value model, an instruction set, a reference simulator, and a
//! control-flow-graph optimizer built on a three-bit jump-condition lattice.

pub mod datacube;
pub mod errors;
pub mod instruction;
pub mod jump_flag;
pub mod text;
pub mod program;
pub mod simulator;
pub mod basic_blocks;
pub mod control_flow_graph;
pub mod local_optimizations;
pub mod block_optimizations;
