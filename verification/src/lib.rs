//! Passes over the Bril intermediate representation, each with a contract
//! that Verus proves: basic blocks and the control-flow graph, data-flow
//! analysis, dominators, local value numbering, static single assignment
//! form in both directions, and dead code elimination.
pub mod arith;
pub mod assoc;
pub mod bits;
pub mod blocks;
pub mod bril2ssa;
pub mod cfg;
pub mod dce;
pub mod df;
pub mod dom;
pub mod domsets;
pub mod fold;
pub mod form;
pub mod graph;
pub mod idf;
pub mod idom;
pub mod ir;
pub mod labels;
pub mod live_vars;
pub mod lvn;
pub mod lvn_laws;
pub mod order;
pub mod phi;
pub mod reaching_defs;
pub mod rename;
pub mod sets;
pub mod single;
pub mod ssa;
pub mod ssa2bril;
pub mod ssa_laws;
pub mod ssa_paths;
pub mod ssa_reads;
pub mod ssa_uses;
pub mod ssa_walk;
pub mod stack;
pub mod table;
pub mod table_laws;
pub mod text;
pub mod value;
