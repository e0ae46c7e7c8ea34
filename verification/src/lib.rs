//! A reference-safety analyzer for stackless bytecode of a Move-style
//! resource language.
//!
//! The analyzer is an intra-procedural, forward dataflow analysis over a
//! *borrow graph*: nodes stand for memory roots and derived references,
//! labeled edges record each borrow relation, and two finite maps tie the
//! temporaries and global resources that are currently alive to graph nodes.
//! Per instruction, a transformer releases dead references, checks the graph
//! for safety with respect to the operands that the instruction uses, and
//! applies the instruction's borrow effect.  At control-flow merges the
//! states are joined by unifying node labels.  The result is, per code
//! offset, the borrow state before and after the instruction, together with
//! structured diagnostics for every safety violation found.

pub mod diag;
pub mod driver;
pub mod edge;
pub mod graph;
pub mod ids;
pub mod instr;
pub mod join;
pub mod maps;
pub mod reach;
pub mod safety;
pub mod sets;
pub mod state;
pub mod step;
