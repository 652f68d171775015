//! Truth tables for flat combinational netlists.
//!
//! A netlist is an ordered list of gate instances (AND, OR, NOT and
//! primary-input drivers), each driving one named signal. Given a target
//! output signal and an ordered list of primary inputs, the library resolves
//! the named-signal references into a dependency tree, rejects malformed
//! netlists (duplicate outputs, arity violations, unknown signals,
//! combinational cycles, undeclared drivers), and evaluates the tree under
//! every assignment of the primary inputs.

pub mod catalog;
pub mod laws;
pub mod netlist;
pub mod resolve;
pub mod table;
