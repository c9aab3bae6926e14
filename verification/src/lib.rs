//! A builder, optimizer and evaluator for NAND-gate netlists.
//!
//! Circuits are described over bundles: composite values (scalars, tuples,
//! arrays, records) of wires. A circuit is a store of wire values and an
//! ordered list of two-input NAND gates; one tick fires every gate once, in
//! order. Recurring sub-circuits are synthesized once and spliced in at each
//! use, and a combinational netlist can be minimized without changing what
//! it computes.

pub mod arrays;
pub mod bundle;
pub mod circuit;
pub mod classes;
pub mod combinational;
pub mod component;
pub mod components;
pub mod memo;
pub mod optimize;
pub mod order;
pub mod pass;
pub mod steady;
pub mod table;
pub mod ticks;
pub mod trace;
pub mod tuples;
pub mod twice;
pub mod wire;

pub use bundle::{last, transpose, Bundle, Scalar, Wiring};
pub use circuit::{one, void, zero, Circuit, Gate};
pub use component::Description;
pub use components::register::Register;
pub use memo::{Memo, Template};
pub use optimize::Optimizer;
pub use wire::Wire;
