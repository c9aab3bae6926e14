//! Components built from NAND gates: the logic gates, the multiplexer, the
//! adder, the comparators, the register and the sorting network.

pub mod add;
pub mod adding;
pub mod all;
pub mod and;
pub mod eq;
pub mod first;
pub mod lt;
pub mod not;
pub mod or;
pub mod register;
pub mod select;
pub mod sort;
pub mod sums;
pub mod swap;
pub mod xor;
