//! Cycle-accurate models of two small synchronous building blocks: a
//! serial-to-parallel shift-in register and a parallel-to-serial shift-out
//! register, together with the clocked simulation harness that drives them.
//!
//! The registers are Moore machines: the output sampled at a cycle is a
//! function of the state entering that cycle alone, and the state installed
//! for the next cycle is a pure function of the current state, the reset
//! line, and the cycle's input vector.  Reset unconditionally forces the
//! next state to zero; for the shift-out register a simultaneous `load`
//! strictly dominates `enable`.  All stored values are masked to a fixed
//! bit width on every operation.

pub mod bits;
pub mod harness;
pub mod roundtrip;
pub mod shift_out;
pub mod shift_reg;
