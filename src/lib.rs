//! Fixed-capacity CPU masks: one bit per CPU `0..capacity`, held in 64-bit
//! words, with hexadecimal parsing, a textual form, single-CPU updates,
//! whole-mask operations, boolean algebra and iteration over set CPUs.

pub mod bits;
pub mod cpumask;
pub mod display;
pub mod iter;
pub mod laws;
pub mod parse;
