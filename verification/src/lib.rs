//! Verified software versions of the BMI2 bit-manipulation operations of
//! x86 processors: `mulx`, `bzhi`, `pdep` and `pext`, each for 32-bit and
//! 64-bit operands.
//!
//! The module [`model`] says what `bzhi`, `pdep` and `pext` compute, as
//! arithmetic on natural numbers; the product of `mulx` needs no model beyond
//! multiplication itself. The functions of [`x86::bmi2`] are proved to compute
//! exactly that, and [`laws`] holds theorems about the model.

pub mod laws;
pub mod model;
mod shifts;
pub mod x86;
