//! Operations named after instructions of x86 processors.

pub mod bmi2;
