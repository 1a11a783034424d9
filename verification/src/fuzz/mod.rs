//! The differential fuzzer.

pub mod generator;
pub mod idiom;
pub mod idiom_validity;
pub mod insn_lib;
pub mod mutator;
pub mod oracle;
pub mod prng;
pub mod qemu;
pub mod reduce;
pub mod triage;
