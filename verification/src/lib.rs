//! An eBPF program verifier in miniature and the tools around it: the
//! instruction codec, the abstract domains, the fuzzer and its reducer.

pub mod cfg;
pub mod concrete;
pub mod diff;
pub mod disasm;
pub mod error;
pub mod flow;
pub mod fuzz;
pub mod graph;
pub mod helper;
pub mod insn;
pub mod instruction;
pub mod interval;
pub mod klog;
pub mod krun;
pub mod laws;
pub mod liveness;
pub mod mini;
pub mod opcode;
pub mod program;
pub mod slot;
pub mod smt;
pub mod state;
pub mod text;
pub mod tnum;
