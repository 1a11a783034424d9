//! What the operations of the library are for: laws over all inputs, stated on
//! instructions by name and on the inputs and results of the operations.

pub mod calls;
pub mod encoding;
pub mod exploration;
pub mod generation;
pub mod idioms;
pub mod kernel;
pub mod liveness;
pub mod names;
pub mod numbers;
pub mod oracle;
pub mod outcome;
pub mod reduction;
pub mod replay;
pub mod reports;
pub mod search;
pub mod structure;
pub mod synthesis;
pub mod texts;
pub mod triage;
