//! The reducer: it shrinks the program of a finding while the finding stays.

pub mod fixup;
pub mod measure;
pub mod operand;
pub mod passes;
pub mod replay;
pub mod ddmin;
pub mod determined;
pub mod driver;
