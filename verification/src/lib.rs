//! Line-level analysis of textual LLVM-style IR: locating each function's
//! source-line span, counting instructions by opcode, explaining a single
//! instruction line, and assembling the final report.

pub mod explain;
pub mod ir;
pub mod report;
pub mod scan;
pub mod spans;
