//! An interpreter for the eight-instruction tape language: a preprocessor
//! that resolves loop brackets, a growable tape of wrapping byte cells, and
//! an engine that runs a program one instruction at a time.

pub mod preprocessor;
pub mod shared;
pub mod tape;
pub mod vm;

pub use preprocessor::Preprocessor;
pub use shared::Error;
pub use shared::Instruction;
pub use tape::Cell;
pub use tape::Tape;
pub use vm::Step;
pub use vm::VM;
