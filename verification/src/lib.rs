//! A small register-machine bytecode interpreter, verified end to end.
//!
//! Instructions are packed into 32-bit words; a program is a sequence of such
//! words. Three execution engines share one instruction-set semantics but
//! differ in how many dispatch sites each loop iteration contains; all three
//! are proved to agree with a single mathematical step relation, so their
//! results coincide on every program.

pub mod isa;
pub mod semantics;
pub mod engine;
pub mod program;
