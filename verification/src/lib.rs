//! A verified interpreter for a stack-based, two-dimensional esoteric
//! programming language. Program text occupies a planar grid of cells; a
//! moving instruction pointer executes whichever character it sits on, and
//! instructions steer the pointer, manipulate an integer stack, perform
//! byte-oriented input and output, and may rewrite the grid itself.

pub mod decimal;
pub mod execution;
pub mod program;

pub use execution::run_to_termination;
