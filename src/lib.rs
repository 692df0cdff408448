//! Interpreter for the fields of web-server log lines: each line becomes a
//! list of metric commands, counter increments and timing samples.

pub mod interp;
pub mod number;
pub mod text;

pub use interp::{Branch, ErrorKind, FieldError, Parser, Stat, MAX_DEPTH};
