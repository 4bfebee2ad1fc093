//! Resolution of command-line flags: the positional arguments are told apart
//! from the declared flags and their values, and each flag's value is kept
//! under its name for typed lookup.
pub mod context;
pub mod flag;
pub mod literal;
pub mod plain;
pub mod resolution;

pub use crate::context::Context;
pub use crate::flag::{Flag, FlagType, FlagValue};
