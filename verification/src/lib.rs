//! A verified virtual machine for the eight-instruction tape language.
//!
//! A run has two phases. The [`matcher`] pairs the loop brackets of the
//! program into a jump table, or names the one bracket that has no partner.
//! The [`interpreter`] then executes the program instruction by instruction
//! on a tape of byte cells that grows to the right on demand.
//!
//! The machine performs no input or output of its own. Whenever the program
//! writes a byte, waits for a byte, ends or halts, the interpreter returns an
//! [`Event`] to its host and can be resumed afterwards. What every
//! instruction does is defined once, on the mathematical [`Machine`] of the
//! [`machine`] module, and the executable [`BF`] is proved to follow it.

pub mod interpreter;
pub mod machine;
pub mod matcher;
pub mod text;

pub use crate::interpreter::BF;
pub use crate::machine::{Event, Machine};
pub use crate::matcher::{match_brackets, SyntaxError};
