//! An interpreter for an eight-instruction tape language written in emoji.
//!
//! [`parser`] turns source text into a program of [`command::Command`]s,
//! [`semantics`] says what running a program means, and [`machine`] runs one
//! on a fixed tape of bytes, as a whole or step by step. [`stepwise`] shows
//! that the two ways come to the same end; [`parser_laws`] and [`run_laws`]
//! hold what is true of every text and of every run.

pub mod command;
pub mod parser;
pub mod parser_laws;
pub mod run_laws;
pub mod machine;
pub mod semantics;
pub mod stepwise;
