//! Incremental parser for Breakpad-style symbol files.
//!
//! A [`parser::Parser`] takes the bytes of a symbol file in chunks of any
//! size and reports each record to a [`sink::Sink`] as soon as it is
//! complete. It keeps no bytes between chunks: a chunk may end inside a
//! keyword, a number or a name.
//!
//! [`machine`] says what the parser computes, [`parser`] computes it, and
//! [`laws`], [`order`] and [`grammar`] state what follows for every input.

pub mod digits;
pub mod event;
pub mod grammar;
pub mod laws;
pub mod machine;
pub mod order;
pub mod parser;
pub mod sink;
pub mod state;
pub mod steps;
