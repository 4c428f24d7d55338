//! A tree-walking interpreter for Brainfuck: a parser from source text to a
//! nested program, and an executor over a byte tape with a configurable
//! overflow policy and caller-supplied read and write callbacks.
pub mod io;
pub mod laws;
pub mod program;
pub mod state;
