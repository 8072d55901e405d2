//! A small regular-expression engine: patterns are parsed into a syntax tree,
//! compiled into a flat instruction program, and run by a backtracking machine.
pub mod engine;
pub mod helper;
