pub mod label;
pub mod lexer;
pub mod loop_tracker;
pub mod meaning;
pub mod register;
pub mod variables;
pub mod compile;
pub mod emit;
pub mod expr;
pub mod stmt;
