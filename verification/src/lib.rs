//! A small arithmetic language: lexer, parser, bytecode compiler and stack machine.

pub mod binterp;
pub mod compiler;
pub mod decimal;
pub mod error;
pub mod eval;
pub mod grammar;
pub mod lexer;
pub mod operand;
pub mod parser;
pub mod pipeline;
pub mod spelling;
