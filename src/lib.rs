//! A backtracking regular-expression engine: a recursive-descent compiler
//! turns a pattern into a flat instruction program, and a recursive
//! backtracking machine runs that program over a text.
pub mod codegen;
pub mod input;
pub mod ir;
pub mod laws;
pub mod parser;
pub mod regex;
pub mod result;
pub mod vm;

pub use input::Text;
pub use ir::Inst;
pub use parser::{ParseError, Parser};
pub use regex::Regex;
pub use result::MatchResult;
pub use vm::VM;
