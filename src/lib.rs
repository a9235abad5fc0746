pub mod ast;
pub mod compile;
pub mod generate;
pub mod parse;
pub mod text;
pub mod visit;
