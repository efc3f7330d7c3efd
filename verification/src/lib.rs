pub mod ast;
pub mod collector;
pub mod graph;
