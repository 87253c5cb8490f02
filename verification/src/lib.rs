pub mod ast;
pub mod laws;
pub mod model;
pub mod parse;
