pub mod args;
pub mod sexpr;
pub mod laws;
