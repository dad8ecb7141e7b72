pub mod cli;
pub mod laws;
pub mod tree;
