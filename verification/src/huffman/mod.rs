pub mod algorithms;
pub mod tree;
