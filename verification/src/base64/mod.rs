pub mod algorithms;
pub mod cli;
pub mod error;
pub mod whole_file;
