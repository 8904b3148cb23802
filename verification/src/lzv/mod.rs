pub mod algorithms;
pub mod cli;
pub mod dictionary;
pub mod error;
pub mod roundtrip;
