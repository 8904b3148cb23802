pub mod commands;
pub mod error;
pub mod plan;
pub mod roundtrip;
