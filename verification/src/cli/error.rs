use vstd::prelude::*;
use crate::lzv::error::LzvError;

verus! {

/// Errors of the command line front end.
#[derive(Debug)]
pub enum CliError {
    Io(std::io::Error),
    UnknownCommand(String),
    UnknownAlgorithm(String),
    UnknownExtension(String),
    Lzv(LzvError),
}

} // verus!
