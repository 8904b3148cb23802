use vstd::prelude::*;

verus! {

/// Errors of the LZW codec.
#[derive(Debug)]
pub enum LzvError {
    InvalidInput,
    NoRecord { s: Option<u32>, c: u8 },
    NoIndex { index: u32 },
    InvalidFirstIndex { index: u32 },
    Io(std::io::Error),
    UnprocessableIndex,
}

} // verus!
