use vstd::prelude::*;

verus! {

#[verifier::external_type_specification]
#[verifier::external_body]
pub struct ExIoError(std::io::Error);

/// Errors of the base64 codec; `line` is filled in by callers that work line by line.
#[derive(Debug)]
pub enum Base64Error {
    InvalidInputCharacter { line: u64, pos: u64 },
    IncorrectStringLength { line: u64, len: u64 },
    IncorrectUseOfPadding { line: u64, pos: u64 },
    AvailableDataAfterTheEndOfTheMessage,
    IOError(std::io::Error),
    UnknownOption,
}

/// The error with its line number replaced by `new_line`, for the variants that carry one.
pub open spec fn with_line(e: Base64Error, new_line: u64) -> Base64Error {
    match e {
        Base64Error::InvalidInputCharacter { pos, .. } => Base64Error::InvalidInputCharacter {
            line: new_line,
            pos,
        },
        Base64Error::IncorrectStringLength { len, .. } => Base64Error::IncorrectStringLength {
            line: new_line,
            len,
        },
        Base64Error::IncorrectUseOfPadding { pos, .. } => Base64Error::IncorrectUseOfPadding {
            line: new_line,
            pos,
        },
        _ => e,
    }
}

impl Base64Error {
    /// Sets the line number of the variants that carry one; the others stay as they are.
    pub fn set_line(&mut self, new_line: u64)
        ensures
            *final(self) == with_line(*old(self), new_line),
    {
        match self {
            Base64Error::InvalidInputCharacter { line, .. } => *line = new_line,
            Base64Error::IncorrectStringLength { line, .. } => *line = new_line,
            Base64Error::IncorrectUseOfPadding { line, .. } => *line = new_line,
            Base64Error::AvailableDataAfterTheEndOfTheMessage => {},
            Base64Error::IOError(_) => {},
            Base64Error::UnknownOption => {},
        }
    }
}

} // verus!
