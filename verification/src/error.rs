//! The library's error type: a human readable message.
use vstd::prelude::*;

verus! {

/// An error with a message that explains what went wrong.
#[derive(Debug)]
pub struct Error {
    pub message: String,
}

impl Error {
    /// An error carrying `message`.
    pub fn new(message: &str) -> (res: Error)
        ensures
            res.message@ == message@,
    {
        Error { message: message.to_owned() }
    }
}

} // verus!
