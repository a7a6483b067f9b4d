//! The library's error type: a human-readable message.
use vstd::prelude::*;

use crate::text::push_str;

verus! {

#[derive(Debug, PartialEq, Eq)]
pub struct CovgateError {
    pub message: String,
}

impl CovgateError {
    /// An error with the message `msg`.
    pub fn new(msg: &str) -> (e: CovgateError)
        ensures
            e.message@ == msg@,
    {
        let mut message = String::new();
        push_str(&mut message, msg);
        assert(message@ =~= msg@);
        CovgateError { message }
    }

    /// The message of the error.
    pub fn to_string(&self) -> (s: String)
        ensures
            s@ == self.message@,
    {
        self.message.clone()
    }
}

} // verus!
