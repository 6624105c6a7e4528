//! The error type shared by parsing and conversion.
use vstd::prelude::*;

use crate::text::{nat_text, push_nat, push_str};

verus! {

/// An error: a message and, for parse errors, the byte offset where it was detected.
#[derive(Debug, Clone)]
pub struct Error {
    pub message: String,
    pub position: Option<usize>,
}

impl Error {
    /// An error without an input position.
    pub fn new(message: String) -> (r: Error)
        ensures
            r.message@ == message@,
            r.position is None,
    {
        Error { message, position: None }
    }

    /// An error detected at byte offset `position` of the input.
    pub fn with_position(message: String, position: usize) -> (r: Error)
        ensures
            r.message@ == message@,
            r.position == Some(position),
    {
        Error { message, position: Some(position) }
    }

    /// The message, followed by ` at byte <position>` when there is a position.
    pub fn to_display_string(&self) -> (r: String)
        ensures
            self.position is None ==> r@ == self.message@,
            self.position matches Some(p) ==> r@ == self.message@ + " at byte "@ + nat_text(
                p as nat,
            ),
    {
        let mut out = String::new();
        push_str(&mut out, self.message.as_str());
        match self.position {
            Some(p) => {
                push_str(&mut out, " at byte ");
                push_nat(&mut out, p as u64);
            },
            None => {},
        }
        out
    }

    /// The message.
    pub fn message(&self) -> (r: &str)
        ensures
            r@ == self.message@,
    {
        self.message.as_str()
    }

    /// The byte offset within the source, when there is one.
    pub fn position(&self) -> (r: Option<usize>)
        ensures
            r == self.position,
    {
        self.position
    }
}

} // verus!
