//! The library's errors.
use vstd::prelude::*;
use crate::parser::ParseError;

verus! {

/// A free-form message.
#[derive(Debug)]
pub struct Msg(pub String);

/// What compiling or preparing a template can fail with.
#[derive(Debug)]
pub enum Error {
    /// The template's tags are malformed.
    Parse(ParseError),
    /// The fragments do not make a valid block of host-language statements;
    /// holds the block source that was rejected.
    Generation(Vec<u8>),
    Msg(Msg),
}

impl Error {
    pub fn msg(text: &str) -> (r: Error)
        ensures
            r matches Error::Msg(m) && m.0@ == text@,
    {
        Error::Msg(Msg(text.to_owned()))
    }
}

} // verus!
