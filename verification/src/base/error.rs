//! The library's error type.
use crate::base::text;
use vstd::prelude::*;

verus! {

/// What can go wrong with run data.
#[derive(Debug, PartialEq, Eq)]
pub enum EmryError {
    /// Reading or writing failed; the text says how.
    Io(String),
    /// JSON could not be written or read; the text says why.
    Json(String),
    /// A frame or its contents broke the wire protocol.
    Protocol(String),
}

impl EmryError {
    /// The message of the error.
    pub open spec fn message(self) -> Seq<char> {
        match self {
            EmryError::Io(m) => "io error: "@ + m@,
            EmryError::Json(m) => "json error: "@ + m@,
            EmryError::Protocol(m) => "protocol error: "@ + m@,
        }
    }

    /// The message of the error.
    pub fn to_string(&self) -> (r: String)
        ensures
            r@ == self.message(),
    {
        match self {
            EmryError::Io(m) => text::joined("io error: ", m.as_str()),
            EmryError::Json(m) => text::joined("json error: ", m.as_str()),
            EmryError::Protocol(m) => text::joined("protocol error: ", m.as_str()),
        }
    }
}

/// A message tells the kind of the error and then its text.
pub proof fn messages_tell_the_kind(e: EmryError)
    ensures
        e matches EmryError::Io(m) ==> e.message() == "io error: "@ + m@,
        e matches EmryError::Json(m) ==> e.message() == "json error: "@ + m@,
        e matches EmryError::Protocol(m) ==> e.message() == "protocol error: "@ + m@,
{
}

} // verus!
