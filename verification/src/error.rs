//! Errors that can occur during a transfer.

use vstd::prelude::*;
use crate::text::join;

verus! {

/// Why a transfer failed. The text says what happened.
#[derive(Debug)]
pub enum Error {
    /// A system call or the cipher failed.
    Io(String),
    /// A control frame's body could not be encoded or decoded.
    Json(String),
    /// The peer violated the control protocol (bad frame, wrong version, ...).
    Protocol(String),
    /// The transfer finished but something is wrong with the result.
    Transfer(String),
}

impl Error {
    /// The message shown to the user.
    pub open spec fn shown(self) -> Seq<char> {
        match self {
            Error::Io(m) => "io: "@ + m@,
            Error::Json(m) => "frame encoding: "@ + m@,
            Error::Protocol(m) => "protocol: "@ + m@,
            Error::Transfer(m) => "transfer failed: "@ + m@,
        }
    }

    /// A protocol violation with this text.
    pub fn protocol(msg: &str) -> (e: Self)
        ensures
            e matches Error::Protocol(m) && m@ == msg@,
    {
        Error::Protocol(msg.to_owned())
    }

    /// The message shown to the user: the kind of failure, then the text.
    pub fn message(&self) -> (r: String)
        ensures
            r@ == self.shown(),
    {
        match self {
            Error::Io(m) => join("io: ", m.as_str()),
            Error::Json(m) => join("frame encoding: ", m.as_str()),
            Error::Protocol(m) => join("protocol: ", m.as_str()),
            Error::Transfer(m) => join("transfer failed: ", m.as_str()),
        }
    }
}

/// A message names the kind of failure, and then says what happened.
pub proof fn law_messages_name_the_kind(text: String)
    ensures
        Error::Io(text).shown() == "io: "@ + text@,
        Error::Json(text).shown() == "frame encoding: "@ + text@,
        Error::Protocol(text).shown() == "protocol: "@ + text@,
        Error::Transfer(text).shown() == "transfer failed: "@ + text@,
{
}

} // verus!
