//! The error type of the library.
//!
//! There are three kinds of failure, kept apart:
//! - `Io`: the socket or the file system reported an error
//! - `Protocol`: the bytes arrived, but they do not follow the rules of RTSP
//! - `Status`: the message was correct RTSP, but the server refused the request

use vstd::prelude::*;

use crate::text::push_decimal;

verus! {

/// `std::io::Error`, carried through the library without looking inside.
#[verifier::external_type_specification]
#[verifier::external_body]
pub struct ExIoError(std::io::Error);

#[derive(Debug)]
pub enum Error {
    Io(std::io::Error),
    Protocol(String),
    Status { code: u16, reason: String },
}

pub type Result<T> = std::result::Result<T, Error>;

/// How reading a message from a connection can fail: the bytes ran out or were not
/// text (`Io`), or they do not follow the protocol (`Protocol`, with the message).
pub enum Failure {
    Io,
    Protocol(Seq<char>),
}

/// A short way to build a Protocol error.
pub fn protocol<T>(msg: &str) -> (r: Result<T>)
    ensures
        r matches Err(Error::Protocol(m)) && m@ == msg@,
{
    Err(Error::Protocol(msg.to_owned()))
}

/// A Protocol error whose message is `msg`.
pub fn protocol_error(msg: String) -> (e: Error)
    ensures
        e == Error::Protocol(msg),
{
    Error::Protocol(msg)
}

impl Error {
    /// The message shown to a user: "io: ..", "protocol: .." or "server refused: <code> <reason>".
    pub fn to_string(&self) -> (s: String)
        ensures
            match self {
                Error::Io(e) => exists|d: String|
                    vstd::string::to_string_from_display_ensures::<std::io::Error>(e, d) && s@
                        == "io: "@ + d@,
                Error::Protocol(m) => s@ == "protocol: "@ + m@,
                Error::Status { code, reason } => s@ == "server refused: "@
                    + crate::text::decimal(*code as nat) + " "@ + reason@,
            },
    {
        match self {
            Error::Io(e) => {
                let mut s = String::new();
                s.append("io: ");
                let detail = e.to_string();
                s.append(detail.as_str());
                s
            },
            Error::Protocol(m) => {
                let mut s = String::new();
                s.append("protocol: ");
                s.append(m.as_str());
                s
            },
            Error::Status { code, reason } => {
                let mut s = String::new();
                s.append("server refused: ");
                push_decimal(&mut s, *code as u64);
                s.append(" ");
                s.append(reason.as_str());
                s
            },
        }
    }
}

impl From<std::io::Error> for Error {
    fn from(e: std::io::Error) -> (r: Self) {
        Error::Io(e)
    }
}

impl vstd::std_specs::convert::FromSpecImpl<std::io::Error> for Error {
    open spec fn obeys_from_spec() -> bool {
        true
    }

    open spec fn from_spec(v: std::io::Error) -> Self {
        Error::Io(v)
    }
}

} // verus!
