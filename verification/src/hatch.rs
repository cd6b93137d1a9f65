//! The synchronization server: where it listens, and its errors.

use vstd::prelude::*;
use vstd::string::*;

verus! {

/// What goes wrong in the synchronization server.
#[derive(Clone, Copy, Debug, PartialEq, Eq, Structural)]
pub enum HatchError {
    UnknownLogLevel,
    UnknownHatchError,
}

impl HatchError {
    pub open spec fn message_spec(&self) -> Seq<char> {
        match *self {
            HatchError::UnknownLogLevel => "unknown log level name"@,
            HatchError::UnknownHatchError => "unknown cli error... ╰U╯☜(◉ɷ◉ )"@,
        }
    }

    /// The error as a sentence.
    pub fn message(&self) -> (text: String)
        ensures
            text@ == self.message_spec(),
    {
        match self {
            HatchError::UnknownLogLevel => String::from_str("unknown log level name"),
            HatchError::UnknownHatchError => String::from_str("unknown cli error... ╰U╯☜(◉ɷ◉ )"),
        }
    }
}

/// The synchronization server.
#[derive(Clone, Debug)]
pub struct HatchServer {
    /// The port that the server listens on.
    port: u32,
    /// The address that the server serves on.
    address: String,
}

impl HatchServer {
    pub closed spec fn port_spec(&self) -> u32 {
        self.port
    }

    pub closed spec fn address_spec(&self) -> Seq<char> {
        self.address@
    }

    /// A server on port 9999 of the local host.
    pub fn new() -> (server: Self)
        ensures
            server.port_spec() == 9999,
            server.address_spec() == "127.0.0.1"@,
    {
        HatchServer { port: 9999, address: String::from_str("127.0.0.1") }
    }

    /// The port that the server listens on.
    pub fn port(&self) -> (port: u32)
        ensures
            port == self.port_spec(),
    {
        self.port
    }

    /// The address that the server serves on.
    pub fn address(&self) -> (address: &str)
        ensures
            address@ == self.address_spec(),
    {
        self.address.as_str()
    }
}

} // verus!
