//! The ways one proxied exchange can fail.
use vstd::prelude::*;

verus! {

/// Why a client session ended without relaying a response.
#[derive(Clone, Copy, Debug, PartialEq, Eq, Structural)]
pub enum ClientError {
    /// A socket read, write or connect failed, or a response template could not be sent.
    IOError,
    /// A chunk read from a stream is not valid UTF-8 on its own.
    Utf8DecodeError,
    /// The port after the `:` of the host specifier is not an unsigned 16-bit number.
    PortParseError,
    /// No `Host` line, a host specifier with more than one `:`, or a name that
    /// resolved to no address.
    NoHostFound,
    /// Name resolution itself failed.
    ResolutionError,
    /// The destination is the proxy's own listening address.
    SelfRequested,
}

} // verus!
