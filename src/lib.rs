//! A forwarding HTTP proxy core: reading a request off a stream in chunks,
//! routing it by its `Host` line, and the per-connection relay session.
pub mod error;
pub mod reader;
pub mod router;
pub mod session;
