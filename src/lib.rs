//! A minimal HTTP/1.1 server core: a byte-level request parser and a
//! request dispatcher, both verified. Socket and filesystem work is left to
//! the caller, which feeds bytes in and carries out the returned actions.

pub mod bytes;
pub mod request;
pub mod response;
pub mod dispatch;
