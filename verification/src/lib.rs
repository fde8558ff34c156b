//! Read-only HTTP binary-cache library for a content-addressed package store.
//!
//! The crate holds the verified core of the server: the wire codec of the
//! daemon protocol, the daemon client's decision logic, the store facade,
//! hash encoding and fingerprints, Ed25519 signing of path metadata, the
//! streaming archive serializer with range slicing, the archive lister,
//! and the per-path metadata descriptor.

use vstd::prelude::*;

pub mod base32;
pub mod buildlog;
pub mod nar;
pub mod narinfo;
pub mod narlist;
pub mod range;
pub mod config;
pub mod daemon;
pub mod signing;
pub mod store;
pub mod text;
pub mod wire;

verus! {

/// The error taxonomy of the cache server. Each variant maps to one
/// HTTP status code at the (unverified) transport layer.
#[derive(Debug, Clone, Copy, PartialEq, Eq, Structural)]
pub enum CacheError {
    /// Unknown hash or absent path info.
    NotFound,
    /// Malformed range header or invalid hash length.
    BadRequest,
    /// Requested range lies outside the archive.
    RangeNotSatisfiable,
    /// The daemon reported an error message.
    DaemonError,
    /// Framing, version or magic failure on the daemon socket.
    DaemonProtocol,
    /// Disk read failure during an archive dump.
    IoError,
    /// Malformed signing key.
    BadKey,
    /// A reference outside the store prefix in a fingerprint.
    BadReference,
    /// Invariant violation, such as a hash mismatch.
    Internal,
}

impl CacheError {
    /// The HTTP status the transport layer answers with for each
    /// error kind.
    pub fn status_code(&self) -> (r: u16)
        ensures
            r == match *self {
                CacheError::NotFound => 404u16,
                CacheError::BadRequest => 400u16,
                CacheError::RangeNotSatisfiable => 416u16,
                CacheError::DaemonError => 500u16,
                CacheError::DaemonProtocol => 500u16,
                CacheError::IoError => 500u16,
                CacheError::BadKey => 500u16,
                CacheError::BadReference => 500u16,
                CacheError::Internal => 500u16,
            },
    {
        match self {
            CacheError::NotFound => 404,
            CacheError::BadRequest => 400,
            CacheError::RangeNotSatisfiable => 416,
            _ => 500,
        }
    }
}

} // verus!
