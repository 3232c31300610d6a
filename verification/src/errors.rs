//! Error taxonomy of the library, over plain values. Transport and I/O
//! errors arise outside the library; the driver reports them back through
//! the `Transport` and `Io` carriers.

use vstd::prelude::*;

verus! {

/// Failures of the protocol client.
#[derive(Debug, Clone)]
pub enum NetError {
    /// The service answered with a non-success status; carries its text.
    InvalidRequest(String),
    /// A transport failure reported by the driver (connection, timeout).
    Transport(String),
    /// A string could not be parsed as a URL.
    UrlParse(String),
    /// A payload could not be framed into the wire envelope.
    EnvelopeEncode(String),
    /// A wire envelope could not be decoded.
    EnvelopeDecode(String),
}

/// Failures of the script patching helpers.
#[derive(Debug, Clone)]
pub enum PatchError {
    /// A `key=value` replacement list could not be parsed.
    ReplacementParse(String),
    /// The provided path is not a directory.
    NotDirectory(String),
    /// A patch file could not be parsed; carries the parser's text.
    PatchParse(String),
    /// The file a patch modifies is missing.
    ToPatchFileMissing(String),
}

/// Failures of resolution, caching, and downloading.
#[derive(Debug, Clone)]
pub enum FetchError {
    Net(NetError),
    /// The configured output path exists and is not a directory.
    NotDirectory(String),
    /// The cache record could not be persisted; carries the driver's text.
    CacheWrite(String),
    /// A local file could not be written; carries the driver's text.
    Io(String),
}

} // verus!
