//! The error model of the library: every chunk-level failure aborts the
//! whole operation and surfaces as one of these typed errors.

use vstd::prelude::*;

verus! {

/// Failures of the cryptographic layer.
#[derive(Debug, Clone, Copy, PartialEq, Eq, Structural)]
pub enum CryptoError {
    /// The key-derivation call could not produce a key.
    KeyDerivationFailed,
    /// The cipher rejected a sealing request (an over-long payload).
    SealFailed,
    /// The authentication tag did not verify: wrong password, corrupted or
    /// tampered data, or a wrong chunk boundary.
    AuthenticationFailed,
}

/// Failures of the remote multipart-upload protocol, reported by the driver
/// that performs the remote calls.
#[derive(Debug, Clone, Copy, PartialEq, Eq, Structural)]
pub enum TransferError {
    /// Uploading one numbered part failed; the whole upload is aborted.
    PartUploadFailed,
    /// The finalize call for the multipart upload failed.
    CompleteFailed,
}

/// Failures of the fixed build-time configuration against a remote object.
#[derive(Debug, Clone, Copy, PartialEq, Eq, Structural)]
pub enum ConfigError {
    /// A declared content length that no stream of sealed chunks can have.
    InvalidChunkBoundary,
}

} // verus!
