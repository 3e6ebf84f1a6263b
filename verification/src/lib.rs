//! Peer-to-peer distribution of content-addressed bundles ("boxes").
//!
//! A box is a named, ordered set of files identified by a 24-byte digest of
//! its contents and metadata.  Files are split into fixed-size pieces, each
//! verified by a 16-byte digest; pieces travel as small chunks between peers
//! on a local broadcast domain.

pub mod boxes;
pub mod codec;
pub mod file;
pub mod hash;
pub mod mmap;
pub mod state;
pub mod types;

use vstd::prelude::*;

verus! {

/// Bytes per piece: the unit of verification and request.
pub const PIECE_SIZE: usize = 48000;

/// Bytes per chunk: the unit of transmission.
pub const CHUNK_SIZE: usize = 256;

/// Failures the library itself detects.
#[derive(Clone, Copy, Debug, PartialEq, Eq, Structural)]
pub enum NyahError {
    /// A piece-hash list does not fit the file it is offered for.
    InvalidInput,
}

} // verus!
