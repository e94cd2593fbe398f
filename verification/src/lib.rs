//! A small persistence layer that maps typed records onto a key/value store.
//!
//! Each record type owns one ordering index (a monotonically scored sequence
//! of identifiers that gives stable enumeration and pagination order) and one
//! field-bag per record instance (a flat field-name to payload mapping keyed
//! by a generated identifier).  The library provides the verified core:
//! identifier minting and rendering, the field mapper that folds a typed
//! record into a flat bag and back, the ordering index, the object store that
//! composes the two, and the command batches that drive a Redis-style backing
//! engine.

use vstd::prelude::*;

pub mod codec;
pub mod commands;
pub mod config;
pub mod ident;
pub mod index;
pub mod rainfusion;
pub mod store;

verus! {

/// The error taxonomy of the store.
#[derive(Clone, Copy, Debug, PartialEq, Eq, Structural)]
pub enum GlassError {
    /// The backing engine could not be reached or answered with a malformed
    /// response.  Fatal to the call; the store never retries internally.
    BackendUnavailable,
    /// An identifier string failed to parse.
    MalformedIdentifier,
    /// A structurally-complex field failed to serialize while building a
    /// field-bag.  Fatal only while flattening; reads degrade to defaults.
    EncodingFailure,
}

} // verus!
