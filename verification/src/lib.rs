//! Statistical CI build-log analysis: learn which log lines recur across many
//! builds, then extract from a new log the contiguous excerpt that is least
//! like the routine background.
//!
//! The crate is organised leaves-first:
//! - [`tokenizer`] turns raw log bytes into normalized line signatures;
//! - [`index`] accumulates observation weights per signature;
//! - [`store`] gives the index a versioned, deterministic binary form;
//! - [`scorer`] assigns each target line an anomaly score;
//! - [`extractor`] picks the best-scoring contiguous window;
//! - [`github`] holds the webhook-signature check and the plain data shapes
//!   of the CI platform's payloads.

use vstd::prelude::*;

pub mod tokenizer;
pub mod index;
pub mod store;
pub mod scorer;
pub mod extractor;
pub mod github;

verus! {

/// Outcome of loading a serialized index that is present but unusable.
///
/// A file whose magic or payload is malformed is `Corrupt`; one that carries
/// the right magic but an unknown format version is `UnsupportedVersion`, so
/// the two conditions stay distinguishable to callers.
#[derive(Clone, Copy, Debug, PartialEq, Eq, Structural)]
pub enum StoreError {
    Corrupt,
    UnsupportedVersion,
}

} // verus!
