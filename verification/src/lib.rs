//! A small convenience layer that lets uniquely-keyed, serializable objects
//! persist themselves to a remote document store (save, remove, bulk-fetch,
//! bulk-fetch-as-map) without hand-written client calls at each call site.
//!
//! The store itself is an external collaborator reached over the network, so
//! the verified core here is the synchronization contract: what each
//! operation does to the state of a collection (one document per unique key,
//! save as delete-then-create, fetch-all-as-map keyed by the unique key), and
//! how connection configuration is resolved before any store call is made.

use vstd::prelude::*;

pub mod collection;
pub mod config;

verus! {

/// Each object implementing this trait can provide a unique key for itself;
/// that key is used as the object's document key in its collection.
pub trait Unique<T> {
    /// Get the unique key of this object.
    fn uuid(&self) -> T;
}

} // verus!
