//! A pluggable request/response caching layer.
//!
//! A cache consultation is one round trip of the provider protocol: the
//! caller issues a [`ProviderRequest`] (look a key up, or store a value
//! under a key) and receives exactly one [`ProviderResponse`] (the value now
//! cached for that key, or nothing). [`Transform`] derives the cached key or
//! value from an inbound request, and [`LruProvider`] is the reference
//! provider: a bounded, least-recently-used store behind a shared handle.

use vstd::prelude::*;

pub mod lru;
pub mod transform;

pub use lru::LruProvider;
pub use lru::LruState;
pub use transform::Transform;

verus! {

/// A request to a cache provider.
pub enum ProviderRequest<K, V> {
    /// Look up the value cached under the key.
    Get(K),
    /// Store the value under the key, overwriting any earlier entry.
    Insert(K, V),
}

/// A cache provider's answer to a [`ProviderRequest`].
pub enum ProviderResponse<V> {
    /// The value now cached for the requested key.
    Found(V),
    /// Nothing is cached for the requested key.
    NotFound,
}

} // verus!
