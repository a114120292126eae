//! Deriving the cached key or value from an inbound request.
//!
//! Often the request itself is not what should be cached: the cache may want
//! a short key projected out of a large payload, or a value in a form the
//! provider can hold. A [`Transform`] is a pure, total, synchronous map from
//! the request to that derived value.

use vstd::prelude::*;

verus! {

/// A pure map from an inbound request to the key or value a cache provider
/// works on.
///
/// Two forms come built in: the unit type `()` is the no-op transformer
/// (the request itself is used), and any single-argument function or closure
/// is a transformer, so callers can cache on an ad-hoc projection of the
/// request without writing a dedicated type.
pub trait Transform<R> {
    /// Output of the transformer.
    type Output;

    /// When the transformer may be applied to `req`.
    spec fn transform_req(&self, req: R) -> bool;

    /// What holds of the value the transformer derives from `req`.
    spec fn transform_post(&self, req: R, out: Self::Output) -> bool;

    /// Derive the cache key or value for `req`.
    fn transform(&self, req: R) -> (out: Self::Output)
        requires
            self.transform_req(req),
        ensures
            self.transform_post(req, out),
    ;
}

/// The no-op transformer: the derived value is the request itself.
impl<R> Transform<R> for () {
    type Output = R;

    open spec fn transform_req(&self, req: R) -> bool {
        true
    }

    open spec fn transform_post(&self, req: R, out: R) -> bool {
        out == req
    }

    fn transform(&self, req: R) -> (out: R) {
        req
    }
}

/// Any single-argument function is a transformer; its contract is the
/// function's own.
impl<F: Fn(R) -> O, R, O> Transform<R> for F {
    type Output = O;

    open spec fn transform_req(&self, req: R) -> bool {
        call_requires(*self, (req,))
    }

    open spec fn transform_post(&self, req: R, out: O) -> bool {
        call_ensures(*self, (req,), out)
    }

    fn transform(&self, req: R) -> (out: O) {
        (self)(req)
    }
}

} // verus!
