//! Request models of the vector-index plugin. The index itself wraps a
//! third-party similarity-search library over floating-point vectors and
//! lives with the surrounding runtime; only the plain request shapes are
//! kept here.

use vstd::prelude::*;

verus! {

/// Echo request of the vector-index health check.
pub struct PingRequest {
    pub value: Option<String>,
}

/// Echo response of the vector-index health check.
pub struct PingResponse {
    pub value: Option<String>,
}

/// A request to drop the vectors stored under the listed ids.
pub struct RemoveRequest {
    pub ids: Vec<String>,
}

} // verus!
