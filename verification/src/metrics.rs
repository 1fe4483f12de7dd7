//! Label sets of the daemon's metrics.

use vstd::prelude::*;
use crate::registry::{family, route_family};

verus! {

/// Labels for registry HTTP requests.
#[derive(Debug, Clone, PartialEq, Eq, Hash)]
pub struct RequestLabels {
    pub method: String,
    /// Coarse route family: root, manifests, blobs, uploads, tags, catalog,
    /// control, metrics, other.
    pub route: &'static str,
    pub status: u16,
}

impl RequestLabels {
    /// The labels a request is counted under: its method, the route family
    /// of its path and its response status.
    pub fn of(method: String, path: &str, status: u16) -> (l: RequestLabels)
        ensures
            l.method@ == method@,
            l.route@ == family(path@),
            l.status == status,
    {
        RequestLabels { method, route: route_family(path), status }
    }
}

/// Labels for the p2p sync protocol: the kind of request.
#[derive(Debug, Clone, PartialEq, Eq, Hash)]
pub struct SyncLabels {
    pub request: &'static str,
}

} // verus!
