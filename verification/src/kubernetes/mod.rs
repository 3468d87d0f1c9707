//! Records that come from Kubernetes: services and endpoint slices, and the
//! `DnsRecord` custom resource.
pub mod crd;
pub mod svc;

use vstd::prelude::*;

verus! {

/// What a watch reports of one object.
pub enum ResourceEvent<T> {
    /// The object exists, as given.
    Apply { namespace: String, name: String, object: T },
    /// The object was deleted.
    Delete { namespace: String, name: String },
    /// Anything else (such as the start or end of a listing).
    Other,
}

} // verus!
