//! Settings of the server that its logic reads.
use vstd::prelude::*;

verus! {

/// The lists the blocker downloads.
pub struct BlockerSettings {
    pub allowlist_urls: Vec<String>,
    pub blocklist_urls: Vec<String>,
}

} // verus!
