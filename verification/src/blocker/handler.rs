//! The decision of the blocking zone.
use crate::blocker::context::{lookup_result, BlockerContext, ListType};
use vstd::prelude::*;

verus! {

/// The blocking zone answers NXDOMAIN for a name that the lists block, and
/// leaves every other name to the next zone. A blocked name comes back with
/// the urls of the lists that block it and the part of the name matched.
pub fn blocked_by(context: &BlockerContext, name: &Vec<String>) -> (r: Option<(Vec<String>, Vec<String>)>)
    ensures
        match lookup_result(context@, name.deep_view()) {
            Some((urls, matched, ListType::Block)) => r matches Some(x) && x.0.deep_view() == urls
                && x.1.deep_view() == matched,
            _ => r is None,
        },
{
    match context.lookup(name) {
        Some((urls, matched, ListType::Block)) => Some((urls, matched)),
        _ => None,
    }
}

} // verus!
