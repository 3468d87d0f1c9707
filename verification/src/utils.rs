//! Combining the answers of a zone to the queries of one request.
use vstd::prelude::*;

verus! {

/// The record type of a query, as far as the zones tell types apart.
#[derive(Clone, Copy, Debug, PartialEq, Eq, Structural)]
pub enum QueryType {
    A,
    AAAA,
    SOA,
    Other,
}

/// How the lookup of one query went.
#[derive(Clone, Copy, Debug, PartialEq, Eq, Structural)]
pub enum LookupFlow {
    /// Answered with records.
    Answered,
    /// Not this zone's name.
    Skip,
    /// Anything else: an error, or a final answer.
    Other,
}

/// What a search over the queries of a request answers.
#[derive(Clone, Copy, Debug, PartialEq, Eq, Structural)]
pub enum SearchOutcome {
    /// The lookup at this position, as it is.
    Return(usize),
    /// NXDOMAIN.
    NxDomain,
    /// Not this zone's name.
    Skip,
    /// The records of all answered lookups together, in order.
    Combine,
}

/// `i` is the first lookup that neither answered nor skipped.
pub open spec fn first_other(flows: Seq<LookupFlow>, i: int) -> bool {
    &&& 0 <= i < flows.len()
    &&& flows[i] == LookupFlow::Other
    &&& forall|j: int| 0 <= j < i ==> flows[j] != LookupFlow::Other
}

/// The first lookup that neither answered nor skipped is the answer; else,
/// when none answered, NXDOMAIN or a skip as `nxdomain` says; else the
/// answers together.
pub open spec fn search_outcome_spec(flows: Seq<LookupFlow>, nxdomain: bool) -> SearchOutcome {
    if exists|i: int| first_other(flows, i) {
        SearchOutcome::Return((choose|i: int| first_other(flows, i)) as usize)
    } else if exists|i: int| 0 <= i < flows.len() && flows[i] == LookupFlow::Answered {
        SearchOutcome::Combine
    } else if nxdomain {
        SearchOutcome::NxDomain
    } else {
        SearchOutcome::Skip
    }
}

/// The decision of `handler_search_aggregator` over the lookups of a request.
pub fn handler_search_aggregator(flows: &Vec<LookupFlow>, nxdomain: bool) -> (r: SearchOutcome)
    ensures
        r == search_outcome_spec(flows@, nxdomain),
{
    let mut zone_exists = false;
    let mut i: usize = 0;
    while i < flows.len()
        invariant
            i <= flows@.len(),
            forall|j: int| 0 <= j < i ==> flows@[j] != LookupFlow::Other,
            zone_exists == exists|j: int| 0 <= j < i && flows@[j] == LookupFlow::Answered,
        decreases flows@.len() - i,
    {
        match flows[i] {
            LookupFlow::Answered => {
                zone_exists = true;
            },
            LookupFlow::Skip => {},
            LookupFlow::Other => {
                proof {
                    assert(first_other(flows@, i as int));
                    let c = choose|c: int| first_other(flows@, c);
                    if c < i {
                        assert(flows@[c] != LookupFlow::Other);
                    } else if i < c {
                        assert(flows@[i as int] != LookupFlow::Other);
                    }
                }
                return SearchOutcome::Return(i);
            },
        }
        i = i + 1;
    }
    proof {
        if exists|c: int| first_other(flows@, c) {
            let c = choose|c: int| first_other(flows@, c);
            assert(flows@[c] == LookupFlow::Other);
        }
    }
    if !zone_exists {
        if nxdomain {
            SearchOutcome::NxDomain
        } else {
            SearchOutcome::Skip
        }
    } else {
        SearchOutcome::Combine
    }
}

/// The TTL of an upstream answer that stays valid for `remaining_secs` more
/// seconds: those seconds, as far as a TTL can hold them.
pub fn answer_ttl(remaining_secs: u64) -> (ttl: u32)
    ensures
        ttl == (if remaining_secs > u32::MAX as u64 {
            u32::MAX as u64
        } else {
            remaining_secs
        }),
{
    if remaining_secs > u32::MAX as u64 {
        u32::MAX
    } else {
        remaining_secs as u32
    }
}

} // verus!
