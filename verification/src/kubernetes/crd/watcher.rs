//! What a watch event on `DnsRecord` resources does to the context.
use crate::keyed::{removed, upserted};
use crate::kubernetes::crd::context::KubernetesCrdContext;
use crate::kubernetes::crd::DnsRecordCrd;
use crate::kubernetes::svc::context::slash_join;
use crate::kubernetes::ResourceEvent;
use crate::names::name_from_utf8_labels;
use vstd::prelude::*;

verus! {

/// Applies a watch event: an applied resource is stored (when its name
/// parses; `false` and no change otherwise), a deleted one forgotten, any
/// other event ignored.
pub fn handle_dns_record_event(context: &mut KubernetesCrdContext, event: ResourceEvent<DnsRecordCrd>) -> (ok:
    bool)
    ensures
        match event {
            ResourceEvent::Apply { namespace, name, object } => {
                &&& ok == name_from_utf8_labels(object.fqdn@) is Some
                &&& ok ==> final(context)@ == upserted(
                    old(context)@,
                    slash_join(namespace@, name@),
                    (object@, name_from_utf8_labels(object.fqdn@)->0),
                )
                &&& !ok ==> final(context)@ == old(context)@
            },
            ResourceEvent::Delete { namespace, name } => ok && final(context)@ == removed(
                old(context)@,
                slash_join(namespace@, name@),
            ),
            ResourceEvent::Other => ok && final(context)@ == old(context)@,
        },
{
    match event {
        ResourceEvent::Apply { namespace, name, object } => context.try_add_entry(
            namespace.as_str(),
            name.as_str(),
            object,
        ),
        ResourceEvent::Delete { namespace, name } => {
            context.remove_entry(namespace.as_str(), name.as_str());
            true
        },
        ResourceEvent::Other => true,
    }
}

} // verus!
