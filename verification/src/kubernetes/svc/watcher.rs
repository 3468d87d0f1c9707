//! What watch events on services and endpoint slices do to the context.
use crate::keyed::{removed, upserted};
use crate::kubernetes::svc::context::{
    eps_key, svc_key, EndpointSliceEntry, KubernetesSvcContext, ServiceEntry,
};
use crate::kubernetes::ResourceEvent;
use crate::text::str_equal;
use vstd::prelude::*;

verus! {

/// The label that names the service of an endpoint slice.
pub open spec fn service_name_label() -> Seq<char> {
    "kubernetes.io/service-name"@
}

/// The value of the first label keyed `kubernetes.io/service-name`.
pub open spec fn service_name_of(labels: Seq<(Seq<char>, Seq<char>)>) -> Option<Seq<char>>
    decreases labels.len(),
{
    if labels.len() == 0 {
        None
    } else if labels[0].0 == service_name_label() {
        Some(labels[0].1)
    } else {
        service_name_of(labels.drop_first())
    }
}

/// Labels as keys and values.
pub open spec fn labels_view(l: Seq<(String, String)>) -> Seq<(Seq<char>, Seq<char>)> {
    l.map_values(|e: (String, String)| (e.0@, e.1@))
}

/// The service an endpoint slice belongs to, by its labels.
pub fn get_service_name_from_eps(labels: &Option<Vec<(String, String)>>) -> (r: Option<String>)
    ensures
        labels is None ==> r is None,
        labels is Some ==> match service_name_of(labels_view(labels->0@)) {
            Some(v) => r is Some && r->0@ == v,
            None => r is None,
        },
{
    match labels {
        None => None,
        Some(l) => {
            let ghost lv = labels_view(l@);
            let mut i: usize = 0;
            proof {
                assert(lv.skip(0) =~= lv);
            }
            while i < l.len()
                invariant
                    i <= l@.len(),
                    lv == labels_view(l@),
                    *labels == Some(*l),
                    service_name_of(lv) == service_name_of(lv.skip(i as int)),
                decreases l@.len() - i,
            {
                proof {
                    assert(lv.skip(i as int)[0] == lv[i as int]);
                    assert(lv.skip(i as int).drop_first() =~= lv.skip(i + 1));
                }
                if str_equal(l[i].0.as_str(), "kubernetes.io/service-name") {
                    proof {
                        assert(lv[i as int] == (l@[i as int].0@, l@[i as int].1@));
                        assert(service_name_of(lv.skip(i as int)) == Some(l@[i as int].1@));
                        assert(service_name_of(labels_view(l@)) == Some(l@[i as int].1@));
                    }
                    let v = l[i].1.clone();
                    proof {
                        assert(v@ == l@[i as int].1@);
                    }
                    return Some(v);
                }
                i = i + 1;
            }
            proof {
                assert(lv.skip(i as int).len() == 0);
            }
            None
        },
    }
}

/// Applies a watch event on a service: an applied service's entry is
/// stored, a deleted service forgotten, any other event ignored.
pub fn handle_service_event(context: &mut KubernetesSvcContext, event: ResourceEvent<ServiceEntry>)
    ensures
        final(context)@.1 == old(context)@.1,
        match event {
            ResourceEvent::Apply { namespace, name, object } => final(context)@.0 == upserted(
                old(context)@.0,
                svc_key(namespace@, name@),
                object@,
            ),
            ResourceEvent::Delete { namespace, name } => final(context)@.0 == removed(
                old(context)@.0,
                svc_key(namespace@, name@),
            ),
            ResourceEvent::Other => final(context)@.0 == old(context)@.0,
        },
{
    match event {
        ResourceEvent::Apply { namespace, name, object } => {
            context.add_svc(namespace.as_str(), name.as_str(), object);
        },
        ResourceEvent::Delete { namespace, name } => {
            context.remove_svc(namespace.as_str(), name.as_str());
        },
        ResourceEvent::Other => {},
    }
}

/// What a watch reports of one endpoint slice, with the service it
/// belongs to.
pub enum EndpointSliceEvent {
    Apply { namespace: String, service: String, name: String, entry: EndpointSliceEntry },
    Delete { namespace: String, service: String, name: String },
    Other,
}

/// Applies a watch event on an endpoint slice: an applied slice's entry is
/// stored, a deleted slice forgotten, any other event ignored.
pub fn handle_endpoint_slice_event(context: &mut KubernetesSvcContext, event: EndpointSliceEvent)
    ensures
        final(context)@.0 == old(context)@.0,
        match event {
            EndpointSliceEvent::Apply { namespace, service, name, entry } => final(context)@.1
                == upserted(old(context)@.1, eps_key(namespace@, service@, name@), entry@),
            EndpointSliceEvent::Delete { namespace, service, name } => final(context)@.1 == removed(
                old(context)@.1,
                eps_key(namespace@, service@, name@),
            ),
            EndpointSliceEvent::Other => final(context)@.1 == old(context)@.1,
        },
{
    match event {
        EndpointSliceEvent::Apply { namespace, service, name, entry } => {
            context.add_eps(namespace.as_str(), service.as_str(), name.as_str(), entry);
        },
        EndpointSliceEvent::Delete { namespace, service, name } => {
            context.remove_eps(namespace.as_str(), service.as_str(), name.as_str());
        },
        EndpointSliceEvent::Other => {},
    }
}

} // verus!
