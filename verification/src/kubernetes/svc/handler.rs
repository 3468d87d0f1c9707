//! The decision of the cluster-domain zone for a query.
use crate::kubernetes::svc::context::{
    endpoint_addresses, eps_prefix, svc_key, values_with_prefix, EndpointSliceEndpoint,
    EndpointSliceEntry,
    EndpointView, IpAddress, KubernetesSvcContext, PortKey, ServiceEntry, ServiceEntryView,
};
use crate::keyed::{distinct_keys, law_removed, law_value_after_upsert, removed, upserted, value_of};
use crate::utils::QueryType;
use vstd::prelude::*;

verus! {

/// Time to live of the records the zone serves.
pub const TTL: u32 = 30;

/// The model of a context of services and endpoint slices.
pub type SvcContextView = (
    Seq<(Seq<char>, ServiceEntryView)>,
    Seq<(Seq<char>, (Seq<EndpointView>, Map<PortKey, i32>))>,
);

/// The SOA record of the cluster domain.
pub struct SoaRecord {
    pub mname: Vec<String>,
    pub rname: Vec<String>,
    pub serial: u32,
    pub refresh: i32,
    pub retry: i32,
    pub expire: i32,
    pub minimum: u32,
}

/// The answer of the zone to one query.
pub enum SvcAnswer {
    /// A records with these addresses.
    A(Vec<u32>),
    /// AAAA records with these addresses.
    Aaaa(Vec<u128>),
    /// The SOA record of the zone.
    Soa(SoaRecord),
    /// The name does not exist.
    NxDomain,
    /// The name exists, without records of the type asked for.
    Empty,
}

/// The query's labels without the labels of the cluster domain.
pub open spec fn within_zone(query: Seq<Seq<char>>, origin_labels: nat) -> Seq<Seq<char>> {
    if query.len() >= origin_labels {
        query.take(query.len() - origin_labels)
    } else {
        Seq::empty()
    }
}

/// The addresses of the endpoints named `name` in the given slices, one
/// list per endpoint, in order.
pub open spec fn named_endpoint_targets(
    epss: Seq<(Seq<EndpointView>, Map<PortKey, i32>)>,
    name: Seq<char>,
) -> Seq<Seq<IpAddress>>
    decreases epss.len(),
{
    if epss.len() == 0 {
        Seq::empty()
    } else {
        named_endpoint_targets(epss.drop_last(), name) + named_in(epss.last().0, name)
    }
}

pub open spec fn named_in(eps: Seq<EndpointView>, name: Seq<char>) -> Seq<Seq<IpAddress>>
    decreases eps.len(),
{
    if eps.len() == 0 {
        Seq::empty()
    } else {
        let prev = named_in(eps.drop_last(), name);
        match eps.last() {
            EndpointView::Kubernetes { name: n, addresses } => if n == name {
                prev.push(addresses)
            } else {
                prev
            },
            EndpointView::External { .. } => prev,
        }
    }
}

/// The addresses of every endpoint of the given slices, one list per
/// endpoint, in order.
pub open spec fn all_endpoint_targets(epss: Seq<(Seq<EndpointView>, Map<PortKey, i32>)>) -> Seq<
    Seq<IpAddress>,
>
    decreases epss.len(),
{
    if epss.len() == 0 {
        Seq::empty()
    } else {
        all_endpoint_targets(epss.drop_last()) + epss.last().0.map_values(
            |e: EndpointView| endpoint_addresses(e),
        )
    }
}

pub open spec fn svc_label() -> Seq<char> {
    seq!['s', 'v', 'c']
}

/// The address lists that a name within the zone stands for:
/// `pod.service.namespace.svc` stands for the endpoints named `pod` of the
/// service's slices; `service.namespace.svc` for the service's cluster IPs,
/// or for all its endpoints when it is headless; anything else for none.
pub open spec fn svc_targets(ctx: SvcContextView, labels: Seq<Seq<char>>) -> Seq<Seq<IpAddress>> {
    if labels.len() == 4 && labels[3] == svc_label() {
        named_endpoint_targets(values_with_prefix(ctx.1, eps_prefix(labels[2], labels[1])), labels[0])
    } else if labels.len() == 3 && labels[2] == svc_label() {
        match value_of(ctx.0, svc_key(labels[1], labels[0])) {
            Some(ServiceEntryView::ClusterIpService { addresses }) => seq![addresses],
            Some(ServiceEntryView::HeadlessService) => all_endpoint_targets(
                values_with_prefix(ctx.1, eps_prefix(labels[1], labels[0])),
            ),
            None => Seq::empty(),
        }
    } else {
        Seq::empty()
    }
}

pub open spec fn v4_in(addresses: Seq<IpAddress>) -> Seq<u32>
    decreases addresses.len(),
{
    if addresses.len() == 0 {
        Seq::empty()
    } else {
        let prev = v4_in(addresses.drop_last());
        match addresses.last() {
            IpAddress::V4(a) => prev.push(a),
            IpAddress::V6(_) => prev,
        }
    }
}

pub open spec fn v6_in(addresses: Seq<IpAddress>) -> Seq<u128>
    decreases addresses.len(),
{
    if addresses.len() == 0 {
        Seq::empty()
    } else {
        let prev = v6_in(addresses.drop_last());
        match addresses.last() {
            IpAddress::V4(_) => prev,
            IpAddress::V6(a) => prev.push(a),
        }
    }
}

/// The IPv4 addresses of all targets, in order.
pub open spec fn v4_targets(targets: Seq<Seq<IpAddress>>) -> Seq<u32>
    decreases targets.len(),
{
    if targets.len() == 0 {
        Seq::empty()
    } else {
        v4_targets(targets.drop_last()) + v4_in(targets.last())
    }
}

/// The IPv6 addresses of all targets, in order.
pub open spec fn v6_targets(targets: Seq<Seq<IpAddress>>) -> Seq<u128>
    decreases targets.len(),
{
    if targets.len() == 0 {
        Seq::empty()
    } else {
        v6_targets(targets.drop_last()) + v6_in(targets.last())
    }
}

/// The labels of the SOA record's primary name server:
/// `kube-dns-rs.kube-dns-rs.svc.<cluster domain>`.
pub open spec fn soa_mname(origin: Seq<Seq<char>>) -> Seq<Seq<char>> {
    seq!["kube-dns-rs"@, "kube-dns-rs"@, svc_label()] + origin
}

/// The labels of the SOA record's mailbox: `admin.<cluster domain>`.
pub open spec fn soa_rname(origin: Seq<Seq<char>>) -> Seq<Seq<char>> {
    seq!["admin"@] + origin
}

/// What the zone answers: records of the type asked for when the name's
/// targets hold addresses of that type (the SOA record for any SOA query);
/// else NXDOMAIN when the name stands for nothing, and an empty answer when
/// it stands for something.
pub open spec fn svc_answer_ok(
    ctx: SvcContextView,
    query: Seq<Seq<char>>,
    origin: Seq<Seq<char>>,
    origin_labels: nat,
    query_type: QueryType,
    answer: SvcAnswer,
) -> bool {
    let targets = svc_targets(ctx, within_zone(query, origin_labels));
    let fallback = if targets.len() == 0 {
        answer is NxDomain
    } else {
        answer is Empty
    };
    match query_type {
        QueryType::A => if v4_targets(targets).len() > 0 {
            answer matches SvcAnswer::A(a) && a@ == v4_targets(targets)
        } else {
            fallback
        },
        QueryType::AAAA => if v6_targets(targets).len() > 0 {
            answer matches SvcAnswer::Aaaa(a) && a@ == v6_targets(targets)
        } else {
            fallback
        },
        QueryType::SOA => answer matches SvcAnswer::Soa(soa) && soa.mname.deep_view() == soa_mname(
            origin,
        ) && soa.rname.deep_view() == soa_rname(origin) && soa.serial == 2026082101
            && soa.refresh == 3600 && soa.retry == 1800 && soa.expire == 604800 && soa.minimum
            == 300,
        QueryType::Other => fallback,
    }
}

/// The query's labels without the cluster domain's `origin_labels` last ones.
fn zone_labels(query: &Vec<String>, origin_labels: usize) -> (r: Vec<String>)
    ensures
        r.deep_view() == within_zone(query.deep_view(), origin_labels as nat),
{
    let keep = if query.len() >= origin_labels {
        query.len() - origin_labels
    } else {
        0
    };
    let mut r: Vec<String> = Vec::new();
    let mut i: usize = 0;
    while i < keep
        invariant
            i <= keep <= query@.len(),
            keep == (if query@.len() >= origin_labels { query@.len() - origin_labels } else { 0 }),
            r.deep_view() == query.deep_view().take(i as int),
        decreases keep - i,
    {
        let ghost prev = r.deep_view();
        r.push(query[i].clone());
        proof {
            assert(r.deep_view() =~= prev.push(query.deep_view()[i as int]));
            assert(query.deep_view().take(i + 1) =~= query.deep_view().take(i as int).push(
                query.deep_view()[i as int],
            ));
        }
        i = i + 1;
    }
    proof {
        if query@.len() < origin_labels {
            assert(r.deep_view() =~= Seq::<Seq<char>>::empty());
        }
    }
    r
}

spec fn targets_view(r: Seq<&Vec<IpAddress>>) -> Seq<Seq<IpAddress>> {
    r.map_values(|v: &Vec<IpAddress>| v@)
}

spec fn entries_views(epss: Seq<&EndpointSliceEntry>) -> Seq<(Seq<EndpointView>, Map<PortKey, i32>)> {
    epss.map_values(|e: &EndpointSliceEntry| e@)
}

fn named_targets<'a>(epss: &Vec<&'a EndpointSliceEntry>, name: &String) -> (r: Vec<&'a Vec<IpAddress>>)
    ensures
        targets_view(r@) == named_endpoint_targets(entries_views(epss@), name@),
{
    let ghost views = entries_views(epss@);
    let mut r: Vec<&'a Vec<IpAddress>> = Vec::new();
    let mut i: usize = 0;
    while i < epss.len()
        invariant
            i <= epss@.len(),
            views == entries_views(epss@),
            targets_view(r@) == named_endpoint_targets(views.take(i as int), name@),
        decreases epss@.len() - i,
    {
        let entry: &'a EndpointSliceEntry = epss[i];
        let ghost base = targets_view(r@);
        let ghost evs = entry.endpoints@.map_values(|e: EndpointSliceEndpoint| e@);
        let mut j: usize = 0;
        proof {
            assert(evs.take(0) =~= Seq::<EndpointView>::empty());
            assert(base + named_in(evs.take(0), name@) =~= base);
        }
        while j < entry.endpoints.len()
            invariant
                j <= entry.endpoints@.len(),
                evs == entry.endpoints@.map_values(|e: EndpointSliceEndpoint| e@),
                targets_view(r@) == base + named_in(evs.take(j as int), name@),
            decreases entry.endpoints@.len() - j,
        {
            let ghost prev = targets_view(r@);
            proof {
                let t = evs.take(j + 1);
                assert(t.drop_last() =~= evs.take(j as int));
                assert(t.last() == evs[j as int]);
            }
            match &entry.endpoints[j] {
                EndpointSliceEndpoint::Kubernetes { name: n, addresses } => {
                    if *n == *name {
                        r.push(addresses);
                        proof {
                            assert(targets_view(r@) =~= prev.push(addresses@));
                            assert(base + named_in(evs.take(j + 1), name@) =~= (base + named_in(
                                evs.take(j as int),
                                name@,
                            )).push(addresses@));
                        }
                    }
                },
                EndpointSliceEndpoint::External { .. } => {},
            }
            j = j + 1;
        }
        proof {
            assert(evs.take(j as int) =~= evs);
            let t = views.take(i + 1);
            assert(t.drop_last() =~= views.take(i as int));
            assert(t.last() == views[i as int]);
            assert(views[i as int].0 == evs);
        }
        i = i + 1;
    }
    proof {
        assert(views.take(i as int) =~= views);
    }
    r
}

fn all_targets<'a>(epss: &Vec<&'a EndpointSliceEntry>) -> (r: Vec<&'a Vec<IpAddress>>)
    ensures
        targets_view(r@) == all_endpoint_targets(entries_views(epss@)),
{
    let ghost views = entries_views(epss@);
    let mut r: Vec<&'a Vec<IpAddress>> = Vec::new();
    let mut i: usize = 0;
    while i < epss.len()
        invariant
            i <= epss@.len(),
            views == entries_views(epss@),
            targets_view(r@) == all_endpoint_targets(views.take(i as int)),
        decreases epss@.len() - i,
    {
        let entry: &'a EndpointSliceEntry = epss[i];
        let ghost base = targets_view(r@);
        let ghost evs = entry.endpoints@.map_values(|e: EndpointSliceEndpoint| e@);
        let ghost addrs = evs.map_values(|e: EndpointView| endpoint_addresses(e));
        let mut j: usize = 0;
        while j < entry.endpoints.len()
            invariant
                j <= entry.endpoints@.len(),
                evs == entry.endpoints@.map_values(|e: EndpointSliceEndpoint| e@),
                addrs == evs.map_values(|e: EndpointView| endpoint_addresses(e)),
                targets_view(r@) == base + addrs.take(j as int),
            decreases entry.endpoints@.len() - j,
        {
            let ghost prev = targets_view(r@);
            let a = entry.endpoints[j].addresses();
            r.push(a);
            proof {
                assert(addrs[j as int] == endpoint_addresses(evs[j as int]));
                assert(targets_view(r@) =~= prev.push(a@));
                assert(addrs.take(j + 1) =~= addrs.take(j as int).push(addrs[j as int]));
                assert(targets_view(r@) =~= base + addrs.take(j + 1));
            }
            j = j + 1;
        }
        proof {
            assert(addrs.take(j as int) =~= addrs);
            let t = views.take(i + 1);
            assert(t.drop_last() =~= views.take(i as int));
            assert(t.last() == views[i as int]);
            assert(views[i as int].0 == evs);
        }
        i = i + 1;
    }
    proof {
        assert(views.take(i as int) =~= views);
    }
    r
}

fn v4_of(targets: &Vec<&Vec<IpAddress>>) -> (r: Vec<u32>)
    ensures
        r@ == v4_targets(targets_view(targets@)),
{
    let ghost tv = targets_view(targets@);
    let mut r: Vec<u32> = Vec::new();
    let mut i: usize = 0;
    while i < targets.len()
        invariant
            i <= targets@.len(),
            tv == targets_view(targets@),
            r@ == v4_targets(tv.take(i as int)),
        decreases targets@.len() - i,
    {
        let addrs: &Vec<IpAddress> = targets[i];
        let ghost base = r@;
        let mut j: usize = 0;
        proof {
            assert(addrs@.take(0) =~= Seq::<IpAddress>::empty());
            assert(base + v4_in(addrs@.take(0)) =~= base);
        }
        while j < addrs.len()
            invariant
                j <= addrs@.len(),
                r@ == base + v4_in(addrs@.take(j as int)),
            decreases addrs@.len() - j,
        {
            proof {
                let t = addrs@.take(j + 1);
                assert(t.drop_last() =~= addrs@.take(j as int));
                assert(t.last() == addrs@[j as int]);
            }
            match addrs[j] {
                IpAddress::V4(a) => {
                    r.push(a);
                    proof {
                        assert(base + v4_in(addrs@.take(j + 1)) =~= (base + v4_in(
                            addrs@.take(j as int),
                        )).push(a));
                    }
                },
                IpAddress::V6(_) => {},
            }
            j = j + 1;
        }
        proof {
            assert(addrs@.take(j as int) =~= addrs@);
            let t = tv.take(i + 1);
            assert(t.drop_last() =~= tv.take(i as int));
            assert(t.last() == addrs@);
        }
        i = i + 1;
    }
    proof {
        assert(tv.take(i as int) =~= tv);
    }
    r
}

fn v6_of(targets: &Vec<&Vec<IpAddress>>) -> (r: Vec<u128>)
    ensures
        r@ == v6_targets(targets_view(targets@)),
{
    let ghost tv = targets_view(targets@);
    let mut r: Vec<u128> = Vec::new();
    let mut i: usize = 0;
    while i < targets.len()
        invariant
            i <= targets@.len(),
            tv == targets_view(targets@),
            r@ == v6_targets(tv.take(i as int)),
        decreases targets@.len() - i,
    {
        let addrs: &Vec<IpAddress> = targets[i];
        let ghost base = r@;
        let mut j: usize = 0;
        proof {
            assert(addrs@.take(0) =~= Seq::<IpAddress>::empty());
            assert(base + v6_in(addrs@.take(0)) =~= base);
        }
        while j < addrs.len()
            invariant
                j <= addrs@.len(),
                r@ == base + v6_in(addrs@.take(j as int)),
            decreases addrs@.len() - j,
        {
            proof {
                let t = addrs@.take(j + 1);
                assert(t.drop_last() =~= addrs@.take(j as int));
                assert(t.last() == addrs@[j as int]);
            }
            match addrs[j] {
                IpAddress::V4(_) => {},
                IpAddress::V6(a) => {
                    r.push(a);
                    proof {
                        assert(base + v6_in(addrs@.take(j + 1)) =~= (base + v6_in(
                            addrs@.take(j as int),
                        )).push(a));
                    }
                },
            }
            j = j + 1;
        }
        proof {
            assert(addrs@.take(j as int) =~= addrs@);
            let t = tv.take(i + 1);
            assert(t.drop_last() =~= tv.take(i as int));
            assert(t.last() == addrs@);
        }
        i = i + 1;
    }
    proof {
        assert(tv.take(i as int) =~= tv);
    }
    r
}

/// The address lists that `labels` (a name within the zone) stands for.
fn targets_of<'a>(context: &'a KubernetesSvcContext, labels: &Vec<String>) -> (r: Vec<&'a Vec<IpAddress>>)
    ensures
        targets_view(r@) == svc_targets(context@, labels.deep_view()),
{
    let svc = "svc".to_owned();
    proof {
        reveal_strlit("svc");
        assert("svc"@ =~= svc_label());
        assert(svc@ == svc_label());
    }
    if labels.len() == 4 && labels[3] == svc {
        let epss = context.get_epss(labels[2].as_str(), labels[1].as_str());
        proof {
            assert(entries_views(epss@) == epss@.map_values(|e: &EndpointSliceEntry| e@));
        }
        return named_targets(&epss, &labels[0]);
    }
    if labels.len() == 3 && labels[2] == svc {
        match context.get_svc(labels[1].as_str(), labels[0].as_str()) {
            Some(ServiceEntry::ClusterIpService { addresses }) => {
                let mut r: Vec<&'a Vec<IpAddress>> = Vec::new();
                r.push(addresses);
                proof {
                    assert(targets_view(r@) =~= seq![addresses@]);
                }
                return r;
            },
            Some(ServiceEntry::HeadlessService) => {
                let epss = context.get_epss(labels[1].as_str(), labels[0].as_str());
                proof {
                    assert(entries_views(epss@) == epss@.map_values(|e: &EndpointSliceEntry| e@));
                }
                return all_targets(&epss);
            },
            None => {
                let r: Vec<&'a Vec<IpAddress>> = Vec::new();
                proof {
                    assert(targets_view(r@) =~= Seq::<Seq<IpAddress>>::empty());
                }
                return r;
            },
        }
    }
    let r: Vec<&'a Vec<IpAddress>> = Vec::new();
    proof {
        assert(targets_view(r@) =~= Seq::<Seq<IpAddress>>::empty());
    }
    r
}

/// The SOA record of the cluster domain `origin`.
fn soa_record(origin: &Vec<String>) -> (soa: SoaRecord)
    ensures
        soa.mname.deep_view() == soa_mname(origin.deep_view()),
        soa.rname.deep_view() == soa_rname(origin.deep_view()),
        soa.serial == 2026082101,
        soa.refresh == 3600,
        soa.retry == 1800,
        soa.expire == 604800,
        soa.minimum == 300,
{
    let m1 = "kube-dns-rs".to_owned();
    let m2 = "kube-dns-rs".to_owned();
    let m3 = "svc".to_owned();
    let r1 = "admin".to_owned();
    let ghost g = seq![m1@, m2@, m3@];
    let ghost h = seq![r1@];
    let mut mname: Vec<String> = Vec::new();
    mname.push(m1);
    mname.push(m2);
    mname.push(m3);
    let mut rname: Vec<String> = Vec::new();
    rname.push(r1);
    proof {
        assert(mname.deep_view() =~= g);
        assert(rname.deep_view() =~= h);
    }
    let ghost m0 = mname.deep_view();
    let ghost r0 = rname.deep_view();
    proof {
        reveal_strlit("svc");
        assert("svc"@ =~= svc_label());
        assert(m0 =~= seq!["kube-dns-rs"@, "kube-dns-rs"@, svc_label()]);
        assert(r0 =~= seq!["admin"@]);
        assert(origin.deep_view().take(0) =~= Seq::<Seq<char>>::empty());
    }
    let mut i: usize = 0;
    while i < origin.len()
        invariant
            i <= origin@.len(),
            mname.deep_view() == m0 + origin.deep_view().take(i as int),
            rname.deep_view() == r0 + origin.deep_view().take(i as int),
        decreases origin@.len() - i,
    {
        let ghost pm = mname.deep_view();
        let ghost pr = rname.deep_view();
        mname.push(origin[i].clone());
        rname.push(origin[i].clone());
        proof {
            assert(mname.deep_view() =~= pm.push(origin.deep_view()[i as int]));
            assert(rname.deep_view() =~= pr.push(origin.deep_view()[i as int]));
            assert(origin.deep_view().take(i + 1) =~= origin.deep_view().take(i as int).push(
                origin.deep_view()[i as int],
            ));
            assert(mname.deep_view() =~= m0 + origin.deep_view().take(i + 1));
            assert(rname.deep_view() =~= r0 + origin.deep_view().take(i + 1));
        }
        i = i + 1;
    }
    proof {
        assert(origin.deep_view().take(i as int) =~= origin.deep_view());
    }
    SoaRecord {
        mname,
        rname,
        serial: 2026082101,
        refresh: 3600,
        retry: 1800,
        expire: 604800,
        minimum: 300,
    }
}

/// The answer of the cluster-domain zone to a query for `query` (labels)
/// of type `query_type`; the zone is `origin` (labels), of which
/// `origin_labels` labels are cut from the end of the query.
pub fn svc_zone_lookup(
    context: &KubernetesSvcContext,
    query: &Vec<String>,
    origin: &Vec<String>,
    origin_labels: usize,
    query_type: QueryType,
) -> (r: SvcAnswer)
    ensures
        svc_answer_ok(
            context@,
            query.deep_view(),
            origin.deep_view(),
            origin_labels as nat,
            query_type,
            r,
        ),
{
    let labels = zone_labels(query, origin_labels);
    let targets = targets_of(context, &labels);
    let answer = match query_type {
        QueryType::A => {
            let v4 = v4_of(&targets);
            if v4.len() > 0 {
                Some(SvcAnswer::A(v4))
            } else {
                None
            }
        },
        QueryType::AAAA => {
            let v6 = v6_of(&targets);
            if v6.len() > 0 {
                Some(SvcAnswer::Aaaa(v6))
            } else {
                None
            }
        },
        QueryType::SOA => Some(SvcAnswer::Soa(soa_record(origin))),
        QueryType::Other => None,
    };
    match answer {
        Some(a) => a,
        None => {
            if targets.len() == 0 {
                SvcAnswer::NxDomain
            } else {
                SvcAnswer::Empty
            }
        },
    }
}

/// A read after a write: once a service is stored with cluster IPs, the
/// name `<name>.<namespace>.svc.<cluster domain>` stands for those
/// addresses, and an A query for it is answered with the IPv4 ones among
/// them (when there are any).
pub proof fn law_cluster_ip_service_answers(
    ctx: SvcContextView,
    namespace: Seq<char>,
    name: Seq<char>,
    addresses: Seq<IpAddress>,
    origin: Seq<Seq<char>>,
    answer: SvcAnswer,
)
    requires
        distinct_keys(ctx.0),
    ensures
        ({
            let stored = (
                upserted(
                    ctx.0,
                    svc_key(namespace, name),
                    ServiceEntryView::ClusterIpService { addresses },
                ),
                ctx.1,
            );
            let query = seq![name, namespace, svc_label()] + origin;
            &&& svc_targets(stored, within_zone(query, origin.len())) == seq![addresses]
            &&& v4_in(addresses).len() > 0 && svc_answer_ok(
                stored,
                query,
                origin,
                origin.len(),
                QueryType::A,
                answer,
            ) ==> (answer matches SvcAnswer::A(a) && a@ == v4_in(addresses))
        }),
{
    let e = ServiceEntryView::ClusterIpService { addresses };
    law_value_after_upsert(ctx.0, svc_key(namespace, name), e);
    let query = seq![name, namespace, svc_label()] + origin;
    let labels = within_zone(query, origin.len());
    assert(labels =~= seq![name, namespace, svc_label()]);
    let t = seq![addresses];
    assert(t.drop_last() =~= Seq::<Seq<IpAddress>>::empty());
    assert(t.last() == addresses);
    assert(v4_targets(t.drop_last()) =~= Seq::<u32>::empty());
    assert(v4_targets(t) =~= v4_in(addresses));
}

/// Once a service is removed, its name stands for nothing, and an A query
/// for it is answered NXDOMAIN.
pub proof fn law_removed_service_is_unknown(
    ctx: SvcContextView,
    namespace: Seq<char>,
    name: Seq<char>,
    origin: Seq<Seq<char>>,
    answer: SvcAnswer,
)
    requires
        distinct_keys(ctx.0),
    ensures
        ({
            let after = (removed(ctx.0, svc_key(namespace, name)), ctx.1);
            let query = seq![name, namespace, svc_label()] + origin;
            &&& svc_targets(after, within_zone(query, origin.len())).len() == 0
            &&& svc_answer_ok(after, query, origin, origin.len(), QueryType::A, answer)
                ==> answer is NxDomain
        }),
{
    law_removed(ctx.0, svc_key(namespace, name), svc_key(namespace, name));
    let query = seq![name, namespace, svc_label()] + origin;
    assert(within_zone(query, origin.len()) =~= seq![name, namespace, svc_label()]);
}

/// The endpoints named `name` among several endpoint lists are those of
/// each list in turn.
pub proof fn law_named_in_concat(e1: Seq<EndpointView>, e2: Seq<EndpointView>, name: Seq<char>)
    ensures
        named_in(e1 + e2, name) == named_in(e1, name) + named_in(e2, name),
    decreases e2.len(),
{
    if e2.len() == 0 {
        assert(e1 + e2 =~= e1);
        assert(named_in(e1, name) + named_in(e2, name) =~= named_in(e1, name));
    } else {
        law_named_in_concat(e1, e2.drop_last(), name);
        assert((e1 + e2).drop_last() =~= e1 + e2.drop_last());
        assert((e1 + e2).last() == e2.last());
        match e2.last() {
            EndpointView::Kubernetes { name: n, addresses } => {
                if n == name {
                    assert(named_in(e1, name) + named_in(e2.drop_last(), name).push(addresses)
                        =~= (named_in(e1, name) + named_in(e2.drop_last(), name)).push(addresses));
                }
            },
            EndpointView::External { .. } => {},
        }
    }
}

/// One endpoint is a target of `name` exactly when it is a Kubernetes
/// endpoint named `name`, and then with all its addresses.
pub proof fn law_named_in_one(ep: EndpointView, name: Seq<char>)
    ensures
        named_in(seq![ep], name) == (match ep {
            EndpointView::Kubernetes { name: n, addresses } => if n == name {
                seq![addresses]
            } else {
                Seq::empty()
            },
            EndpointView::External { .. } => Seq::empty(),
        }),
{
    let s = seq![ep];
    assert(s.drop_last() =~= Seq::<EndpointView>::empty());
    assert(s.last() == ep);
    assert(named_in(s.drop_last(), name) =~= Seq::<Seq<IpAddress>>::empty());
    match ep {
        EndpointView::Kubernetes { name: n, addresses } => {
            if n == name {
                assert(Seq::<Seq<IpAddress>>::empty().push(addresses) =~= seq![addresses]);
            }
        },
        EndpointView::External { .. } => {},
    }
}

/// The targets of `<pod>.<service>.<namespace>.svc` over several endpoint
/// slices are those of each slice in turn: every slice of the service
/// counts, whatever the slices before it held.
pub proof fn law_named_targets_concat(
    s1: Seq<(Seq<EndpointView>, Map<PortKey, i32>)>,
    s2: Seq<(Seq<EndpointView>, Map<PortKey, i32>)>,
    name: Seq<char>,
)
    ensures
        named_endpoint_targets(s1 + s2, name) == named_endpoint_targets(s1, name)
            + named_endpoint_targets(s2, name),
    decreases s2.len(),
{
    if s2.len() == 0 {
        assert(s1 + s2 =~= s1);
        assert(named_endpoint_targets(s1, name) + named_endpoint_targets(s2, name)
            =~= named_endpoint_targets(s1, name));
    } else {
        law_named_targets_concat(s1, s2.drop_last(), name);
        assert((s1 + s2).drop_last() =~= s1 + s2.drop_last());
        assert((s1 + s2).last() == s2.last());
        assert(named_endpoint_targets(s1, name) + named_endpoint_targets(s2.drop_last(), name)
            + named_in(s2.last().0, name) =~= named_endpoint_targets(s1, name) + (
        named_endpoint_targets(s2.drop_last(), name) + named_in(s2.last().0, name)));
    }
}

/// The targets of `<pod>...` in one slice are the endpoints of that slice
/// named `<pod>`.
pub proof fn law_named_targets_one(e: (Seq<EndpointView>, Map<PortKey, i32>), name: Seq<char>)
    ensures
        named_endpoint_targets(seq![e], name) == named_in(e.0, name),
{
    let s = seq![e];
    assert(s.drop_last() =~= Seq::<(Seq<EndpointView>, Map<PortKey, i32>)>::empty());
    assert(s.last() == e);
    assert(named_endpoint_targets(s.drop_last(), name) =~= Seq::<Seq<IpAddress>>::empty());
    assert(Seq::<Seq<IpAddress>>::empty() + named_in(e.0, name) =~= named_in(e.0, name));
}

/// The addresses of all endpoints of several slices are those of each
/// slice in turn.
pub proof fn law_all_targets_concat(
    s1: Seq<(Seq<EndpointView>, Map<PortKey, i32>)>,
    s2: Seq<(Seq<EndpointView>, Map<PortKey, i32>)>,
)
    ensures
        all_endpoint_targets(s1 + s2) == all_endpoint_targets(s1) + all_endpoint_targets(s2),
    decreases s2.len(),
{
    if s2.len() == 0 {
        assert(s1 + s2 =~= s1);
        assert(all_endpoint_targets(s1) + all_endpoint_targets(s2) =~= all_endpoint_targets(s1));
    } else {
        law_all_targets_concat(s1, s2.drop_last());
        assert((s1 + s2).drop_last() =~= s1 + s2.drop_last());
        assert((s1 + s2).last() == s2.last());
        let t = s2.last().0.map_values(|e: EndpointView| endpoint_addresses(e));
        assert(all_endpoint_targets(s1) + all_endpoint_targets(s2.drop_last()) + t
            =~= all_endpoint_targets(s1) + (all_endpoint_targets(s2.drop_last()) + t));
    }
}

/// Some target holds an IPv4 address.
pub open spec fn has_v4(t: Seq<Seq<IpAddress>>) -> bool {
    exists|i: int, j: int| 0 <= i < t.len() && 0 <= j < t[i].len() && #[trigger] t[i][j] is V4
}

/// Some target holds an IPv6 address.
pub open spec fn has_v6(t: Seq<Seq<IpAddress>>) -> bool {
    exists|i: int, j: int| 0 <= i < t.len() && 0 <= j < t[i].len() && #[trigger] t[i][j] is V6
}

proof fn lemma_family_in(a: Seq<IpAddress>)
    ensures
        v4_in(a).len() > 0 <==> exists|j: int| 0 <= j < a.len() && #[trigger] a[j] is V4,
        v6_in(a).len() > 0 <==> exists|j: int| 0 <= j < a.len() && #[trigger] a[j] is V6,
    decreases a.len(),
{
    if a.len() > 0 {
        let p = a.drop_last();
        lemma_family_in(p);
        assert(a[a.len() - 1] == a.last());
        if exists|j: int| 0 <= j < p.len() && #[trigger] p[j] is V4 {
            let j = choose|j: int| 0 <= j < p.len() && #[trigger] p[j] is V4;
            assert(a[j] == p[j]);
        }
        if exists|j: int| 0 <= j < p.len() && #[trigger] p[j] is V6 {
            let j = choose|j: int| 0 <= j < p.len() && #[trigger] p[j] is V6;
            assert(a[j] == p[j]);
        }
        if exists|j: int| 0 <= j < a.len() && #[trigger] a[j] is V4 {
            let j = choose|j: int| 0 <= j < a.len() && #[trigger] a[j] is V4;
            if j < p.len() {
                assert(p[j] == a[j]);
            }
        }
        if exists|j: int| 0 <= j < a.len() && #[trigger] a[j] is V6 {
            let j = choose|j: int| 0 <= j < a.len() && #[trigger] a[j] is V6;
            if j < p.len() {
                assert(p[j] == a[j]);
            }
        }
    }
}

proof fn lemma_family_targets(t: Seq<Seq<IpAddress>>)
    ensures
        v4_targets(t).len() > 0 <==> has_v4(t),
        v6_targets(t).len() > 0 <==> has_v6(t),
    decreases t.len(),
{
    if t.len() > 0 {
        let p = t.drop_last();
        lemma_family_targets(p);
        lemma_family_in(t.last());
        assert(t[t.len() - 1] == t.last());
        if has_v4(p) {
            let (i, j) = choose|i: int, j: int| 0 <= i < p.len() && 0 <= j < p[i].len() && #[trigger] p[i][j] is V4;
            assert(t[i] == p[i]);
            assert(t[i][j] is V4);
        }
        if has_v6(p) {
            let (i, j) = choose|i: int, j: int| 0 <= i < p.len() && 0 <= j < p[i].len() && #[trigger] p[i][j] is V6;
            assert(t[i] == p[i]);
            assert(t[i][j] is V6);
        }
        if exists|j: int| 0 <= j < t.last().len() && #[trigger] t.last()[j] is V4 {
            let j = choose|j: int| 0 <= j < t.last().len() && #[trigger] t.last()[j] is V4;
            assert(t[t.len() - 1][j] is V4);
        }
        if exists|j: int| 0 <= j < t.last().len() && #[trigger] t.last()[j] is V6 {
            let j = choose|j: int| 0 <= j < t.last().len() && #[trigger] t.last()[j] is V6;
            assert(t[t.len() - 1][j] is V6);
        }
        if has_v4(t) {
            let (i, j) = choose|i: int, j: int| 0 <= i < t.len() && 0 <= j < t[i].len() && #[trigger] t[i][j] is V4;
            if i < p.len() {
                assert(p[i] == t[i]);
                assert(p[i][j] is V4);
            } else {
                assert(t.last()[j] is V4);
            }
        }
        if has_v6(t) {
            let (i, j) = choose|i: int, j: int| 0 <= i < t.len() && 0 <= j < t[i].len() && #[trigger] t[i][j] is V6;
            if i < p.len() {
                assert(p[i] == t[i]);
                assert(p[i][j] is V6);
            } else {
                assert(t.last()[j] is V6);
            }
        }
    }
}

/// For every query but SOA: the answer is NXDOMAIN exactly when the name
/// stands for nothing; it is empty exactly when the name stands for
/// something but no address of the family asked (for A, IPv4; for AAAA,
/// IPv6; for other types, none at all).
pub proof fn law_nxdomain_only_without_targets(
    ctx: SvcContextView,
    query: Seq<Seq<char>>,
    origin: Seq<Seq<char>>,
    origin_labels: nat,
    query_type: QueryType,
    answer: SvcAnswer,
)
    requires
        query_type != QueryType::SOA,
        svc_answer_ok(ctx, query, origin, origin_labels, query_type, answer),
    ensures
        ({
            let t = svc_targets(ctx, within_zone(query, origin_labels));
            &&& answer is NxDomain <==> t.len() == 0
            &&& answer is Empty <==> (t.len() > 0 && match query_type {
                QueryType::A => !has_v4(t),
                QueryType::AAAA => !has_v6(t),
                _ => true,
            })
        }),
{
    let t = svc_targets(ctx, within_zone(query, origin_labels));
    lemma_family_targets(t);
    if t.len() == 0 {
        assert(!has_v4(t));
        assert(!has_v6(t));
    }
}

/// A service stored with cluster IPs none of which is IPv4 answers an A
/// query for its name with an empty answer, not NXDOMAIN: the name exists.
pub proof fn law_v6_only_service_answers_a_empty(
    ctx: SvcContextView,
    namespace: Seq<char>,
    name: Seq<char>,
    addresses: Seq<IpAddress>,
    origin: Seq<Seq<char>>,
    answer: SvcAnswer,
)
    requires
        distinct_keys(ctx.0),
    ensures
        ({
            let stored = (
                upserted(
                    ctx.0,
                    svc_key(namespace, name),
                    ServiceEntryView::ClusterIpService { addresses },
                ),
                ctx.1,
            );
            let query = seq![name, namespace, svc_label()] + origin;
            (forall|i: int| 0 <= i < addresses.len() ==> !(#[trigger] addresses[i] is V4))
                && svc_answer_ok(stored, query, origin, origin.len(), QueryType::A, answer)
                ==> answer is Empty
        }),
{
    let stored = (
        upserted(ctx.0, svc_key(namespace, name), ServiceEntryView::ClusterIpService { addresses }),
        ctx.1,
    );
    let query = seq![name, namespace, svc_label()] + origin;
    law_cluster_ip_service_answers(ctx, namespace, name, addresses, origin, answer);
    let t = svc_targets(stored, within_zone(query, origin.len()));
    if (forall|i: int| 0 <= i < addresses.len() ==> !(#[trigger] addresses[i] is V4))
        && svc_answer_ok(stored, query, origin, origin.len(), QueryType::A, answer) {
        law_nxdomain_only_without_targets(stored, query, origin, origin.len(), QueryType::A, answer);
        assert(!has_v4(t)) by {
            if has_v4(t) {
                let (i, j) = choose|i: int, j: int| 0 <= i < t.len() && 0 <= j < t[i].len() && #[trigger] t[i][j] is V4;
                assert(t[i] == addresses);
                assert(addresses[j] is V4);
            }
        }
    }
}

/// The IPv4 (IPv6) addresses of several address lists are those of each
/// in turn; one address is kept exactly when it is of that family.
pub proof fn law_family_addresses(a: Seq<IpAddress>, b: Seq<IpAddress>, x: u32, y: u128)
    ensures
        v4_in(a + b) == v4_in(a) + v4_in(b),
        v6_in(a + b) == v6_in(a) + v6_in(b),
        v4_in(seq![IpAddress::V4(x)]) == seq![x],
        v4_in(seq![IpAddress::V6(y)]).len() == 0,
        v6_in(seq![IpAddress::V6(y)]) == seq![y],
        v6_in(seq![IpAddress::V4(x)]).len() == 0,
    decreases b.len(),
{
    if b.len() == 0 {
        assert(a + b =~= a);
        assert(v4_in(a) + v4_in(b) =~= v4_in(a));
        assert(v6_in(a) + v6_in(b) =~= v6_in(a));
    } else {
        law_family_addresses(a, b.drop_last(), x, y);
        assert((a + b).drop_last() =~= a + b.drop_last());
        assert((a + b).last() == b.last());
        match b.last() {
            IpAddress::V4(z) => {
                assert(v4_in(a) + v4_in(b.drop_last()).push(z) =~= (v4_in(a) + v4_in(b.drop_last())).push(z));
            },
            IpAddress::V6(z) => {
                assert(v6_in(a) + v6_in(b.drop_last()).push(z) =~= (v6_in(a) + v6_in(b.drop_last())).push(z));
            },
        }
    }
    let s4 = seq![IpAddress::V4(x)];
    let s6 = seq![IpAddress::V6(y)];
    assert(s4.drop_last() =~= Seq::<IpAddress>::empty());
    assert(s6.drop_last() =~= Seq::<IpAddress>::empty());
    assert(s4.last() == IpAddress::V4(x));
    assert(s6.last() == IpAddress::V6(y));
    assert(v4_in(s4.drop_last()) =~= Seq::<u32>::empty());
    assert(v6_in(s4.drop_last()) =~= Seq::<u128>::empty());
    assert(v4_in(s6.drop_last()) =~= Seq::<u32>::empty());
    assert(v6_in(s6.drop_last()) =~= Seq::<u128>::empty());
    assert(Seq::<u32>::empty().push(x) =~= seq![x]);
    assert(Seq::<u128>::empty().push(y) =~= seq![y]);
}

/// The addresses of a family over several targets are those of each
/// target in turn.
pub proof fn law_family_targets(t1: Seq<Seq<IpAddress>>, t2: Seq<Seq<IpAddress>>, a: Seq<IpAddress>)
    ensures
        v4_targets(t1 + t2) == v4_targets(t1) + v4_targets(t2),
        v6_targets(t1 + t2) == v6_targets(t1) + v6_targets(t2),
        v4_targets(seq![a]) == v4_in(a),
        v6_targets(seq![a]) == v6_in(a),
    decreases t2.len(),
{
    if t2.len() == 0 {
        assert(t1 + t2 =~= t1);
        assert(v4_targets(t1) + v4_targets(t2) =~= v4_targets(t1));
        assert(v6_targets(t1) + v6_targets(t2) =~= v6_targets(t1));
    } else {
        law_family_targets(t1, t2.drop_last(), a);
        assert((t1 + t2).drop_last() =~= t1 + t2.drop_last());
        assert((t1 + t2).last() == t2.last());
        assert(v4_targets(t1) + v4_targets(t2.drop_last()) + v4_in(t2.last()) =~= v4_targets(t1) + (
        v4_targets(t2.drop_last()) + v4_in(t2.last())));
        assert(v6_targets(t1) + v6_targets(t2.drop_last()) + v6_in(t2.last()) =~= v6_targets(t1) + (
        v6_targets(t2.drop_last()) + v6_in(t2.last())));
    }
    let s = seq![a];
    assert(s.drop_last() =~= Seq::<Seq<IpAddress>>::empty());
    assert(s.last() == a);
    assert(v4_targets(s.drop_last()) =~= Seq::<u32>::empty());
    assert(v6_targets(s.drop_last()) =~= Seq::<u128>::empty());
    assert(Seq::<u32>::empty() + v4_in(a) =~= v4_in(a));
    assert(Seq::<u128>::empty() + v6_in(a) =~= v6_in(a));
}

} // verus!
