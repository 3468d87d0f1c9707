//! The services and endpoint slices known to the server.
use crate::keyed::{
    applied, distinct_keys, entries_view, get_key, last_op, law_history_live, law_removed,
    law_upsert_keeps_others, law_value_after_upsert, remove_key, removed, upsert, upserted,
    value_of,
};
use crate::text::{has_prefix, lowercase, starts_with, str_equal, to_lowercase};
use vstd::prelude::*;

verus! {

/// An IP address: IPv4 as its 32 bits, IPv6 as its 128 bits.
#[derive(Clone, Copy, Debug, PartialEq, Eq, Structural)]
pub enum IpAddress {
    V4(u32),
    V6(u128),
}

pub enum ServiceEntry {
    ClusterIpService { addresses: Vec<IpAddress> },
    HeadlessService,
}

pub enum ServiceEntryView {
    ClusterIpService { addresses: Seq<IpAddress> },
    HeadlessService,
}

impl View for ServiceEntry {
    type V = ServiceEntryView;

    open spec fn view(&self) -> ServiceEntryView {
        match self {
            ServiceEntry::ClusterIpService { addresses } => ServiceEntryView::ClusterIpService {
                addresses: addresses@,
            },
            ServiceEntry::HeadlessService => ServiceEntryView::HeadlessService,
        }
    }
}

/// The addresses as parsed, every one of them an address.
pub open spec fn all_parsed(a: Seq<Option<IpAddress>>) -> bool {
    forall|i: int| 0 <= i < a.len() ==> (#[trigger] a[i]) is Some
}

pub open spec fn parsed_addresses(a: Seq<Option<IpAddress>>) -> Seq<IpAddress> {
    a.map_values(|o: Option<IpAddress>| o->0)
}

/// The addresses of `a`, every one of which is an address.
fn unwrap_addresses(a: &Vec<Option<IpAddress>>) -> (r: Vec<IpAddress>)
    requires
        all_parsed(a@),
    ensures
        r@ == parsed_addresses(a@),
{
    let mut r: Vec<IpAddress> = Vec::new();
    let mut i: usize = 0;
    while i < a.len()
        invariant
            i <= a@.len(),
            all_parsed(a@),
            r@ == parsed_addresses(a@).take(i as int),
        decreases a@.len() - i,
    {
        let x = match a[i] {
            Some(x) => x,
            None => {
                proof {
                    assert(a@[i as int] is Some);
                }
                IpAddress::V4(0)
            },
        };
        r.push(x);
        proof {
            assert(r@ =~= parsed_addresses(a@).take(i + 1));
        }
        i = i + 1;
    }
    proof {
        assert(r@ =~= parsed_addresses(a@));
    }
    r
}

impl ServiceEntry {
    pub fn cluster_ip(addresses: Vec<IpAddress>) -> (s: Self)
        ensures
            s@ == (ServiceEntryView::ClusterIpService { addresses: addresses@ }),
    {
        ServiceEntry::ClusterIpService { addresses }
    }

    pub fn headless() -> (s: Self)
        ensures
            s@ == ServiceEntryView::HeadlessService,
    {
        ServiceEntry::HeadlessService
    }

    /// The entry of a service with cluster IP `cluster_ip` and cluster IPs
    /// `cluster_ips` (each as parsed, `None` where the text is no address):
    /// headless when it has no cluster IP or the cluster IP is `None`, else
    /// the cluster IPs.
    pub fn try_from_service(
        cluster_ip: Option<&str>,
        cluster_ips: &Option<Vec<Option<IpAddress>>>,
    ) -> (r: Result<Self, ContextError>)
        requires
            cluster_ips_required(cluster_ip) ==> (cluster_ips matches Some(ips) ==> all_parsed(ips@)),
        ensures
            r matches Ok(e) && e@ == (if !cluster_ips_required(cluster_ip) {
                ServiceEntryView::HeadlessService
            } else {
                ServiceEntryView::ClusterIpService {
                    addresses: match cluster_ips {
                        Some(ips) => parsed_addresses(ips@),
                        None => Seq::empty(),
                    },
                }
            }),
    {
        let ip = match cluster_ip {
            None => {
                return Ok(ServiceEntry::HeadlessService);
            },
            Some(ip) => ip,
        };
        if str_equal(ip, "None") {
            return Ok(ServiceEntry::HeadlessService);
        }
        let addresses = match cluster_ips {
            Some(ips) => unwrap_addresses(ips),
            None => Vec::new(),
        };
        Ok(ServiceEntry::ClusterIpService { addresses })
    }
}

/// A service has cluster IPs to serve: it has a cluster IP, and that is not
/// `None` (which marks a headless service).
pub open spec fn cluster_ips_required(cluster_ip: Option<&str>) -> bool {
    match cluster_ip {
        Some(ip) => ip@ != "None"@,
        None => false,
    }
}

#[derive(Debug)]
pub enum ContextError {
    /// The endpoint slice's address type is neither `IPv4` nor `IPv6`.
    InvalidEndpointSliceAddressType(String),
}

pub struct EndpointSlicePortKey {
    pub name: String,
    pub protocol: String,
}

pub enum EndpointSliceEndpoint {
    Kubernetes { name: String, addresses: Vec<IpAddress> },
    External { addresses: Vec<IpAddress> },
}

pub enum EndpointView {
    Kubernetes { name: Seq<char>, addresses: Seq<IpAddress> },
    External { addresses: Seq<IpAddress> },
}

impl View for EndpointSliceEndpoint {
    type V = EndpointView;

    open spec fn view(&self) -> EndpointView {
        match self {
            EndpointSliceEndpoint::Kubernetes { name, addresses } => EndpointView::Kubernetes {
                name: name@,
                addresses: addresses@,
            },
            EndpointSliceEndpoint::External { addresses } => EndpointView::External {
                addresses: addresses@,
            },
        }
    }
}

pub open spec fn endpoint_addresses(e: EndpointView) -> Seq<IpAddress> {
    match e {
        EndpointView::Kubernetes { addresses, .. } => addresses,
        EndpointView::External { addresses } => addresses,
    }
}

impl EndpointSliceEndpoint {
    pub fn addresses(&self) -> (r: &Vec<IpAddress>)
        ensures
            r@ == endpoint_addresses(self@),
    {
        match self {
            EndpointSliceEndpoint::Kubernetes { addresses, .. } => addresses,
            EndpointSliceEndpoint::External { addresses } => addresses,
        }
    }
}

/// The key of a port: `_` and the lowercase name, `_` and the lowercase
/// protocol.
pub type PortKey = (Seq<char>, Seq<char>);

pub struct EndpointSliceEntry {
    pub endpoints: Vec<EndpointSliceEndpoint>,
    pub ports: Vec<(EndpointSlicePortKey, i32)>,
}

/// The ports as a map: a later entry for a key replaces an earlier one.
pub open spec fn ports_map(ports: Seq<(EndpointSlicePortKey, i32)>) -> Map<PortKey, i32>
    decreases ports.len(),
{
    if ports.len() == 0 {
        Map::empty()
    } else {
        ports_map(ports.drop_last()).insert(
            (ports.last().0.name@, ports.last().0.protocol@),
            ports.last().1,
        )
    }
}

impl View for EndpointSliceEntry {
    type V = (Seq<EndpointView>, Map<PortKey, i32>);

    open spec fn view(&self) -> (Seq<EndpointView>, Map<PortKey, i32>) {
        (self.endpoints@.map_values(|e: EndpointSliceEndpoint| e@), ports_map(self.ports@))
    }
}

/// The conditions of an endpoint, as the endpoint slice gives them.
pub struct EndpointConditionsData {
    pub ready: Option<bool>,
    pub terminating: Option<bool>,
}

/// An endpoint of an endpoint slice: its conditions, the name of the object
/// it targets (if it targets one with a name), and its addresses as parsed
/// (`None` where the text is no address).
pub struct EndpointData {
    pub conditions: Option<EndpointConditionsData>,
    pub target_name: Option<String>,
    pub addresses: Vec<Option<IpAddress>>,
}

pub struct EndpointPortData {
    pub name: Option<String>,
    pub protocol: Option<String>,
    pub port: Option<i32>,
}

/// What the server reads of an endpoint slice.
pub struct EndpointSliceData {
    pub address_type: String,
    pub endpoints: Option<Vec<EndpointData>>,
    pub ports: Option<Vec<EndpointPortData>>,
}

/// An endpoint is served unless its conditions say it is not ready (unset
/// means ready) or terminating (unset means not).
pub open spec fn endpoint_served(ep: EndpointData) -> bool {
    match ep.conditions {
        Some(c) => (match c.ready {
            Some(r) => r,
            None => true,
        }) && !(match c.terminating {
            Some(t) => t,
            None => false,
        }),
        None => true,
    }
}

pub open spec fn endpoint_entry(ep: EndpointData) -> EndpointView {
    match ep.target_name {
        Some(name) => EndpointView::Kubernetes {
            name: name@,
            addresses: parsed_addresses(ep.addresses@),
        },
        None => EndpointView::External { addresses: parsed_addresses(ep.addresses@) },
    }
}

/// The entries of the served endpoints, in order.
pub open spec fn served_endpoints(eps: Seq<EndpointData>) -> Seq<EndpointView>
    decreases eps.len(),
{
    if eps.len() == 0 {
        Seq::empty()
    } else {
        let prev = served_endpoints(eps.drop_last());
        if endpoint_served(eps.last()) {
            prev.push(endpoint_entry(eps.last()))
        } else {
            prev
        }
    }
}

/// Every served endpoint's addresses all parse.
pub open spec fn served_addresses_parse(eps: Seq<EndpointData>) -> bool {
    forall|i: int|
        0 <= i < eps.len() && endpoint_served(#[trigger] eps[i]) ==> all_parsed(eps[i].addresses@)
}

pub open spec fn port_key(p: EndpointPortData) -> PortKey {
    (
        seq!['_'] + lowercase(
            match p.name {
                Some(n) => n@,
                None => Seq::empty(),
            },
        ),
        seq!['_'] + lowercase(
            match p.protocol {
                Some(n) => n@,
                None => "TCP"@,
            },
        ),
    )
}

/// The ports with a number, by key; a later port replaces an earlier one
/// with the same key.
pub open spec fn port_entries(ps: Seq<EndpointPortData>) -> Map<PortKey, i32>
    decreases ps.len(),
{
    if ps.len() == 0 {
        Map::empty()
    } else {
        let prev = port_entries(ps.drop_last());
        match ps.last().port {
            Some(n) => prev.insert(port_key(ps.last()), n),
            None => prev,
        }
    }
}

pub open spec fn is_address_type(t: Seq<char>) -> bool {
    t == "IPv4"@ || t == "IPv6"@
}

pub open spec fn port_keys_distinct(ports: Seq<(EndpointSlicePortKey, i32)>) -> bool {
    forall|i: int, j: int|
        0 <= i < ports.len() && 0 <= j < ports.len() && i != j ==> (ports[i].0.name@,
        ports[i].0.protocol@) != (ports[j].0.name@, ports[j].0.protocol@)
}

proof fn lemma_ports_map_has(ports: Seq<(EndpointSlicePortKey, i32)>, i: int)
    requires
        0 <= i < ports.len(),
        port_keys_distinct(ports),
    ensures
        ports_map(ports).contains_key((ports[i].0.name@, ports[i].0.protocol@)),
    decreases ports.len(),
{
    if i < ports.len() - 1 {
        assert(ports.drop_last()[i] == ports[i]);
        lemma_ports_map_has(ports.drop_last(), i);
    }
}

proof fn lemma_ports_map_keys(ports: Seq<(EndpointSlicePortKey, i32)>, k: PortKey)
    requires
        ports_map(ports).contains_key(k),
    ensures
        exists|i: int| 0 <= i < ports.len() && (#[trigger] ports[i].0.name@, ports[i].0.protocol@) == k,
    decreases ports.len(),
{
    if ports.len() > 0 && (ports.last().0.name@, ports.last().0.protocol@) != k {
        lemma_ports_map_keys(ports.drop_last(), k);
        let i = choose|i: int|
            0 <= i < ports.drop_last().len() && (#[trigger] ports.drop_last()[i].0.name@,
            ports.drop_last()[i].0.protocol@) == k;
        assert(ports[i] == ports.drop_last()[i]);
    }
}

proof fn lemma_ports_update(
    ports: Seq<(EndpointSlicePortKey, i32)>,
    j: int,
    key: EndpointSlicePortKey,
    n: i32,
)
    requires
        0 <= j < ports.len(),
        port_keys_distinct(ports),
        (key.name@, key.protocol@) == (ports[j].0.name@, ports[j].0.protocol@),
    ensures
        ports_map(ports.update(j, (key, n))) == ports_map(ports).insert(
            (ports[j].0.name@, ports[j].0.protocol@),
            n,
        ),
        port_keys_distinct(ports.update(j, (key, n))),
    decreases ports.len(),
{
    let u = ports.update(j, (key, n));
    let k = (ports[j].0.name@, ports[j].0.protocol@);
    if j == ports.len() - 1 {
        assert(u.drop_last() =~= ports.drop_last());
        assert(ports_map(u) =~= ports_map(ports).insert(k, n));
    } else {
        let d = ports.drop_last();
        assert(u.drop_last() =~= d.update(j, (key, n)));
        assert(port_keys_distinct(d)) by {
            assert forall|a: int, b: int|
                0 <= a < d.len() && 0 <= b < d.len() && a != b implies (d[a].0.name@,
            d[a].0.protocol@) != (d[b].0.name@, d[b].0.protocol@) by {
                assert(d[a] == ports[a] && d[b] == ports[b]);
            }
        }
        lemma_ports_update(d, j, key, n);
        assert(ports.last() == ports[ports.len() - 1]);
        assert(u.last() == ports.last());
        assert(ports_map(u) =~= ports_map(ports).insert(k, n));
    }
    assert(port_keys_distinct(u)) by {
        assert forall|a: int, b: int|
            0 <= a < u.len() && 0 <= b < u.len() && a != b implies (u[a].0.name@, u[a].0.protocol@)
            != (u[b].0.name@, u[b].0.protocol@) by {
            if a != j {
                assert(u[a].0 == ports[a].0);
            }
            if b != j {
                assert(u[b].0 == ports[b].0);
            }
        }
    }
}

fn endpoint_entry_of(ep: &EndpointData) -> (r: EndpointSliceEndpoint)
    requires
        all_parsed(ep.addresses@),
    ensures
        r@ == endpoint_entry(*ep),
{
    let addresses = unwrap_addresses(&ep.addresses);
    match &ep.target_name {
        Some(name) => EndpointSliceEndpoint::Kubernetes { name: name.clone(), addresses },
        None => EndpointSliceEndpoint::External { addresses },
    }
}

fn served(ep: &EndpointData) -> (b: bool)
    ensures
        b == endpoint_served(*ep),
{
    match &ep.conditions {
        Some(c) => {
            let ready = match c.ready {
                Some(r) => r,
                None => true,
            };
            let terminating = match c.terminating {
                Some(t) => t,
                None => false,
            };
            ready && !terminating
        },
        None => true,
    }
}

fn served_entries(eps: &Vec<EndpointData>) -> (r: Vec<EndpointSliceEndpoint>)
    requires
        served_addresses_parse(eps@),
    ensures
        r@.map_values(|e: EndpointSliceEndpoint| e@) == served_endpoints(eps@),
{
    let mut r: Vec<EndpointSliceEndpoint> = Vec::new();
    let mut i: usize = 0;
    while i < eps.len()
        invariant
            i <= eps@.len(),
            served_addresses_parse(eps@),
            r@.map_values(|e: EndpointSliceEndpoint| e@) == served_endpoints(eps@.take(i as int)),
        decreases eps@.len() - i,
    {
        let ghost prev = r@.map_values(|e: EndpointSliceEndpoint| e@);
        proof {
            let t = eps@.take(i + 1);
            assert(t.drop_last() =~= eps@.take(i as int));
            assert(t.last() == eps@[i as int]);
        }
        if served(&eps[i]) {
            proof {
                assert(endpoint_served(eps@[i as int]));
            }
            let e = endpoint_entry_of(&eps[i]);
            r.push(e);
            proof {
                assert(r@.map_values(|e: EndpointSliceEndpoint| e@) =~= prev.push(
                    endpoint_entry(eps@[i as int]),
                ));
            }
        }
        i = i + 1;
    }
    proof {
        assert(eps@.take(i as int) =~= eps@);
    }
    r
}

fn port_key_of(p: &EndpointPortData) -> (k: EndpointSlicePortKey)
    ensures
        (k.name@, k.protocol@) == port_key(*p),
{
    let name_text: &str = match &p.name {
        Some(n) => n.as_str(),
        None => "",
    };
    let protocol_text: &str = match &p.protocol {
        Some(n) => n.as_str(),
        None => "TCP",
    };
    let mut name = "_".to_owned();
    let lower_name = to_lowercase(name_text);
    name.append(lower_name.as_str());
    let mut protocol = "_".to_owned();
    let lower_protocol = to_lowercase(protocol_text);
    protocol.append(lower_protocol.as_str());
    proof {
        reveal_strlit("_");
        reveal_strlit("");
        assert(""@ =~= Seq::<char>::empty());
    }
    EndpointSlicePortKey { name, protocol }
}

fn find_port(r: &Vec<(EndpointSlicePortKey, i32)>, key: &EndpointSlicePortKey) -> (f: Option<usize>)
    ensures
        match f {
            Some(j) => j < r@.len() && (r@[j as int].0.name@, r@[j as int].0.protocol@) == (key.name@, key.protocol@),
            None => forall|x: int| 0 <= x < r@.len() ==> (#[trigger] r@[x].0.name@, r@[x].0.protocol@) != (
                key.name@,
                key.protocol@,
            ),
        },
{
    let mut j: usize = 0;
    while j < r.len()
        invariant
            j <= r@.len(),
            forall|x: int| 0 <= x < j ==> (#[trigger] r@[x].0.name@, r@[x].0.protocol@) != (
                key.name@,
                key.protocol@,
            ),
        decreases r@.len() - j,
    {
        if r[j].0.name == key.name && r[j].0.protocol == key.protocol {
            return Some(j);
        }
        j = j + 1;
    }
    None
}

fn port_entries_of(ps: &Vec<EndpointPortData>) -> (r: Vec<(EndpointSlicePortKey, i32)>)
    ensures
        ports_map(r@) == port_entries(ps@),
        port_keys_distinct(r@),
{
    let mut r: Vec<(EndpointSlicePortKey, i32)> = Vec::new();
    let mut i: usize = 0;
    proof {
        assert(ports_map(r@) =~= port_entries(ps@.take(0)));
    }
    while i < ps.len()
        invariant
            i <= ps@.len(),
            ports_map(r@) == port_entries(ps@.take(i as int)),
            port_keys_distinct(r@),
        decreases ps@.len() - i,
    {
        proof {
            let t = ps@.take(i + 1);
            assert(t.drop_last() =~= ps@.take(i as int));
            assert(t.last() == ps@[i as int]);
        }
        match ps[i].port {
            Some(n) => {
                let key = port_key_of(&ps[i]);
                let found_at = find_port(&r, &key);
                if let Some(j) = found_at {
                    proof {
                        lemma_ports_update(r@, j as int, key, n);
                    }
                    r.set(j, (key, n));
                } else {
                    let ghost old_r = r@;
                    r.push((key, n));
                    proof {
                        assert(r@.drop_last() =~= old_r);
                        assert forall|a: int, b: int|
                            0 <= a < r@.len() && 0 <= b < r@.len() && a != b implies (
                        r@[a].0.name@, r@[a].0.protocol@) != (r@[b].0.name@, r@[b].0.protocol@) by {
                            if a < old_r.len() && b < old_r.len() {
                                assert(r@[a] == old_r[a] && r@[b] == old_r[b]);
                            } else if a < old_r.len() {
                                assert(r@[a] == old_r[a]);
                            } else {
                                assert(r@[b] == old_r[b]);
                            }
                        }
                    }
                }
            },
            None => {},
        }
        i = i + 1;
    }
    proof {
        assert(ps@.take(i as int) =~= ps@);
    }
    r
}

/// Every address of a served endpoint parses, where the slice's address
/// type is one that is read at all.
pub open spec fn slice_addresses_ok(eps: EndpointSliceData) -> bool {
    is_address_type(eps.address_type@) ==> (eps.endpoints matches Some(es) ==> served_addresses_parse(
        es@,
    ))
}

fn all_addresses_parsed(a: &Vec<Option<IpAddress>>) -> (b: bool)
    ensures
        b == all_parsed(a@),
{
    let mut i: usize = 0;
    while i < a.len()
        invariant
            i <= a@.len(),
            forall|j: int| 0 <= j < i ==> (#[trigger] a@[j]) is Some,
        decreases a@.len() - i,
    {
        if a[i].is_none() {
            return false;
        }
        i = i + 1;
    }
    true
}

/// Whether the endpoint slice meets what `EndpointSliceEntry::try_from_data`
/// requires of its addresses.
pub fn slice_addresses_parse(eps: &EndpointSliceData) -> (b: bool)
    ensures
        b == slice_addresses_ok(*eps),
{
    if !str_equal(eps.address_type.as_str(), "IPv4") && !str_equal(eps.address_type.as_str(), "IPv6") {
        return true;
    }
    match &eps.endpoints {
        None => true,
        Some(es) => {
            let mut i: usize = 0;
            while i < es.len()
                invariant
                    i <= es@.len(),
                    is_address_type(eps.address_type@),
                    eps.endpoints == Some(*es),
                    forall|j: int|
                        0 <= j < i && endpoint_served(#[trigger] es@[j]) ==> all_parsed(
                            es@[j].addresses@,
                        ),
                decreases es@.len() - i,
            {
                if served(&es[i]) && !all_addresses_parsed(&es[i].addresses) {
                    proof {
                        assert(endpoint_served(es@[i as int]) && !all_parsed(es@[i as int].addresses@));
                    }
                    return false;
                }
                i = i + 1;
            }
            true
        },
    }
}

/// Whether the fields of a service meet what
/// `ServiceEntry::try_from_service` requires of them.
pub fn cluster_ips_parse(cluster_ip: Option<&str>, cluster_ips: &Option<Vec<Option<IpAddress>>>) -> (b: bool)
    ensures
        b == (cluster_ips_required(cluster_ip) ==> (cluster_ips matches Some(ips) ==> all_parsed(ips@))),
{
    let ip = match cluster_ip {
        None => {
            return true;
        },
        Some(ip) => ip,
    };
    if str_equal(ip, "None") {
        return true;
    }
    match cluster_ips {
        None => true,
        Some(ips) => all_addresses_parsed(ips),
    }
}

impl EndpointSliceEntry {
    /// The entry of an endpoint slice: its served endpoints and its numbered
    /// ports; an error for an address type other than `IPv4` and `IPv6`.
    pub fn try_from_data(eps: &EndpointSliceData) -> (r: Result<Self, ContextError>)
        requires
            slice_addresses_ok(*eps),
        ensures
            is_address_type(eps.address_type@) ==> (r matches Ok(e) && e@ == (
                served_endpoints(
                    match eps.endpoints {
                        Some(es) => es@,
                        None => Seq::empty(),
                    },
                ),
                port_entries(
                    match eps.ports {
                        Some(ps) => ps@,
                        None => Seq::empty(),
                    },
                ),
            )),
            !is_address_type(eps.address_type@) ==> (r matches Err(
                ContextError::InvalidEndpointSliceAddressType(t),
            ) && t@ == eps.address_type@),
    {
        if !str_equal(eps.address_type.as_str(), "IPv4") && !str_equal(
            eps.address_type.as_str(),
            "IPv6",
        ) {
            return Err(ContextError::InvalidEndpointSliceAddressType(eps.address_type.clone()));
        }
        let endpoints = match &eps.endpoints {
            Some(es) => served_entries(es),
            None => {
                let v: Vec<EndpointSliceEndpoint> = Vec::new();
                proof {
                    assert(v@.map_values(|e: EndpointSliceEndpoint| e@) =~= served_endpoints(
                        Seq::empty(),
                    ));
                }
                v
            },
        };
        let ports = match &eps.ports {
            Some(ps) => port_entries_of(ps),
            None => {
                let v: Vec<(EndpointSlicePortKey, i32)> = Vec::new();
                proof {
                    assert(ports_map(v@) =~= port_entries(Seq::empty()));
                }
                v
            },
        };
        Ok(EndpointSliceEntry { endpoints, ports })
    }
}

/// `first`, a slash, and `second`.
pub open spec fn slash_join(first: Seq<char>, second: Seq<char>) -> Seq<char> {
    first + seq!['/'] + second
}

/// The key of a service: `namespace/name`.
pub open spec fn svc_key(namespace: Seq<char>, name: Seq<char>) -> Seq<char> {
    slash_join(namespace, name)
}

/// The key of an endpoint slice: `namespace/service/name`.
pub open spec fn eps_key(namespace: Seq<char>, svc_name: Seq<char>, eps_name: Seq<char>) -> Seq<char> {
    slash_join(slash_join(namespace, svc_name), eps_name)
}

/// What every key of a service's endpoint slices starts with:
/// `namespace/service/`.
pub open spec fn eps_prefix(namespace: Seq<char>, svc_name: Seq<char>) -> Seq<char> {
    slash_join(namespace, svc_name) + seq!['/']
}

/// The values whose keys start with `p`, in order.
pub open spec fn values_with_prefix<V>(v: Seq<(Seq<char>, V)>, p: Seq<char>) -> Seq<V>
    decreases v.len(),
{
    if v.len() == 0 {
        Seq::empty()
    } else {
        let prev = values_with_prefix(v.drop_last(), p);
        if starts_with(v.last().0, p) {
            prev.push(v.last().1)
        } else {
            prev
        }
    }
}

proof fn lemma_value_listed<V>(w: Seq<(Seq<char>, V)>, p: Seq<char>, i: int)
    requires
        0 <= i < w.len(),
        starts_with(w[i].0, p),
    ensures
        values_with_prefix(w, p).contains(w[i].1),
    decreases w.len(),
{
    let prev = values_with_prefix(w.drop_last(), p);
    if i == w.len() - 1 {
        assert(w.last() == w[i]);
        assert(values_with_prefix(w, p)[prev.len() as int] == w[i].1);
    } else {
        assert(w.drop_last()[i] == w[i]);
        lemma_value_listed(w.drop_last(), p, i);
        let j = choose|j: int| 0 <= j < prev.len() && prev[j] == w[i].1;
        assert(values_with_prefix(w, p)[j] == w[i].1);
    }
}

/// A read after a write: an endpoint slice stored for a service is among
/// the slices found for that service.
pub proof fn law_stored_slice_is_found<V>(
    v: Seq<(Seq<char>, V)>,
    namespace: Seq<char>,
    svc_name: Seq<char>,
    eps_name: Seq<char>,
    entry: V,
)
    ensures
        values_with_prefix(
            upserted(v, eps_key(namespace, svc_name, eps_name), entry),
            eps_prefix(namespace, svc_name),
        ).contains(entry),
{
    let k = eps_key(namespace, svc_name, eps_name);
    let p = eps_prefix(namespace, svc_name);
    assert(k.take(p.len() as int) =~= p);
    let u = upserted(v, k, entry);
    let i = match crate::keyed::key_index(v, k) {
        Some(i) => i,
        None => v.len() as int,
    };
    assert(u[i] == (k, entry));
    lemma_value_listed(u, p, i);
}

/// `s` holds no `/`.
pub open spec fn no_slash(s: Seq<char>) -> bool {
    forall|i: int| 0 <= i < s.len() ==> s[i] != '/'
}

/// `k` is the key of an endpoint slice whose namespace and service name
/// hold no `/`.
pub open spec fn is_slice_key(k: Seq<char>) -> bool {
    exists|a: Seq<char>, b: Seq<char>, c: Seq<char>|
        no_slash(a) && no_slash(b) && k == #[trigger] eps_key(a, b, c)
}

/// `k` is the key of an endpoint slice of service `namespace/svc_name`.
pub open spec fn slice_of(k: Seq<char>, namespace: Seq<char>, svc_name: Seq<char>) -> bool {
    exists|c: Seq<char>| k == #[trigger] eps_key(namespace, svc_name, c)
}

/// The values of the slices of service `namespace/svc_name`, in order.
pub open spec fn slices_of_service<V>(
    v: Seq<(Seq<char>, V)>,
    namespace: Seq<char>,
    svc_name: Seq<char>,
) -> Seq<V>
    decreases v.len(),
{
    if v.len() == 0 {
        Seq::empty()
    } else {
        let prev = slices_of_service(v.drop_last(), namespace, svc_name);
        if slice_of(v.last().0, namespace, svc_name) {
            prev.push(v.last().1)
        } else {
            prev
        }
    }
}

proof fn lemma_slice_key_prefix(
    a: Seq<char>,
    b: Seq<char>,
    c: Seq<char>,
    ns: Seq<char>,
    svc: Seq<char>,
)
    requires
        no_slash(a),
        no_slash(b),
        no_slash(ns),
        no_slash(svc),
    ensures
        starts_with(eps_key(a, b, c), eps_prefix(ns, svc)) <==> (a == ns && b == svc),
{
    let k = eps_key(a, b, c);
    let p = eps_prefix(ns, svc);
    let o = a.len() as int;
    assert(k =~= a + seq!['/'] + b + seq!['/'] + c);
    assert(p =~= ns + seq!['/'] + svc + seq!['/']);
    assert(forall|j: int| 0 <= j < a.len() ==> k[j] == a[j]);
    assert(k[o] == '/');
    assert(forall|j: int| 0 <= j < b.len() ==> k[o + 1 + j] == b[j]);
    assert(k[o + 1 + b.len()] == '/');
    let n = ns.len() as int;
    assert(forall|j: int| 0 <= j < ns.len() ==> p[j] == ns[j]);
    assert(p[n] == '/');
    assert(forall|j: int| 0 <= j < svc.len() ==> p[n + 1 + j] == svc[j]);
    assert(p[n + 1 + svc.len()] == '/');
    assert(p.len() == n + svc.len() + 2);
    if starts_with(k, p) {
        assert(forall|j: int| 0 <= j < p.len() ==> k[j] == #[trigger] k.take(p.len() as int)[j]);
        if a.len() < ns.len() {
            assert(k[o] == p[o]);
            assert(ns[o] != '/');
        } else if a.len() > ns.len() {
            assert(k[n] == p[n]);
            assert(a[n] != '/');
        }
        assert(a.len() == ns.len());
        assert forall|j: int| 0 <= j < a.len() implies a[j] == ns[j] by {
            assert(k[j] == p[j]);
        }
        assert(a =~= ns);
        if b.len() < svc.len() {
            assert(k[o + 1 + b.len()] == p[o + 1 + b.len()]);
            assert(svc[b.len() as int] != '/');
        } else if b.len() > svc.len() {
            assert(k[o + 1 + svc.len()] == p[o + 1 + svc.len()]);
            assert(b[svc.len() as int] != '/');
        }
        assert(b.len() == svc.len());
        assert forall|j: int| 0 <= j < b.len() implies b[j] == svc[j] by {
            assert(k[o + 1 + j] == p[o + 1 + j]);
        }
        assert(b =~= svc);
    }
    if a == ns && b == svc {
        assert(k.take(p.len() as int) =~= p);
    }
}

/// With namespaces and service names free of `/`, the slices found for a
/// service by their key prefix are exactly the slices of that service.
pub proof fn law_slices_of_service<V>(v: Seq<(Seq<char>, V)>, namespace: Seq<char>, svc_name: Seq<char>)
    requires
        no_slash(namespace),
        no_slash(svc_name),
        forall|i: int| 0 <= i < v.len() ==> is_slice_key(#[trigger] v[i].0),
    ensures
        values_with_prefix(v, eps_prefix(namespace, svc_name)) == slices_of_service(
            v,
            namespace,
            svc_name,
        ),
    decreases v.len(),
{
    if v.len() > 0 {
        let prev = v.drop_last();
        assert forall|i: int| 0 <= i < prev.len() implies is_slice_key(#[trigger] prev[i].0) by {
            assert(prev[i] == v[i]);
        }
        law_slices_of_service(prev, namespace, svc_name);
        let k = v.last().0;
        assert(v[v.len() - 1] == v.last());
        assert(is_slice_key(k));
        let (a, b, c) = choose|a: Seq<char>, b: Seq<char>, c: Seq<char>|
            no_slash(a) && no_slash(b) && k == #[trigger] eps_key(a, b, c);
        lemma_slice_key_prefix(a, b, c, namespace, svc_name);
        if slice_of(k, namespace, svc_name) {
            let c2 = choose|c2: Seq<char>| k == #[trigger] eps_key(namespace, svc_name, c2);
            lemma_slice_key_prefix(namespace, svc_name, c2, namespace, svc_name);
        }
        if starts_with(k, eps_prefix(namespace, svc_name)) {
            assert(k == eps_key(namespace, svc_name, c));
        }
    }
}

proof fn lemma_last_op_key<V>(ops: Seq<(Seq<char>, Option<V>)>, k: Seq<char>)
    requires
        last_op(ops, k) is Some,
    ensures
        exists|i: int| 0 <= i < ops.len() && #[trigger] ops[i].0 == k,
    decreases ops.len(),
{
    if ops.last().0 == k {
        assert(ops[ops.len() - 1].0 == k);
    } else {
        lemma_last_op_key(ops.drop_last(), k);
        let i = choose|i: int| 0 <= i < ops.drop_last().len() && #[trigger] ops.drop_last()[i].0 == k;
        assert(ops[i] == ops.drop_last()[i]);
    }
}

/// Over any history of endpoint slices stored and removed, from none, with
/// namespaces and service names free of `/`: the slices found for a service
/// are its live slices (each stored once, with the entry last stored), in
/// store order, and no slice of another service.
pub proof fn law_slices_over_history<V>(
    ops: Seq<(Seq<char>, Option<V>)>,
    namespace: Seq<char>,
    svc_name: Seq<char>,
)
    requires
        no_slash(namespace),
        no_slash(svc_name),
        forall|i: int| 0 <= i < ops.len() ==> is_slice_key(#[trigger] ops[i].0),
    ensures
        ({
            let v = applied(Seq::empty(), ops);
            &&& values_with_prefix(v, eps_prefix(namespace, svc_name)) == slices_of_service(
                v,
                namespace,
                svc_name,
            )
            &&& distinct_keys(v)
            &&& forall|i: int|
                0 <= i < v.len() ==> last_op(ops, #[trigger] v[i].0) == Some(Some(v[i].1))
        }),
{
    let v = applied(Seq::<(Seq<char>, V)>::empty(), ops);
    law_history_live(ops);
    assert forall|i: int| 0 <= i < v.len() implies is_slice_key(#[trigger] v[i].0) by {
        assert(last_op(ops, v[i].0) == Some(Some(v[i].1)));
        lemma_last_op_key(ops, v[i].0);
        let j = choose|j: int| 0 <= j < ops.len() && #[trigger] ops[j].0 == v[i].0;
        assert(is_slice_key(ops[j].0));
    }
    law_slices_of_service(v, namespace, svc_name);
}

/// An endpoint is served unless its conditions say that it is not ready or
/// that it is terminating: an unset `ready` counts as ready, an unset
/// `terminating` as not terminating, and no conditions as both.
pub proof fn law_endpoint_served(ep: EndpointData)
    ensures
        endpoint_served(ep) <==> (ep.conditions is None || (ep.conditions->0.ready != Some(false)
            && ep.conditions->0.terminating != Some(true))),
{
}

/// The served endpoints of one endpoint: the endpoint itself, with its name
/// (if it targets a named object) and all its addresses, when it is
/// served; none otherwise.
pub proof fn law_served_one(ep: EndpointData)
    ensures
        served_endpoints(seq![ep]) == (if ep.conditions is None || (ep.conditions->0.ready != Some(
            false,
        ) && ep.conditions->0.terminating != Some(true)) {
            seq![
                match ep.target_name {
                    Some(n) => EndpointView::Kubernetes {
                        name: n@,
                        addresses: parsed_addresses(ep.addresses@),
                    },
                    None => EndpointView::External { addresses: parsed_addresses(ep.addresses@) },
                },
            ]
        } else {
            Seq::empty()
        }),
{
    let s = seq![ep];
    assert(s.drop_last() =~= Seq::<EndpointData>::empty());
    assert(s.last() == ep);
    assert(served_endpoints(s.drop_last()) =~= Seq::<EndpointView>::empty());
    assert(Seq::<EndpointView>::empty().push(endpoint_entry(ep)) =~= seq![endpoint_entry(ep)]);
}

/// The served endpoints of several endpoint lists are those of each list in
/// turn.
pub proof fn law_served_concat(e1: Seq<EndpointData>, e2: Seq<EndpointData>)
    ensures
        served_endpoints(e1 + e2) == served_endpoints(e1) + served_endpoints(e2),
    decreases e2.len(),
{
    if e2.len() == 0 {
        assert(e1 + e2 =~= e1);
        assert(served_endpoints(e1) + served_endpoints(e2) =~= served_endpoints(e1));
    } else {
        law_served_concat(e1, e2.drop_last());
        assert((e1 + e2).drop_last() =~= e1 + e2.drop_last());
        assert((e1 + e2).last() == e2.last());
        if endpoint_served(e2.last()) {
            assert(served_endpoints(e1) + served_endpoints(e2.drop_last()).push(endpoint_entry(e2.last()))
                =~= (served_endpoints(e1) + served_endpoints(e2.drop_last())).push(
                endpoint_entry(e2.last()),
            ));
        }
    }
}

fn slashed_key(first: &str, second: &str) -> (r: String)
    ensures
        r@ == slash_join(first@, second@),
{
    let mut r = first.to_owned();
    r.append("/");
    r.append(second);
    proof {
        reveal_strlit("/");
    }
    r
}

pub struct KubernetesSvcContext {
    svc_entries: Vec<(String, ServiceEntry)>,
    eps_entries: Vec<(String, EndpointSliceEntry)>,
}

impl View for KubernetesSvcContext {
    type V = (Seq<(Seq<char>, ServiceEntryView)>, Seq<(Seq<char>, (Seq<EndpointView>, Map<PortKey, i32>))>);

    closed spec fn view(&self) -> Self::V {
        (entries_view(self.svc_entries@), entries_view(self.eps_entries@))
    }
}

impl KubernetesSvcContext {
    #[verifier::type_invariant]
    closed spec fn inv(&self) -> bool {
        &&& distinct_keys(entries_view(self.svc_entries@))
        &&& distinct_keys(entries_view(self.eps_entries@))
    }

    /// No services and no endpoint slices.
    pub fn new() -> (c: Self)
        ensures
            c@.0 == Seq::<(Seq<char>, ServiceEntryView)>::empty(),
            c@.1 == Seq::<(Seq<char>, (Seq<EndpointView>, Map<PortKey, i32>))>::empty(),
    {
        let c = KubernetesSvcContext { svc_entries: Vec::new(), eps_entries: Vec::new() };
        proof {
            assert(c@.0 =~= Seq::<(Seq<char>, ServiceEntryView)>::empty());
            assert(c@.1 =~= Seq::<(Seq<char>, (Seq<EndpointView>, Map<PortKey, i32>))>::empty());
        }
        c
    }

    /// Stores the entry of service `namespace/name`, replacing the one
    /// stored before.
    pub fn add_svc(&mut self, namespace: &str, name: &str, entry: ServiceEntry)
        ensures
            final(self)@.0 == upserted(old(self)@.0, svc_key(namespace@, name@), entry@),
            final(self)@.1 == old(self)@.1,
            distinct_keys(final(self)@.0),
            value_of(final(self)@.0, svc_key(namespace@, name@)) == Some(entry@),
            forall|k: Seq<char>|
                k != svc_key(namespace@, name@) ==> #[trigger] value_of(final(self)@.0, k)
                    == value_of(old(self)@.0, k),
    {
        proof {
            use_type_invariant(&*self);
            law_value_after_upsert(self@.0, svc_key(namespace@, name@), entry@);
            assert forall|k: Seq<char>| k != svc_key(namespace@, name@) implies #[trigger] value_of(
                upserted(self@.0, svc_key(namespace@, name@), entry@),
                k,
            ) == value_of(self@.0, k) by {
                law_upsert_keeps_others(self@.0, svc_key(namespace@, name@), entry@, k);
            }
        }
        let key = slashed_key(namespace, name);
        let mut entries: Vec<(String, ServiceEntry)> = Vec::new();
        std::mem::swap(&mut entries, &mut self.svc_entries);
        upsert(&mut entries, key, entry);
        self.svc_entries = entries;
    }

    /// Forgets service `namespace/name`.
    pub fn remove_svc(&mut self, namespace: &str, name: &str)
        ensures
            final(self)@.0 == removed(old(self)@.0, svc_key(namespace@, name@)),
            final(self)@.1 == old(self)@.1,
            distinct_keys(final(self)@.0),
            value_of(final(self)@.0, svc_key(namespace@, name@)) is None,
            forall|k: Seq<char>|
                k != svc_key(namespace@, name@) ==> #[trigger] value_of(final(self)@.0, k)
                    == value_of(old(self)@.0, k),
    {
        proof {
            use_type_invariant(&*self);
            assert forall|k: Seq<char>| #[trigger] value_of(removed(self@.0, svc_key(namespace@, name@)), k)
                == (if k == svc_key(namespace@, name@) { None } else { value_of(self@.0, k) }) by {
                law_removed(self@.0, svc_key(namespace@, name@), k);
            }
        }
        let key = slashed_key(namespace, name);
        let mut entries: Vec<(String, ServiceEntry)> = Vec::new();
        std::mem::swap(&mut entries, &mut self.svc_entries);
        remove_key(&mut entries, key.as_str());
        self.svc_entries = entries;
    }

    /// The entry of service `namespace/name`.
    pub fn get_svc(&self, namespace: &str, name: &str) -> (r: Option<&ServiceEntry>)
        ensures
            match r {
                Some(e) => value_of(self@.0, svc_key(namespace@, name@)) == Some(e@),
                None => value_of(self@.0, svc_key(namespace@, name@)) is None,
            },
    {
        proof {
            use_type_invariant(self);
        }
        let key = slashed_key(namespace, name);
        get_key(&self.svc_entries, key.as_str())
    }

    /// Stores the entry of endpoint slice `eps_name` of service
    /// `namespace/svc_name`, replacing the one stored before.
    pub fn add_eps(&mut self, namespace: &str, svc_name: &str, eps_name: &str, entry: EndpointSliceEntry)
        ensures
            final(self)@.1 == upserted(old(self)@.1, eps_key(namespace@, svc_name@, eps_name@), entry@),
            final(self)@.0 == old(self)@.0,
            distinct_keys(final(self)@.1),
            value_of(final(self)@.1, eps_key(namespace@, svc_name@, eps_name@)) == Some(entry@),
            forall|k: Seq<char>|
                k != eps_key(namespace@, svc_name@, eps_name@) ==> #[trigger] value_of(final(self)@.1, k)
                    == value_of(old(self)@.1, k),
            values_with_prefix(final(self)@.1, eps_prefix(namespace@, svc_name@)).contains(entry@),
    {
        proof {
            use_type_invariant(&*self);
            let key = eps_key(namespace@, svc_name@, eps_name@);
            law_value_after_upsert(self@.1, key, entry@);
            assert forall|k: Seq<char>| k != key implies #[trigger] value_of(
                upserted(self@.1, key, entry@),
                k,
            ) == value_of(self@.1, k) by {
                law_upsert_keeps_others(self@.1, key, entry@, k);
            }
            law_stored_slice_is_found(self@.1, namespace@, svc_name@, eps_name@, entry@);
        }
        let first = slashed_key(namespace, svc_name);
        let key = slashed_key(first.as_str(), eps_name);
        let mut entries: Vec<(String, EndpointSliceEntry)> = Vec::new();
        std::mem::swap(&mut entries, &mut self.eps_entries);
        upsert(&mut entries, key, entry);
        self.eps_entries = entries;
    }

    /// Forgets endpoint slice `eps_name` of service `namespace/svc_name`.
    pub fn remove_eps(&mut self, namespace: &str, svc_name: &str, eps_name: &str)
        ensures
            final(self)@.1 == removed(old(self)@.1, eps_key(namespace@, svc_name@, eps_name@)),
            final(self)@.0 == old(self)@.0,
            distinct_keys(final(self)@.1),
            value_of(final(self)@.1, eps_key(namespace@, svc_name@, eps_name@)) is None,
            forall|k: Seq<char>|
                k != eps_key(namespace@, svc_name@, eps_name@) ==> #[trigger] value_of(final(self)@.1, k)
                    == value_of(old(self)@.1, k),
    {
        proof {
            use_type_invariant(&*self);
            let key = eps_key(namespace@, svc_name@, eps_name@);
            assert forall|k: Seq<char>| #[trigger] value_of(removed(self@.1, key), k)
                == (if k == key { None } else { value_of(self@.1, k) }) by {
                law_removed(self@.1, key, k);
            }
        }
        let first = slashed_key(namespace, svc_name);
        let key = slashed_key(first.as_str(), eps_name);
        let mut entries: Vec<(String, EndpointSliceEntry)> = Vec::new();
        std::mem::swap(&mut entries, &mut self.eps_entries);
        remove_key(&mut entries, key.as_str());
        self.eps_entries = entries;
    }

    /// The endpoint slices of service `namespace/svc_name`: those whose key
    /// starts with `namespace/svc_name/`, in the order stored.
    pub fn get_epss(&self, namespace: &str, svc_name: &str) -> (r: Vec<&EndpointSliceEntry>)
        ensures
            r@.map_values(|e: &EndpointSliceEntry| e@) == values_with_prefix(
                self@.1,
                eps_prefix(namespace@, svc_name@),
            ),
    {
        let mut prefix = slashed_key(namespace, svc_name);
        prefix.append("/");
        proof {
            reveal_strlit("/");
        }
        let ghost entries = self@.1;
        let mut r: Vec<&EndpointSliceEntry> = Vec::new();
        let mut i: usize = 0;
        while i < self.eps_entries.len()
            invariant
                i <= self.eps_entries@.len(),
                entries == self@.1,
                entries == entries_view(self.eps_entries@),
                prefix@ == eps_prefix(namespace@, svc_name@),
                r@.map_values(|e: &EndpointSliceEntry| e@) == values_with_prefix(
                    entries.take(i as int),
                    prefix@,
                ),
            decreases self.eps_entries@.len() - i,
        {
            let ghost prev = r@.map_values(|e: &EndpointSliceEntry| e@);
            proof {
                let t = entries.take(i + 1);
                assert(t.drop_last() =~= entries.take(i as int));
                assert(t.last() == entries[i as int]);
            }
            if has_prefix(self.eps_entries[i].0.as_str(), prefix.as_str()) {
                r.push(&self.eps_entries[i].1);
                proof {
                    assert(r@.map_values(|e: &EndpointSliceEntry| e@) =~= prev.push(
                        entries[i as int].1,
                    ));
                }
            }
            i = i + 1;
        }
        proof {
            assert(entries.take(i as int) =~= entries);
        }
        r
    }
}


} // verus!
