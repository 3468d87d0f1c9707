use kube_dns_rs::kubernetes::svc::context::{
    cluster_ips_parse, slice_addresses_parse, ContextError, EndpointConditionsData, EndpointData, EndpointPortData, EndpointSliceData,
    EndpointSliceEndpoint, EndpointSliceEntry, EndpointSlicePortKey, IpAddress,
    KubernetesSvcContext, ServiceEntry,
};
use kube_dns_rs::kubernetes::svc::handler::{svc_zone_lookup, SvcAnswer, TTL};
use kube_dns_rs::kubernetes::svc::watcher::{
    get_service_name_from_eps, handle_endpoint_slice_event, handle_service_event,
    EndpointSliceEvent,
};
use kube_dns_rs::kubernetes::ResourceEvent;
use kube_dns_rs::utils::QueryType;

const IP_A: u32 = 0x0a00_0001; // 10.0.0.1
const IP_B: u32 = 0x0a00_0002; // 10.0.0.2
const IP_C: u32 = 0x0a00_0003; // 10.0.0.3
const IP6_A: u128 = 0xfd00_0000_0000_0000_0000_0000_0000_0001;

fn labels(l: &[&str]) -> Vec<String> {
    l.iter().map(|s| s.to_string()).collect()
}

fn origin() -> Vec<String> {
    labels(&["cluster", "local"])
}

fn query(ctx: &KubernetesSvcContext, name: &[&str], t: QueryType) -> SvcAnswer {
    svc_zone_lookup(ctx, &labels(name), &origin(), 2, t)
}

fn pod(name: &str, addresses: Vec<IpAddress>) -> EndpointSliceEndpoint {
    EndpointSliceEndpoint::Kubernetes { name: name.to_string(), addresses }
}

fn slice(endpoints: Vec<EndpointSliceEndpoint>) -> EndpointSliceEntry {
    EndpointSliceEntry { endpoints, ports: Vec::new() }
}

#[test]
fn ttl_is_thirty_seconds() {
    assert_eq!(TTL, 30);
}

#[test]
fn cluster_ip_service_answers_a() {
    let mut ctx = KubernetesSvcContext::new();
    ctx.add_svc("default", "web", ServiceEntry::cluster_ip(vec![IpAddress::V4(IP_A)]));
    match query(&ctx, &["web", "default", "svc", "cluster", "local"], QueryType::A) {
        SvcAnswer::A(a) => assert_eq!(a, vec![IP_A]),
        _ => panic!("A records expected"),
    }
}

#[test]
fn cluster_ip_service_without_v6_answers_empty_aaaa() {
    let mut ctx = KubernetesSvcContext::new();
    ctx.add_svc("default", "web", ServiceEntry::cluster_ip(vec![IpAddress::V4(IP_A)]));
    let r = query(&ctx, &["web", "default", "svc", "cluster", "local"], QueryType::AAAA);
    assert!(matches!(r, SvcAnswer::Empty));
    let r = query(&ctx, &["web", "default", "svc", "cluster", "local"], QueryType::Other);
    assert!(matches!(r, SvcAnswer::Empty));
}

#[test]
fn dual_stack_service_answers_each_family() {
    let mut ctx = KubernetesSvcContext::new();
    ctx.add_svc(
        "default",
        "web",
        ServiceEntry::cluster_ip(vec![IpAddress::V4(IP_A), IpAddress::V6(IP6_A)]),
    );
    match query(&ctx, &["web", "default", "svc", "cluster", "local"], QueryType::AAAA) {
        SvcAnswer::Aaaa(a) => assert_eq!(a, vec![IP6_A]),
        _ => panic!("AAAA records expected"),
    }
    match query(&ctx, &["web", "default", "svc", "cluster", "local"], QueryType::A) {
        SvcAnswer::A(a) => assert_eq!(a, vec![IP_A]),
        _ => panic!("A records expected"),
    }
}

#[test]
fn unknown_names_are_nxdomain() {
    let mut ctx = KubernetesSvcContext::new();
    ctx.add_svc("default", "web", ServiceEntry::cluster_ip(vec![IpAddress::V4(IP_A)]));
    let r = query(&ctx, &["other", "default", "svc", "cluster", "local"], QueryType::A);
    assert!(matches!(r, SvcAnswer::NxDomain));
    let r = query(&ctx, &["web", "default", "pod", "cluster", "local"], QueryType::A);
    assert!(matches!(r, SvcAnswer::NxDomain));
    let r = query(&ctx, &["default", "svc", "cluster", "local"], QueryType::A);
    assert!(matches!(r, SvcAnswer::NxDomain));
    let r = query(&ctx, &["local"], QueryType::A);
    assert!(matches!(r, SvcAnswer::NxDomain));
}

#[test]
fn headless_service_answers_all_its_endpoints() {
    let mut ctx = KubernetesSvcContext::new();
    ctx.add_svc("default", "db", ServiceEntry::headless());
    ctx.add_eps("default", "db", "db-abc", slice(vec![pod("db-0", vec![IpAddress::V4(IP_A)])]));
    ctx.add_eps(
        "default",
        "db",
        "db-def",
        slice(vec![EndpointSliceEndpoint::External { addresses: vec![IpAddress::V4(IP_B)] }]),
    );
    // A slice of another service whose name starts the same way.
    ctx.add_eps("default", "db2", "db2-x", slice(vec![pod("db2-0", vec![IpAddress::V4(IP_C)])]));
    match query(&ctx, &["db", "default", "svc", "cluster", "local"], QueryType::A) {
        SvcAnswer::A(a) => assert_eq!(a, vec![IP_A, IP_B]),
        _ => panic!("A records expected"),
    }
}

#[test]
fn headless_service_without_endpoints_is_nxdomain() {
    let mut ctx = KubernetesSvcContext::new();
    ctx.add_svc("default", "db", ServiceEntry::headless());
    let r = query(&ctx, &["db", "default", "svc", "cluster", "local"], QueryType::A);
    assert!(matches!(r, SvcAnswer::NxDomain));
}

#[test]
fn pod_name_answers_its_endpoint() {
    let mut ctx = KubernetesSvcContext::new();
    ctx.add_svc("default", "db", ServiceEntry::headless());
    ctx.add_eps(
        "default",
        "db",
        "db-abc",
        slice(vec![pod("db-0", vec![IpAddress::V4(IP_A)]), pod("db-1", vec![IpAddress::V4(IP_B)])]),
    );
    match query(&ctx, &["db-1", "db", "default", "svc", "cluster", "local"], QueryType::A) {
        SvcAnswer::A(a) => assert_eq!(a, vec![IP_B]),
        _ => panic!("A records expected"),
    }
    let r = query(&ctx, &["db-9", "db", "default", "svc", "cluster", "local"], QueryType::A);
    assert!(matches!(r, SvcAnswer::NxDomain));
}

#[test]
fn soa_names_the_cluster_domain() {
    let ctx = KubernetesSvcContext::new();
    match query(&ctx, &["anything", "cluster", "local"], QueryType::SOA) {
        SvcAnswer::Soa(soa) => {
            assert_eq!(soa.mname, labels(&["kube-dns-rs", "kube-dns-rs", "svc", "cluster", "local"]));
            assert_eq!(soa.rname, labels(&["admin", "cluster", "local"]));
            assert_eq!(soa.serial, 2026082101);
            assert_eq!(soa.refresh, 3600);
            assert_eq!(soa.retry, 1800);
            assert_eq!(soa.expire, 604800);
            assert_eq!(soa.minimum, 300);
        }
        _ => panic!("SOA record expected"),
    }
}

#[test]
fn removed_service_is_nxdomain() {
    let mut ctx = KubernetesSvcContext::new();
    ctx.add_svc("default", "web", ServiceEntry::cluster_ip(vec![IpAddress::V4(IP_A)]));
    ctx.remove_svc("default", "web");
    assert!(ctx.get_svc("default", "web").is_none());
    let r = query(&ctx, &["web", "default", "svc", "cluster", "local"], QueryType::A);
    assert!(matches!(r, SvcAnswer::NxDomain));
}

#[test]
fn add_svc_replaces_the_entry() {
    let mut ctx = KubernetesSvcContext::new();
    ctx.add_svc("ns", "a", ServiceEntry::cluster_ip(vec![IpAddress::V4(IP_A)]));
    ctx.add_svc("ns", "a", ServiceEntry::headless());
    assert!(matches!(ctx.get_svc("ns", "a"), Some(ServiceEntry::HeadlessService)));
    assert!(ctx.get_svc("ns", "b").is_none());
    assert!(ctx.get_svc("other", "a").is_none());
}

#[test]
fn get_epss_returns_the_service_slices_in_order() {
    let mut ctx = KubernetesSvcContext::new();
    ctx.add_eps("ns", "svc", "one", slice(vec![pod("p1", vec![IpAddress::V4(IP_A)])]));
    ctx.add_eps("ns", "svc2", "two", slice(vec![pod("p2", vec![IpAddress::V4(IP_B)])]));
    ctx.add_eps("ns", "svc", "three", slice(vec![pod("p3", vec![IpAddress::V4(IP_C)])]));
    let epss = ctx.get_epss("ns", "svc");
    assert_eq!(epss.len(), 2);
    assert_eq!(epss[0].endpoints[0].addresses(), &vec![IpAddress::V4(IP_A)]);
    assert_eq!(epss[1].endpoints[0].addresses(), &vec![IpAddress::V4(IP_C)]);
    ctx.remove_eps("ns", "svc", "one");
    let epss = ctx.get_epss("ns", "svc");
    assert_eq!(epss.len(), 1);
    assert_eq!(epss[0].endpoints[0].addresses(), &vec![IpAddress::V4(IP_C)]);
}

#[test]
fn service_entry_from_service_fields() {
    let e = ServiceEntry::try_from_service(Some("None"), &None).unwrap();
    assert!(matches!(e, ServiceEntry::HeadlessService));
    let e = ServiceEntry::try_from_service(
        Some("10.0.0.1"),
        &Some(vec![Some(IpAddress::V4(IP_A)), Some(IpAddress::V6(IP6_A))]),
    )
    .unwrap();
    match e {
        ServiceEntry::ClusterIpService { addresses } => {
            assert_eq!(addresses, vec![IpAddress::V4(IP_A), IpAddress::V6(IP6_A)])
        }
        _ => panic!("cluster IP service expected"),
    }
    let e = ServiceEntry::try_from_service(Some("10.0.0.1"), &None).unwrap();
    match e {
        ServiceEntry::ClusterIpService { addresses } => assert!(addresses.is_empty()),
        _ => panic!("cluster IP service expected"),
    }
}

fn endpoint(ready: Option<bool>, terminating: Option<bool>, target: Option<&str>, ip: u32) -> EndpointData {
    EndpointData {
        conditions: Some(EndpointConditionsData { ready, terminating }),
        target_name: target.map(|s| s.to_string()),
        addresses: vec![Some(IpAddress::V4(ip))],
    }
}

fn port_of(e: &EndpointSliceEntry, name: &str, protocol: &str) -> Option<i32> {
    e.ports
        .iter()
        .find(|(k, _)| k.name == name && k.protocol == protocol)
        .map(|(_, p)| *p)
}

#[test]
fn endpoint_slice_refuses_other_address_types() {
    let data = EndpointSliceData { address_type: "FQDN".to_string(), endpoints: None, ports: None };
    match EndpointSliceEntry::try_from_data(&data) {
        Err(ContextError::InvalidEndpointSliceAddressType(t)) => assert_eq!(t, "FQDN"),
        Ok(_) => panic!("error expected"),
    }
}

#[test]
fn endpoint_slice_keeps_served_endpoints() {
    let data = EndpointSliceData {
        address_type: "IPv4".to_string(),
        endpoints: Some(vec![
            endpoint(Some(true), Some(false), Some("pod-a"), IP_A),
            endpoint(Some(false), None, Some("pod-b"), IP_B),
            endpoint(None, Some(true), Some("pod-c"), IP_C),
            EndpointData { conditions: None, target_name: None, addresses: vec![Some(IpAddress::V4(IP_C))] },
        ]),
        ports: None,
    };
    let e = EndpointSliceEntry::try_from_data(&data).unwrap();
    assert_eq!(e.endpoints.len(), 2);
    match &e.endpoints[0] {
        EndpointSliceEndpoint::Kubernetes { name, addresses } => {
            assert_eq!(name, "pod-a");
            assert_eq!(addresses, &vec![IpAddress::V4(IP_A)]);
        }
        _ => panic!("Kubernetes endpoint expected"),
    }
    match &e.endpoints[1] {
        EndpointSliceEndpoint::External { addresses } => assert_eq!(addresses, &vec![IpAddress::V4(IP_C)]),
        _ => panic!("external endpoint expected"),
    }
    assert!(e.ports.is_empty());
}

#[test]
fn endpoint_slice_ports_are_keyed_lowercase() {
    let data = EndpointSliceData {
        address_type: "IPv6".to_string(),
        endpoints: None,
        ports: Some(vec![
            EndpointPortData { name: Some("HTTP".to_string()), protocol: Some("TCP".to_string()), port: Some(80) },
            EndpointPortData { name: None, protocol: None, port: Some(8080) },
            EndpointPortData { name: Some("dns".to_string()), protocol: Some("UDP".to_string()), port: None },
            EndpointPortData { name: Some("http".to_string()), protocol: Some("tcp".to_string()), port: Some(81) },
        ]),
    };
    let e = EndpointSliceEntry::try_from_data(&data).unwrap();
    assert!(e.endpoints.is_empty());
    assert_eq!(e.ports.len(), 2);
    assert_eq!(port_of(&e, "_http", "_tcp"), Some(81));
    assert_eq!(port_of(&e, "_", "_tcp"), Some(8080));
    assert_eq!(port_of(&e, "_dns", "_udp"), None);
}

#[test]
fn service_name_comes_from_its_label() {
    let labels = Some(vec![
        ("app".to_string(), "web".to_string()),
        ("kubernetes.io/service-name".to_string(), "web-svc".to_string()),
    ]);
    assert_eq!(get_service_name_from_eps(&labels), Some("web-svc".to_string()));
    let labels = Some(vec![("app".to_string(), "web".to_string())]);
    assert_eq!(get_service_name_from_eps(&labels), None);
    assert_eq!(get_service_name_from_eps(&None), None);
}

#[test]
fn service_events_update_the_context() {
    let mut ctx = KubernetesSvcContext::new();
    handle_service_event(
        &mut ctx,
        ResourceEvent::Apply {
            namespace: "ns".to_string(),
            name: "web".to_string(),
            object: ServiceEntry::cluster_ip(vec![IpAddress::V4(IP_A)]),
        },
    );
    assert!(ctx.get_svc("ns", "web").is_some());
    handle_service_event(&mut ctx, ResourceEvent::Other);
    assert!(ctx.get_svc("ns", "web").is_some());
    handle_service_event(
        &mut ctx,
        ResourceEvent::Delete { namespace: "ns".to_string(), name: "web".to_string() },
    );
    assert!(ctx.get_svc("ns", "web").is_none());
}

#[test]
fn endpoint_slice_events_update_the_context() {
    let mut ctx = KubernetesSvcContext::new();
    handle_endpoint_slice_event(
        &mut ctx,
        EndpointSliceEvent::Apply {
            namespace: "ns".to_string(),
            service: "web".to_string(),
            name: "web-1".to_string(),
            entry: slice(vec![pod("p", vec![IpAddress::V4(IP_A)])]),
        },
    );
    assert_eq!(ctx.get_epss("ns", "web").len(), 1);
    handle_endpoint_slice_event(&mut ctx, EndpointSliceEvent::Other);
    assert_eq!(ctx.get_epss("ns", "web").len(), 1);
    handle_endpoint_slice_event(
        &mut ctx,
        EndpointSliceEvent::Delete {
            namespace: "ns".to_string(),
            service: "web".to_string(),
            name: "web-1".to_string(),
        },
    );
    assert!(ctx.get_epss("ns", "web").is_empty());
}

#[test]
fn port_key_fields_are_public() {
    let k = EndpointSlicePortKey { name: "_http".to_string(), protocol: "_tcp".to_string() };
    let e = EndpointSliceEntry { endpoints: Vec::new(), ports: vec![(k, 80)] };
    assert_eq!(port_of(&e, "_http", "_tcp"), Some(80));
}

#[test]
fn fqdn_slice_with_hostnames_is_refused_without_parsing() {
    let data = EndpointSliceData {
        address_type: "FQDN".to_string(),
        endpoints: Some(vec![EndpointData { conditions: None, target_name: None, addresses: vec![None] }]),
        ports: None,
    };
    assert!(slice_addresses_parse(&data));
    assert!(matches!(
        EndpointSliceEntry::try_from_data(&data),
        Err(ContextError::InvalidEndpointSliceAddressType(_))
    ));
}

#[test]
fn address_checks_look_at_served_endpoints_only() {
    let unparsed = |ready: bool| EndpointData {
        conditions: Some(EndpointConditionsData { ready: Some(ready), terminating: None }),
        target_name: None,
        addresses: vec![None],
    };
    let data = EndpointSliceData { address_type: "IPv4".to_string(), endpoints: Some(vec![unparsed(false)]), ports: None };
    assert!(slice_addresses_parse(&data));
    let e = EndpointSliceEntry::try_from_data(&data).unwrap();
    assert!(e.endpoints.is_empty());
    let data = EndpointSliceData { address_type: "IPv4".to_string(), endpoints: Some(vec![unparsed(true)]), ports: None };
    assert!(!slice_addresses_parse(&data));
}

#[test]
fn cluster_ip_checks() {
    assert!(cluster_ips_parse(Some("None"), &Some(vec![None])));
    assert!(cluster_ips_parse(Some("10.0.0.1"), &None));
    assert!(cluster_ips_parse(Some("10.0.0.1"), &Some(vec![Some(IpAddress::V4(IP_A))])));
    assert!(!cluster_ips_parse(Some("10.0.0.1"), &Some(vec![Some(IpAddress::V4(IP_A)), None])));
    assert!(cluster_ips_parse(None, &Some(vec![None])));
}

#[test]
fn service_without_cluster_ip_is_headless() {
    let e = ServiceEntry::try_from_service(None, &Some(vec![Some(IpAddress::V4(IP_A))])).unwrap();
    assert!(matches!(e, ServiceEntry::HeadlessService));
}
