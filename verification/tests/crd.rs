use kube_dns_rs::kubernetes::crd::context::KubernetesCrdContext;
use kube_dns_rs::kubernetes::crd::handler::{crd_zone_lookup, CrdAnswer, TTL};
use kube_dns_rs::kubernetes::crd::watcher::handle_dns_record_event;
use kube_dns_rs::kubernetes::crd::{copy_records, DnsRecordCrd, DnsRecordData};
use kube_dns_rs::kubernetes::ResourceEvent;
use kube_dns_rs::utils::QueryType;

const IP_A: u32 = 0xc0a8_0001; // 192.168.0.1
const IP_B: u32 = 0xc0a8_0002; // 192.168.0.2
const IP6_A: u128 = 0x2001_0db8_0000_0000_0000_0000_0000_0001;

fn labels(l: &[&str]) -> Vec<String> {
    l.iter().map(|s| s.to_string()).collect()
}

fn record(fqdn: &str, data: Vec<DnsRecordData>) -> DnsRecordCrd {
    DnsRecordCrd { fqdn: fqdn.to_string(), data }
}

fn a_of(ctx: &KubernetesCrdContext, name: &[&str]) -> Option<Vec<u32>> {
    match crd_zone_lookup(ctx, &labels(name), QueryType::A) {
        Some(CrdAnswer::A(a)) => Some(a),
        Some(CrdAnswer::Aaaa(_)) => panic!("A records expected"),
        None => None,
    }
}

#[test]
fn crd_ttl_is_thirty_seconds() {
    assert_eq!(TTL, 30);
}

#[test]
fn added_record_is_served() {
    let mut ctx = KubernetesCrdContext::default();
    let added = ctx.try_add_entry(
        "ns",
        "home",
        record("home.example.com", vec![DnsRecordData::A { addresses: vec![IP_A] }]),
    );
    assert!(added);
    assert_eq!(a_of(&ctx, &["home", "example", "com"]), Some(vec![IP_A]));
    assert_eq!(a_of(&ctx, &["other", "example", "com"]), None);
    assert_eq!(a_of(&ctx, &["example", "com"]), None);
}

#[test]
fn names_are_lowercased() {
    let mut ctx = KubernetesCrdContext::default();
    assert!(ctx.try_add_entry(
        "ns",
        "home",
        record("Home.Example.COM", vec![DnsRecordData::A { addresses: vec![IP_A] }]),
    ));
    assert_eq!(a_of(&ctx, &["home", "example", "com"]), Some(vec![IP_A]));
}

#[test]
fn invalid_name_is_refused_and_changes_nothing() {
    let mut ctx = KubernetesCrdContext::default();
    ctx.add_entry("ns", "a", record("a.com", vec![DnsRecordData::A { addresses: vec![IP_A] }]));
    let added = ctx.try_add_entry(
        "ns",
        "bad",
        record("bad name.com", vec![DnsRecordData::A { addresses: vec![IP_B] }]),
    );
    assert!(!added);
    assert_eq!(a_of(&ctx, &["a", "com"]), Some(vec![IP_A]));
}

#[test]
fn aaaa_records_are_served_apart() {
    let mut ctx = KubernetesCrdContext::default();
    ctx.add_entry(
        "ns",
        "dual",
        record(
            "dual.example.com",
            vec![
                DnsRecordData::A { addresses: vec![IP_A] },
                DnsRecordData::AAAA { addresses: vec![IP6_A] },
            ],
        ),
    );
    match crd_zone_lookup(&ctx, &labels(&["dual", "example", "com"]), QueryType::AAAA) {
        Some(CrdAnswer::Aaaa(a)) => assert_eq!(a, vec![IP6_A]),
        _ => panic!("AAAA records expected"),
    }
    assert_eq!(a_of(&ctx, &["dual", "example", "com"]), Some(vec![IP_A]));
    assert!(crd_zone_lookup(&ctx, &labels(&["dual", "example", "com"]), QueryType::SOA).is_none());
    assert!(crd_zone_lookup(&ctx, &labels(&["dual", "example", "com"]), QueryType::Other).is_none());
}

#[test]
fn name_without_records_of_the_type_is_skipped() {
    let mut ctx = KubernetesCrdContext::default();
    ctx.add_entry("ns", "v4", record("v4.example.com", vec![DnsRecordData::A { addresses: vec![IP_A] }]));
    assert!(crd_zone_lookup(&ctx, &labels(&["v4", "example", "com"]), QueryType::AAAA).is_none());
    ctx.add_entry("ns", "none", record("none.example.com", vec![DnsRecordData::A { addresses: vec![] }]));
    assert_eq!(a_of(&ctx, &["none", "example", "com"]), None);
}

#[test]
fn records_of_one_name_are_merged() {
    let mut ctx = KubernetesCrdContext::default();
    ctx.add_entry("ns", "first", record("web.example.com", vec![DnsRecordData::A { addresses: vec![IP_A] }]));
    ctx.add_entry("ns", "second", record("web.example.com", vec![DnsRecordData::A { addresses: vec![IP_B] }]));
    assert_eq!(a_of(&ctx, &["web", "example", "com"]), Some(vec![IP_A, IP_B]));
    ctx.remove_entry("ns", "first");
    assert_eq!(a_of(&ctx, &["web", "example", "com"]), Some(vec![IP_B]));
}

#[test]
fn readding_a_resource_replaces_it() {
    let mut ctx = KubernetesCrdContext::default();
    ctx.add_entry("ns", "r", record("old.example.com", vec![DnsRecordData::A { addresses: vec![IP_A] }]));
    ctx.add_entry("ns", "r", record("new.example.com", vec![DnsRecordData::A { addresses: vec![IP_B] }]));
    assert_eq!(a_of(&ctx, &["old", "example", "com"]), None);
    assert_eq!(a_of(&ctx, &["new", "example", "com"]), Some(vec![IP_B]));
}

#[test]
fn get_entry_returns_the_records() {
    let mut ctx = KubernetesCrdContext::default();
    ctx.add_entry("ns", "r", record("x.org", vec![DnsRecordData::AAAA { addresses: vec![IP6_A] }]));
    match ctx.get_entry(&labels(&["x", "org"])) {
        Some(v) => {
            assert_eq!(v.len(), 1);
            assert!(matches!(&v[0], DnsRecordData::AAAA { addresses } if addresses == &vec![IP6_A]));
        }
        None => panic!("records expected"),
    }
    assert!(ctx.get_entry(&labels(&["org"])).is_none());
}

#[test]
fn dns_record_events_update_the_context() {
    let mut ctx = KubernetesCrdContext::default();
    let ok = handle_dns_record_event(
        &mut ctx,
        ResourceEvent::Apply {
            namespace: "ns".to_string(),
            name: "r".to_string(),
            object: record("ev.example.com", vec![DnsRecordData::A { addresses: vec![IP_A] }]),
        },
    );
    assert!(ok);
    assert_eq!(a_of(&ctx, &["ev", "example", "com"]), Some(vec![IP_A]));
    assert!(handle_dns_record_event(&mut ctx, ResourceEvent::Other));
    assert_eq!(a_of(&ctx, &["ev", "example", "com"]), Some(vec![IP_A]));
    let ok = handle_dns_record_event(
        &mut ctx,
        ResourceEvent::Apply {
            namespace: "ns".to_string(),
            name: "bad".to_string(),
            object: record("bad name", vec![]),
        },
    );
    assert!(!ok);
    let ok = handle_dns_record_event(
        &mut ctx,
        ResourceEvent::Delete { namespace: "ns".to_string(), name: "r".to_string() },
    );
    assert!(ok);
    assert_eq!(a_of(&ctx, &["ev", "example", "com"]), None);
}

#[test]
fn copied_records_are_equal() {
    let v = vec![DnsRecordData::A { addresses: vec![IP_A, IP_B] }, DnsRecordData::AAAA { addresses: vec![IP6_A] }];
    let c = copy_records(&v);
    assert_eq!(c.len(), 2);
    assert!(matches!(&c[0], DnsRecordData::A { addresses } if addresses == &vec![IP_A, IP_B]));
    assert!(matches!(&c[1], DnsRecordData::AAAA { addresses } if addresses == &vec![IP6_A]));
}
