use kube_dns_rs::args::Args;
use kube_dns_rs::keyed::{find_key, get_key, remove_key, upsert};
use kube_dns_rs::settings::BlockerSettings;
use kube_dns_rs::text::{chars_of, has_prefix, is_whitespace_char, str_equal, trim_range};
use kube_dns_rs::utils::{answer_ttl, handler_search_aggregator, LookupFlow, SearchOutcome};

#[test]
fn aggregator_combines_answers() {
    let flows = vec![LookupFlow::Skip, LookupFlow::Answered, LookupFlow::Answered];
    assert_eq!(handler_search_aggregator(&flows, true), SearchOutcome::Combine);
    assert_eq!(handler_search_aggregator(&flows, false), SearchOutcome::Combine);
}

#[test]
fn aggregator_without_answers_skips_or_refuses() {
    let flows = vec![LookupFlow::Skip, LookupFlow::Skip];
    assert_eq!(handler_search_aggregator(&flows, true), SearchOutcome::NxDomain);
    assert_eq!(handler_search_aggregator(&flows, false), SearchOutcome::Skip);
    assert_eq!(handler_search_aggregator(&Vec::new(), true), SearchOutcome::NxDomain);
    assert_eq!(handler_search_aggregator(&Vec::new(), false), SearchOutcome::Skip);
}

#[test]
fn aggregator_returns_first_other_lookup() {
    let flows = vec![LookupFlow::Answered, LookupFlow::Skip, LookupFlow::Other, LookupFlow::Other];
    assert_eq!(handler_search_aggregator(&flows, true), SearchOutcome::Return(2));
    let flows = vec![LookupFlow::Other];
    assert_eq!(handler_search_aggregator(&flows, false), SearchOutcome::Return(0));
}

#[test]
fn args_default_config_path() {
    let a = Args::default();
    assert_eq!(a.config, "/etc/kube-dns-rs/config.yaml");
}

#[test]
fn blocker_settings_hold_urls() {
    let s = BlockerSettings {
        allowlist_urls: vec!["https://allow".to_string()],
        blocklist_urls: vec!["https://block".to_string()],
    };
    assert_eq!(s.allowlist_urls.len(), 1);
    assert_eq!(s.blocklist_urls[0], "https://block");
}

#[test]
fn keyed_entries_upsert_get_remove() {
    let mut v: Vec<(String, u32)> = Vec::new();
    upsert(&mut v, "a".to_string(), 1);
    upsert(&mut v, "b".to_string(), 2);
    upsert(&mut v, "a".to_string(), 3);
    assert_eq!(v.len(), 2);
    assert_eq!(get_key(&v, "a"), Some(&3));
    assert_eq!(get_key(&v, "b"), Some(&2));
    assert_eq!(get_key(&v, "c"), None);
    assert_eq!(find_key(&v, "b"), Some(1));
    remove_key(&mut v, "a");
    assert_eq!(get_key(&v, "a"), None);
    assert_eq!(get_key(&v, "b"), Some(&2));
    remove_key(&mut v, "missing");
    assert_eq!(v.len(), 1);
}

#[test]
fn text_helpers() {
    assert!(is_whitespace_char(' '));
    assert!(is_whitespace_char('\t'));
    assert!(is_whitespace_char('\r'));
    assert!(is_whitespace_char('\u{3000}'));
    assert!(!is_whitespace_char('a'));
    let c = chars_of("  ab c \r");
    assert_eq!(c.len(), 8);
    assert_eq!(trim_range(&c, 0, c.len()), (2, 6));
    let blank = chars_of("   ");
    let (a, b) = trim_range(&blank, 0, blank.len());
    assert_eq!(a, b);
    assert!(has_prefix("default/web/slice", "default/web/"));
    assert!(!has_prefix("default/web2/slice", "default/web/"));
    assert!(has_prefix("x", ""));
    assert!(!has_prefix("", "x"));
    assert!(str_equal("None", "None"));
    assert!(!str_equal("None", "none"));
}

#[test]
fn answer_ttl_is_the_remaining_validity() {
    assert_eq!(answer_ttl(0), 0);
    assert_eq!(answer_ttl(300), 300);
    assert_eq!(answer_ttl(u64::from(u32::MAX)), u32::MAX);
    assert_eq!(answer_ttl(u64::from(u32::MAX) + 1), u32::MAX);
}
