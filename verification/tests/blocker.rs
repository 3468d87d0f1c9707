use kube_dns_rs::blocker::context::{BlockerContext, ListType};
use kube_dns_rs::blocker::cover::{path_prefix, path_suffix, reversed_labels};
use kube_dns_rs::blocker::domains::{BlockListZoneHandlerDomains, Status};
use kube_dns_rs::blocker::handler::blocked_by;

fn labels(l: &[&str]) -> Vec<String> {
    l.iter().map(|s| s.to_string()).collect()
}

fn urls(l: &[&str]) -> Vec<String> {
    labels(l)
}

#[test]
fn lookup_in_empty_context_is_none() {
    let ctx = BlockerContext::new();
    assert!(ctx.lookup(&labels(&["www", "example", "com"])).is_none());
}

#[test]
fn lookup_finds_listed_name() {
    let mut ctx = BlockerContext::new();
    ctx.insert_list("https://block", &vec![labels(&["ads", "example", "com"])], ListType::Block);
    let (u, matched, t) = ctx.lookup(&labels(&["ads", "example", "com"])).unwrap();
    assert_eq!(u, urls(&["https://block"]));
    assert_eq!(matched, labels(&["ads", "example", "com"]));
    assert_eq!(t, ListType::Block);
}

#[test]
fn entry_covers_names_under_it() {
    let mut ctx = BlockerContext::new();
    ctx.insert_list("blk", &vec![labels(&["example", "com"])], ListType::Block);
    let (u, matched, t) = ctx.lookup(&labels(&["www", "example", "com"])).unwrap();
    assert_eq!(u, urls(&["blk"]));
    assert_eq!(matched, labels(&["example", "com"]));
    assert_eq!(t, ListType::Block);
    let (_, matched, _) = ctx.lookup(&labels(&["a", "b", "example", "com"])).unwrap();
    assert_eq!(matched, labels(&["example", "com"]));
}

#[test]
fn name_that_only_begins_with_an_entry_is_not_covered() {
    let mut ctx = BlockerContext::new();
    ctx.insert_list("blk", &vec![labels(&["example", "com"])], ListType::Block);
    assert!(ctx.lookup(&labels(&["example", "com", "evil", "org"])).is_none());
    assert!(ctx.lookup(&labels(&["com"])).is_none());
    assert!(ctx.lookup(&labels(&["notexample", "com"])).is_none());
}

#[test]
fn allow_wins_a_tie_with_block() {
    let mut ctx = BlockerContext::new();
    ctx.insert_list("https://block", &vec![labels(&["tracker", "net"])], ListType::Block);
    ctx.insert_list("https://allow", &vec![labels(&["tracker", "net"])], ListType::Allow);
    let (u, matched, t) = ctx.lookup(&labels(&["x", "tracker", "net"])).unwrap();
    assert_eq!(t, ListType::Allow);
    assert_eq!(u, urls(&["https://allow"]));
    assert_eq!(matched, labels(&["tracker", "net"]));
}

#[test]
fn longest_covering_entry_decides() {
    let mut ctx = BlockerContext::new();
    ctx.insert_list("https://block", &vec![labels(&["example", "com"])], ListType::Block);
    ctx.insert_list("https://allow", &vec![labels(&["cdn", "example", "com"])], ListType::Allow);
    let (u, matched, t) = ctx.lookup(&labels(&["img", "cdn", "example", "com"])).unwrap();
    assert_eq!(t, ListType::Allow);
    assert_eq!(u, urls(&["https://allow"]));
    assert_eq!(matched, labels(&["cdn", "example", "com"]));
    let (u, matched, t) = ctx.lookup(&labels(&["ads", "example", "com"])).unwrap();
    assert_eq!(t, ListType::Block);
    assert_eq!(u, urls(&["https://block"]));
    assert_eq!(matched, labels(&["example", "com"]));
}

#[test]
fn longer_entry_that_does_not_cover_changes_nothing() {
    let mut ctx = BlockerContext::new();
    ctx.insert_list("https://one", &vec![labels(&["example", "com"])], ListType::Block);
    ctx.insert_list("https://two", &vec![labels(&["x", "y", "example", "com"])], ListType::Allow);
    let (u, matched, t) = ctx.lookup(&labels(&["z", "y", "example", "com"])).unwrap();
    assert_eq!(t, ListType::Block);
    assert_eq!(u, urls(&["https://one"]));
    assert_eq!(matched, labels(&["example", "com"]));
    // Within one list too, the longest covering entry counts.
    let mut ctx = BlockerContext::new();
    ctx.insert_list(
        "https://one",
        &vec![labels(&["example", "com"]), labels(&["x", "y", "example", "com"])],
        ListType::Block,
    );
    let (_, matched, _) = ctx.lookup(&labels(&["z", "y", "example", "com"])).unwrap();
    assert_eq!(matched, labels(&["example", "com"]));
}

#[test]
fn agreeing_lists_at_same_depth_all_decide() {
    let mut ctx = BlockerContext::new();
    ctx.insert_list("https://one", &vec![labels(&["y", "x"])], ListType::Block);
    ctx.insert_list("https://two", &vec![labels(&["y", "x"])], ListType::Block);
    ctx.insert_list("https://three", &vec![labels(&["x"])], ListType::Block);
    let (u, matched, t) = ctx.lookup(&labels(&["z", "y", "x"])).unwrap();
    assert_eq!(t, ListType::Block);
    assert_eq!(u, urls(&["https://one", "https://two"]));
    assert_eq!(matched, labels(&["y", "x"]));
}

#[test]
fn reinserting_a_list_replaces_it() {
    let mut ctx = BlockerContext::new();
    ctx.insert_list("https://list", &vec![labels(&["old", "com"])], ListType::Block);
    ctx.insert_list("https://list", &vec![labels(&["new", "com"])], ListType::Block);
    assert!(ctx.lookup(&labels(&["old", "com"])).is_none());
    let (u, _, t) = ctx.lookup(&labels(&["new", "com"])).unwrap();
    assert_eq!(t, ListType::Block);
    assert_eq!(u, urls(&["https://list"]));
}

#[test]
fn root_entry_matches_every_name() {
    let mut ctx = BlockerContext::new();
    ctx.insert_list("https://all", &vec![labels(&[])], ListType::Block);
    let (u, matched, t) = ctx.lookup(&labels(&["anything", "at", "all"])).unwrap();
    assert_eq!(t, ListType::Block);
    assert_eq!(u, urls(&["https://all"]));
    assert!(matched.is_empty());
}

#[test]
fn label_helpers() {
    let p = labels(&["a", "b", "c"]);
    assert_eq!(path_prefix(&p, 2), labels(&["a", "b"]));
    assert_eq!(path_prefix(&p, 0), labels(&[]));
    assert_eq!(path_suffix(&p, 2), labels(&["b", "c"]));
    assert_eq!(path_suffix(&p, 3), p);
    assert_eq!(reversed_labels(&p), labels(&["c", "b", "a"]));
}

#[test]
fn blocked_by_reports_block_lists_only() {
    let mut ctx = BlockerContext::new();
    ctx.insert_list("https://block", &vec![labels(&["bad", "com"])], ListType::Block);
    ctx.insert_list("https://allow", &vec![labels(&["good", "com"])], ListType::Allow);
    let (u, matched) = blocked_by(&ctx, &labels(&["www", "bad", "com"])).unwrap();
    assert_eq!(u, urls(&["https://block"]));
    assert_eq!(matched, labels(&["bad", "com"]));
    assert!(blocked_by(&ctx, &labels(&["good", "com"])).is_none());
    assert!(blocked_by(&ctx, &labels(&["other", "com"])).is_none());
}

#[test]
fn domains_default_to_allowed() {
    let d = BlockListZoneHandlerDomains::new();
    let (deciders, status) = d.status_of(&labels(&["www", "example", "com"]));
    assert!(deciders.is_empty());
    assert!(status == Status::Allowed);
}

#[test]
fn domains_block_listed_name_and_names_under_it() {
    let mut d = BlockListZoneHandlerDomains::new();
    d.add_block_list("https://block", &vec![labels(&["example", "com"])]);
    let (deciders, status) = d.status_of(&labels(&["ads", "example", "com"]));
    assert!(status == Status::Blocked);
    assert_eq!(deciders.len(), 1);
    assert_eq!(deciders[0].0, "https://block");
    // Labels top-level first, as the decider is reported.
    assert_eq!(deciders[0].1, labels(&["com", "example"]));
    let (deciders, status) = d.status_of(&labels(&["example", "com", "evil", "org"]));
    assert!(status == Status::Allowed);
    assert!(deciders.is_empty());
}

#[test]
fn domains_any_allow_wins_whatever_the_depth() {
    let mut d = BlockListZoneHandlerDomains::new();
    d.add_block_list("https://block", &vec![labels(&["a", "b", "c"])]);
    d.add_allow_list("https://allow", &vec![labels(&["c"])]);
    let (deciders, status) = d.status_of(&labels(&["a", "b", "c"]));
    assert!(status == Status::Allowed);
    assert_eq!(deciders.len(), 1);
    assert_eq!(deciders[0].0, "https://allow");
    assert_eq!(deciders[0].1, labels(&["c"]));
}

#[test]
fn domains_blocking_lists_all_reported() {
    let mut d = BlockListZoneHandlerDomains::new();
    d.add_block_list("https://one", &vec![labels(&["x"])]);
    d.add_block_list("https://two", &vec![labels(&["y", "x"])]);
    let (deciders, status) = d.status_of(&labels(&["y", "x"]));
    assert!(status == Status::Blocked);
    assert_eq!(deciders.len(), 2);
    assert_eq!(deciders[0].0, "https://one");
    assert_eq!(deciders[0].1, labels(&["x"]));
    assert_eq!(deciders[1].0, "https://two");
    assert_eq!(deciders[1].1, labels(&["x", "y"]));
}

#[test]
fn domains_replacing_a_list() {
    let mut d = BlockListZoneHandlerDomains::new();
    d.add_block_list("https://list", &vec![labels(&["x"])]);
    d.add_allow_list("https://list", &vec![labels(&["y"])]);
    let (deciders, status) = d.status_of(&labels(&["x"]));
    assert!(status == Status::Allowed);
    assert!(deciders.is_empty());
}
