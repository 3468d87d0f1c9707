use kube_dns_rs::blocker::refresher::{parse_list, ListParseError, RefreshAction, RetryState, DEFAULT_RETRIES};

fn labels(l: &[&str]) -> Vec<String> {
    l.iter().map(|s| s.to_string()).collect()
}

#[test]
fn parse_list_skips_comments_and_blank_lines() {
    let body = "# a comment\n\nads.example.com\n   \n  # indented comment\ntracker.net\n";
    let names = parse_list(body).unwrap();
    assert_eq!(names, vec![labels(&["ads", "example", "com"]), labels(&["tracker", "net"])]);
}

#[test]
fn parse_list_trims_lines_and_carriage_returns() {
    let body = "  ads.example.com  \r\n\ttracker.net\r\n";
    let names = parse_list(body).unwrap();
    assert_eq!(names, vec![labels(&["ads", "example", "com"]), labels(&["tracker", "net"])]);
}

#[test]
fn parse_list_removes_leading_wildcards() {
    let body = "*.ads.example.com\n*.*.deep.org\n";
    let names = parse_list(body).unwrap();
    assert_eq!(names, vec![labels(&["ads", "example", "com"]), labels(&["deep", "org"])]);
}

#[test]
fn parse_list_without_final_newline() {
    let names = parse_list("a.com\nb.org").unwrap();
    assert_eq!(names, vec![labels(&["a", "com"]), labels(&["b", "org"])]);
}

#[test]
fn parse_list_of_empty_body() {
    assert!(parse_list("").unwrap().is_empty());
    assert!(parse_list("\n\n# only comments\n").unwrap().is_empty());
}

#[test]
fn parse_list_lowercases_names() {
    let names = parse_list("WWW.Example.COM\n").unwrap();
    assert_eq!(names, vec![labels(&["www", "example", "com"])]);
}

#[test]
fn parse_list_keeps_line_order_and_duplicates() {
    let names = parse_list("b.com\na.com\nb.com\n").unwrap();
    assert_eq!(names, vec![labels(&["b", "com"]), labels(&["a", "com"]), labels(&["b", "com"])]);
}

#[test]
fn parse_list_refuses_an_invalid_name() {
    let r = parse_list("good.com\nbad name.com\n");
    assert!(matches!(r, Err(ListParseError::NameParse(_))));
}

#[test]
fn parse_list_refuses_an_overlong_label() {
    let long = "a".repeat(64);
    let r = parse_list(&format!("{long}.com\n"));
    assert!(matches!(r, Err(ListParseError::NameParse(_))));
}

#[test]
fn retry_state_starts_with_full_budget() {
    let s = RetryState::new();
    assert_eq!(s.retries_left, DEFAULT_RETRIES);
    assert_eq!(DEFAULT_RETRIES, 5);
}

#[test]
fn retry_state_gives_up_after_budget() {
    let mut s = RetryState::new();
    for _ in 0..DEFAULT_RETRIES {
        assert_eq!(s.after_refresh(false), RefreshAction::RetryAfterMinute);
    }
    assert_eq!(s.retries_left, 0);
    assert_eq!(s.after_refresh(false), RefreshAction::GiveUp);
}

#[test]
fn retry_state_success_restores_budget() {
    let mut s = RetryState::new();
    assert_eq!(s.after_refresh(false), RefreshAction::RetryAfterMinute);
    assert_eq!(s.after_refresh(false), RefreshAction::RetryAfterMinute);
    assert_eq!(s.retries_left, 3);
    assert_eq!(s.after_refresh(true), RefreshAction::Wait);
    assert_eq!(s.retries_left, DEFAULT_RETRIES);
}
