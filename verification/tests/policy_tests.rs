use minihttp::policy::{parse_methods, MethodPolicy};

#[test]
fn deny_set_rejects_only_its_members() {
    // denySet = {"POST"}, allowSet unset: GET allowed, POST denied.
    let policy = MethodPolicy { allow: None, deny: parse_methods(b"POST") };
    assert!(policy.is_allowed(b"GET"));
    assert!(!policy.is_allowed(b"POST"));
}

#[test]
fn allow_set_rejects_everything_else() {
    // allowSet = {"GET"}, denySet unset: POST denied even though it is
    // absent from any deny set.
    let policy = MethodPolicy { allow: parse_methods(b"GET"), deny: None };
    assert!(policy.is_allowed(b"GET"));
    assert!(!policy.is_allowed(b"POST"));
}

#[test]
fn unset_sets_allow_every_method() {
    let policy = MethodPolicy::unrestricted();
    assert!(policy.is_allowed(b"GET"));
    assert!(policy.is_allowed(b"POST"));
    assert!(policy.is_allowed(b"DELETE"));
    assert!(policy.is_allowed(b"MADEUP"));
}

#[test]
fn parse_methods_uppercases_and_trims() {
    let set = parse_methods(b" get , Post ").unwrap();
    assert_eq!(set.len(), 2);
    assert!(set.contains(&b"GET".to_vec()));
    assert!(set.contains(&b"POST".to_vec()));
}

#[test]
fn parse_methods_deduplicates() {
    let set = parse_methods(b"GET,get, GET").unwrap();
    assert_eq!(set, vec![b"GET".to_vec()]);
}

#[test]
fn parse_methods_blank_means_unconfigured() {
    // Entries that are empty after trimming are skipped; a list with
    // no usable entry is "not configured", not an empty set.
    assert!(parse_methods(b"").is_none());
    assert!(parse_methods(b" , ,,  ").is_none());
    assert!(parse_methods(b" ,x, ").is_some());
}

#[test]
fn deny_wins_over_allow() {
    let policy = MethodPolicy { allow: parse_methods(b"GET,POST"), deny: parse_methods(b"POST") };
    assert!(policy.is_allowed(b"GET"));
    assert!(!policy.is_allowed(b"POST"));
    assert!(!policy.is_allowed(b"PUT"));
}
