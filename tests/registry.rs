use polygate::backend_registry::BackendRegistry;

#[test]
fn round_robin_alternates_between_two_backends() {
    let mut reg = BackendRegistry::new();
    reg.register("api", "http://127.0.0.1:9000");
    reg.register("api", "http://127.0.0.1:9001");
    assert_eq!(reg.pick_one("api").as_deref(), Some("http://127.0.0.1:9000"));
    assert_eq!(reg.pick_one("api").as_deref(), Some("http://127.0.0.1:9001"));
    assert_eq!(reg.pick_one("api").as_deref(), Some("http://127.0.0.1:9000"));
}

#[test]
fn picks_are_fair_within_one() {
    let mut reg = BackendRegistry::new();
    reg.register("svc", "a");
    reg.register("svc", "b");
    reg.register("svc", "c");
    let mut counts = [0usize; 3];
    for _ in 0..10 {
        match reg.pick_one("svc").as_deref() {
            Some("a") => counts[0] += 1,
            Some("b") => counts[1] += 1,
            Some("c") => counts[2] += 1,
            other => panic!("unexpected pick {:?}", other),
        }
    }
    assert_eq!(counts, [4, 3, 3]);
}

#[test]
fn deregistered_backend_is_never_picked() {
    let mut reg = BackendRegistry::new();
    reg.register("svc", "keep");
    reg.register("svc", "drop");
    reg.deregister("svc", "drop");
    assert_eq!(reg.list("svc"), vec!["keep".to_string()]);
    for _ in 0..5 {
        assert_eq!(reg.pick_one("svc").as_deref(), Some("keep"));
    }
}

#[test]
fn deregister_removes_every_exact_match() {
    let mut reg = BackendRegistry::new();
    reg.register("svc", "x");
    reg.register("svc", "y");
    reg.register("svc", "x");
    reg.register("svc", "x/");
    reg.deregister("svc", "x");
    assert_eq!(reg.list("svc"), vec!["y".to_string(), "x/".to_string()]);
}

#[test]
fn unknown_or_empty_service_picks_nothing() {
    let mut reg = BackendRegistry::new();
    assert_eq!(reg.pick_one("nobody"), None);
    reg.register("svc", "only");
    reg.deregister("svc", "only");
    assert_eq!(reg.pick_one("svc"), None);
    assert!(reg.list("svc").is_empty());
    assert!(reg.list("nobody").is_empty());
}

#[test]
fn duplicate_registration_weighs_more() {
    let mut reg = BackendRegistry::new();
    reg.register("svc", "a");
    reg.register("svc", "a");
    reg.register("svc", "b");
    let picks: Vec<String> = (0..6).map(|_| reg.pick_one("svc").unwrap()).collect();
    assert_eq!(picks, vec!["a", "a", "b", "a", "a", "b"]);
}

#[test]
fn cursor_wraps_after_backends_shrink() {
    let mut reg = BackendRegistry::new();
    reg.register("svc", "a");
    reg.register("svc", "b");
    reg.register("svc", "c");
    assert_eq!(reg.pick_one("svc").as_deref(), Some("a"));
    assert_eq!(reg.pick_one("svc").as_deref(), Some("b"));
    reg.deregister("svc", "c");
    assert_eq!(reg.pick_one("svc").as_deref(), Some("a"));
    assert_eq!(reg.pick_one("svc").as_deref(), Some("b"));
}

#[test]
fn services_do_not_share_cursors() {
    let mut reg = BackendRegistry::new();
    reg.register("one", "1a");
    reg.register("one", "1b");
    reg.register("two", "2a");
    reg.register("two", "2b");
    assert_eq!(reg.pick_one("one").as_deref(), Some("1a"));
    assert_eq!(reg.pick_one("two").as_deref(), Some("2a"));
    assert_eq!(reg.pick_one("one").as_deref(), Some("1b"));
}

#[test]
fn list_entries_carry_the_service_name() {
    let mut reg = BackendRegistry::new();
    reg.register("svc", "u1");
    reg.register("svc", "u2");
    let entries = reg.list_entries("svc");
    assert_eq!(entries.len(), 2);
    assert_eq!(entries[0].name, "svc");
    assert_eq!(entries[0].url, "u1");
    assert_eq!(entries[1].name, "svc");
    assert_eq!(entries[1].url, "u2");
    assert!(reg.list_entries("other").is_empty());
}
