use polygate::http_proxy::{
    relay_status, rewrite_url, route_request, textual_headers, upstream_failure, RouteOutcome,
};
use polygate::middleware::{BearerAuth, HeaderField, RateLimiter};
use polygate::backend_registry::BackendRegistry;

fn header(name: &str, value: &[u8]) -> HeaderField {
    HeaderField { name: name.to_string(), value: value.to_vec() }
}

fn open_limiter() -> RateLimiter {
    RateLimiter::new(1000, 1000, 0)
}

fn forwarded(r: RouteOutcome) -> String {
    match r {
        RouteOutcome::Forward(url) => url,
        RouteOutcome::Respond(rep) => panic!("expected a forward, got {:?}", rep),
    }
}

fn status_and_body(r: RouteOutcome) -> (u16, String) {
    match r {
        RouteOutcome::Respond(rep) => (rep.status, rep.body),
        RouteOutcome::Forward(url) => panic!("expected a reply, got a forward to {}", url),
    }
}

#[test]
fn routes_path_and_query_round_robin() {
    let mut reg = BackendRegistry::new();
    reg.register("api", "http://127.0.0.1:9000");
    reg.register("api", "http://127.0.0.1:9001");
    let auth = BearerAuth(String::new());
    let mut lim = open_limiter();
    let first = route_request(&mut reg, &auth, &mut lim, 1, "/api/v1/foo", Some("x=1"), &vec![]);
    assert_eq!(forwarded(first), "http://127.0.0.1:9000/v1/foo?x=1");
    let second = route_request(&mut reg, &auth, &mut lim, 2, "/api/v1/foo", Some("x=1"), &vec![]);
    assert_eq!(forwarded(second), "http://127.0.0.1:9001/v1/foo?x=1");
}

#[test]
fn bearer_token_is_matched_verbatim() {
    let mut reg = BackendRegistry::new();
    reg.register("api", "http://127.0.0.1:9000");
    let auth = BearerAuth("secret".to_string());
    let mut lim = open_limiter();
    let none = route_request(&mut reg, &auth, &mut lim, 1, "/api/x", None, &vec![]);
    assert_eq!(status_and_body(none), (401, String::new()));
    let good = vec![header("authorization", b"secret")];
    let ok = route_request(&mut reg, &auth, &mut lim, 2, "/api/x", None, &good);
    assert_eq!(forwarded(ok), "http://127.0.0.1:9000/x");
    let prefixed = vec![header("authorization", b"Bearer secret")];
    let bad = route_request(&mut reg, &auth, &mut lim, 3, "/api/x", None, &prefixed);
    assert_eq!(status_and_body(bad).0, 401);
    let empty = vec![header("authorization", b"")];
    let bad = route_request(&mut reg, &auth, &mut lim, 4, "/api/x", None, &empty);
    assert_eq!(status_and_body(bad).0, 401);
}

#[test]
fn bearer_gate_reads_the_first_authorization_header() {
    let auth = BearerAuth("secret".to_string());
    let hs = vec![
        header("accept", b"secret"),
        header("authorization", b"secret"),
        header("authorization", b"other"),
    ];
    assert!(auth.authorize(&hs));
    let hs = vec![header("authorization", b"other"), header("authorization", b"secret")];
    assert!(!auth.authorize(&hs));
}

#[test]
fn empty_token_admits_everything() {
    let auth = BearerAuth(String::new());
    assert!(auth.authorize(&vec![]));
    assert!(auth.authorize(&vec![header("authorization", b"whatever")]));
}

#[test]
fn non_text_header_never_matches() {
    let auth = BearerAuth("s\u{1}".to_string());
    assert!(!auth.authorize(&vec![header("authorization", b"s\x01")]));
}

#[test]
fn upstream_failure_is_bad_gateway() {
    let rep = upstream_failure();
    assert_eq!(rep.status, 502);
    assert_eq!(rep.body, "Bad gateway");
    assert!(rep.headers.is_empty());
}

#[test]
fn unknown_service_and_empty_path_are_not_found() {
    let mut reg = BackendRegistry::new();
    reg.register("api", "http://127.0.0.1:9000");
    let auth = BearerAuth(String::new());
    let mut lim = open_limiter();
    let unknown = route_request(&mut reg, &auth, &mut lim, 1, "/unknown/anything", None, &vec![]);
    assert_eq!(status_and_body(unknown), (404, "Service not found".to_string()));
    let root = route_request(&mut reg, &auth, &mut lim, 2, "/", None, &vec![]);
    assert_eq!(status_and_body(root), (404, "No service specified".to_string()));
}

#[test]
fn only_one_leading_slash_is_skipped() {
    let mut reg = BackendRegistry::new();
    reg.register("api", "http://h:1/");
    let auth = BearerAuth(String::new());
    let mut lim = open_limiter();
    let r = route_request(&mut reg, &auth, &mut lim, 1, "//api/x", None, &vec![]);
    assert_eq!(status_and_body(r), (404, "No service specified".to_string()));
    let r = route_request(&mut reg, &auth, &mut lim, 2, "///api", None, &vec![]);
    assert_eq!(status_and_body(r), (404, "No service specified".to_string()));
    let r = route_request(&mut reg, &auth, &mut lim, 3, "api/x", None, &vec![]);
    assert_eq!(forwarded(r), "http://h:1/x");
    let r = route_request(&mut reg, &auth, &mut lim, 4, "/api", None, &vec![]);
    assert_eq!(forwarded(r), "http://h:1/");
    let r = route_request(&mut reg, &auth, &mut lim, 5, "/api/a//b/", Some(""), &vec![]);
    assert_eq!(forwarded(r), "http://h:1/a//b/?");
}

#[test]
fn rate_limit_answers_busy_then_recovers() {
    let mut reg = BackendRegistry::new();
    reg.register("api", "http://127.0.0.1:9000");
    let auth = BearerAuth(String::new());
    let mut lim = RateLimiter::new(1, 2, 0);
    for t in 0..2 {
        let r = route_request(&mut reg, &auth, &mut lim, t, "/api/x", None, &vec![]);
        assert_eq!(forwarded(r), "http://127.0.0.1:9000/x");
    }
    match route_request(&mut reg, &auth, &mut lim, 2, "/api/x", None, &vec![]) {
        RouteOutcome::Respond(rep) => {
            assert_eq!(rep.status, 503);
            assert_eq!(rep.headers.len(), 1);
            assert_eq!(rep.headers[0].name, "retry-after");
            assert_eq!(rep.headers[0].value, b"0".to_vec());
        }
        RouteOutcome::Forward(url) => panic!("expected 503, got a forward to {}", url),
    }
    let later = route_request(&mut reg, &auth, &mut lim, 1002, "/api/x", None, &vec![]);
    assert_eq!(forwarded(later), "http://127.0.0.1:9000/x");
}

#[test]
fn limiter_refills_per_millisecond_up_to_capacity() {
    let mut lim = RateLimiter::new(10, 1, 0);
    assert!(lim.try_acquire(0));
    assert!(!lim.try_acquire(99));
    assert!(lim.try_acquire(100));
    assert!(lim.try_acquire(10_000));
    assert!(!lim.try_acquire(10_000));
}

#[test]
fn zero_burst_holds_one_second_of_permits() {
    let mut lim = RateLimiter::new(2, 0, 5);
    assert!(lim.try_acquire(5));
    assert!(lim.try_acquire(5));
    assert!(!lim.try_acquire(5));
}

#[test]
fn rejected_request_leaves_the_limiter_alone() {
    let mut reg = BackendRegistry::new();
    reg.register("api", "http://127.0.0.1:9000");
    let auth = BearerAuth("t".to_string());
    let mut lim = RateLimiter::new(1, 1, 0);
    let r = route_request(&mut reg, &auth, &mut lim, 0, "/api", None, &vec![]);
    assert_eq!(status_and_body(r).0, 401);
    let ok = vec![header("authorization", b"t")];
    let r = route_request(&mut reg, &auth, &mut lim, 0, "/api", None, &ok);
    assert_eq!(forwarded(r), "http://127.0.0.1:9000/");
}

#[test]
fn upstream_status_is_relayed_when_valid() {
    assert_eq!(relay_status(200), 200);
    assert_eq!(relay_status(404), 404);
    assert_eq!(relay_status(999), 999);
    assert_eq!(relay_status(99), 500);
    assert_eq!(relay_status(1000), 500);
}

#[test]
fn only_textual_headers_are_passed_on() {
    let hs = vec![
        header("a", b"plain"),
        header("b", b"bin\x01ary"),
        header("c", b"tab\tok"),
        header("d", "caf\u{e9}".as_bytes()),
    ];
    let kept = textual_headers(&hs);
    let names: Vec<&str> = kept.iter().map(|h| h.name.as_str()).collect();
    assert_eq!(names, vec!["a", "c"]);
    assert_eq!(kept[1].value, b"tab\tok".to_vec());
}

#[test]
fn rewrite_trims_trailing_slashes_of_the_backend() {
    assert_eq!(rewrite_url("http://h:1///", "a/b", None), "http://h:1/a/b");
    assert_eq!(rewrite_url("http://h:1", "", Some("q=1&r=2")), "http://h:1/?q=1&r=2");
}

#[test]
fn service_names_may_be_any_text() {
    let mut reg = BackendRegistry::new();
    reg.register("caf\u{e9}", "http://h:1");
    let auth = BearerAuth(String::new());
    let mut lim = open_limiter();
    let r = route_request(&mut reg, &auth, &mut lim, 1, "/caf\u{e9}/\u{e9}t\u{e9}", None, &vec![]);
    assert_eq!(forwarded(r), "http://h:1/\u{e9}t\u{e9}");
}
