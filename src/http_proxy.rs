use vstd::prelude::*;

verus! {

use vstd::string::*;
use vstd::utf8::*;
use crate::backend_registry::BackendRegistry;
use crate::middleware::{
    admits,
    authorization_of,
    is_text,
    value_is_text,
    BearerAuth,
    HeaderField,
    RateLimiter,
};
use crate::text::{
    drop_leading_slash,
    head_segment,
    join_with,
    split_first_slash,
    strip_leading_slash,
    strip_trailing_slashes,
    tail_segment,
    trim_trailing_slashes,
    utf8,
    QUESTION_MARK,
    SLASH,
};

pub const STATUS_UNAUTHORIZED: u16 = 401;

pub const STATUS_NOT_FOUND: u16 = 404;

pub const STATUS_INTERNAL_ERROR: u16 = 500;

pub const STATUS_BAD_GATEWAY: u16 = 502;

pub const STATUS_UNAVAILABLE: u16 = 503;

/// A response that the gateway makes itself.
#[derive(Debug)]
pub struct Reply {
    pub status: u16,
    pub headers: Vec<HeaderField>,
    pub body: String,
}

/// What becomes of a request.
#[derive(Debug)]
pub enum RouteOutcome {
    /// Send it on to this URL.
    Forward(String),
    /// Answer it with this reply.
    Respond(Reply),
}

/// The headers of `hs` whose values read as text, in order.
pub open spec fn textual(hs: Seq<HeaderField>) -> Seq<HeaderField>
    decreases hs.len(),
{
    if hs.len() == 0 {
        hs
    } else if is_text(hs.last().value@) {
        textual(hs.drop_last()).push(hs.last())
    } else {
        textual(hs.drop_last())
    }
}

/// The status sent back for an upstream status `code`: itself when HTTP
/// accepts it, else 500.
pub open spec fn relayed_status(code: u16) -> u16 {
    if 100 <= code <= 999 {
        code
    } else {
        STATUS_INTERNAL_ERROR
    }
}

/// The service named by a request path: once one leading slash is gone,
/// what comes before the next slash.
pub open spec fn service_of(path: Seq<u8>) -> Seq<u8> {
    head_segment(drop_leading_slash(path))
}

/// The rest of a request path after its service segment.
pub open spec fn suffix_of(path: Seq<u8>) -> Seq<u8> {
    tail_segment(drop_leading_slash(path))
}

/// The URL a request goes to: the backend URL without trailing slashes, a
/// slash, the suffix, and the query when there is one.
pub open spec fn upstream_url(target: Seq<u8>, suffix: Seq<u8>, query: Option<Seq<u8>>) -> Seq<u8> {
    let base = trim_trailing_slashes(target) + seq![SLASH] + suffix;
    match query {
        Some(q) => base + seq![QUESTION_MARK] + q,
        None => base,
    }
}

/// The bytes of an optional query.
pub open spec fn query_bytes(query: Option<&str>) -> Option<Seq<u8>> {
    match query {
        Some(q) => Some(q.spec_bytes()),
        None => None,
    }
}

/// Whether `r` is the reply `status` with `body` and no header.
pub open spec fn is_reply(r: RouteOutcome, status: u16, body: Seq<char>) -> bool {
    match r {
        RouteOutcome::Respond(rep) => rep.status == status && rep.body@ == body
            && rep.headers@.len() == 0,
        RouteOutcome::Forward(_) => false,
    }
}

/// Whether `r` is the back-pressure reply: 503, empty, with `retry-after: 0`.
pub open spec fn is_busy_reply(r: RouteOutcome) -> bool {
    match r {
        RouteOutcome::Respond(rep) => {
            &&& rep.status == STATUS_UNAVAILABLE
            &&& rep.body@.len() == 0
            &&& rep.headers@.len() == 1
            &&& rep.headers@[0].name@ == "retry-after"@
            &&& rep.headers@[0].value@ == seq![48u8]
        },
        RouteOutcome::Forward(_) => false,
    }
}

/// Relies on `hyper::StatusCode::from_u16` (http 0.2): it accepts exactly
/// the codes from 100 to 999.
#[verifier::external_body]
fn status_code_accepted(code: u16) -> (r: bool)
    ensures
        r == (100 <= code && code <= 999),
{
    hyper::StatusCode::from_u16(code).is_ok()
}

/// The status sent back for what the upstream answered.
pub fn relay_status(code: u16) -> (r: u16)
    ensures
        r == relayed_status(code),
{
    if status_code_accepted(code) {
        code
    } else {
        STATUS_INTERNAL_ERROR
    }
}

/// The headers that are passed on, to the upstream or back to the client:
/// those whose values read as text, in order.
pub fn textual_headers(hs: &Vec<HeaderField>) -> (r: Vec<HeaderField>)
    ensures
        r@.len() == textual(hs@).len(),
        forall|i: int|
            0 <= i < r@.len() ==> #[trigger] r@[i].name@ == textual(hs@)[i].name@ && r@[i].value@
                == textual(hs@)[i].value@,
{
    let mut out: Vec<HeaderField> = Vec::new();
    let mut i: usize = 0;
    while i < hs.len()
        invariant
            0 <= i <= hs@.len(),
            out@.len() == textual(hs@.subrange(0, i as int)).len(),
            forall|k: int|
                0 <= k < out@.len() ==> #[trigger] out@[k].name@ == textual(
                    hs@.subrange(0, i as int),
                )[k].name@ && out@[k].value@ == textual(hs@.subrange(0, i as int))[k].value@,
        decreases hs@.len() - i,
    {
        let ghost before = hs@.subrange(0, i as int);
        let ghost after = hs@.subrange(0, i as int + 1);
        proof {
            assert(after.drop_last() =~= before);
            assert(after.last() == hs@[i as int]);
        }
        if value_is_text(hs[i].value.as_slice()) {
            let value = hs[i].value.clone();
            proof {
                assert(value@ =~= hs@[i as int].value@);
            }
            out.push(HeaderField { name: hs[i].name.clone(), value });
        }
        i = i + 1;
    }
    proof {
        assert(hs@.subrange(0, i as int) =~= hs@);
    }
    out
}

/// A reply with `status`, `body`, and no header.
fn reply(status: u16, body: &str) -> (r: RouteOutcome)
    ensures
        is_reply(r, status, body@),
{
    RouteOutcome::Respond(Reply { status, headers: Vec::new(), body: body.to_owned() })
}

/// The reply to a request that the upstream could not be reached for.
pub fn upstream_failure() -> (r: Reply)
    ensures
        r.status == STATUS_BAD_GATEWAY,
        r.body@ == "Bad gateway"@,
        r.headers@.len() == 0,
{
    Reply { status: STATUS_BAD_GATEWAY, headers: Vec::new(), body: "Bad gateway".to_owned() }
}

/// The URL a request for `suffix` and `query` goes to on backend `target`.
pub fn rewrite_url(target: &str, suffix: &str, query: Option<&str>) -> (r: String)
    ensures
        utf8(r@) == upstream_url(target.spec_bytes(), suffix.spec_bytes(), query_bytes(query)),
{
    let base = strip_trailing_slashes(target);
    proof {
        reveal_strlit("/");
        reveal_strlit("?");
    }
    let joined = join_with(base, "/", suffix);
    match query {
        None => joined,
        Some(q) => {
            let full = join_with(joined.as_str(), "?", q);
            proof {
                assert(utf8(full@) =~= upstream_url(
                    target.spec_bytes(),
                    suffix.spec_bytes(),
                    query_bytes(query),
                ));
            }
            full
        },
    }
}

/// Decides what becomes of an HTTP request, in this order: the bearer gate
/// (401), the rate limiter (503), the service segment of the path (404 when
/// empty), and a round-robin pick among its backends (404 when there is
/// none); a pick gives the URL that the request is sent on to.
pub fn route_request(
    registry: &mut BackendRegistry,
    auth: &BearerAuth,
    limiter: &mut RateLimiter,
    now_ms: u64,
    path: &str,
    query: Option<&str>,
    headers: &Vec<HeaderField>,
) -> (r: RouteOutcome)
    requires
        old(limiter).wf(),
    ensures
        !admits(auth.0@, authorization_of(headers@)) ==> {
            &&& is_reply(r, STATUS_UNAUTHORIZED, Seq::empty())
            &&& *final(limiter) == *old(limiter)
            &&& *final(registry) == *old(registry)
        },
        admits(auth.0@, authorization_of(headers@)) ==> final(limiter).after_acquire(
            old(limiter),
            now_ms as nat,
        ),
        admits(auth.0@, authorization_of(headers@)) && !old(limiter).has_permit_at(now_ms as nat)
            ==> {
            &&& is_busy_reply(r)
            &&& *final(registry) == *old(registry)
        },
        admits(auth.0@, authorization_of(headers@)) && old(limiter).has_permit_at(now_ms as nat)
            && service_of(path.spec_bytes()).len() == 0 ==> {
            &&& is_reply(r, STATUS_NOT_FOUND, "No service specified"@)
            &&& *final(registry) == *old(registry)
        },
        admits(auth.0@, authorization_of(headers@)) && old(limiter).has_permit_at(now_ms as nat)
            && service_of(path.spec_bytes()).len() > 0 ==> {
            let name = decode_utf8(service_of(path.spec_bytes()));
            &&& final(registry).after_pick(old(registry), name)
            &&& match old(registry).pick_result(name) {
                None => is_reply(r, STATUS_NOT_FOUND, "Service not found"@),
                Some(u) => match r {
                    RouteOutcome::Forward(url) => utf8(url@) == upstream_url(
                        utf8(u),
                        suffix_of(path.spec_bytes()),
                        query_bytes(query),
                    ),
                    RouteOutcome::Respond(_) => false,
                },
            }
        },
{
    if !auth.authorize(headers) {
        proof {
            reveal_strlit("");
            assert(""@ =~= Seq::<char>::empty());
        }
        return reply(STATUS_UNAUTHORIZED, "");
    }
    if !limiter.try_acquire(now_ms) {
        let mut hs: Vec<HeaderField> = Vec::new();
        let mut zero: Vec<u8> = Vec::new();
        zero.push(48u8);
        hs.push(HeaderField { name: "retry-after".to_owned(), value: zero });
        proof {
            assert(zero@ =~= seq![48u8]);
        }
        return RouteOutcome::Respond(
            Reply { status: STATUS_UNAVAILABLE, headers: hs, body: String::new() },
        );
    }
    let trimmed = strip_leading_slash(path);
    let (service, suffix) = split_first_slash(trimmed);
    if service.as_bytes().len() == 0 {
        return reply(STATUS_NOT_FOUND, "No service specified");
    }
    proof {
        encode_utf8_decode_utf8(service@);
    }
    match registry.pick_one(service) {
        None => reply(STATUS_NOT_FOUND, "Service not found"),
        Some(target) => RouteOutcome::Forward(rewrite_url(target.as_str(), suffix, query)),
    }
}

} // verus!
