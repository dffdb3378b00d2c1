use vstd::prelude::*;

verus! {

use vstd::string::*;
use vstd::utf8::*;
use crate::backend_registry::BackendRegistry;
use crate::middleware::{is_text, value_is_text};

/// The status codes with which the gRPC proxy refuses a call itself.
#[derive(Clone, Copy, Debug, PartialEq, Eq, Structural)]
pub enum GrpcCode {
    InvalidArgument,
    Unavailable,
    Internal,
}

/// A refusal of a gRPC call: its code and message.
#[derive(Debug)]
pub struct GrpcStatus {
    pub code: GrpcCode,
    pub message: String,
}

/// Whether `r` is the refusal `code` with `message`.
pub open spec fn is_refusal(r: Result<String, GrpcStatus>, code: GrpcCode, message: Seq<char>) -> bool {
    match r {
        Err(s) => s.code == code && s.message@ == message,
        Ok(_) => false,
    }
}

/// Relies on `std::str::from_utf8`, which accepts exactly the valid UTF-8
/// byte strings and then reads the same bytes as text.
#[verifier::external_body]
fn utf8_text(b: &[u8]) -> (r: Option<&str>)
    ensures
        r is Some <==> valid_utf8(b@),
        r matches Some(s) ==> s.spec_bytes() == b@,
{
    std::str::from_utf8(b).ok()
}

proof fn lemma_text_is_utf8(v: Seq<u8>)
    requires
        is_text(v),
    ensures
        valid_utf8(v),
    decreases v.len(),
{
    if v.len() > 0 {
        assert(is_text(v.drop_first())) by {
            assert forall|i: int| 0 <= i < v.drop_first().len() implies #[trigger] v.drop_first()[i]
                == v[i + 1] by {}
        }
        lemma_text_is_utf8(v.drop_first());
        assert(v[0] < 128);
        assert(v.subrange(1, v.len() as int) =~= v.drop_first());
    }
}

/// Picks the backend of a gRPC call from the value of its `service-name`
/// metadata: missing, or not text, is an invalid argument; a service
/// without backends is unavailable; otherwise the round-robin pick.
pub fn select_grpc_backend(registry: &mut BackendRegistry, service_name: Option<&[u8]>) -> (r:
    Result<String, GrpcStatus>)
    ensures
        service_name is None ==> {
            &&& is_refusal(r, GrpcCode::InvalidArgument, "Missing service-name header"@)
            &&& *final(registry) == *old(registry)
        },
        service_name matches Some(v) && !is_text(v@) ==> {
            &&& is_refusal(r, GrpcCode::InvalidArgument, "Invalid service-name header"@)
            &&& *final(registry) == *old(registry)
        },
        match service_name {
            Some(v) => is_text(v@) ==> {
                let name = decode_utf8(v@);
                &&& final(registry).after_pick(old(registry), name)
                &&& match old(registry).pick_result(name) {
                    None => is_refusal(r, GrpcCode::Unavailable, "No backend available"@),
                    Some(u) => r matches Ok(url) && url@ == u,
                }
            },
            None => true,
        },
{
    let v = match service_name {
        None => {
            return Err(
                GrpcStatus {
                    code: GrpcCode::InvalidArgument,
                    message: "Missing service-name header".to_owned(),
                },
            );
        },
        Some(v) => v,
    };
    if !value_is_text(v) {
        return Err(
            GrpcStatus {
                code: GrpcCode::InvalidArgument,
                message: "Invalid service-name header".to_owned(),
            },
        );
    }
    proof {
        lemma_text_is_utf8(v@);
    }
    let name = match utf8_text(v) {
        Some(s) => s,
        None => {
            return Err(
                GrpcStatus {
                    code: GrpcCode::InvalidArgument,
                    message: "Invalid service-name header".to_owned(),
                },
            );
        },
    };
    proof {
        encode_utf8_decode_utf8(name@);
    }
    match registry.pick_one(name) {
        Some(url) => Ok(url),
        None => Err(
            GrpcStatus { code: GrpcCode::Unavailable, message: "No backend available".to_owned() },
        ),
    }
}

} // verus!
