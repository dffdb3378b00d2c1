use vstd::prelude::*;

verus! {

use crate::backend_registry::{texts, BackendRegistry};
use crate::middleware::{BearerAuth, RateLimiter};

pub const DEFAULT_GRPC_PORT: u16 = 50051;

pub const DEFAULT_TCP_PORT: u16 = 9100;

pub const DEFAULT_UDP_PORT: u16 = 9200;

/// The gateway's settings.
#[derive(Debug)]
pub struct Config {
    pub http_port: u16,
    /// HTTPS port; the HTTP port plus one when absent.
    pub https_port: Option<u16>,
    /// gRPC port; 50051 when absent.
    pub grpc_port: Option<u16>,
    /// First TCP relay port; 9100 when absent.
    pub tcp_port: Option<u16>,
    /// First UDP relay port; 9200 when absent.
    pub udp_port: Option<u16>,
    pub auth: Auth,
    pub tls: Tls,
    pub backends: Vec<Backend>,
    pub consul_url: String,
    pub tls_mode: String,
    pub tls_domain: String,
    pub tls_email: String,
    /// What the `authorization` header of HTTP requests must hold; empty lets every request in.
    pub bearer_token: String,
    pub rate_limit_per_sec: u32,
    pub rate_limit_burst: u32,
}

/// Identity providers, listed for information only.
#[derive(Debug)]
pub struct Auth {
    pub oidc_providers: Vec<OidcProvider>,
}

#[derive(Debug)]
pub struct OidcProvider {
    pub name: String,
    pub issuer_url: String,
    pub audience: String,
}

/// Where the certificate chain and the private key lie, as PEM files.
#[derive(Debug)]
pub struct Tls {
    pub cert_path: String,
    pub key_path: String,
}

/// A configured backend: its service, protocol (`http`, `https`, `grpc`,
/// `tcp` or `udp`), and address.
#[derive(Debug)]
pub struct Backend {
    pub name: String,
    pub protocol: String,
    pub address: String,
    pub routes: Vec<String>,
}

/// The addresses of the backends of `bs` named `name`, in order.
pub open spec fn addresses_named(bs: Seq<Backend>, name: Seq<char>) -> Seq<Seq<char>>
    decreases bs.len(),
{
    if bs.len() == 0 {
        Seq::empty()
    } else if bs.last().name@ == name {
        addresses_named(bs.drop_last(), name).push(bs.last().address@)
    } else {
        addresses_named(bs.drop_last(), name)
    }
}

/// The service names of the backends of `bs` with `protocol`, each once, in
/// order of first appearance.
pub open spec fn services_with(bs: Seq<Backend>, protocol: Seq<char>) -> Seq<Seq<char>>
    decreases bs.len(),
{
    if bs.len() == 0 {
        Seq::empty()
    } else {
        let earlier = services_with(bs.drop_last(), protocol);
        if bs.last().protocol@ == protocol && !earlier.contains(bs.last().name@) {
            earlier.push(bs.last().name@)
        } else {
            earlier
        }
    }
}

fn contains_text(v: &Vec<String>, s: &String) -> (r: bool)
    ensures
        r == texts(v@).contains(s@),
{
    let mut i: usize = 0;
    while i < v.len()
        invariant
            0 <= i <= v@.len(),
            forall|j: int| 0 <= j < i ==> v@[j]@ != s@,
        decreases v@.len() - i,
    {
        if v[i] == *s {
            proof {
                assert(texts(v@)[i as int] == s@);
            }
            return true;
        }
        i = i + 1;
    }
    proof {
        if texts(v@).contains(s@) {
            let k = choose|k: int|
                0 <= k < v@.len() && #[trigger] texts(v@)[k] == s@;
            assert(v@[k]@ == s@);
        }
    }
    false
}

impl Config {
    /// The HTTPS port: the one configured, else the HTTP port plus one
    /// (none when the HTTP port is the last one).
    pub fn https_port_or_default(&self) -> (r: Option<u16>)
        ensures
            r == match self.https_port {
                Some(p) => Some(p),
                None => if self.http_port < u16::MAX {
                    Some((self.http_port + 1) as u16)
                } else {
                    None
                },
            },
    {
        match self.https_port {
            Some(p) => Some(p),
            None => if self.http_port < u16::MAX {
                Some(self.http_port + 1)
            } else {
                None
            },
        }
    }

    /// The gRPC port: the one configured, else 50051.
    pub fn grpc_port_or_default(&self) -> (r: u16)
        ensures
            r == match self.grpc_port {
                Some(p) => p,
                None => DEFAULT_GRPC_PORT,
            },
    {
        match self.grpc_port {
            Some(p) => p,
            None => DEFAULT_GRPC_PORT,
        }
    }

    /// The first TCP relay port: the one configured, else 9100.
    pub fn tcp_port_or_default(&self) -> (r: u16)
        ensures
            r == match self.tcp_port {
                Some(p) => p,
                None => DEFAULT_TCP_PORT,
            },
    {
        match self.tcp_port {
            Some(p) => p,
            None => DEFAULT_TCP_PORT,
        }
    }

    /// The first UDP relay port: the one configured, else 9200.
    pub fn udp_port_or_default(&self) -> (r: u16)
        ensures
            r == match self.udp_port {
                Some(p) => p,
                None => DEFAULT_UDP_PORT,
            },
    {
        match self.udp_port {
            Some(p) => p,
            None => DEFAULT_UDP_PORT,
        }
    }

    /// The bearer-token gate that the settings ask for.
    pub fn bearer_auth(&self) -> (r: BearerAuth)
        ensures
            r.0@ == self.bearer_token@,
    {
        BearerAuth(self.bearer_token.clone())
    }

    /// A full rate limiter of `rate_limit_burst` permits gaining
    /// `rate_limit_per_sec` permits a second.
    pub fn rate_limiter(&self, now_ms: u64) -> (r: RateLimiter)
        ensures
            r.wf(),
            r.capacity() == if self.rate_limit_burst > 0 {
                self.rate_limit_burst as nat
            } else {
                self.rate_limit_per_sec as nat
            },
            r.per_sec() == self.rate_limit_per_sec,
            r.level() == r.capacity() * 1000,
            r.last_ms() == now_ms,
    {
        RateLimiter::new(self.rate_limit_per_sec, self.rate_limit_burst, now_ms)
    }

    /// A registry holding every configured backend under its service name,
    /// in the order of the settings, with every cursor at 0.
    pub fn build_registry(&self) -> (r: BackendRegistry)
        ensures
            forall|n: Seq<char>|
                #![auto]
                r.backends(n) == addresses_named(self.backends@, n) && r.cursor(n) == 0,
    {
        let mut reg = BackendRegistry::new();
        let mut i: usize = 0;
        while i < self.backends.len()
            invariant
                0 <= i <= self.backends@.len(),
                forall|n: Seq<char>|
                    #![auto]
                    reg.backends(n) == addresses_named(self.backends@.subrange(0, i as int), n)
                        && reg.cursor(n) == 0,
            decreases self.backends@.len() - i,
        {
            let ghost before = reg;
            let b = &self.backends[i];
            reg.register(b.name.as_str(), b.address.as_str());
            proof {
                let done = self.backends@.subrange(0, i as int + 1);
                assert(done.drop_last() =~= self.backends@.subrange(0, i as int));
                assert(done.last() == self.backends@[i as int]);
                assert forall|n: Seq<char>|
                    #![auto]
                    reg.backends(n) == addresses_named(done, n) && reg.cursor(n) == 0 by {
                    if n != b.name@ {
                        assert(before.backends(n) == addresses_named(
                            self.backends@.subrange(0, i as int),
                            n,
                        ));
                    }
                }
            }
            i = i + 1;
        }
        proof {
            assert(self.backends@.subrange(0, i as int) =~= self.backends@);
        }
        reg
    }

    /// The services of the relay listeners for `protocol` (`tcp` or `udp`),
    /// with their ports: the i-th service, in order of first appearance
    /// among the backends, listens on `base + i`, while that is a port.
    pub fn relay_listeners(&self, protocol: &str, base: u16) -> (r: Vec<(String, u16)>)
        ensures
            r@.len() == if services_with(self.backends@, protocol@).len() <= 65536 - base {
                services_with(self.backends@, protocol@).len() as int
            } else {
                65536 - base
            },
            forall|i: int|
                0 <= i < r@.len() ==> #[trigger] r@[i].0@ == services_with(
                    self.backends@,
                    protocol@,
                )[i] && r@[i].1 == base + i,
    {
        let wanted = protocol.to_owned();
        let mut names: Vec<String> = Vec::new();
        let mut i: usize = 0;
        while i < self.backends.len()
            invariant
                wanted@ == protocol@,
                0 <= i <= self.backends@.len(),
                texts(names@) == services_with(
                    self.backends@.subrange(0, i as int),
                    protocol@,
                ),
            decreases self.backends@.len() - i,
        {
            let ghost prev = names@;
            proof {
                let done = self.backends@.subrange(0, i as int + 1);
                assert(done.drop_last() =~= self.backends@.subrange(0, i as int));
                assert(done.last() == self.backends@[i as int]);
            }
            if self.backends[i].protocol == wanted && !contains_text(&names, &self.backends[i].name) {
                names.push(self.backends[i].name.clone());
                proof {
                    assert(texts(names@) =~= texts(prev).push(
                        self.backends@[i as int].name@,
                    ));
                }
            }
            i = i + 1;
        }
        proof {
            assert(self.backends@.subrange(0, i as int) =~= self.backends@);
        }
        let mut out: Vec<(String, u16)> = Vec::new();
        let mut k: usize = 0;
        let mut port: u32 = base as u32;
        while k < names.len() && port <= 65535
            invariant
                texts(names@) == services_with(self.backends@, protocol@),
                0 <= k <= names@.len(),
                port == base + k,
                port <= 65536,
                out@.len() == k,
                forall|j: int|
                    0 <= j < k ==> #[trigger] out@[j].0@ == names@[j]@ && out@[j].1 == base + j,
            decreases names@.len() - k,
        {
            out.push((names[k].clone(), port as u16));
            k = k + 1;
            port = port + 1;
        }
        proof {
            assert forall|i: int| 0 <= i < out@.len() implies #[trigger] out@[i].0@ == services_with(
                self.backends@,
                protocol@,
            )[i] && out@[i].1 == base + i by {
                assert(texts(names@)[i] == names@[i]@);
            }
        }
        out
    }
}

} // verus!
