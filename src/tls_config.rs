use vstd::prelude::*;
use std::sync::Arc;
use tokio_rustls::rustls::{Certificate, PrivateKey, ServerConfig};
use tokio_rustls::TlsAcceptor;

verus! {

use vstd::string::*;
use crate::text::utf8;

#[verifier::external_type_specification]
#[verifier::external_body]
pub struct ExTlsAcceptor(TlsAcceptor);

#[verifier::external_type_specification]
#[verifier::external_body]
pub struct ExRustlsError(tokio_rustls::rustls::Error);

/// A PEM section: its label and its decoded contents.
#[derive(Clone, Debug)]
pub struct PemBlock {
    pub tag: String,
    pub contents: Vec<u8>,
}

impl View for PemBlock {
    type V = (Seq<char>, Seq<u8>);

    open spec fn view(&self) -> (Seq<char>, Seq<u8>) {
        (self.tag@, self.contents@)
    }
}

/// Why the TLS settings could not be built.
#[derive(Debug)]
pub enum TlsError {
    /// A file could not be read.
    Io(String),
    /// The text does not parse as PEM.
    MalformedPem,
    /// The certificate file holds no `CERTIFICATE` section.
    NoCertificates,
    /// The key file holds no `... PRIVATE KEY` section.
    NoPrivateKey,
    /// The TLS engine refused the key.
    InvalidKeyPair,
}

/// The PEM sections of `input`, or `None` when it does not parse.
pub uninterp spec fn pem_sections(input: Seq<u8>) -> Option<Seq<(Seq<char>, Seq<u8>)>>;

/// The contents of the `CERTIFICATE` sections of `blocks`, in order.
pub open spec fn certificate_chain(blocks: Seq<(Seq<char>, Seq<u8>)>) -> Seq<Seq<u8>>
    decreases blocks.len(),
{
    if blocks.len() == 0 {
        Seq::empty()
    } else if blocks.last().0 == "CERTIFICATE"@ {
        certificate_chain(blocks.drop_last()).push(blocks.last().1)
    } else {
        certificate_chain(blocks.drop_last())
    }
}

/// Whether `s` ends with `suffix`.
pub open spec fn ends_with(s: Seq<u8>, suffix: Seq<u8>) -> bool {
    s.len() >= suffix.len() && s.subrange(s.len() - suffix.len(), s.len() as int) == suffix
}

/// Whether a section label names a private key (`PRIVATE KEY`,
/// `RSA PRIVATE KEY`, `EC PRIVATE KEY`, ...).
pub open spec fn is_key_tag(tag: Seq<char>) -> bool {
    ends_with(utf8(tag), utf8("PRIVATE KEY"@))
}

/// The contents of the first private-key section of `blocks`.
pub open spec fn first_private_key(blocks: Seq<(Seq<char>, Seq<u8>)>) -> Option<Seq<u8>>
    decreases blocks.len(),
{
    if blocks.len() == 0 {
        None
    } else if is_key_tag(blocks[0].0) {
        Some(blocks[0].1)
    } else {
        first_private_key(blocks.drop_first())
    }
}

/// The protocols offered in ALPN, most preferred first: `h2`, `http/1.1`.
pub open spec fn alpn_offer() -> Seq<Seq<u8>> {
    seq![utf8("h2"@), utf8("http/1.1"@)]
}

/// The certificate chain and key that PEM texts give, or why they give none.
pub open spec fn tls_material(cert_pem: Seq<u8>, key_pem: Seq<u8>) -> Result<
    (Seq<Seq<u8>>, Seq<u8>),
    TlsError,
> {
    match pem_sections(cert_pem) {
        None => Err(TlsError::MalformedPem),
        Some(cb) => if certificate_chain(cb).len() == 0 {
            Err(TlsError::NoCertificates)
        } else {
            match pem_sections(key_pem) {
                None => Err(TlsError::MalformedPem),
                Some(kb) => match first_private_key(kb) {
                    None => Err(TlsError::NoPrivateKey),
                    Some(k) => Ok((certificate_chain(cb), k)),
                },
            }
        },
    }
}

/// The contents of each byte string of a sequence.
pub open spec fn byte_strings(v: Seq<Vec<u8>>) -> Seq<Seq<u8>> {
    v.map_values(|b: Vec<u8>| b@)
}

/// Relies on `pem::parse_many` (pem 3), which reads every PEM section of
/// its input, each with its label and decoded contents, and fails on a
/// section it cannot decode; it depends on nothing but the input.
#[verifier::external_body]
fn parse_pem(input: &[u8]) -> (r: Option<Vec<PemBlock>>)
    ensures
        match r {
            Some(v) => pem_sections(input@) == Some(v@.map_values(|b: PemBlock| b@)),
            None => pem_sections(input@) is None,
        },
{
    pem::parse_many(input).ok().map(
        |v| v.into_iter().map(|p| PemBlock { tag: p.tag().to_owned(), contents: p.into_contents() }).collect(),
    )
}

/// Relies on rustls 0.21's `ServerConfig::builder()` with safe defaults, no
/// client authentication and `with_single_cert`, which fails when it cannot
/// read the key; the engine offers `alpn` in ALPN. Wrapped by
/// `tokio_rustls::TlsAcceptor::from`.
#[verifier::external_body]
fn build_acceptor(chain: Vec<Vec<u8>>, key: Vec<u8>, alpn: Vec<Vec<u8>>) -> (r: Result<
    TlsAcceptor,
    tokio_rustls::rustls::Error,
>)
    requires
        chain@.len() > 0,
        byte_strings(alpn@) == alpn_offer(),
{
    let certs = chain.into_iter().map(Certificate).collect();
    let mut config = ServerConfig::builder().with_safe_defaults().with_no_client_auth().with_single_cert(
        certs,
        PrivateKey(key),
    )?;
    config.alpn_protocols = alpn;
    Ok(TlsAcceptor::from(Arc::new(config)))
}

fn label_is_key(tag: &String) -> (r: bool)
    ensures
        r == is_key_tag(tag@),
{
    let t = tag.as_str().as_bytes();
    let s = "PRIVATE KEY".as_bytes();
    if t.len() < s.len() {
        return false;
    }
    let off = t.len() - s.len();
    let tl = t.len();
    let mut i: usize = 0;
    while i < s.len()
        invariant
            t@ == utf8(tag@),
            s@ == utf8("PRIVATE KEY"@),
            off + s@.len() == t@.len(),
            tl == t@.len(),
            0 <= i <= s@.len(),
            forall|j: int| 0 <= j < i ==> t@[off + j] == s@[j],
        decreases s@.len() - i,
    {
        if t[off + i] != s[i] {
            proof {
                assert(t@.subrange(off as int, t@.len() as int)[i as int] != s@[i as int]);
            }
            return false;
        }
        i = i + 1;
    }
    proof {
        assert(t@.subrange(off as int, t@.len() as int) =~= s@);
    }
    true
}

/// The contents of the `CERTIFICATE` sections, in order.
pub fn select_certificates(blocks: &Vec<PemBlock>) -> (r: Vec<Vec<u8>>)
    ensures
        byte_strings(r@) == certificate_chain(blocks@.map_values(|b: PemBlock| b@)),
{
    let ghost all = blocks@.map_values(|b: PemBlock| b@);
    let label = "CERTIFICATE".to_owned();
    let mut out: Vec<Vec<u8>> = Vec::new();
    let mut i: usize = 0;
    while i < blocks.len()
        invariant
            label@ == "CERTIFICATE"@,
            all == blocks@.map_values(|b: PemBlock| b@),
            0 <= i <= blocks@.len(),
            byte_strings(out@) == certificate_chain(all.subrange(0, i as int)),
        decreases blocks@.len() - i,
    {
        proof {
            assert(all.subrange(0, i as int + 1).drop_last() =~= all.subrange(0, i as int));
            assert(all.subrange(0, i as int + 1).last() == blocks@[i as int]@);
        }
        if blocks[i].tag == label {
            let ghost prev = out@;
            let contents = blocks[i].contents.clone();
            proof {
                assert(contents@ =~= blocks@[i as int].contents@);
            }
            out.push(contents);
            proof {
                assert(byte_strings(out@) =~= byte_strings(prev).push(contents@));
            }
        }
        i = i + 1;
    }
    proof {
        assert(all.subrange(0, i as int) =~= all);
    }
    out
}

/// The contents of the first private-key section.
pub fn select_private_key(blocks: &Vec<PemBlock>) -> (r: Option<Vec<u8>>)
    ensures
        match r {
            Some(k) => first_private_key(blocks@.map_values(|b: PemBlock| b@)) == Some(k@),
            None => first_private_key(blocks@.map_values(|b: PemBlock| b@)) is None,
        },
{
    let ghost all = blocks@.map_values(|b: PemBlock| b@);
    let mut i: usize = 0;
    proof {
        assert(all.subrange(0, all.len() as int) =~= all);
    }
    while i < blocks.len()
        invariant
            all == blocks@.map_values(|b: PemBlock| b@),
            0 <= i <= blocks@.len(),
            first_private_key(all) == first_private_key(all.subrange(i as int, all.len() as int)),
        decreases blocks@.len() - i,
    {
        proof {
            assert(all.subrange(i as int, all.len() as int).drop_first() =~= all.subrange(
                i as int + 1,
                all.len() as int,
            ));
            assert(all.subrange(i as int, all.len() as int)[0] == blocks@[i as int]@);
        }
        if label_is_key(&blocks[i].tag) {
            let key = blocks[i].contents.clone();
            proof {
                assert(key@ =~= blocks@[i as int].contents@);
            }
            return Some(key);
        }
        i = i + 1;
    }
    None
}

/// The ALPN protocols offered: `h2`, then `http/1.1`.
pub fn alpn_protocols() -> (r: Vec<Vec<u8>>)
    ensures
        byte_strings(r@) == alpn_offer(),
{
    let h2 = vstd::slice::slice_to_vec("h2".as_bytes());
    let h1 = vstd::slice::slice_to_vec("http/1.1".as_bytes());
    let mut r: Vec<Vec<u8>> = Vec::new();
    r.push(h2);
    r.push(h1);
    proof {
        assert(byte_strings(r@) =~= alpn_offer());
    }
    r
}

/// The TLS engine of the HTTPS listener, and what it was built with.
pub struct TlsConfig {
    pub acceptor: TlsAcceptor,
    pub alpn_protocols: Vec<Vec<u8>>,
}

impl TlsConfig {
    /// Builds the TLS engine from the PEM text of a certificate chain and of
    /// a private key: every `CERTIFICATE` section makes the chain, in order,
    /// and the first section whose label ends in `PRIVATE KEY` is the key.
    /// Client authentication is off and ALPN offers `h2`, then `http/1.1`.
    pub fn load(cert_pem: &[u8], key_pem: &[u8]) -> (r: Result<TlsConfig, TlsError>)
        ensures
            match tls_material(cert_pem@, key_pem@) {
                Err(e) => r matches Err(f) && f == e,
                Ok(_) => match r {
                    Ok(cfg) => byte_strings(cfg.alpn_protocols@) == alpn_offer(),
                    Err(f) => f is InvalidKeyPair,
                },
            },
    {
        let cert_blocks = match parse_pem(cert_pem) {
            None => return Err(TlsError::MalformedPem),
            Some(b) => b,
        };
        let chain = select_certificates(&cert_blocks);
        if chain.len() == 0 {
            return Err(TlsError::NoCertificates);
        }
        let key_blocks = match parse_pem(key_pem) {
            None => return Err(TlsError::MalformedPem),
            Some(b) => b,
        };
        let key = match select_private_key(&key_blocks) {
            None => return Err(TlsError::NoPrivateKey),
            Some(k) => k,
        };
        let offered = alpn_protocols();
        let alpn = offered.clone();
        proof {
            assert forall|i: int| 0 <= i < alpn@.len() implies #[trigger] alpn@[i]@ == offered@[i]@ by {
                assert(alpn@[i]@ =~= offered@[i]@);
            }
            assert(byte_strings(alpn@) =~= byte_strings(offered@));
        }
        match build_acceptor(chain, key, alpn) {
            Ok(acceptor) => Ok(TlsConfig { acceptor, alpn_protocols: offered }),
            Err(_) => Err(TlsError::InvalidKeyPair),
        }
    }
}

} // verus!
