use polygate::tls_config::{
    alpn_protocols, select_certificates, select_private_key, PemBlock, TlsConfig, TlsError,
};

const CERT_PEM: &str = "-----BEGIN CERTIFICATE-----
MIIBfDCCASOgAwIBAgIUAOhJ8luc48JdzVMJ4ERR/R25klwwCgYIKoZIzj0EAwIw
FDESMBAGA1UEAwwJbG9jYWxob3N0MB4XDTI2MTAxODAyMjgxMVoXDTM2MTAxNTAy
MjgxMVowFDESMBAGA1UEAwwJbG9jYWxob3N0MFkwEwYHKoZIzj0CAQYIKoZIzj0D
AQcDQgAEC2jhJdqZbdgPvyyh0A6UbZ4ieyi65pl/7SkQXhQGKxpcBDSDJb9BhZi6
iGppx7MEw3wvPMPRan5HFXiZ4jMWUKNTMFEwHQYDVR0OBBYEFEV5cA8c2RIhQ6Ww
WjoU3GS2uv0nMB8GA1UdIwQYMBaAFEV5cA8c2RIhQ6WwWjoU3GS2uv0nMA8GA1Ud
EwEB/wQFMAMBAf8wCgYIKoZIzj0EAwIDRwAwRAIgUx//RR79g6Ge05hcrnpdqNId
8Xxdeeb5vPD2XHgEFf4CIFqOPV/OESsM+EhTgNABEch9xbWF1wB3JakrzH3GOdNa
-----END CERTIFICATE-----
";

const KEY_DER: [u8; 138] = [
    0x30, 0x81, 0x87, 0x02, 0x01, 0x00, 0x30, 0x13, 0x06, 0x07, 0x2a, 0x86,
    0x48, 0xce, 0x3d, 0x02, 0x01, 0x06, 0x08, 0x2a, 0x86, 0x48, 0xce, 0x3d,
    0x03, 0x01, 0x07, 0x04, 0x6d, 0x30, 0x6b, 0x02, 0x01, 0x01, 0x04, 0x20,
    0x49, 0xb0, 0x8d, 0x46, 0x72, 0xe7, 0x28, 0x26, 0x63, 0xbe, 0x6b, 0x20,
    0x0c, 0x7a, 0x33, 0xf1, 0x48, 0x01, 0x87, 0x15, 0x76, 0xde, 0xab, 0x55,
    0x61, 0x4d, 0x3a, 0xde, 0x35, 0x88, 0x66, 0x4d, 0xa1, 0x44, 0x03, 0x42,
    0x00, 0x04, 0x0b, 0x68, 0xe1, 0x25, 0xda, 0x99, 0x6d, 0xd8, 0x0f, 0xbf,
    0x2c, 0xa1, 0xd0, 0x0e, 0x94, 0x6d, 0x9e, 0x22, 0x7b, 0x28, 0xba, 0xe6,
    0x99, 0x7f, 0xed, 0x29, 0x10, 0x5e, 0x14, 0x06, 0x2b, 0x1a, 0x5c, 0x04,
    0x34, 0x83, 0x25, 0xbf, 0x41, 0x85, 0x98, 0xba, 0x88, 0x6a, 0x69, 0xc7,
    0xb3, 0x04, 0xc3, 0x7c, 0x2f, 0x3c, 0xc3, 0xd1, 0x6a, 0x7e, 0x47, 0x15,
    0x78, 0x99, 0xe2, 0x33, 0x16, 0x50,
];

/// The test key as PEM text, built from its DER bytes.
fn key_pem() -> String {
    pem::encode(&pem::Pem::new("PRIVATE KEY", KEY_DER.to_vec()))
}

fn block(tag: &str, contents: &[u8]) -> PemBlock {
    PemBlock { tag: tag.to_string(), contents: contents.to_vec() }
}

#[test]
fn alpn_offers_h2_then_http11() {
    assert_eq!(alpn_protocols(), vec![b"h2".to_vec(), b"http/1.1".to_vec()]);
}

#[test]
fn tls_loads_with_alpn() {
    let cfg = TlsConfig::load(CERT_PEM.as_bytes(), key_pem().as_bytes()).expect("loads");
    assert_eq!(cfg.alpn_protocols, vec![b"h2".to_vec(), b"http/1.1".to_vec()]);
}

#[test]
fn tls_without_certificates_is_refused() {
    let r = TlsConfig::load(b"no pem here", key_pem().as_bytes());
    assert!(matches!(r, Err(TlsError::NoCertificates)));
    let r = TlsConfig::load(key_pem().as_bytes(), key_pem().as_bytes());
    assert!(matches!(r, Err(TlsError::NoCertificates)));
}

#[test]
fn tls_with_undecodable_pem_is_malformed() {
    let bad = "-----BEGIN CERTIFICATE-----\n!!!!\n-----END CERTIFICATE-----\n";
    let r = TlsConfig::load(bad.as_bytes(), key_pem().as_bytes());
    assert!(matches!(r, Err(TlsError::MalformedPem)));
    let r = TlsConfig::load(CERT_PEM.as_bytes(), bad.as_bytes());
    assert!(matches!(r, Err(TlsError::MalformedPem)));
}

#[test]
fn tls_without_key_is_refused() {
    let r = TlsConfig::load(CERT_PEM.as_bytes(), CERT_PEM.as_bytes());
    assert!(matches!(r, Err(TlsError::NoPrivateKey)));
}

#[test]
fn tls_with_unreadable_key_is_an_invalid_pair() {
    let junk = pem::encode(&pem::Pem::new("RSA PRIVATE KEY", vec![0u8, 1, 2, 3, 4, 5]));
    let r = TlsConfig::load(CERT_PEM.as_bytes(), junk.as_bytes());
    assert!(matches!(r, Err(TlsError::InvalidKeyPair)));
}

#[test]
fn only_certificate_blocks_make_the_chain() {
    let blocks = vec![
        block("CERTIFICATE", b"leaf"),
        block("PRIVATE KEY", b"k"),
        block("X509 CRL", b"crl"),
        block("CERTIFICATE", b"root"),
    ];
    assert_eq!(select_certificates(&blocks), vec![b"leaf".to_vec(), b"root".to_vec()]);
}

#[test]
fn first_private_key_block_is_the_key() {
    let blocks = vec![
        block("CERTIFICATE", b"c"),
        block("EC PARAMETERS", b"p"),
        block("EC PRIVATE KEY", b"first"),
        block("PRIVATE KEY", b"second"),
    ];
    assert_eq!(select_private_key(&blocks), Some(b"first".to_vec()));
    assert_eq!(select_private_key(&vec![block("PUBLIC KEY", b"x")]), None);
    assert_eq!(select_private_key(&vec![]), None);
}
