//! Transport Layer Security.
//!
//! A node offers one certificate chain, to the nodes that connect to it and
//! to the nodes that it connects to. [`init`] makes the two configurations
//! from the PEM text of the chain and of its private key.

use std::sync::Arc;
use vstd::prelude::*;

verus! {

/// The configuration of the accepting side, of `rustls`.
#[verifier::external_type_specification]
#[verifier::external_body]
pub struct ExServerConfig(rustls::ServerConfig);

/// The configuration of the connecting side, of `rustls`.
#[verifier::external_type_specification]
#[verifier::external_body]
pub struct ExClientConfig(rustls::ClientConfig);

/// A certificate in DER, of `rustls`.
#[verifier::external_type_specification]
#[verifier::external_body]
pub struct ExCertificateDer<'a>(rustls::pki_types::CertificateDer<'a>);

/// A private key in DER, of `rustls`.
#[verifier::external_type_specification]
#[verifier::external_body]
pub struct ExPrivateKeyDer<'a>(rustls::pki_types::PrivateKeyDer<'a>);

/// Error of the making of the TLS configurations.
#[derive(Debug)]
pub enum Error {
    /// The certificate chain could not be read.
    CertChainIo(std::io::Error),
    /// The private key could not be read.
    CertPrivKeyIo(std::io::Error),
    /// No private key of a known kind was found.
    CertPrivKeyMissing,
    /// The server configuration was refused, for the reason given.
    ServerConfig(String),
    /// The client configuration was refused, for the reason given.
    ClientConfig(String),
}

/// The encoding of a private key.
#[derive(Clone, Copy, Debug, PartialEq, Eq, Structural)]
pub enum KeyKind {
    /// PKCS#1: an RSA key.
    Pkcs1,
    /// SEC1: an elliptic-curve key.
    Sec1,
    /// PKCS#8.
    Pkcs8,
}

impl KeyKind {
    /// The number that stands for the kind.
    pub open spec fn code(self) -> u8 {
        match self {
            KeyKind::Pkcs1 => 1,
            KeyKind::Sec1 => 2,
            KeyKind::Pkcs8 => 8,
        }
    }
}

/// A private key: its DER bytes and how they are encoded.
#[derive(Debug)]
pub struct PrivateKey {
    /// The encoding.
    pub kind: KeyKind,
    /// The bytes.
    pub der: Vec<u8>,
}

/// What a private key holds, where there is one.
pub open spec fn key_view(key: Option<PrivateKey>) -> Option<(u8, Seq<u8>)> {
    match key {
        Some(key) => Some((key.kind.code(), key.der@)),
        None => None,
    }
}

/// The DER bytes of the certificates in the PEM text `pem`, as
/// `rustls_pemfile::certs` finds them; `None` where it reports an error.
pub uninterp spec fn certs_of(pem: Seq<u8>) -> Option<Seq<Seq<u8>>>;

/// The first private key in the PEM text `pem`, as
/// `rustls_pemfile::private_key` finds it: the number of its kind and its DER
/// bytes, the inner `None` where the text holds no private key, the outer
/// `None` where an error is reported.
pub uninterp spec fn private_key_of(pem: Seq<u8>) -> Option<Option<(u8, Seq<u8>)>>;

/// Reads the certificates of the PEM text `pem`, by `rustls_pemfile::certs`,
/// and hands out their DER bytes. Sections that are no certificates are left
/// out; the first section that cannot be read is an error.
#[verifier::external_body]
fn certs(pem: &[u8]) -> (r: Result<Vec<Vec<u8>>, std::io::Error>)
    ensures
        r is Ok <==> certs_of(pem@) is Some,
        r matches Ok(chain) ==> Some(chain.deep_view()) == certs_of(pem@),
{
    let mut reader = pem;
    let mut chain = Vec::new();
    for cert in rustls_pemfile::certs(&mut reader) {
        chain.push(cert?.to_vec());
    }
    Ok(chain)
}

/// Reads the first private key of the PEM text `pem`, by
/// `rustls_pemfile::private_key`, and hands out its kind and DER bytes.
#[verifier::external_body]
fn private_key(pem: &[u8]) -> (r: Result<Option<PrivateKey>, std::io::Error>)
    ensures
        r is Ok <==> private_key_of(pem@) is Some,
        r matches Ok(key) ==> Some(key_view(key)) == private_key_of(pem@),
{
    let mut reader = pem;
    Ok(
        match rustls_pemfile::private_key(&mut reader)? {
            Some(rustls::pki_types::PrivateKeyDer::Pkcs1(key)) => Some(
                PrivateKey { kind: KeyKind::Pkcs1, der: key.secret_pkcs1_der().to_vec() },
            ),
            Some(rustls::pki_types::PrivateKeyDer::Sec1(key)) => Some(
                PrivateKey { kind: KeyKind::Sec1, der: key.secret_sec1_der().to_vec() },
            ),
            Some(rustls::pki_types::PrivateKeyDer::Pkcs8(key)) => Some(
                PrivateKey { kind: KeyKind::Pkcs8, der: key.secret_pkcs8_der().to_vec() },
            ),
            _ => None,
        },
    )
}

/// The certificates of `chain` as `rustls` takes them, by
/// `CertificateDer::from`.
#[verifier::external_body]
fn chain_der(chain: &Vec<Vec<u8>>) -> Vec<rustls::pki_types::CertificateDer<'static>> {
    chain.iter().map(|der| rustls::pki_types::CertificateDer::from(der.clone())).collect()
}

/// The private key `key` as `rustls` takes it, by the `from` of its kind.
#[verifier::external_body]
fn key_der(key: &PrivateKey) -> rustls::pki_types::PrivateKeyDer<'static> {
    match key.kind {
        KeyKind::Pkcs1 => rustls::pki_types::PrivateKeyDer::Pkcs1(key.der.clone().into()),
        KeyKind::Sec1 => rustls::pki_types::PrivateKeyDer::Sec1(key.der.clone().into()),
        KeyKind::Pkcs8 => rustls::pki_types::PrivateKeyDer::Pkcs8(key.der.clone().into()),
    }
}

/// Makes the configuration of the accepting side, by the builder of
/// `rustls::ServerConfig`: it offers `chain` with `key` and asks the client
/// for no certificate. Whether `rustls` takes the key, and the reason where
/// it does not, is its own matter and that of the process's crypto provider.
/// The builder panics where the process has a default crypto provider that
/// cannot be resolved or that fits no protocol version; no chain and no key
/// brings that about.
#[verifier::external_body]
fn server_config(
    chain: Vec<rustls::pki_types::CertificateDer<'static>>,
    key: rustls::pki_types::PrivateKeyDer<'static>,
) -> Result<Arc<rustls::ServerConfig>, String> {
    match rustls::ServerConfig::builder().with_no_client_auth().with_single_cert(chain, key) {
        Ok(config) => Ok(Arc::new(config)),
        Err(error) => Err(error.to_string()),
    }
}

/// Makes the configuration of the connecting side, by the builder of
/// `rustls::ClientConfig`: it trusts the roots of `webpki_roots` and
/// presents `chain` with `key` as the client's certificate. The builder
/// panics where the process has a default crypto provider that cannot be
/// resolved or that fits no protocol version; no chain and no key brings
/// that about.
#[verifier::external_body]
fn client_config(
    chain: Vec<rustls::pki_types::CertificateDer<'static>>,
    key: rustls::pki_types::PrivateKeyDer<'static>,
) -> Result<Arc<rustls::ClientConfig>, String> {
    let mut roots = rustls::RootCertStore::empty();
    roots.extend(webpki_roots::TLS_SERVER_ROOTS.iter().cloned());
    match rustls::ClientConfig::builder().with_root_certificates(roots).with_client_auth_cert(
        chain,
        key,
    ) {
        Ok(config) => Ok(Arc::new(config)),
        Err(error) => Err(error.to_string()),
    }
}

/// The certificate chain and the private key, once both texts were read: the
/// error of the chain comes first, then that of the key, then the lack of a
/// key.
pub fn material(
    chain: Result<Vec<Vec<u8>>, std::io::Error>,
    key: Result<Option<PrivateKey>, std::io::Error>,
) -> (r: Result<(Vec<Vec<u8>>, PrivateKey), Error>)
    ensures
        match (chain, key) {
            (Err(error), _) => r == Err::<(Vec<Vec<u8>>, PrivateKey), Error>(
                Error::CertChainIo(error),
            ),
            (Ok(_), Err(error)) => r == Err::<(Vec<Vec<u8>>, PrivateKey), Error>(
                Error::CertPrivKeyIo(error),
            ),
            (Ok(_), Ok(None)) => r == Err::<(Vec<Vec<u8>>, PrivateKey), Error>(
                Error::CertPrivKeyMissing,
            ),
            (Ok(chain), Ok(Some(key))) => r == Ok::<(Vec<Vec<u8>>, PrivateKey), Error>(
                (chain, key),
            ),
        },
{
    let chain = match chain {
        Ok(chain) => chain,
        Err(error) => {
            return Err(Error::CertChainIo(error));
        },
    };
    match key {
        Ok(Some(key)) => Ok((chain, key)),
        Ok(None) => Err(Error::CertPrivKeyMissing),
        Err(error) => Err(Error::CertPrivKeyIo(error)),
    }
}

/// The two configurations, once both were tried: the refusal of the server's
/// comes first.
pub fn configured(
    server: Result<Arc<rustls::ServerConfig>, String>,
    client: Result<Arc<rustls::ClientConfig>, String>,
) -> (r: Result<(Arc<rustls::ServerConfig>, Arc<rustls::ClientConfig>), Error>)
    ensures
        match (server, client) {
            (Err(reason), _) => r == Err::<
                (Arc<rustls::ServerConfig>, Arc<rustls::ClientConfig>),
                Error,
            >(Error::ServerConfig(reason)),
            (Ok(_), Err(reason)) => r == Err::<
                (Arc<rustls::ServerConfig>, Arc<rustls::ClientConfig>),
                Error,
            >(Error::ClientConfig(reason)),
            (Ok(server), Ok(client)) => r == Ok::<
                (Arc<rustls::ServerConfig>, Arc<rustls::ClientConfig>),
                Error,
            >((server, client)),
        },
{
    let server = match server {
        Ok(server) => server,
        Err(reason) => {
            return Err(Error::ServerConfig(reason));
        },
    };
    match client {
        Ok(client) => Ok((server, client)),
        Err(reason) => Err(Error::ClientConfig(reason)),
    }
}

/// Makes the configuration of the accepting and of the connecting side from
/// the PEM text of a certificate chain and of its private key.
///
/// The accepting side offers the chain and asks for no client certificate.
/// The connecting side trusts the web's root certificates and presents the
/// same chain. A chain that cannot be read is reported before a key that
/// cannot be read, that before a text without a key, and only a chain and a
/// key that were read are given to `rustls`.
pub fn init(cert_chain: &[u8], cert_priv_key: &[u8]) -> (r: Result<
    (Arc<rustls::ServerConfig>, Arc<rustls::ClientConfig>),
    Error,
>)
    ensures
        match (certs_of(cert_chain@), private_key_of(cert_priv_key@)) {
            (None, _) => r matches Err(Error::CertChainIo(_)),
            (Some(_), None) => r matches Err(Error::CertPrivKeyIo(_)),
            (Some(_), Some(None)) => r matches Err(Error::CertPrivKeyMissing),
            (Some(_), Some(Some(_))) => r is Ok || (r matches Err(Error::ServerConfig(_))) || (
            r matches Err(Error::ClientConfig(_))),
        },
{
    let (chain, key) = match material(certs(cert_chain), private_key(cert_priv_key)) {
        Ok(material) => material,
        Err(error) => {
            return Err(error);
        },
    };
    let server = server_config(chain_der(&chain), key_der(&key));
    let client = client_config(chain_der(&chain), key_der(&key));
    configured(server, client)
}

} // verus!
