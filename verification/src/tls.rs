//! A TLS server configuration from a PEM certificate chain and a PEM
//! private key.
use vstd::prelude::*;
use std::sync::Arc;
use rustls::ServerConfig;
use rustls::pki_types::{CertificateDer, PrivateKeyDer};
use crate::serve::ServeError;
use crate::text::{chars_of, string_from_chars, append_chars, starts_with};

verus! {

#[verifier::external_type_specification]
#[verifier::external_body]
pub struct ExServerConfig(rustls::ServerConfig);

/// The DER encodings of a certificate chain, each certificate's bytes.
pub open spec fn der_views(v: Seq<Vec<u8>>) -> Seq<Seq<u8>> {
    v.map_values(|d: Vec<u8>| d@)
}

/// The encoding of a private key, as `PrivateKeyDer` tells it.
#[derive(Clone, Copy, Debug, PartialEq, Eq)]
pub enum KeyFormat {
    /// An RSA key (`PrivateKeyDer::Pkcs1`).
    Pkcs1,
    /// An elliptic-curve key (`PrivateKeyDer::Sec1`).
    Sec1,
    /// A PKCS#8 key (`PrivateKeyDer::Pkcs8`).
    Pkcs8,
}

/// The certificates that `rustls_pemfile::certs` finds in PEM text, each
/// as its DER bytes, in order; nothing when reading a section fails.
pub uninterp spec fn pem_certificates(pem: Seq<u8>) -> Option<Seq<Seq<u8>>>;

/// The first private key that `rustls_pemfile::private_key` finds in PEM
/// text, as its format and DER bytes, or no key; nothing when reading
/// fails.
pub uninterp spec fn pem_private_key(pem: Seq<u8>) -> Option<Option<(KeyFormat, Seq<u8>)>>;

/// Whether rustls, with its ring provider, builds a server configuration
/// for the certificate chain `chain` (DER bytes) and the key `key`.
pub uninterp spec fn single_cert_accepted(chain: Seq<Seq<u8>>, key: (KeyFormat, Seq<u8>)) -> bool;

/// `rustls_pemfile::certs`: the certificates of the PEM text in order, as
/// DER bytes, or the text of the first error.
#[verifier::external_body]
fn parse_certificates(pem: &[u8]) -> (r: Result<Vec<Vec<u8>>, String>)
    ensures
        match pem_certificates(pem@) {
            Some(c) => r matches Ok(v) && der_views(v@) == c,
            None => r is Err,
        },
{
    let mut out = Vec::new();
    for c in rustls_pemfile::certs(&mut &pem[..]) {
        match c {
            Ok(d) => out.push(d.to_vec()),
            Err(e) => return Err(e.to_string()),
        }
    }
    Ok(out)
}

/// `rustls_pemfile::private_key`: the first private key of the PEM text,
/// if any, as its format and DER bytes, or the text of the error.
/// `PrivateKeyDer` has exactly the three formats of [`KeyFormat`]; the
/// last arm answers a format that a later version might add.
#[verifier::external_body]
fn parse_private_key(pem: &[u8]) -> (r: Result<Option<(KeyFormat, Vec<u8>)>, String>)
    ensures
        match pem_private_key(pem@) {
            Some(Some(k)) => r matches Ok(Some(x)) && x.0 == k.0 && x.1@ == k.1,
            Some(None) => r matches Ok(None),
            None => r is Err,
        },
{
    match rustls_pemfile::private_key(&mut &pem[..]) {
        Ok(Some(PrivateKeyDer::Pkcs1(k))) => Ok(Some((KeyFormat::Pkcs1, k.secret_pkcs1_der().to_vec()))),
        Ok(Some(PrivateKeyDer::Sec1(k))) => Ok(Some((KeyFormat::Sec1, k.secret_sec1_der().to_vec()))),
        Ok(Some(PrivateKeyDer::Pkcs8(k))) => Ok(Some((KeyFormat::Pkcs8, k.secret_pkcs8_der().to_vec()))),
        Ok(Some(_)) => Err("unknown private key format".to_string()),
        Ok(None) => Ok(None),
        Err(e) => Err(e.to_string()),
    }
}

/// `ServerConfig::builder().with_no_client_auth().with_single_cert(..)`
/// with the process's default crypto provider (ring, the one provider
/// built in), for the chain and the key given as DER bytes: a server
/// configuration exactly when rustls accepts the pair, else the text of
/// the error.
#[verifier::external_body]
fn single_cert_config(chain: Vec<Vec<u8>>, key: (KeyFormat, Vec<u8>)) -> (r: Result<
    ServerConfig,
    String,
>)
    ensures
        r is Ok == single_cert_accepted(der_views(chain@), (key.0, key.1@)),
{
    let certs: Vec<CertificateDer<'static>> = chain.into_iter().map(CertificateDer::from).collect();
    let der = match key.0 {
        KeyFormat::Pkcs1 => PrivateKeyDer::Pkcs1(key.1.into()),
        KeyFormat::Sec1 => PrivateKeyDer::Sec1(key.1.into()),
        KeyFormat::Pkcs8 => PrivateKeyDer::Pkcs8(key.1.into()),
    };
    ServerConfig::builder().with_no_client_auth().with_single_cert(certs, der).map_err(
        |e| e.to_string(),
    )
}

/// A server error with status 500 and the message `prefix` followed by
/// `detail`.
fn internal_error(prefix: &str, detail: &str) -> (e: ServeError)
    ensures
        e.code == 500,
        e.message@ == prefix@ + detail@,
{
    let mut m = chars_of(prefix);
    let d = chars_of(detail);
    append_chars(&mut m, d.as_slice());
    let text = string_from_chars(m.as_slice());
    ServeError { code: 500, message: text }
}

/// A TLS server configuration from the PEM text of a certificate chain and
/// of a private key. Every failure is a 500 error: the chain cannot be read
/// (`failed to parse cert: ..`) or holds no certificate, the key cannot be
/// read (`failed to parse key: ..`) or is missing, or rustls refuses the
/// pair (`failed to build config: ..`).
pub fn server_config_from_pem(cert_pem: &[u8], key_pem: &[u8]) -> (r: Result<
    Arc<ServerConfig>,
    ServeError,
>)
    ensures
        r matches Err(e) ==> e.code == 500,
        match pem_certificates(cert_pem@) {
            None => r matches Err(e) && starts_with(e.message@, "failed to parse cert: "@),
            Some(chain) => if chain.len() == 0 {
                r matches Err(e) && e.message@ == "no certificates found in cert file"@
            } else {
                match pem_private_key(key_pem@) {
                    None => r matches Err(e) && starts_with(e.message@, "failed to parse key: "@),
                    Some(None) => r matches Err(e) && e.message@
                        == "no private key found in key file"@,
                    Some(Some(key)) => if single_cert_accepted(chain, key) {
                        r is Ok
                    } else {
                        r matches Err(e) && starts_with(e.message@, "failed to build config: "@)
                    },
                }
            },
        },
{
    let certs = match parse_certificates(cert_pem) {
        Ok(c) => c,
        Err(msg) => {
            let e = internal_error("failed to parse cert: ", msg.as_str());
            assert(e.message@.take(("failed to parse cert: "@).len() as int) =~= "failed to parse cert: "@);
            return Err(e);
        },
    };
    if certs.len() == 0 {
        return Err(ServeError::new(500, "no certificates found in cert file"));
    }
    let key = match parse_private_key(key_pem) {
        Ok(Some(k)) => k,
        Ok(None) => {
            return Err(ServeError::new(500, "no private key found in key file"));
        },
        Err(msg) => {
            let e = internal_error("failed to parse key: ", msg.as_str());
            assert(e.message@.take(("failed to parse key: "@).len() as int) =~= "failed to parse key: "@);
            return Err(e);
        },
    };
    match single_cert_config(certs, key) {
        Ok(config) => Ok(Arc::new(config)),
        Err(msg) => {
            let e = internal_error("failed to build config: ", msg.as_str());
            assert(e.message@.take(("failed to build config: "@).len() as int) =~= "failed to build config: "@);
            Err(e)
        },
    }
}

} // verus!
