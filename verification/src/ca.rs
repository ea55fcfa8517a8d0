use vstd::prelude::*;
use vstd::utf8::encode_utf8;

verus! {

// ---------------------------------------------------------------------------
// The certificate-authority lifecycle.  The root material is held as plain
// DER bytes; what only the outside crates can do — parse PEM text, generate a
// key pair — stands behind trusted items, and the decisions around those
// calls are verified.  Reading and writing the two files is the caller's
// side channel: it hands the file contents in and takes the PEM texts out.
// ---------------------------------------------------------------------------

/// Everything that can go wrong while establishing the root authority.
#[derive(Clone, Copy, Debug, PartialEq, Eq, Structural)]
pub enum CaError {
    /// Exactly one of the key and certificate files exists: an unrecoverable
    /// configuration error, resolved by the operator, never by overwriting.
    PresenceMismatch,
    /// The certificate file held no certificate block.
    DecodeCert,
    /// The key file held no PKCS8 private-key block.
    DecodeKey,
    /// Key-pair generation or serialisation failed.
    Generate,
}

/// The bootstrap step `get_or_create` takes.
#[derive(Clone, Copy, Debug, PartialEq, Eq, Structural)]
pub enum BootstrapAction {
    /// Both files exist: parse them.
    Load,
    /// Neither exists: generate a fresh root and persist it.
    Generate,
}

/// Decide the bootstrap step from the two files' presence: both present
/// loads, neither present generates, disagreement fails without touching
/// any file.
pub fn bootstrap_action(key_present: bool, cert_present: bool) -> (r: Result<
    BootstrapAction,
    CaError,
>)
    ensures
        key_present && cert_present ==> r == Ok::<_, CaError>(BootstrapAction::Load),
        !key_present && !cert_present ==> r == Ok::<_, CaError>(BootstrapAction::Generate),
        key_present != cert_present ==> r == Err::<BootstrapAction, _>(CaError::PresenceMismatch),
{
    if key_present && cert_present {
        Ok(BootstrapAction::Load)
    } else if !key_present && !cert_present {
        Ok(BootstrapAction::Generate)
    } else {
        Err(CaError::PresenceMismatch)
    }
}

/// What rustls_pemfile::certs returns on this PEM text: the DER bytes of
/// each certificate block, in order, or nothing when it rejects the text.
pub uninterp spec fn pem_certs(pem: Seq<u8>) -> Option<Seq<Seq<u8>>>;

/// What rustls_pemfile::pkcs8_private_keys returns on this PEM text: the DER
/// bytes of each PKCS8 private-key block, in order, or nothing when it
/// rejects the text.
pub uninterp spec fn pem_pkcs8_keys(pem: Seq<u8>) -> Option<Seq<Seq<u8>>>;

/// The first certificate block of a PEM text, if the text parses and holds
/// one.
pub open spec fn cert_of_pem(pem: Seq<u8>) -> Option<Seq<u8>> {
    match pem_certs(pem) {
        Some(cs) => if cs.len() > 0 {
            Some(cs[0])
        } else {
            None
        },
        None => None,
    }
}

/// The first PKCS8 key block of a PEM text, if the text parses and holds one.
pub open spec fn key_of_pem(pem: Seq<u8>) -> Option<Seq<u8>> {
    match pem_pkcs8_keys(pem) {
        Some(ks) => if ks.len() > 0 {
            Some(ks[0])
        } else {
            None
        },
        None => None,
    }
}

/// Relies on rustls_pemfile::certs: scans the PEM text and returns the DER
/// bytes of every certificate section, erring on malformed text.
#[verifier::external_body]
fn certs_of(pem: &[u8]) -> (r: Result<Vec<Vec<u8>>, CaError>)
    ensures
        match r {
            Ok(v) => pem_certs(pem@) == Some(v.deep_view()),
            Err(e) => pem_certs(pem@) is None && e == CaError::DecodeCert,
        },
{
    let mut rd = pem;
    rustls_pemfile::certs(&mut rd).map_err(|_| CaError::DecodeCert)
}

/// Relies on rustls_pemfile::pkcs8_private_keys: scans the PEM text and
/// returns the DER bytes of every PKCS8 private-key section, erring on
/// malformed text.
#[verifier::external_body]
fn pkcs8_keys_of(pem: &[u8]) -> (r: Result<Vec<Vec<u8>>, CaError>)
    ensures
        match r {
            Ok(v) => pem_pkcs8_keys(pem@) == Some(v.deep_view()),
            Err(e) => pem_pkcs8_keys(pem@) is None && e == CaError::DecodeKey,
        },
{
    let mut rd = pem;
    rustls_pemfile::pkcs8_private_keys(&mut rd).map_err(|_| CaError::DecodeKey)
}

/// Freshly generated root material: the same key pair and certificate in the
/// forms the lifecycle needs — PEM text to persist, DER bytes to use.
#[derive(Debug)]
pub struct CaMaterial {
    pub key_pem: String,
    pub cert_pem: String,
    pub key_der: Vec<u8>,
    pub cert_der: Vec<u8>,
}

/// Relies on rcgen: Certificate::from_params under a root-CA profile
/// (CA=true, unconstrained basic constraints, the given common name), and
/// its serializers serialize_pem, serialize_private_key_pem, serialize_der
/// and serialize_private_key_der.  They stand together in one body so that
/// the rcgen certificate value never leaves it: the key serializers panic on
/// a remote key pair, which a key pair generated here never is.  The key
/// material is fresh and random, so its bytes cannot be promised; what every
/// outcome grants is promised instead.  The key PEM is the "PRIVATE KEY"
/// encoding of exactly the key DER (rcgen's key serializers both render the
/// one stored PKCS8 encoding), so parsing it gives back that DER alone; the
/// certificate PEM holds exactly one certificate block (signed afresh, so its
/// DER is not promised equal to the one returned).
#[verifier::external_body]
fn generate_material(common_name: &str) -> (r: Result<CaMaterial, CaError>)
    ensures
        r matches Ok(m) ==> {
            &&& pem_pkcs8_keys(encode_utf8(m.key_pem@)) == Some(seq![m.key_der@])
            &&& (pem_certs(encode_utf8(m.cert_pem@)) matches Some(cs) && cs.len() == 1)
        },
{
    let mut dn = rcgen::DistinguishedName::new();
    dn.push(rcgen::DnType::CommonName, common_name);
    let mut params = rcgen::CertificateParams::new(Vec::new());
    params.distinguished_name = dn;
    params.is_ca = rcgen::IsCa::Ca(rcgen::BasicConstraints::Unconstrained);
    let cert = rcgen::Certificate::from_params(params).map_err(|_| CaError::Generate)?;
    Ok(CaMaterial {
        key_pem: cert.serialize_private_key_pem(),
        cert_pem: cert.serialize_pem().map_err(|_| CaError::Generate)?,
        key_der: cert.serialize_private_key_der(),
        cert_der: cert.serialize_der().map_err(|_| CaError::Generate)?,
    })
}

/// The root certificate authority: its certificate and private key, as DER
/// bytes, immutable once established and shared read-only by every
/// interception.
#[derive(Debug)]
pub struct Ca {
    pub certificate: Vec<u8>,
    pub private_key: Vec<u8>,
}

impl Ca {
    /// Parse the root material from the contents of the two PEM files: the
    /// first certificate block and the first PKCS8 key block.  The
    /// certificate is read first, so a bad certificate file is reported even
    /// when the key file is bad too.
    pub fn from_pem(key_pem: &[u8], cert_pem: &[u8]) -> (r: Result<Ca, CaError>)
        ensures
            match r {
                Ok(ca) => cert_of_pem(cert_pem@) == Some(ca.certificate@) && key_of_pem(key_pem@)
                    == Some(ca.private_key@),
                Err(e) => {
                    &&& (cert_of_pem(cert_pem@) is None || key_of_pem(key_pem@) is None)
                    &&& (e == CaError::DecodeCert <==> cert_of_pem(cert_pem@) is None)
                    &&& (e == CaError::DecodeKey <==> (cert_of_pem(cert_pem@) is Some && key_of_pem(
                        key_pem@,
                    ) is None))
                },
            },
    {
        let mut certs = match certs_of(cert_pem) {
            Ok(v) => v,
            Err(e) => {
                return Err(e);
            },
        };
        if certs.len() == 0 {
            return Err(CaError::DecodeCert);
        }
        let mut keys = match pkcs8_keys_of(key_pem) {
            Ok(v) => v,
            Err(e) => {
                return Err(e);
            },
        };
        if keys.len() == 0 {
            return Err(CaError::DecodeKey);
        }
        let ghost certs0 = certs.deep_view();
        let ghost keys0 = keys.deep_view();
        let certificate = certs.remove(0);
        let private_key = keys.remove(0);
        proof {
            assert(certs0[0] =~= certificate@);
            assert(keys0[0] =~= private_key@);
        }
        Ok(Ca { certificate, private_key })
    }

    /// Establish a fresh root authority under the product's common name.
    /// Besides the authority itself (DER bytes), the caller receives the
    /// private-key and certificate PEM texts to persist, both or neither.
    /// The key material is random, so its bytes cannot be promised; what is
    /// promised of every success is the persistence round trip: the key PEM
    /// parses back to exactly the returned key DER, and the certificate PEM
    /// holds exactly one certificate block, so a later load over the
    /// persisted pair succeeds and returns the persisted key.  (The
    /// certificate's own DER is signed afresh on each serialisation, so only
    /// its persisted form is stable.)
    pub fn generate() -> (r: Result<(Ca, String, String), CaError>)
        ensures
            r matches Ok((ca, key_pem, cert_pem)) ==> {
                &&& pem_pkcs8_keys(encode_utf8(key_pem@)) == Some(seq![ca.private_key@])
                &&& key_of_pem(encode_utf8(key_pem@)) == Some(ca.private_key@)
                &&& (pem_certs(encode_utf8(cert_pem@)) matches Some(cs) && cs.len() == 1)
                &&& cert_of_pem(encode_utf8(cert_pem@)) is Some
            },
    {
        let m = match generate_material("repo-proxy") {
            Ok(m) => m,
            Err(e) => {
                return Err(e);
            },
        };
        Ok((Ca { certificate: m.cert_der, private_key: m.key_der }, m.key_pem, m.cert_pem))
    }
}

} // verus!
