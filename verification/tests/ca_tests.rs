use repo_proxy::ca::{bootstrap_action, BootstrapAction, Ca, CaError};

#[test]
fn bootstrap_decides_from_presence() {
    assert_eq!(bootstrap_action(true, true), Ok(BootstrapAction::Load));
    assert_eq!(bootstrap_action(false, false), Ok(BootstrapAction::Generate));
    assert_eq!(bootstrap_action(true, false), Err(CaError::PresenceMismatch));
    assert_eq!(bootstrap_action(false, true), Err(CaError::PresenceMismatch));
}

#[test]
fn generated_material_round_trips_through_pem() {
    // Every bootstrap over the persisted PEM pair sees byte-identical root
    // material: the key is the one generated, and the certificate is the one
    // persisted.  (The DER that generation itself hands out is signed anew on
    // each serialisation, so only the persisted form is the stable one.)
    let (ca, key_pem, cert_pem) = Ca::generate().expect("generation succeeds");
    let first = Ca::from_pem(key_pem.as_bytes(), cert_pem.as_bytes())
        .expect("the persisted material parses");
    let second = Ca::from_pem(key_pem.as_bytes(), cert_pem.as_bytes())
        .expect("the persisted material parses again");
    assert_eq!(first.private_key, ca.private_key);
    assert_eq!(first.certificate, second.certificate);
    assert_eq!(first.private_key, second.private_key);
    assert!(!first.certificate.is_empty());
}

#[test]
fn from_pem_rejects_an_empty_certificate_file() {
    let (_, key_pem, _) = Ca::generate().expect("generation succeeds");
    let r = Ca::from_pem(key_pem.as_bytes(), b"no certificate here");
    assert_eq!(r.unwrap_err(), CaError::DecodeCert);
}

#[test]
fn from_pem_rejects_an_empty_key_file() {
    let (_, _, cert_pem) = Ca::generate().expect("generation succeeds");
    let r = Ca::from_pem(b"no key here", cert_pem.as_bytes());
    assert_eq!(r.unwrap_err(), CaError::DecodeKey);
}

#[test]
fn generated_material_differs_between_roots() {
    let (ca1, _, _) = Ca::generate().expect("generation succeeds");
    let (ca2, _, _) = Ca::generate().expect("generation succeeds");
    assert_ne!(ca1.private_key, ca2.private_key);
}
