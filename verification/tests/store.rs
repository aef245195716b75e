//! Tests of the sorted store: ordering, lookup, and usage-filtered queries.

use certdata::structured::{Blob, Certificate, Object, Trust, TrustLevel, Usage};
use certdata::CertData;

fn cert(label: &str, issuer: &[u8], serial: &[u8], subject: &[u8]) -> Certificate {
    Certificate {
        label: label.to_owned(),
        cert: Blob(vec![0xff]),
        issuer: Blob(issuer.to_vec()),
        serial: Blob(serial.to_vec()),
        subject: Blob(subject.to_vec()),
    }
}

fn trust(label: &str, issuer: &[u8], serial: &[u8], levels: (TrustLevel, TrustLevel, TrustLevel)) -> Trust {
    Trust {
        label: label.to_owned(),
        issuer: Blob(issuer.to_vec()),
        serial: Blob(serial.to_vec()),
        tls_server_trust: levels.0,
        email_trust: levels.1,
        code_signing_trust: levels.2,
        md5: None,
        sha1: None,
    }
}

#[test]
fn store_sorts_certs_by_subject() {
    let data = CertData::from_iter(vec![
        Object::Certificate(cert("c", b"i3", b"s3", b"zebra")),
        Object::Certificate(cert("a", b"i1", b"s1", b"apple")),
        Object::Certificate(cert("b", b"i2", b"s2", b"mango")),
    ]);
    let certs = data.certs();
    assert_eq!(certs.len(), 3);
    for w in certs.windows(2) {
        assert!(w[0].subject.0 <= w[1].subject.0);
    }
    assert_eq!(certs[0].label, "a");
    assert_eq!(certs[1].label, "b");
    assert_eq!(certs[2].label, "c");
}

#[test]
fn store_sorts_trusts_by_issuer_and_serial() {
    let lv = (TrustLevel::MustVerify, TrustLevel::MustVerify, TrustLevel::MustVerify);
    let data = CertData::from_iter(vec![
        Object::Trust(trust("t3", b"ib", b"s1", lv)),
        Object::Trust(trust("t2", b"ia", b"s9", lv)),
        Object::Trust(trust("t1", b"ia", b"s0", lv)),
    ]);
    let trusts = data.trusts();
    assert_eq!(trusts.len(), 3);
    for w in trusts.windows(2) {
        assert!(
            (w[0].issuer.0.clone(), w[0].serial.0.clone())
                <= (w[1].issuer.0.clone(), w[1].serial.0.clone())
        );
    }
    assert_eq!(trusts[0].label, "t1");
    assert_eq!(trusts[1].label, "t2");
    assert_eq!(trusts[2].label, "t3");
}

#[test]
fn trust_for_finds_exactly_the_matching_identity() {
    let lv = (TrustLevel::TrustedDelegator, TrustLevel::MustVerify, TrustLevel::Distrust);
    let data = CertData::from_iter(vec![
        Object::Trust(trust("t1", b"ia", b"s0", lv)),
        Object::Trust(trust("t2", b"ia", b"s9", lv)),
        Object::Trust(trust("t3", b"ib", b"s1", lv)),
    ]);
    let hit = data.trust_for(b"ia", b"s9").expect("the identity is present");
    assert_eq!(hit.label, "t2");
    assert!(data.trust_for(b"ia", b"s1").is_none());
    assert!(data.trust_for(b"ic", b"s0").is_none());
    assert!(data.trust_for(b"i", b"as9").is_none());
}

#[test]
fn trust_for_cert_uses_issuer_and_serial() {
    let lv = (TrustLevel::TrustedDelegator, TrustLevel::MustVerify, TrustLevel::Distrust);
    let data = CertData::from_iter(vec![
        Object::Certificate(cert("c", b"ia", b"s0", b"subject")),
        Object::Trust(trust("t", b"ia", b"s0", lv)),
    ]);
    let c = &data.certs()[0];
    let t = data.trust_for_cert(c).expect("the identity is present");
    assert_eq!(t.label, "t");
}

#[test]
fn trusted_certs_is_the_trusted_subset() {
    let data = CertData::from_iter(vec![
        Object::Certificate(cert("trusted", b"i1", b"s1", b"a")),
        Object::Certificate(cert("distrusted", b"i2", b"s2", b"b")),
        Object::Certificate(cert("unlisted", b"i3", b"s3", b"c")),
        Object::Trust(trust(
            "t1",
            b"i1",
            b"s1",
            (TrustLevel::TrustedDelegator, TrustLevel::MustVerify, TrustLevel::MustVerify),
        )),
        Object::Trust(trust(
            "t2",
            b"i2",
            b"s2",
            (TrustLevel::Distrust, TrustLevel::TrustedDelegator, TrustLevel::MustVerify),
        )),
    ]);
    let tls: Vec<&Certificate> = data.trusted_certs(Usage::TlsServer);
    assert_eq!(tls.len(), 1);
    assert_eq!(tls[0].label, "trusted");
    let email: Vec<&Certificate> = data.trusted_certs(Usage::Email);
    assert_eq!(email.len(), 1);
    assert_eq!(email[0].label, "distrusted");
    // A certificate without any trust record defaults to MustVerify and is
    // never in the trusted set.
    let code = data.trusted_certs(Usage::CodeSigning);
    assert!(code.is_empty());
}

#[test]
fn distrusts_is_the_distrust_subset() {
    let data = CertData::from_iter(vec![
        Object::Trust(trust(
            "t1",
            b"i1",
            b"s1",
            (TrustLevel::Distrust, TrustLevel::MustVerify, TrustLevel::Distrust),
        )),
        Object::Trust(trust(
            "t2",
            b"i2",
            b"s2",
            (TrustLevel::TrustedDelegator, TrustLevel::Distrust, TrustLevel::Distrust),
        )),
    ]);
    let tls: Vec<&Trust> = data.distrusts(Usage::TlsServer);
    assert_eq!(tls.len(), 1);
    assert_eq!(tls[0].label, "t1");
    let email = data.distrusts(Usage::Email);
    assert_eq!(email.len(), 1);
    assert_eq!(email[0].label, "t2");
    let code = data.distrusts(Usage::CodeSigning);
    assert_eq!(code.len(), 2);
}

#[test]
fn duplicate_identities_return_one_of_them() {
    // Two trust records share one (issuer, serial) identity.  The lookup
    // returns one of the two; which one is a documented gap, not a
    // guarantee.
    let data = CertData::from_iter(vec![
        Object::Trust(trust(
            "dup1",
            b"ia",
            b"s0",
            (TrustLevel::TrustedDelegator, TrustLevel::MustVerify, TrustLevel::MustVerify),
        )),
        Object::Trust(trust(
            "dup2",
            b"ia",
            b"s0",
            (TrustLevel::Distrust, TrustLevel::MustVerify, TrustLevel::MustVerify),
        )),
    ]);
    let hit = data.trust_for(b"ia", b"s0").expect("the identity is present");
    assert!(hit.label == "dup1" || hit.label == "dup2");
    assert_eq!(hit.issuer.0, b"ia".to_vec());
    assert_eq!(hit.serial.0, b"s0".to_vec());
}

#[test]
fn empty_store_answers_empty() {
    let data = CertData::from_iter(Vec::new());
    assert!(data.certs().is_empty());
    assert!(data.trusts().is_empty());
    assert!(data.trust_for(b"i", b"s").is_none());
    assert!(data.trusted_certs(Usage::TlsServer).is_empty());
    assert!(data.distrusts(Usage::Email).is_empty());
}

#[test]
fn equal_subjects_all_kept() {
    let data = CertData::from_iter(vec![
        Object::Certificate(cert("x", b"i1", b"s1", b"same")),
        Object::Certificate(cert("y", b"i2", b"s2", b"same")),
    ]);
    assert_eq!(data.certs().len(), 2);
    assert_eq!(data.certs()[0].subject.0, data.certs()[1].subject.0);
}
