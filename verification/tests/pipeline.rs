//! End-to-end tests of the attribute, record and object streams, and of the
//! structured decoder's error taxonomy.

use certdata::reader::{AttrIter, AttrStep, ObjStep, ObjectIter, RawObject, RawObjectIter, RawStep};
use certdata::structured::{Object, StructureError, TrustLevel};
use certdata::Value;

const CERT_RECORD: &str = "BEGINDATA\n\
    CKA_CLASS CK_OBJECT_CLASS CKO_CERTIFICATE\n\
    CKA_CERTIFICATE_TYPE CK_CERTIFICATE_TYPE CKC_X_509\n\
    CKA_LABEL UTF8 \"Test\"\n\
    CKA_ISSUER MULTILINE_OCTAL\n\
    \\101\\102\n\
    END\n\
    CKA_SERIAL_NUMBER MULTILINE_OCTAL\n\
    \\001\n\
    END\n\
    CKA_SUBJECT MULTILINE_OCTAL\n\
    \\103\n\
    END\n\
    CKA_VALUE MULTILINE_OCTAL\n\
    \\377\n\
    END\n";

fn decode_all(text: &str) -> Vec<Result<Object, StructureError>> {
    let mut iter = ObjectIter::new();
    iter.feed(text.as_bytes());
    iter.finish();
    let mut out = Vec::new();
    loop {
        match iter.next_decoded() {
            ObjStep::Item(o) => out.push(Ok(o)),
            ObjStep::Bad(e) => out.push(Err(e)),
            ObjStep::End => return out,
            ObjStep::NeedInput => panic!("stream asked for input after the source ended"),
            ObjStep::Fail(e) => panic!("parse error at byte {}", e.byte_offset),
        }
    }
}

#[test]
fn minimal_certificate_record_decodes() {
    let objects = decode_all(CERT_RECORD);
    assert_eq!(objects.len(), 1);
    match &objects[0] {
        Ok(Object::Certificate(c)) => {
            assert_eq!(c.label, "Test");
            assert_eq!(c.issuer.0, vec![0x41, 0x42]);
            assert_eq!(c.serial.0, vec![0x01]);
            assert_eq!(c.subject.0, vec![0x43]);
            assert_eq!(c.cert.0, vec![0xff]);
        }
        other => panic!("expected a certificate, got {:?}", other),
    }
}

#[test]
fn missing_label_reports_missing_key() {
    let without_label = CERT_RECORD.replace("CKA_LABEL UTF8 \"Test\"\n", "");
    let objects = decode_all(&without_label);
    assert_eq!(objects.len(), 1);
    match &objects[0] {
        Err(StructureError::MissingKey(key)) => assert_eq!(key, "CKA_LABEL"),
        other => panic!("expected a missing-key error, got {:?}", other),
    }
}

#[test]
fn invalid_utf8_fails_at_value_start() {
    let input = b"BEGINDATA\nCKA_LABEL UTF8 \"A\\x82\"\n";
    let mut iter = AttrIter::new();
    iter.feed(input);
    iter.finish();
    match iter.next_attr() {
        AttrStep::Fail(e) => {
            // The string content begins right after the opening quote.
            let quote = input.iter().position(|b| *b == b'"').unwrap();
            assert_eq!(e.byte_offset, (quote + 1) as u64);
        }
        other => panic!("expected a parse failure, got {:?}", other),
    }
    // A failed stream is exhausted for good.
    assert!(matches!(iter.next_attr(), AttrStep::End));
}

#[test]
fn builtin_root_list_is_consumed_but_filtered() {
    let text = "BEGINDATA\n\
        CKA_CLASS CK_OBJECT_CLASS CKO_NSS_BUILTIN_ROOT_LIST\n\
        CKA_LABEL UTF8 \"Mozilla Builtin Roots\"\n";
    // The raw stream yields the record.
    let mut raw = RawObjectIter::new();
    raw.feed(text.as_bytes());
    raw.finish();
    match raw.next_object() {
        RawStep::Object(mut o) => {
            assert!(matches!(o.remove("CKA_LABEL"), Some(Value::String(_))));
        }
        other => panic!("expected a raw record, got {:?}", other),
    }
    assert!(matches!(raw.next_object(), RawStep::End));
    // The decoded stream filters it silently.
    let objects = decode_all(text);
    assert!(objects.is_empty());
}

#[test]
fn attr_iter_is_incremental() {
    let input = b"BEGINDATA\nCKA_CLASS CK_OBJECT_CLASS CKO_CERTIFICATE\n";
    let mut iter = AttrIter::new();
    iter.feed(&input[..14]);
    assert!(matches!(iter.next_attr(), AttrStep::NeedInput));
    iter.feed(&input[14..30]);
    assert!(matches!(iter.next_attr(), AttrStep::NeedInput));
    iter.feed(&input[30..]);
    match iter.next_attr() {
        AttrStep::Attr(key, Value::Token(ty, v)) => {
            assert_eq!(key, "CKA_CLASS");
            assert_eq!(ty, "CK_OBJECT_CLASS");
            assert_eq!(v, "CKO_CERTIFICATE");
        }
        other => panic!("expected an attribute, got {:?}", other),
    }
    iter.finish();
    assert!(matches!(iter.next_attr(), AttrStep::End));
}

#[test]
fn missing_header_fails() {
    let mut iter = AttrIter::new();
    iter.feed(b"CKA_CLASS CK_OBJECT_CLASS CKO_CERTIFICATE\n");
    iter.finish();
    assert!(matches!(iter.next_attr(), AttrStep::Fail(_)));
}

#[test]
fn truncated_tail_ends_quietly() {
    let mut iter = AttrIter::new();
    iter.feed(b"BEGINDATA\nCKA_CLASS CK_OBJ");
    iter.finish();
    // The header parses; the truncated attribute is treated as end of
    // stream, not as an error.
    assert!(matches!(iter.next_attr(), AttrStep::End));
}

#[test]
fn wrong_value_type_reports_type_error() {
    let text = "BEGINDATA\n\
        CKA_CLASS CK_OBJECT_CLASS CKO_CERTIFICATE\n\
        CKA_CERTIFICATE_TYPE CK_CERTIFICATE_TYPE CKC_X_509\n\
        CKA_VALUE MULTILINE_OCTAL\n\\377\nEND\n\
        CKA_LABEL CK_BBOOL CK_TRUE\n\
        CKA_ISSUER MULTILINE_OCTAL\n\\101\nEND\n\
        CKA_SERIAL_NUMBER MULTILINE_OCTAL\n\\001\nEND\n\
        CKA_SUBJECT MULTILINE_OCTAL\n\\103\nEND\n";
    let objects = decode_all(text);
    assert_eq!(objects.len(), 1);
    match &objects[0] {
        Err(StructureError::TypeError(e)) => {
            assert_eq!(e.got, "CK_BBOOL");
            assert_eq!(e.expected, "UTF8");
            assert_eq!(e.key, "CKA_LABEL");
        }
        other => panic!("expected a type error, got {:?}", other),
    }
}

#[test]
fn wrong_certificate_type_reports_value_error() {
    let text = CERT_RECORD.replace("CKC_X_509", "CKC_OPENPGP");
    let objects = decode_all(&text);
    assert_eq!(objects.len(), 1);
    match &objects[0] {
        Err(StructureError::ValueError(e)) => {
            assert_eq!(e.got, "CKC_OPENPGP");
            assert_eq!(e.attr_type, "CK_CERTIFICATE_TYPE");
            assert_eq!(e.key, "CKA_CERTIFICATE_TYPE");
        }
        other => panic!("expected a value error, got {:?}", other),
    }
}

#[test]
fn unknown_trust_level_reports_value_error() {
    let text = "BEGINDATA\n\
        CKA_CLASS CK_OBJECT_CLASS CKO_NSS_TRUST\n\
        CKA_LABEL UTF8 \"Some Trust\"\n\
        CKA_ISSUER MULTILINE_OCTAL\n\\101\nEND\n\
        CKA_SERIAL_NUMBER MULTILINE_OCTAL\n\\001\nEND\n\
        CKA_TRUST_SERVER_AUTH CK_TRUST CKT_NSS_SOMETIMES\n\
        CKA_TRUST_EMAIL_PROTECTION CK_TRUST CKT_NSS_NOT_TRUSTED\n\
        CKA_TRUST_CODE_SIGNING CK_TRUST CKT_NSS_NOT_TRUSTED\n";
    let objects = decode_all(text);
    assert_eq!(objects.len(), 1);
    match &objects[0] {
        Err(StructureError::ValueError(e)) => {
            assert_eq!(e.got, "CKT_NSS_SOMETIMES");
            assert_eq!(e.attr_type, "CK_TRUST");
            assert_eq!(e.key, "CKA_TRUST_SERVER_AUTH");
        }
        other => panic!("expected a value error, got {:?}", other),
    }
}

#[test]
fn trust_record_decodes_with_optional_hashes() {
    let text = "BEGINDATA\n\
        CKA_CLASS CK_OBJECT_CLASS CKO_NSS_TRUST\n\
        CKA_LABEL UTF8 \"Some Trust\"\n\
        CKA_ISSUER MULTILINE_OCTAL\n\\101\\102\nEND\n\
        CKA_SERIAL_NUMBER MULTILINE_OCTAL\n\\001\nEND\n\
        CKA_CERT_MD5_HASH MULTILINE_OCTAL\n\\017\nEND\n\
        CKA_TRUST_SERVER_AUTH CK_TRUST CKT_NSS_TRUSTED_DELEGATOR\n\
        CKA_TRUST_EMAIL_PROTECTION CK_TRUST CKT_NSS_MUST_VERIFY_TRUST\n\
        CKA_TRUST_CODE_SIGNING CK_TRUST CKT_NSS_NOT_TRUSTED\n";
    let objects = decode_all(text);
    assert_eq!(objects.len(), 1);
    match &objects[0] {
        Ok(Object::Trust(t)) => {
            assert_eq!(t.label, "Some Trust");
            assert_eq!(t.issuer.0, vec![0x41, 0x42]);
            assert_eq!(t.serial.0, vec![0x01]);
            assert_eq!(t.tls_server_trust, TrustLevel::TrustedDelegator);
            assert_eq!(t.email_trust, TrustLevel::MustVerify);
            assert_eq!(t.code_signing_trust, TrustLevel::Distrust);
            assert_eq!(t.md5.as_ref().map(|b| b.0.clone()), Some(vec![0x0f]));
            assert!(t.sha1.is_none());
        }
        other => panic!("expected a trust record, got {:?}", other),
    }
}

#[test]
fn two_records_split_at_class_marker() {
    let text = format!(
        "{}CKA_CLASS CK_OBJECT_CLASS CKO_NSS_BUILTIN_ROOT_LIST\n\
         CKA_LABEL UTF8 \"Mozilla Builtin Roots\"\n",
        CERT_RECORD
    );
    let objects = decode_all(&text);
    // The second record has an unrecognised class and is filtered.
    assert_eq!(objects.len(), 1);
    assert!(matches!(objects[0], Ok(Object::Certificate(_))));
}

#[test]
fn decoding_twice_yields_equal_results() {
    let a = decode_all(CERT_RECORD);
    let b = decode_all(CERT_RECORD);
    assert_eq!(a.len(), b.len());
    match (&a[0], &b[0]) {
        (Ok(Object::Certificate(x)), Ok(Object::Certificate(y))) => {
            assert_eq!(x.label, y.label);
            assert_eq!(x.cert.0, y.cert.0);
            assert_eq!(x.issuer.0, y.issuer.0);
            assert_eq!(x.serial.0, y.serial.0);
            assert_eq!(x.subject.0, y.subject.0);
        }
        other => panic!("expected two certificates, got {:?}", other),
    }
}

#[test]
fn raw_object_overwrites_repeated_keys() {
    let mut obj = RawObject::new();
    obj.insert(
        "CKA_LABEL".to_owned(),
        Value::String("first".to_owned()),
    );
    obj.insert(
        "CKA_LABEL".to_owned(),
        Value::String("second".to_owned()),
    );
    match obj.remove("CKA_LABEL") {
        Some(Value::String(s)) => assert_eq!(s, "second"),
        other => panic!("expected the later value, got {:?}", other),
    }
    assert!(obj.remove("CKA_LABEL").is_none());
    assert!(obj.is_empty());
}

#[test]
fn value_type_tags() {
    let tok = Value::Token("CK_BBOOL".to_owned(), "CK_TRUE".to_owned());
    assert_eq!(tok.get_type(), "CK_BBOOL");
    assert_eq!(tok.into_type(), "CK_BBOOL");
    let s = Value::String("x".to_owned());
    assert_eq!(s.get_type(), "UTF8");
    assert_eq!(s.into_type(), "UTF8");
    let b = Value::Binary(vec![1]);
    assert_eq!(b.get_type(), "MULTILINE_OCTAL");
    assert_eq!(b.into_type(), "MULTILINE_OCTAL");
}

#[test]
fn trust_level_vocabulary() {
    assert_eq!(
        TrustLevel::from_str("CKT_NSS_NOT_TRUSTED"),
        Some(TrustLevel::Distrust)
    );
    assert_eq!(
        TrustLevel::from_str("CKT_NSS_MUST_VERIFY_TRUST"),
        Some(TrustLevel::MustVerify)
    );
    assert_eq!(
        TrustLevel::from_str("CKT_NSS_TRUSTED_DELEGATOR"),
        Some(TrustLevel::TrustedDelegator)
    );
    assert_eq!(TrustLevel::from_str("CKT_NSS_VALID"), None);
}

#[test]
fn into_inner_returns_raw_stream() {
    let mut iter = ObjectIter::new();
    iter.feed(CERT_RECORD.as_bytes());
    iter.finish();
    let mut raw = iter.into_inner();
    assert!(matches!(raw.next_object(), RawStep::Object(_)));
    assert!(matches!(raw.next_object(), RawStep::End));
}

#[test]
fn junk_before_header_is_ignored() {
    let text = format!("# certdata preamble\n\n   \n{}", CERT_RECORD);
    let objects = decode_all(&text);
    assert_eq!(objects.len(), 1);
    assert!(matches!(objects[0], Ok(Object::Certificate(_))));
}

#[test]
fn carriage_returns_are_tolerated() {
    let text = CERT_RECORD.replace('\n', "\r\n");
    let objects = decode_all(&text);
    assert_eq!(objects.len(), 1);
    assert!(matches!(objects[0], Ok(Object::Certificate(_))));
}

#[test]
fn repeated_key_in_one_record_keeps_last_value() {
    let text = CERT_RECORD.replace(
        "CKA_LABEL UTF8 \"Test\"\n",
        "CKA_LABEL UTF8 \"First\"\nCKA_LABEL UTF8 \"Second\"\n",
    );
    let objects = decode_all(&text);
    assert_eq!(objects.len(), 1);
    match &objects[0] {
        Ok(Object::Certificate(c)) => assert_eq!(c.label, "Second"),
        other => panic!("expected a certificate, got {:?}", other),
    }
}

#[test]
fn error_offset_is_absolute() {
    // One good attribute, then a value that starts with a quote where a
    // token is required: the parse fails at that quote's byte offset.
    let good = "BEGINDATA\nCKA_CLASS CK_OBJECT_CLASS CKO_CERTIFICATE\n";
    let bad = "CKA_X CK_BBOOL \"nope\"\n";
    let input = format!("{}{}", good, bad);
    let mut iter = AttrIter::new();
    iter.feed(input.as_bytes());
    iter.finish();
    assert!(matches!(iter.next_attr(), AttrStep::Attr(_, _)));
    match iter.next_attr() {
        AttrStep::Fail(e) => {
            let quote = input.find('"').unwrap();
            assert_eq!(e.byte_offset, quote as u64);
        }
        other => panic!("expected a parse failure, got {:?}", other),
    }
}

#[test]
fn empty_source_ends_without_error() {
    let mut iter = ObjectIter::new();
    iter.finish();
    assert!(matches!(iter.next_decoded(), ObjStep::End));
}
