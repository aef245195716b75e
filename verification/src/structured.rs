//! Structured decoding of raw records into typed Certificate and Trust
//! entities, with a defined error taxonomy.
//!
//! Decoding consumes expected keys out of a [`RawObject`] one at a time and
//! is fail-fast: the first missing or mismatched field aborts the record's
//! decode, and leftover unrecognised fields are discarded silently.

use vstd::prelude::*;

use crate::reader::RawObject;
use crate::syntax::{spec_value_type, Value, ValueView};
use crate::text::str_eq;

verus! {

/// The contents of one raw record, as a mapping.
pub type RawMap = Map<Seq<char>, ValueView>;

/// An owned byte string, as stored in certificate and trust fields.
#[derive(Debug, Clone, PartialEq, Eq, PartialOrd, Ord)]
pub struct Blob(pub Vec<u8>);

impl View for Blob {
    type V = Seq<u8>;

    open spec fn view(&self) -> Seq<u8> {
        self.0@
    }
}

impl Blob {
    /// The bytes as a slice.
    pub fn as_bytes(&self) -> (r: &[u8])
        ensures
            r@ == self@,
    {
        self.0.as_slice()
    }
}

/// A decoded certificate record.
#[derive(Debug, Clone)]
pub struct Certificate {
    pub label: String,
    pub cert: Blob,
    pub issuer: Blob,
    pub serial: Blob,
    pub subject: Blob,
}

/// Specification-level counterpart of [`Certificate`].
pub struct CertificateView {
    pub label: Seq<char>,
    pub cert: Seq<u8>,
    pub issuer: Seq<u8>,
    pub serial: Seq<u8>,
    pub subject: Seq<u8>,
}

impl View for Certificate {
    type V = CertificateView;

    open spec fn view(&self) -> CertificateView {
        CertificateView {
            label: self.label@,
            cert: self.cert@,
            issuer: self.issuer@,
            serial: self.serial@,
            subject: self.subject@,
        }
    }
}

/// How far a certificate is trusted for one usage.  The order is meaningful:
/// `Distrust` < `MustVerify` < `TrustedDelegator`.
#[derive(Debug, Clone, Copy, PartialEq, Eq, Structural, PartialOrd, Ord)]
pub enum TrustLevel {
    Distrust,
    MustVerify,
    TrustedDelegator,
}

/// A certificate purpose category, selecting one of a trust record's three
/// level fields.
#[derive(Debug, Clone, Copy, PartialEq, Eq, Structural)]
pub enum Usage {
    TlsServer,
    Email,
    CodeSigning,
}

/// A decoded trust record.
#[derive(Debug, Clone)]
pub struct Trust {
    pub label: String,
    pub issuer: Blob,
    pub serial: Blob,
    pub tls_server_trust: TrustLevel,
    pub email_trust: TrustLevel,
    pub code_signing_trust: TrustLevel,
    pub md5: Option<Blob>,
    pub sha1: Option<Blob>,
}

/// Specification-level counterpart of [`Trust`].
pub struct TrustView {
    pub label: Seq<char>,
    pub issuer: Seq<u8>,
    pub serial: Seq<u8>,
    pub tls_server_trust: TrustLevel,
    pub email_trust: TrustLevel,
    pub code_signing_trust: TrustLevel,
    pub md5: Option<Seq<u8>>,
    pub sha1: Option<Seq<u8>>,
}

impl View for Trust {
    type V = TrustView;

    open spec fn view(&self) -> TrustView {
        TrustView {
            label: self.label@,
            issuer: self.issuer@,
            serial: self.serial@,
            tls_server_trust: self.tls_server_trust,
            email_trust: self.email_trust,
            code_signing_trust: self.code_signing_trust,
            md5: match self.md5 {
                Some(b) => Some(b@),
                None => None,
            },
            sha1: match self.sha1 {
                Some(b) => Some(b@),
                None => None,
            },
        }
    }
}

/// A decoded object: one certificate or one trust record.
#[derive(Debug, Clone)]
pub enum Object {
    Trust(Trust),
    Certificate(Certificate),
}

/// Specification-level counterpart of [`Object`].
pub enum ObjectView {
    Trust(TrustView),
    Certificate(CertificateView),
}

impl View for Object {
    type V = ObjectView;

    open spec fn view(&self) -> ObjectView {
        match self {
            Object::Trust(t) => ObjectView::Trust(t@),
            Object::Certificate(c) => ObjectView::Certificate(c@),
        }
    }
}

/// A field was present under an unexpected type tag.
#[derive(Debug, Clone, PartialEq, Eq)]
pub struct TypeError {
    pub got: String,
    pub expected: String,
    pub key: String,
}

/// Specification-level counterpart of [`TypeError`].
pub struct TypeErrorView {
    pub got: Seq<char>,
    pub expected: Seq<char>,
    pub key: Seq<char>,
}

impl View for TypeError {
    type V = TypeErrorView;

    open spec fn view(&self) -> TypeErrorView {
        TypeErrorView { got: self.got@, expected: self.expected@, key: self.key@ }
    }
}

/// A token field carried the right type tag but an untranslatable value.
#[derive(Debug, Clone, PartialEq, Eq)]
pub struct ValueError {
    pub got: String,
    pub attr_type: String,
    pub key: String,
}

/// Specification-level counterpart of [`ValueError`].
pub struct ValueErrorView {
    pub got: Seq<char>,
    pub attr_type: Seq<char>,
    pub key: Seq<char>,
}

impl View for ValueError {
    type V = ValueErrorView;

    open spec fn view(&self) -> ValueErrorView {
        ValueErrorView { got: self.got@, attr_type: self.attr_type@, key: self.key@ }
    }
}

/// Semantic validation failure of one syntactically valid record.
#[derive(Debug, Clone, PartialEq, Eq)]
pub enum StructureError {
    MissingKey(String),
    TypeError(TypeError),
    ValueError(ValueError),
}

/// Specification-level counterpart of [`StructureError`].
pub enum StructureErrorView {
    MissingKey(Seq<char>),
    TypeError(TypeErrorView),
    ValueError(ValueErrorView),
}

impl View for StructureError {
    type V = StructureErrorView;

    open spec fn view(&self) -> StructureErrorView {
        match self {
            StructureError::MissingKey(k) => StructureErrorView::MissingKey(k@),
            StructureError::TypeError(e) => StructureErrorView::TypeError(e@),
            StructureError::ValueError(e) => StructureErrorView::ValueError(e@),
        }
    }
}

/// Taking a required binary field: the key must be present as a binary
/// value; otherwise the missing key or the offending type tag is reported.
pub open spec fn spec_take_bin(m: RawMap, key: Seq<char>) -> Result<
    (Seq<u8>, RawMap),
    StructureErrorView,
> {
    if !m.contains_key(key) {
        Err(StructureErrorView::MissingKey(key))
    } else {
        match m[key] {
            ValueView::Binary(b) => Ok((b, m.remove(key))),
            v => Err(
                StructureErrorView::TypeError(
                    TypeErrorView {
                        got: spec_value_type(v),
                        expected: "MULTILINE_OCTAL"@,
                        key: key,
                    },
                ),
            ),
        }
    }
}

/// Taking a required string field.
pub open spec fn spec_take_str(m: RawMap, key: Seq<char>) -> Result<
    (Seq<char>, RawMap),
    StructureErrorView,
> {
    if !m.contains_key(key) {
        Err(StructureErrorView::MissingKey(key))
    } else {
        match m[key] {
            ValueView::String(s) => Ok((s, m.remove(key))),
            v => Err(
                StructureErrorView::TypeError(
                    TypeErrorView { got: spec_value_type(v), expected: "UTF8"@, key: key },
                ),
            ),
        }
    }
}

/// Taking a required token field with an expected type tag.
pub open spec fn spec_take_tok(m: RawMap, key: Seq<char>, exp_ty: Seq<char>) -> Result<
    (Seq<char>, RawMap),
    StructureErrorView,
> {
    if !m.contains_key(key) {
        Err(StructureErrorView::MissingKey(key))
    } else {
        match m[key] {
            ValueView::Token(ty, v) => if ty == exp_ty {
                Ok((v, m.remove(key)))
            } else {
                Err(
                    StructureErrorView::TypeError(
                        TypeErrorView { got: ty, expected: exp_ty, key: key },
                    ),
                )
            },
            v => Err(
                StructureErrorView::TypeError(
                    TypeErrorView { got: spec_value_type(v), expected: exp_ty, key: key },
                ),
            ),
        }
    }
}

/// The fixed trust-level vocabulary.
pub open spec fn spec_trust_level_of(s: Seq<char>) -> Option<TrustLevel> {
    if s == "CKT_NSS_NOT_TRUSTED"@ {
        Some(TrustLevel::Distrust)
    } else if s == "CKT_NSS_MUST_VERIFY_TRUST"@ {
        Some(TrustLevel::MustVerify)
    } else if s == "CKT_NSS_TRUSTED_DELEGATOR"@ {
        Some(TrustLevel::TrustedDelegator)
    } else {
        None
    }
}

/// Taking a required trust-level field: a `CK_TRUST` token translated
/// through the fixed vocabulary; a recognised type tag with an unknown value
/// is a value error.
pub open spec fn spec_take_trust_level(m: RawMap, key: Seq<char>) -> Result<
    (TrustLevel, RawMap),
    StructureErrorView,
> {
    match spec_take_tok(m, key, "CK_TRUST"@) {
        Err(e) => Err(e),
        Ok((v, m2)) => match spec_trust_level_of(v) {
            Some(l) => Ok((l, m2)),
            None => Err(
                StructureErrorView::ValueError(
                    ValueErrorView { got: v, attr_type: "CK_TRUST"@, key: key },
                ),
            ),
        },
    }
}

/// An optional field: a missing key means "absent" instead of an error.
pub open spec fn spec_optional<T>(m: RawMap, r: Result<(T, RawMap), StructureErrorView>) -> Result<
    (Option<T>, RawMap),
    StructureErrorView,
> {
    match r {
        Ok((v, m2)) => Ok((Some(v), m2)),
        Err(StructureErrorView::MissingKey(_)) => Ok((None, m)),
        Err(e) => Err(e),
    }
}

/// Decoding a certificate record, in field order: the certificate type must
/// be the `CKC_X_509` token, then the binary value, the string label, and
/// the binary issuer, serial number and subject.
pub open spec fn spec_certificate_from_raw(m: RawMap) -> Result<
    CertificateView,
    StructureErrorView,
> {
    match spec_take_tok(m, "CKA_CERTIFICATE_TYPE"@, "CK_CERTIFICATE_TYPE"@) {
        Err(e) => Err(e),
        Ok((ct, m1)) => if ct != "CKC_X_509"@ {
            Err(
                StructureErrorView::ValueError(
                    ValueErrorView {
                        got: ct,
                        attr_type: "CK_CERTIFICATE_TYPE"@,
                        key: "CKA_CERTIFICATE_TYPE"@,
                    },
                ),
            )
        } else {
            match spec_take_bin(m1, "CKA_VALUE"@) {
                Err(e) => Err(e),
                Ok((cert, m2)) => match spec_take_str(m2, "CKA_LABEL"@) {
                    Err(e) => Err(e),
                    Ok((label, m3)) => match spec_take_bin(m3, "CKA_ISSUER"@) {
                        Err(e) => Err(e),
                        Ok((issuer, m4)) => match spec_take_bin(m4, "CKA_SERIAL_NUMBER"@) {
                            Err(e) => Err(e),
                            Ok((serial, m5)) => match spec_take_bin(m5, "CKA_SUBJECT"@) {
                                Err(e) => Err(e),
                                Ok((subject, m6)) => Ok(
                                    CertificateView { label, cert, issuer, serial, subject },
                                ),
                            },
                        },
                    },
                },
            }
        },
    }
}

/// Decoding a trust record, in field order: string label, binary issuer and
/// serial, the three trust levels, then the optional binary hashes.
pub open spec fn spec_trust_from_raw(m: RawMap) -> Result<TrustView, StructureErrorView> {
    match spec_take_str(m, "CKA_LABEL"@) {
        Err(e) => Err(e),
        Ok((label, m1)) => match spec_take_bin(m1, "CKA_ISSUER"@) {
            Err(e) => Err(e),
            Ok((issuer, m2)) => match spec_take_bin(m2, "CKA_SERIAL_NUMBER"@) {
                Err(e) => Err(e),
                Ok((serial, m3)) => match spec_take_trust_level(m3, "CKA_TRUST_SERVER_AUTH"@) {
                    Err(e) => Err(e),
                    Ok((tls, m4)) => match spec_take_trust_level(
                        m4,
                        "CKA_TRUST_EMAIL_PROTECTION"@,
                    ) {
                        Err(e) => Err(e),
                        Ok((email, m5)) => match spec_take_trust_level(
                            m5,
                            "CKA_TRUST_CODE_SIGNING"@,
                        ) {
                            Err(e) => Err(e),
                            Ok((code, m6)) => match spec_optional(
                                m6,
                                spec_take_bin(m6, "CKA_CERT_MD5_HASH"@),
                            ) {
                                Err(e) => Err(e),
                                Ok((md5, m7)) => match spec_optional(
                                    m7,
                                    spec_take_bin(m7, "CKA_CERT_SHA1_HASH"@),
                                ) {
                                    Err(e) => Err(e),
                                    Ok((sha1, _m8)) => Ok(
                                        TrustView {
                                            label,
                                            issuer,
                                            serial,
                                            tls_server_trust: tls,
                                            email_trust: email,
                                            code_signing_trust: code,
                                            md5,
                                            sha1,
                                        },
                                    ),
                                },
                            },
                        },
                    },
                },
            },
        },
    }
}

/// Classification and decoding of one record: the `CKA_CLASS` token selects
/// certificate decoding, trust decoding, or silent filtering of any other
/// class.
pub open spec fn spec_object_from_raw(m: RawMap) -> Result<Option<ObjectView>, StructureErrorView> {
    match spec_take_tok(m, "CKA_CLASS"@, "CK_OBJECT_CLASS"@) {
        Err(e) => Err(e),
        Ok((cls, m1)) => if cls == "CKO_CERTIFICATE"@ {
            match spec_certificate_from_raw(m1) {
                Ok(c) => Ok(Some(ObjectView::Certificate(c))),
                Err(e) => Err(e),
            }
        } else if cls == "CKO_NSS_TRUST"@ {
            match spec_trust_from_raw(m1) {
                Ok(t) => Ok(Some(ObjectView::Trust(t))),
                Err(e) => Err(e),
            }
        } else {
            Ok(None)
        },
    }
}

/// Removes a required binary field from the record.
pub fn take_bin(obj: &mut RawObject, key: &str) -> (r: Result<Blob, StructureError>)
    requires
        old(obj).wf(),
    ensures
        final(obj).wf(),
        match r {
            Ok(b) => spec_take_bin(old(obj)@, key@) matches Ok((bs, m2)) && b@ == bs && final(obj)@ == m2,
            Err(e) => spec_take_bin(old(obj)@, key@) matches Err(e2) && e@ == e2 && final(obj)@
                == old(obj)@.remove(key@),
        },
{
    proof {
        if !old(obj)@.contains_key(key@) {
            assert(old(obj)@.remove(key@) =~= old(obj)@);
        }
    }
    match obj.remove(key) {
        None => Err(StructureError::MissingKey(key.to_owned())),
        Some(Value::Binary(b)) => Ok(Blob(b)),
        Some(v) => Err(
            StructureError::TypeError(
                TypeError {
                    got: v.into_type(),
                    expected: "MULTILINE_OCTAL".to_owned(),
                    key: key.to_owned(),
                },
            ),
        ),
    }
}

/// Removes a required string field from the record.
pub fn take_str(obj: &mut RawObject, key: &str) -> (r: Result<String, StructureError>)
    requires
        old(obj).wf(),
    ensures
        final(obj).wf(),
        match r {
            Ok(s) => spec_take_str(old(obj)@, key@) matches Ok((ss, m2)) && s@ == ss && final(obj)@ == m2,
            Err(e) => spec_take_str(old(obj)@, key@) matches Err(e2) && e@ == e2 && final(obj)@
                == old(obj)@.remove(key@),
        },
{
    proof {
        if !old(obj)@.contains_key(key@) {
            assert(old(obj)@.remove(key@) =~= old(obj)@);
        }
    }
    match obj.remove(key) {
        None => Err(StructureError::MissingKey(key.to_owned())),
        Some(Value::String(s)) => Ok(s),
        Some(v) => Err(
            StructureError::TypeError(
                TypeError { got: v.into_type(), expected: "UTF8".to_owned(), key: key.to_owned() },
            ),
        ),
    }
}

/// Removes a required token field, checking its type tag, and returns the
/// token's value.
pub fn take_tok(obj: &mut RawObject, key: &str, exp_ty: &str) -> (r: Result<String, StructureError>)
    requires
        old(obj).wf(),
    ensures
        final(obj).wf(),
        match r {
            Ok(s) => spec_take_tok(old(obj)@, key@, exp_ty@) matches Ok((ss, m2)) && s@ == ss
                && final(obj)@ == m2,
            Err(e) => spec_take_tok(old(obj)@, key@, exp_ty@) matches Err(e2) && e@ == e2 && final(obj)@ == old(obj)@.remove(key@),
        },
{
    proof {
        if !old(obj)@.contains_key(key@) {
            assert(old(obj)@.remove(key@) =~= old(obj)@);
        }
    }
    match obj.remove(key) {
        None => Err(StructureError::MissingKey(key.to_owned())),
        Some(Value::Token(ty, v)) => {
            if str_eq(ty.as_str(), exp_ty) {
                Ok(v)
            } else {
                Err(
                    StructureError::TypeError(
                        TypeError { got: ty, expected: exp_ty.to_owned(), key: key.to_owned() },
                    ),
                )
            }
        },
        Some(v) => Err(
            StructureError::TypeError(
                TypeError { got: v.into_type(), expected: exp_ty.to_owned(), key: key.to_owned() },
            ),
        ),
    }
}

/// Removes a required trust-level field from the record.
fn take_trust_level(obj: &mut RawObject, key: &str) -> (r: Result<TrustLevel, StructureError>)
    requires
        old(obj).wf(),
    ensures
        final(obj).wf(),
        match r {
            Ok(l) => spec_take_trust_level(old(obj)@, key@) matches Ok((l2, m2)) && l == l2
                && final(obj)@ == m2,
            Err(e) => spec_take_trust_level(old(obj)@, key@) matches Err(e2) && e@ == e2 && final(obj)@ == old(obj)@.remove(key@),
        },
{
    match take_tok(obj, key, "CK_TRUST") {
        Err(e) => Err(e),
        Ok(v) => match TrustLevel::from_str(v.as_str()) {
            Some(l) => Ok(l),
            None => Err(
                StructureError::ValueError(
                    ValueError { got: v, attr_type: "CK_TRUST".to_owned(), key: key.to_owned() },
                ),
            ),
        },
    }
}

/// Converts a missing-key failure into an absent optional field.
pub fn optionalize<T>(r: Result<T, StructureError>) -> (res: Result<Option<T>, StructureError>)
    ensures
        match r {
            Ok(v) => res matches Ok(Some(v2)) && v2 == v,
            Err(StructureError::MissingKey(_)) => res matches Ok(o) && o is None,
            Err(e) => res matches Err(e2) && e2 == e,
        },
{
    match r {
        Ok(t) => Ok(Some(t)),
        Err(StructureError::MissingKey(_)) => Ok(None),
        Err(e) => Err(e),
    }
}

impl TrustLevel {
    /// Translates a trust-level token through the fixed vocabulary.
    pub fn from_str(s: &str) -> (r: Option<TrustLevel>)
        ensures
            r == spec_trust_level_of(s@),
    {
        if str_eq(s, "CKT_NSS_NOT_TRUSTED") {
            Some(TrustLevel::Distrust)
        } else if str_eq(s, "CKT_NSS_MUST_VERIFY_TRUST") {
            Some(TrustLevel::MustVerify)
        } else if str_eq(s, "CKT_NSS_TRUSTED_DELEGATOR") {
            Some(TrustLevel::TrustedDelegator)
        } else {
            None
        }
    }
}

/// The trust level a record assigns to one usage.
pub open spec fn spec_trust_level_for(t: TrustView, usage: Usage) -> TrustLevel {
    match usage {
        Usage::TlsServer => t.tls_server_trust,
        Usage::Email => t.email_trust,
        Usage::CodeSigning => t.code_signing_trust,
    }
}

impl Trust {
    /// The level this record assigns to the given usage.
    pub fn trust_level(&self, usage: Usage) -> (r: TrustLevel)
        ensures
            r == spec_trust_level_for(self@, usage),
    {
        match usage {
            Usage::TlsServer => self.tls_server_trust,
            Usage::Email => self.email_trust,
            Usage::CodeSigning => self.code_signing_trust,
        }
    }
}

impl Certificate {
    /// Decodes a certificate from a raw record whose class marker has
    /// already been consumed.
    pub fn from_raw(obj: RawObject) -> (r: Result<Certificate, StructureError>)
        requires
            obj.wf(),
        ensures
            match r {
                Ok(c) => spec_certificate_from_raw(obj@) matches Ok(cv) && c@ == cv,
                Err(e) => spec_certificate_from_raw(obj@) matches Err(ev) && e@ == ev,
            },
    {
        let mut obj = obj;
        let ct = match take_tok(&mut obj, "CKA_CERTIFICATE_TYPE", "CK_CERTIFICATE_TYPE") {
            Ok(v) => v,
            Err(e) => {
                return Err(e);
            },
        };
        if !str_eq(ct.as_str(), "CKC_X_509") {
            return Err(
                StructureError::ValueError(
                    ValueError {
                        got: ct,
                        attr_type: "CK_CERTIFICATE_TYPE".to_owned(),
                        key: "CKA_CERTIFICATE_TYPE".to_owned(),
                    },
                ),
            );
        }
        let cert = match take_bin(&mut obj, "CKA_VALUE") {
            Ok(v) => v,
            Err(e) => {
                return Err(e);
            },
        };
        let label = match take_str(&mut obj, "CKA_LABEL") {
            Ok(v) => v,
            Err(e) => {
                return Err(e);
            },
        };
        let issuer = match take_bin(&mut obj, "CKA_ISSUER") {
            Ok(v) => v,
            Err(e) => {
                return Err(e);
            },
        };
        let serial = match take_bin(&mut obj, "CKA_SERIAL_NUMBER") {
            Ok(v) => v,
            Err(e) => {
                return Err(e);
            },
        };
        let subject = match take_bin(&mut obj, "CKA_SUBJECT") {
            Ok(v) => v,
            Err(e) => {
                return Err(e);
            },
        };
        Ok(Certificate { label, cert, issuer, serial, subject })
    }
}

impl Trust {
    /// Decodes a trust record from a raw record whose class marker has
    /// already been consumed.
    pub fn from_raw(obj: RawObject) -> (r: Result<Trust, StructureError>)
        requires
            obj.wf(),
        ensures
            match r {
                Ok(t) => spec_trust_from_raw(obj@) matches Ok(tv) && t@ == tv,
                Err(e) => spec_trust_from_raw(obj@) matches Err(ev) && e@ == ev,
            },
    {
        let mut obj = obj;
        let label = match take_str(&mut obj, "CKA_LABEL") {
            Ok(v) => v,
            Err(e) => {
                return Err(e);
            },
        };
        let issuer = match take_bin(&mut obj, "CKA_ISSUER") {
            Ok(v) => v,
            Err(e) => {
                return Err(e);
            },
        };
        let serial = match take_bin(&mut obj, "CKA_SERIAL_NUMBER") {
            Ok(v) => v,
            Err(e) => {
                return Err(e);
            },
        };
        let tls_server_trust = match take_trust_level(&mut obj, "CKA_TRUST_SERVER_AUTH") {
            Ok(v) => v,
            Err(e) => {
                return Err(e);
            },
        };
        let email_trust = match take_trust_level(&mut obj, "CKA_TRUST_EMAIL_PROTECTION") {
            Ok(v) => v,
            Err(e) => {
                return Err(e);
            },
        };
        let code_signing_trust = match take_trust_level(&mut obj, "CKA_TRUST_CODE_SIGNING") {
            Ok(v) => v,
            Err(e) => {
                return Err(e);
            },
        };
        let md5 = match optionalize(take_bin(&mut obj, "CKA_CERT_MD5_HASH")) {
            Ok(v) => v,
            Err(e) => {
                return Err(e);
            },
        };
        let sha1 = match optionalize(take_bin(&mut obj, "CKA_CERT_SHA1_HASH")) {
            Ok(v) => v,
            Err(e) => {
                return Err(e);
            },
        };
        Ok(
            Trust {
                label,
                issuer,
                serial,
                tls_server_trust,
                email_trust,
                code_signing_trust,
                md5,
                sha1,
            },
        )
    }
}

enum ObjClass {
    Certificate,
    Trust,
    Other,
}

/// Consumes the class marker and classifies the record.
fn take_class(obj: &mut RawObject) -> (r: Result<ObjClass, StructureError>)
    requires
        old(obj).wf(),
    ensures
        final(obj).wf(),
        match r {
            Ok(c) => spec_take_tok(old(obj)@, "CKA_CLASS"@, "CK_OBJECT_CLASS"@) matches Ok(
                (cls, m2),
            ) && final(obj)@ == m2 && (c is Certificate <==> cls == "CKO_CERTIFICATE"@) && (
            c is Trust <==> cls == "CKO_NSS_TRUST"@),
            Err(e) => spec_take_tok(old(obj)@, "CKA_CLASS"@, "CK_OBJECT_CLASS"@) matches Err(e2)
                && e@ == e2,
        },
{
    proof {
        reveal_strlit("CKO_CERTIFICATE");
        reveal_strlit("CKO_NSS_TRUST");
        assert("CKO_CERTIFICATE"@.len() == 15);
        assert("CKO_NSS_TRUST"@.len() == 13);
        assert("CKO_CERTIFICATE"@ != "CKO_NSS_TRUST"@);
    }
    match take_tok(obj, "CKA_CLASS", "CK_OBJECT_CLASS") {
        Err(e) => Err(e),
        Ok(cls) => {
            if str_eq(cls.as_str(), "CKO_CERTIFICATE") {
                Ok(ObjClass::Certificate)
            } else if str_eq(cls.as_str(), "CKO_NSS_TRUST") {
                Ok(ObjClass::Trust)
            } else {
                Ok(ObjClass::Other)
            }
        },
    }
}

impl Object {
    /// Decodes one raw record: a certificate, a trust record, or nothing at
    /// all for a record of any other class.
    pub fn from_raw(obj: RawObject) -> (r: Result<Option<Object>, StructureError>)
        requires
            obj.wf(),
        ensures
            match r {
                Ok(Some(o)) => spec_object_from_raw(obj@) matches Ok(Some(ov)) && o@ == ov,
                Ok(None) => spec_object_from_raw(obj@) matches Ok(o2) && o2 is None,
                Err(e) => spec_object_from_raw(obj@) matches Err(ev) && e@ == ev,
            },
    {
        let mut obj = obj;
        match take_class(&mut obj) {
            Err(e) => Err(e),
            Ok(ObjClass::Certificate) => match Certificate::from_raw(obj) {
                Ok(c) => Ok(Some(Object::Certificate(c))),
                Err(e) => Err(e),
            },
            Ok(ObjClass::Trust) => match Trust::from_raw(obj) {
                Ok(t) => Ok(Some(Object::Trust(t))),
                Err(e) => Err(e),
            },
            Ok(ObjClass::Other) => Ok(None),
        }
    }
}

} // verus!
