//! The final store: decoded certificates and trust records, sorted and
//! indexed for binary-search lookup and usage-filtered queries.

use vstd::multiset::Multiset;
use vstd::prelude::*;

use crate::structured::{
    spec_trust_level_for, Certificate, CertificateView, Object, ObjectView, Trust, TrustLevel,
    TrustView, Usage,
};
use crate::text::{
    bytes_cmp, lemma_lex_cmp_antisym, lemma_lex_cmp_trans, lemma_lex_cmp_zero, lex_cmp,
};

verus! {

broadcast use vstd::multiset::group_multiset_axioms;

/// The views of a sequence of certificates.
pub open spec fn cert_views(s: Seq<Certificate>) -> Seq<CertificateView> {
    s.map_values(|c: Certificate| c@)
}

/// The views of a sequence of trust records.
pub open spec fn trust_views(s: Seq<Trust>) -> Seq<TrustView> {
    s.map_values(|t: Trust| t@)
}

/// The views of a sequence of borrowed certificates.
pub open spec fn ref_cert_views(s: Seq<&Certificate>) -> Seq<CertificateView> {
    s.map_values(|c: &Certificate| c@)
}

/// The views of a sequence of borrowed trust records.
pub open spec fn ref_trust_views(s: Seq<&Trust>) -> Seq<TrustView> {
    s.map_values(|t: &Trust| t@)
}

/// Three-way order on (issuer, serial) pairs: by issuer bytes, then by
/// serial bytes.
pub open spec fn pair_cmp(i1: Seq<u8>, s1: Seq<u8>, i2: Seq<u8>, s2: Seq<u8>) -> int {
    if lex_cmp(i1, i2) != 0 {
        lex_cmp(i1, i2)
    } else {
        lex_cmp(s1, s2)
    }
}

/// The pair order compares equal exactly on equal pairs.
pub proof fn lemma_pair_cmp_zero(i1: Seq<u8>, s1: Seq<u8>, i2: Seq<u8>, s2: Seq<u8>)
    ensures
        pair_cmp(i1, s1, i2, s2) == 0 <==> (i1 == i2 && s1 == s2),
{
    lemma_lex_cmp_zero(i1, i2);
    lemma_lex_cmp_zero(s1, s2);
}

/// Swapping the pairs negates the order.
pub proof fn lemma_pair_cmp_antisym(i1: Seq<u8>, s1: Seq<u8>, i2: Seq<u8>, s2: Seq<u8>)
    ensures
        pair_cmp(i1, s1, i2, s2) == -pair_cmp(i2, s2, i1, s1),
{
    lemma_lex_cmp_antisym(i1, i2);
    lemma_lex_cmp_antisym(s1, s2);
}

/// The pair order is transitive, strictly so when either step is strict.
pub proof fn lemma_pair_cmp_trans(
    i1: Seq<u8>,
    s1: Seq<u8>,
    i2: Seq<u8>,
    s2: Seq<u8>,
    i3: Seq<u8>,
    s3: Seq<u8>,
)
    requires
        pair_cmp(i1, s1, i2, s2) <= 0,
        pair_cmp(i2, s2, i3, s3) <= 0,
    ensures
        pair_cmp(i1, s1, i3, s3) <= 0,
        pair_cmp(i1, s1, i2, s2) < 0 || pair_cmp(i2, s2, i3, s3) < 0 ==> pair_cmp(i1, s1, i3, s3)
            < 0,
{
    lemma_lex_cmp_zero(i1, i2);
    lemma_lex_cmp_zero(i2, i3);
    lemma_lex_cmp_zero(s1, s2);
    lemma_lex_cmp_zero(s2, s3);
    if lex_cmp(i1, i2) == 0 {
        if lex_cmp(i2, i3) == 0 {
            lemma_lex_cmp_trans(s1, s2, s3);
        }
    } else if lex_cmp(i2, i3) == 0 {
    } else {
        lemma_lex_cmp_trans(i1, i2, i3);
    }
}

/// Certificates are ordered ascending by subject bytes.
pub open spec fn cert_le(a: CertificateView, b: CertificateView) -> bool {
    lex_cmp(a.subject, b.subject) <= 0
}

/// Trust records are ordered ascending by their (issuer, serial) pair.
pub open spec fn trust_le(a: TrustView, b: TrustView) -> bool {
    pair_cmp(a.issuer, a.serial, b.issuer, b.serial) <= 0
}

/// Non-decreasing by subject bytes.
pub open spec fn certs_sorted(s: Seq<CertificateView>) -> bool {
    forall|i: int, j: int| 0 <= i <= j < s.len() ==> cert_le(#[trigger] s[i], #[trigger] s[j])
}

/// Non-decreasing by (issuer, serial).
pub open spec fn trusts_sorted(s: Seq<TrustView>) -> bool {
    forall|i: int, j: int| 0 <= i <= j < s.len() ==> trust_le(#[trigger] s[i], #[trigger] s[j])
}

/// The certificates among a stream of decoded objects, in stream order.
pub open spec fn spec_certs_of(s: Seq<ObjectView>) -> Seq<CertificateView>
    decreases s.len(),
{
    if s.len() == 0 {
        seq![]
    } else {
        spec_certs_of(s.drop_last()) + (match s.last() {
            ObjectView::Certificate(c) => seq![c],
            ObjectView::Trust(_) => seq![],
        })
    }
}

/// The trust records among a stream of decoded objects, in stream order.
pub open spec fn spec_trusts_of(s: Seq<ObjectView>) -> Seq<TrustView>
    decreases s.len(),
{
    if s.len() == 0 {
        seq![]
    } else {
        spec_trusts_of(s.drop_last()) + (match s.last() {
            ObjectView::Certificate(_) => seq![],
            ObjectView::Trust(t) => seq![t],
        })
    }
}

/// The views of a sequence of decoded objects.
pub open spec fn object_views(s: Seq<Object>) -> Seq<ObjectView> {
    s.map_values(|o: Object| o@)
}

/// An empty sequence's multiset is an identity for multiset addition.
proof fn lemma_add_empty_seq<A>(m: Multiset<A>, s: Seq<A>)
    requires
        s.len() == 0,
    ensures
        m.add(s.to_multiset()) == m,
        s.to_multiset().add(m) == m,
{
    s.to_multiset_ensures();
    assert forall|x: A| true implies #[trigger] s.to_multiset().count(x) == 0 by {
        assert(s.to_multiset().count(x) <= s.to_multiset().len());
    };
    assert(m.add(s.to_multiset()) =~= m);
    assert(s.to_multiset().add(m) =~= m);
}

/// Inserting anywhere adds the element to the sequence's multiset.
proof fn lemma_seq_insert_multiset<A>(s: Seq<A>, p: int, c: A)
    requires
        0 <= p <= s.len(),
    ensures
        s.insert(p, c).to_multiset() == s.to_multiset().insert(c),
{
    let t = s.insert(p, c);
    s.insert_ensures(p, c);
    t.to_multiset_ensures();
    s.to_multiset_ensures();
    assert(t.remove(p) =~= s);
    assert(t[p] == c);
    assert(t.contains(c));
    assert(t.to_multiset().remove(c) =~= s.to_multiset());
    assert(t.to_multiset().count(c) > 0);
    assert forall|x: A| true implies t.to_multiset().count(x) == s.to_multiset().insert(c).count(x)
        by {
        if x == c {
            assert(t.to_multiset().remove(c).count(c) == t.to_multiset().count(c) - 1);
        } else {
            assert(t.to_multiset().remove(c).count(x) == t.to_multiset().count(x));
        }
    };
    assert(t.to_multiset() =~= s.to_multiset().insert(c));
}

/// Element positions after inserting at `p`: the prefix keeps its places,
/// the element lands at `p`, and the suffix shifts right by one.
proof fn lemma_seq_insert_index<A>(s: Seq<A>, p: int, c: A)
    requires
        0 <= p <= s.len(),
    ensures
        s.insert(p, c).len() == s.len() + 1,
        forall|x: int| 0 <= x < p ==> #[trigger] s.insert(p, c)[x] == s[x],
        s.insert(p, c)[p] == c,
        forall|x: int| p < x <= s.len() ==> #[trigger] s.insert(p, c)[x] == s[x - 1],
{
    s.insert_ensures(p, c);
    assert forall|x: int| p < x <= s.len() implies #[trigger] s.insert(p, c)[x] == s[x - 1] by {
        assert(s.insert(p, c)[(x - 1) + 1] == s[x - 1]);
    };
}

/// Three-way comparison of two certificates by subject.
fn cert_cmp(ca: &Certificate, cb: &Certificate) -> (r: i8)
    ensures
        r as int == lex_cmp(ca@.subject, cb@.subject),
{
    bytes_cmp(ca.subject.as_bytes(), cb.subject.as_bytes())
}

/// Three-way comparison of a trust record against an (issuer, serial) key.
fn trust_cmp_with(t: &Trust, issuer: &[u8], serial: &[u8]) -> (r: i8)
    ensures
        r as int == pair_cmp(t@.issuer, t@.serial, issuer@, serial@),
{
    let c = bytes_cmp(t.issuer.as_bytes(), issuer);
    if c != 0 {
        c
    } else {
        bytes_cmp(t.serial.as_bytes(), serial)
    }
}

/// Three-way comparison of two trust records by (issuer, serial).
fn trust_cmp(ta: &Trust, tb: &Trust) -> (r: i8)
    ensures
        r as int == pair_cmp(ta@.issuer, ta@.serial, tb@.issuer, tb@.serial),
{
    trust_cmp_with(ta, tb.issuer.as_bytes(), tb.serial.as_bytes())
}

/// A sorted list stays sorted when an element is inserted at the first
/// position whose occupant orders strictly after it.
proof fn lemma_certs_sorted_insert(s: Seq<CertificateView>, p: int, c: CertificateView)
    requires
        certs_sorted(s),
        0 <= p <= s.len(),
        forall|x: int| 0 <= x < p ==> lex_cmp((#[trigger] s[x]).subject, c.subject) <= 0,
        p < s.len() ==> lex_cmp(s[p].subject, c.subject) > 0,
    ensures
        certs_sorted(s.insert(p, c)),
{
    let t = s.insert(p, c);
    s.insert_ensures(p, c);
    assert forall|x: int| p < x <= s.len() implies #[trigger] t[x] == s[x - 1] by {
        assert(t[(x - 1) + 1] == s[x - 1]);
    };
    assert forall|a: int, b: int| 0 <= a <= b < t.len() implies cert_le(
        #[trigger] t[a],
        #[trigger] t[b],
    ) by {
        lemma_lex_cmp_zero(t[a].subject, t[a].subject);
        if a < p && b == p {
            assert(t[a] == s[a]);
        } else if a == p && b > p {
            assert(t[b] == s[b - 1]);
            lemma_lex_cmp_antisym(s[p].subject, c.subject);
            assert(cert_le(s[p], s[b - 1]));
            lemma_lex_cmp_trans(c.subject, s[p].subject, s[b - 1].subject);
        } else if a < p && b > p {
            assert(t[a] == s[a]);
            assert(t[b] == s[b - 1]);
            assert(cert_le(s[a], s[b - 1]));
        } else if b < p {
            assert(t[a] == s[a]);
            assert(t[b] == s[b]);
        } else if a == p && b == p {
        } else {
            assert(t[a] == s[a - 1]);
            assert(t[b] == s[b - 1]);
            assert(cert_le(s[a - 1], s[b - 1]));
        }
    };
}

/// A sorted list stays sorted when an element is inserted at the first
/// position whose occupant orders strictly after it.
proof fn lemma_trusts_sorted_insert(s: Seq<TrustView>, p: int, t: TrustView)
    requires
        trusts_sorted(s),
        0 <= p <= s.len(),
        forall|x: int|
            0 <= x < p ==> pair_cmp((#[trigger] s[x]).issuer, s[x].serial, t.issuer, t.serial)
                <= 0,
        p < s.len() ==> pair_cmp(s[p].issuer, s[p].serial, t.issuer, t.serial) > 0,
    ensures
        trusts_sorted(s.insert(p, t)),
{
    let u = s.insert(p, t);
    s.insert_ensures(p, t);
    assert forall|x: int| p < x <= s.len() implies #[trigger] u[x] == s[x - 1] by {
        assert(u[(x - 1) + 1] == s[x - 1]);
    };
    assert forall|a: int, b: int| 0 <= a <= b < u.len() implies trust_le(
        #[trigger] u[a],
        #[trigger] u[b],
    ) by {
        lemma_pair_cmp_zero(u[a].issuer, u[a].serial, u[a].issuer, u[a].serial);
        if a < p && b == p {
            assert(u[a] == s[a]);
        } else if a == p && b > p {
            assert(u[b] == s[b - 1]);
            lemma_pair_cmp_antisym(s[p].issuer, s[p].serial, t.issuer, t.serial);
            assert(trust_le(s[p], s[b - 1]));
            lemma_pair_cmp_trans(
                t.issuer,
                t.serial,
                s[p].issuer,
                s[p].serial,
                s[b - 1].issuer,
                s[b - 1].serial,
            );
        } else if a < p && b > p {
            assert(u[a] == s[a]);
            assert(u[b] == s[b - 1]);
            assert(trust_le(s[a], s[b - 1]));
        } else if b < p {
            assert(u[a] == s[a]);
            assert(u[b] == s[b]);
        } else if a == p && b == p {
        } else {
            assert(u[a] == s[a - 1]);
            assert(u[b] == s[b - 1]);
            assert(trust_le(s[a - 1], s[b - 1]));
        }
    };
}

/// Sorts certificates ascending by subject bytes, by insertion into a fresh
/// list.
#[verifier::loop_isolation(false)]
fn sort_certs(input: Vec<Certificate>) -> (out: Vec<Certificate>)
    ensures
        certs_sorted(cert_views(out@)),
        cert_views(out@).to_multiset() == cert_views(input@).to_multiset(),
{
    let ghost full = input@;
    let mut src = input;
    let mut out: Vec<Certificate> = Vec::new();
    proof {
        lemma_add_empty_seq(cert_views(src@).to_multiset(), cert_views(out@));
    }
    loop
        invariant
            certs_sorted(cert_views(out@)),
            cert_views(out@).to_multiset().add(cert_views(src@).to_multiset()) == cert_views(
                full,
            ).to_multiset(),
        decreases src@.len(),
    {
        let ghost src_before = src@;
        match src.pop() {
            None => {
                proof {
                    lemma_add_empty_seq(cert_views(out@).to_multiset(), cert_views(src@));
                }
                return out;
            },
            Some(c) => {
                proof {
                    assert(src_before.drop_last() =~= src@);
                    assert(cert_views(src_before) =~= cert_views(src@).push(c@));
                    cert_views(src@).to_multiset_ensures();
                }
                let n = out.len();
                let mut p: usize = 0;
                while p < n && cert_cmp(&out[p], &c) <= 0
                    invariant
                        p <= n,
                        n == out@.len(),
                        forall|x: int|
                            0 <= x < p ==> lex_cmp(
                                (#[trigger] cert_views(out@)[x]).subject,
                                c@.subject,
                            ) <= 0,
                    decreases n - p,
                {
                    p += 1;
                }
                let ghost before = out@;
                let ghost cv = c@;
                out.insert(p, c);
                proof {
                    lemma_seq_insert_index(before, p as int, c);
                    assert(cert_views(out@) =~= cert_views(before).insert(p as int, cv));
                    lemma_seq_insert_multiset(cert_views(before), p as int, cv);
                    lemma_certs_sorted_insert(cert_views(before), p as int, cv);
                }
            },
        }
    }
}

/// Sorts trust records ascending by (issuer, serial), by insertion into a
/// fresh list.
#[verifier::loop_isolation(false)]
fn sort_trusts(input: Vec<Trust>) -> (out: Vec<Trust>)
    ensures
        trusts_sorted(trust_views(out@)),
        trust_views(out@).to_multiset() == trust_views(input@).to_multiset(),
{
    let ghost full = input@;
    let mut src = input;
    let mut out: Vec<Trust> = Vec::new();
    proof {
        lemma_add_empty_seq(trust_views(src@).to_multiset(), trust_views(out@));
    }
    loop
        invariant
            trusts_sorted(trust_views(out@)),
            trust_views(out@).to_multiset().add(trust_views(src@).to_multiset()) == trust_views(
                full,
            ).to_multiset(),
        decreases src@.len(),
    {
        let ghost src_before = src@;
        match src.pop() {
            None => {
                proof {
                    lemma_add_empty_seq(trust_views(out@).to_multiset(), trust_views(src@));
                }
                return out;
            },
            Some(t) => {
                proof {
                    assert(src_before.drop_last() =~= src@);
                    assert(trust_views(src_before) =~= trust_views(src@).push(t@));
                    trust_views(src@).to_multiset_ensures();
                }
                let n = out.len();
                let mut p: usize = 0;
                while p < n && trust_cmp(&out[p], &t) <= 0
                    invariant
                        p <= n,
                        n == out@.len(),
                        forall|x: int|
                            0 <= x < p ==> pair_cmp(
                                (#[trigger] trust_views(out@)[x]).issuer,
                                trust_views(out@)[x].serial,
                                t@.issuer,
                                t@.serial,
                            ) <= 0,
                    decreases n - p,
                {
                    p += 1;
                }
                let ghost before = out@;
                let ghost tv = t@;
                out.insert(p, t);
                proof {
                    lemma_seq_insert_index(before, p as int, t);
                    assert(trust_views(out@) =~= trust_views(before).insert(p as int, tv));
                    lemma_seq_insert_multiset(trust_views(before), p as int, tv);
                    lemma_trusts_sorted_insert(trust_views(before), p as int, tv);
                }
            },
        }
    }
}

/// The immutable store: certificates sorted ascending by subject bytes, and
/// trust records sorted ascending by (issuer, serial).  Built exactly once
/// from a completed decoded-object stream and never mutated afterward.  When
/// duplicate (issuer, serial) trust entries exist, lookups return an
/// unspecified one of them: a documented gap, not a guarantee.
pub struct CertData {
    certs: Vec<Certificate>,
    trusts: Vec<Trust>,
}

/// Specification-level contents of the store.
pub struct CertDataView {
    pub certs: Seq<CertificateView>,
    pub trusts: Seq<TrustView>,
}

impl View for CertData {
    type V = CertDataView;

    closed spec fn view(&self) -> CertDataView {
        CertDataView { certs: cert_views(self.certs@), trusts: trust_views(self.trusts@) }
    }
}

/// True when a trust record carries exactly this (issuer, serial) identity.
pub open spec fn trust_matches(t: TrustView, issuer: Seq<u8>, serial: Seq<u8>) -> bool {
    t.issuer == issuer && t.serial == serial
}

/// Some trust record matches the certificate's (issuer, serial).
pub open spec fn has_match(ts: Seq<TrustView>, c: CertificateView) -> bool {
    exists|i: int| 0 <= i < ts.len() && trust_matches(#[trigger] ts[i], c.issuer, c.serial)
}

/// Some matching trust record grants `TrustedDelegator` for the usage.
pub open spec fn some_trusted_delegator(ts: Seq<TrustView>, c: CertificateView, u: Usage) -> bool {
    exists|i: int|
        0 <= i < ts.len() && trust_matches(#[trigger] ts[i], c.issuer, c.serial)
            && spec_trust_level_for(ts[i], u) == TrustLevel::TrustedDelegator
}

/// Every matching trust record grants `TrustedDelegator` for the usage, and
/// at least one matches.
pub open spec fn all_trusted_delegator(ts: Seq<TrustView>, c: CertificateView, u: Usage) -> bool {
    has_match(ts, c) && forall|i: int|
        0 <= i < ts.len() && trust_matches(#[trigger] ts[i], c.issuer, c.serial)
            ==> spec_trust_level_for(ts[i], u) == TrustLevel::TrustedDelegator
}

/// The distrust-filter predicate for one usage.
pub open spec fn distrust_pred(usage: Usage) -> spec_fn(TrustView) -> bool {
    |t: TrustView| spec_trust_level_for(t, usage) == TrustLevel::Distrust
}

/// No two trust records share an (issuer, serial) identity.
pub open spec fn unique_trust_keys(ts: Seq<TrustView>) -> bool {
    forall|i: int, j: int|
        0 <= i < j < ts.len() ==> !((#[trigger] ts[i]).issuer == (#[trigger] ts[j]).issuer
            && ts[i].serial == ts[j].serial)
}

/// With no duplicate (issuer, serial) identities, at most one trust record
/// matches a lookup key: the record `trust_for` returns is the only match.
pub proof fn lemma_trust_match_unique(
    ts: Seq<TrustView>,
    issuer: Seq<u8>,
    serial: Seq<u8>,
    i: int,
    j: int,
)
    requires
        unique_trust_keys(ts),
        0 <= i < ts.len(),
        0 <= j < ts.len(),
        trust_matches(ts[i], issuer, serial),
        trust_matches(ts[j], issuer, serial),
    ensures
        i == j,
{
}

/// With no duplicate (issuer, serial) identities, a certificate has some
/// matching record granting `TrustedDelegator` exactly when every matching
/// record grants it: `trusted_certs` then returns exactly the certificates
/// whose resolved trust level for the usage is `TrustedDelegator`.
pub proof fn lemma_trusted_exact(ts: Seq<TrustView>, c: CertificateView, u: Usage)
    requires
        unique_trust_keys(ts),
    ensures
        some_trusted_delegator(ts, c, u) <==> all_trusted_delegator(ts, c, u),
{
    if some_trusted_delegator(ts, c, u) {
        let i = choose|i: int|
            0 <= i < ts.len() && trust_matches(#[trigger] ts[i], c.issuer, c.serial)
                && spec_trust_level_for(ts[i], u) == TrustLevel::TrustedDelegator;
        assert forall|j: int|
            0 <= j < ts.len() && trust_matches(#[trigger] ts[j], c.issuer, c.serial) implies
            spec_trust_level_for(ts[j], u) == TrustLevel::TrustedDelegator by {
            lemma_trust_match_unique(ts, c.issuer, c.serial, i, j);
        };
    }
}

impl CertData {
    /// Both lists are sorted as the store's invariant demands.
    pub closed spec fn wf(self) -> bool {
        certs_sorted(self@.certs) && trusts_sorted(self@.trusts)
    }

    /// Builds the store from a completed stream of decoded objects:
    /// partition into certificates and trust records, then sort each list.
    #[verifier::loop_isolation(false)]
    pub fn from_iter(objects: Vec<Object>) -> (r: CertData)
        ensures
            r.wf(),
            certs_sorted(r@.certs),
            trusts_sorted(r@.trusts),
            r@.certs.to_multiset() == spec_certs_of(object_views(objects@)).to_multiset(),
            r@.trusts.to_multiset() == spec_trusts_of(object_views(objects@)).to_multiset(),
    {
        let ghost full = object_views(objects@);
        let mut src = objects;
        let mut certbuf: Vec<Certificate> = Vec::new();
        let mut trustbuf: Vec<Trust> = Vec::new();
        proof {
            assert(object_views(src@) =~= full);
            lemma_add_empty_seq(spec_certs_of(full).to_multiset(), cert_views(certbuf@));
            lemma_add_empty_seq(spec_trusts_of(full).to_multiset(), trust_views(trustbuf@));
        }
        loop
            invariant
                cert_views(certbuf@).to_multiset().add(
                    spec_certs_of(object_views(src@)).to_multiset(),
                ) == spec_certs_of(full).to_multiset(),
                trust_views(trustbuf@).to_multiset().add(
                    spec_trusts_of(object_views(src@)).to_multiset(),
                ) == spec_trusts_of(full).to_multiset(),
            decreases src@.len(),
        {
            let ghost src_before = object_views(src@);
            match src.pop() {
                None => {
                    proof {
                        assert(src_before.len() == 0);
                        assert(spec_certs_of(src_before) =~= Seq::<CertificateView>::empty());
                        assert(spec_trusts_of(src_before) =~= Seq::<TrustView>::empty());
                        lemma_add_empty_seq(
                            cert_views(certbuf@).to_multiset(),
                            spec_certs_of(src_before),
                        );
                        lemma_add_empty_seq(
                            trust_views(trustbuf@).to_multiset(),
                            spec_trusts_of(src_before),
                        );
                    }
                    let certs = sort_certs(certbuf);
                    let trusts = sort_trusts(trustbuf);
                    return CertData { certs, trusts };
                },
                Some(obj) => {
                    proof {
                        assert(src_before.drop_last() =~= object_views(src@));
                        assert(src_before.last() == obj@);
                    }
                    match obj {
                        Object::Certificate(c) => {
                            let ghost cb = cert_views(certbuf@);
                            let ghost cv = c@;
                            proof {
                                assert(spec_certs_of(src_before) =~= spec_certs_of(
                                    object_views(src@),
                                ).push(cv));
                                assert(spec_trusts_of(src_before) =~= spec_trusts_of(
                                    object_views(src@),
                                ));
                                spec_certs_of(object_views(src@)).to_multiset_ensures();
                            }
                            certbuf.push(c);
                            proof {
                                assert(cert_views(certbuf@) =~= cb.push(cv));
                                cb.to_multiset_ensures();
                                assert(cert_views(certbuf@).to_multiset().add(
                                    spec_certs_of(object_views(src@)).to_multiset(),
                                ) =~= spec_certs_of(full).to_multiset());
                            }
                        },
                        Object::Trust(t) => {
                            let ghost tb = trust_views(trustbuf@);
                            let ghost tv = t@;
                            proof {
                                assert(spec_trusts_of(src_before) =~= spec_trusts_of(
                                    object_views(src@),
                                ).push(tv));
                                assert(spec_certs_of(src_before) =~= spec_certs_of(
                                    object_views(src@),
                                ));
                                spec_trusts_of(object_views(src@)).to_multiset_ensures();
                            }
                            trustbuf.push(t);
                            proof {
                                assert(trust_views(trustbuf@) =~= tb.push(tv));
                                tb.to_multiset_ensures();
                                assert(trust_views(trustbuf@).to_multiset().add(
                                    spec_trusts_of(object_views(src@)).to_multiset(),
                                ) =~= spec_trusts_of(full).to_multiset());
                            }
                        },
                    }
                },
            }
        }
    }

    /// The certificates, ascending by subject bytes.
    pub fn certs(&self) -> (r: &Vec<Certificate>)
        requires
            self.wf(),
        ensures
            cert_views(r@) == self@.certs,
            certs_sorted(self@.certs),
    {
        &self.certs
    }

    /// The trust records, ascending by (issuer, serial).
    pub fn trusts(&self) -> (r: &Vec<Trust>)
        requires
            self.wf(),
        ensures
            trust_views(r@) == self@.trusts,
            trusts_sorted(self@.trusts),
    {
        &self.trusts
    }

    /// Binary-search lookup of the trust record for an (issuer, serial)
    /// identity.  `Some` is returned exactly when a matching record exists;
    /// with duplicate identities, which of them comes back is unspecified.
    pub fn trust_for(&self, issuer: &[u8], serial: &[u8]) -> (r: Option<&Trust>)
        requires
            self.wf(),
        ensures
            match r {
                Some(t) => trust_matches(t@, issuer@, serial@) && self@.trusts.contains(t@),
                None => forall|i: int|
                    0 <= i < self@.trusts.len() ==> !trust_matches(
                        #[trigger] self@.trusts[i],
                        issuer@,
                        serial@,
                    ),
            },
    {
        let n = self.trusts.len();
        let mut lo: usize = 0;
        let mut hi: usize = n;
        while lo < hi
            invariant
                lo <= hi <= n,
                n == self@.trusts.len(),
                self.wf(),
                forall|x: int|
                    0 <= x < lo ==> pair_cmp(
                        (#[trigger] self@.trusts[x]).issuer,
                        self@.trusts[x].serial,
                        issuer@,
                        serial@,
                    ) < 0,
                forall|x: int|
                    hi <= x < n ==> pair_cmp(
                        (#[trigger] self@.trusts[x]).issuer,
                        self@.trusts[x].serial,
                        issuer@,
                        serial@,
                    ) > 0,
            decreases hi - lo,
        {
            let mid = lo + (hi - lo) / 2;
            let c = trust_cmp_with(&self.trusts[mid], issuer, serial);
            if c == 0 {
                let t = &self.trusts[mid];
                proof {
                    lemma_pair_cmp_zero(t@.issuer, t@.serial, issuer@, serial@);
                    assert(self@.trusts[mid as int] == t@);
                    assert(self@.trusts.contains(t@));
                }
                return Some(t);
            } else if c < 0 {
                proof {
                    let m = mid as int;
                    assert forall|x: int| 0 <= x < m + 1 implies pair_cmp(
                        (#[trigger] self@.trusts[x]).issuer,
                        self@.trusts[x].serial,
                        issuer@,
                        serial@,
                    ) < 0 by {
                        if x < m {
                            assert(trust_le(self@.trusts[x], self@.trusts[m]));
                            lemma_pair_cmp_trans(
                                self@.trusts[x].issuer,
                                self@.trusts[x].serial,
                                self@.trusts[m].issuer,
                                self@.trusts[m].serial,
                                issuer@,
                                serial@,
                            );
                        }
                    };
                }
                lo = mid + 1;
            } else {
                proof {
                    let m = mid as int;
                    assert forall|x: int| m <= x < n implies pair_cmp(
                        (#[trigger] self@.trusts[x]).issuer,
                        self@.trusts[x].serial,
                        issuer@,
                        serial@,
                    ) > 0 by {
                        if x > m {
                            assert(trust_le(self@.trusts[m], self@.trusts[x]));
                            lemma_pair_cmp_antisym(
                                self@.trusts[m].issuer,
                                self@.trusts[m].serial,
                                issuer@,
                                serial@,
                            );
                            lemma_pair_cmp_trans(
                                issuer@,
                                serial@,
                                self@.trusts[m].issuer,
                                self@.trusts[m].serial,
                                self@.trusts[x].issuer,
                                self@.trusts[x].serial,
                            );
                            lemma_pair_cmp_antisym(
                                issuer@,
                                serial@,
                                self@.trusts[x].issuer,
                                self@.trusts[x].serial,
                            );
                        }
                    };
                }
                hi = mid;
            }
        }
        proof {
            assert forall|i: int| 0 <= i < self@.trusts.len() implies !trust_matches(
                #[trigger] self@.trusts[i],
                issuer@,
                serial@,
            ) by {
                lemma_pair_cmp_zero(
                    self@.trusts[i].issuer,
                    self@.trusts[i].serial,
                    issuer@,
                    serial@,
                );
            };
        }
        None
    }

    /// The trust record for a certificate's (issuer, serial) identity.
    pub fn trust_for_cert(&self, cert: &Certificate) -> (r: Option<&Trust>)
        requires
            self.wf(),
        ensures
            match r {
                Some(t) => trust_matches(t@, cert@.issuer, cert@.serial) && self@.trusts.contains(
                    t@,
                ),
                None => forall|i: int|
                    0 <= i < self@.trusts.len() ==> !trust_matches(
                        #[trigger] self@.trusts[i],
                        cert@.issuer,
                        cert@.serial,
                    ),
            },
    {
        self.trust_for(cert.issuer.as_bytes(), cert.serial.as_bytes())
    }

    /// The certificates whose resolved trust level for the usage — taken
    /// from the matching trust record, or `MustVerify` when none matches —
    /// is `TrustedDelegator`.  A returned certificate always has a matching
    /// record granting `TrustedDelegator`; a certificate all of whose
    /// matching records grant it is always returned.  With duplicate trust
    /// identities granting different levels, inclusion follows whichever
    /// record the lookup finds.
    pub fn trusted_certs(&self, usage: Usage) -> (r: Vec<&Certificate>)
        requires
            self.wf(),
        ensures
            certs_sorted(ref_cert_views(r@)),
            forall|k: int|
                0 <= k < r@.len() ==> self@.certs.contains((#[trigger] r@[k])@)
                    && some_trusted_delegator(self@.trusts, r@[k]@, usage),
            forall|i: int|
                0 <= i < self@.certs.len() && all_trusted_delegator(
                    self@.trusts,
                    #[trigger] self@.certs[i],
                    usage,
                ) ==> ref_cert_views(r@).contains(self@.certs[i]),
    {
        let n = self.certs.len();
        let mut out: Vec<&Certificate> = Vec::new();
        let mut i: usize = 0;
        while i < n
            invariant
                i <= n,
                n == self@.certs.len(),
                self.wf(),
                certs_sorted(ref_cert_views(out@)),
                forall|k: int|
                    0 <= k < out@.len() ==> exists|j: int|
                        0 <= j < i && (#[trigger] ref_cert_views(out@)[k]) == self@.certs[j],
                forall|k: int|
                    0 <= k < out@.len() ==> self@.certs.contains((#[trigger] out@[k])@)
                        && some_trusted_delegator(self@.trusts, out@[k]@, usage),
                forall|j: int|
                    0 <= j < i && all_trusted_delegator(
                        self@.trusts,
                        #[trigger] self@.certs[j],
                        usage,
                    ) ==> ref_cert_views(out@).contains(self@.certs[j]),
            decreases n - i,
        {
            let ghost prev = out@;
            let c = &self.certs[i];
            proof {
                assert(self@.certs[i as int] == c@);
                assert(self@.certs.contains(c@));
            }
            match self.trust_for_cert(c) {
                Some(t) => {
                    proof {
                        assert(self@.trusts.contains(t@));
                    }
                    let ghost idx = choose|x: int|
                        0 <= x < self@.trusts.len() && self@.trusts[x] == t@;
                    if t.trust_level(usage) == TrustLevel::TrustedDelegator {
                        out.push(c);
                        proof {
                            assert(out@ =~= prev.push(c));
                            assert(trust_matches(self@.trusts[idx], c@.issuer, c@.serial));
                            assert(some_trusted_delegator(self@.trusts, c@, usage));
                            assert(ref_cert_views(out@) =~= ref_cert_views(prev).push(c@));
                            let old_len = prev.len() as int;
                            assert forall|a: int, b: int|
                                0 <= a <= b < ref_cert_views(out@).len() implies cert_le(
                                #[trigger] ref_cert_views(out@)[a],
                                #[trigger] ref_cert_views(out@)[b],
                            ) by {
                                if b < old_len {
                                    assert(cert_le(
                                        ref_cert_views(prev)[a],
                                        ref_cert_views(prev)[b],
                                    ));
                                } else if a < old_len {
                                    let j = choose|j: int|
                                        0 <= j < i && ref_cert_views(prev)[a] == self@.certs[j];
                                    assert(cert_le(self@.certs[j], self@.certs[i as int]));
                                } else {
                                    lemma_lex_cmp_zero(c@.subject, c@.subject);
                                }
                            };
                            assert forall|k: int| 0 <= k < out@.len() implies exists|j: int|
                                0 <= j < i + 1 && (#[trigger] ref_cert_views(out@)[k])
                                    == self@.certs[j] by {
                                if k < old_len {
                                    let j = choose|j: int|
                                        0 <= j < i && ref_cert_views(prev)[k] == self@.certs[j];
                                    assert(ref_cert_views(out@)[k] == self@.certs[j]);
                                } else {
                                    assert(ref_cert_views(out@)[k] == self@.certs[i as int]);
                                }
                            };
                            assert forall|j: int|
                                0 <= j < i + 1 && all_trusted_delegator(
                                    self@.trusts,
                                    #[trigger] self@.certs[j],
                                    usage,
                                ) implies ref_cert_views(out@).contains(self@.certs[j]) by {
                                if j < i {
                                    let w = choose|w: int|
                                        0 <= w < ref_cert_views(prev).len() && ref_cert_views(
                                            prev,
                                        )[w] == self@.certs[j];
                                    assert(ref_cert_views(out@)[w] == self@.certs[j]);
                                } else {
                                    assert(ref_cert_views(out@)[prev.len() as int] == c@);
                                }
                            };
                        }
                    } else {
                        proof {
                            assert(trust_matches(self@.trusts[idx], c@.issuer, c@.serial));
                            assert(spec_trust_level_for(self@.trusts[idx], usage)
                                != TrustLevel::TrustedDelegator);
                            assert(!all_trusted_delegator(
                                self@.trusts,
                                self@.certs[i as int],
                                usage,
                            ));
                        }
                    }
                },
                None => {
                    proof {
                        assert(!has_match(self@.trusts, self@.certs[i as int]));
                    }
                },
            }
            i += 1;
        }
        out
    }

    /// Exactly the trust records whose level for the usage is `Distrust`,
    /// in store order.
    pub fn distrusts(&self, usage: Usage) -> (r: Vec<&Trust>)
        requires
            self.wf(),
        ensures
            ref_trust_views(r@) == self@.trusts.filter(distrust_pred(usage)),
    {
        let n = self.trusts.len();
        let mut out: Vec<&Trust> = Vec::new();
        proof {
            reveal(Seq::filter);
            assert(self@.trusts.subrange(0, 0).filter(distrust_pred(usage)) =~= Seq::<
                TrustView,
            >::empty());
            assert(ref_trust_views(out@) =~= Seq::<TrustView>::empty());
        }
        let mut i: usize = 0;
        while i < n
            invariant
                i <= n,
                n == self@.trusts.len(),
                self.wf(),
                ref_trust_views(out@) == self@.trusts.subrange(0, i as int).filter(
                    distrust_pred(usage),
                ),
            decreases n - i,
        {
            let ghost prefix = self@.trusts.subrange(0, i as int);
            let ghost prev = out@;
            let t = &self.trusts[i];
            proof {
                assert(self@.trusts[i as int] == t@);
                reveal(Seq::filter);
                let next = self@.trusts.subrange(0, i + 1);
                assert(next.drop_last() =~= prefix);
                assert(next.last() == t@);
            }
            if t.trust_level(usage) == TrustLevel::Distrust {
                out.push(t);
                proof {
                    assert(ref_trust_views(out@) =~= ref_trust_views(prev).push(t@));
                }
            }
            i += 1;
        }
        proof {
            assert(self@.trusts.subrange(0, n as int) =~= self@.trusts);
        }
        out
    }
}

} // verus!
