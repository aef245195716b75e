//! Byte-level helpers shared by the grammar and the store: byte equality,
//! lexicographic comparison, and conversion of decoded bytes to strings.

use vstd::prelude::*;
use vstd::slice::slice_index_get;
use vstd::utf8::{
    decode_utf8, encode_utf8_decode_utf8, is_leading_byte_width_1, pop_first_scalar, valid_utf8,
};

verus! {

/// True when every byte is within the 7-bit ASCII range.
pub open spec fn all_ascii(bytes: Seq<u8>) -> bool {
    forall|i: int| 0 <= i < bytes.len() ==> bytes[i] <= 0x7f
}

/// The characters that a sequence of ASCII bytes stands for, one per byte.
pub open spec fn ascii_chars(bytes: Seq<u8>) -> Seq<char> {
    Seq::new(bytes.len(), |i: int| (bytes[i] as u32) as char)
}

/// ASCII bytes are valid UTF-8 and decode to one character per byte.
pub proof fn lemma_ascii_decode(bytes: Seq<u8>)
    requires
        all_ascii(bytes),
    ensures
        valid_utf8(bytes),
        decode_utf8(bytes) == ascii_chars(bytes),
    decreases bytes.len(),
{
    if bytes.len() == 0 {
        assert(decode_utf8(bytes) =~= ascii_chars(bytes));
    } else {
        let b = bytes[0];
        assert((b & 0x7f) == b) by (bit_vector)
            requires
                b <= 0x7f,
        ;
        assert(is_leading_byte_width_1(b));
        let rest = pop_first_scalar(bytes);
        assert(rest =~= bytes.subrange(1, bytes.len() as int));
        lemma_ascii_decode(rest);
        assert(decode_utf8(bytes) =~= ascii_chars(bytes));
    }
}

/// Byte-slice equality, decided byte by byte.
pub fn bytes_eq(a: &[u8], b: &[u8]) -> (r: bool)
    ensures
        r == (a@ == b@),
{
    if a.len() != b.len() {
        return false;
    }
    let n = a.len();
    let mut i: usize = 0;
    while i < n
        invariant
            i <= n,
            n == a@.len(),
            n == b@.len(),
            forall|j: int| 0 <= j < i ==> a@[j] == b@[j],
        decreases n - i,
    {
        if *slice_index_get(a, i) != *slice_index_get(b, i) {
            return false;
        }
        i += 1;
    }
    proof {
        assert(a@ =~= b@);
    }
    true
}

/// String equality, decided on the underlying UTF-8 bytes.
pub fn str_eq(a: &str, b: &str) -> (r: bool)
    ensures
        r == (a@ == b@),
{
    let r = bytes_eq(a.as_bytes(), b.as_bytes());
    proof {
        encode_utf8_decode_utf8(a@);
        encode_utf8_decode_utf8(b@);
    }
    r
}

/// Relies on `String::from_utf8`: it succeeds exactly on valid UTF-8 input,
/// and the resulting string is the decoding of the bytes it was given.
#[verifier::external_body]
pub(crate) fn string_from_utf8(bytes: Vec<u8>) -> (r: Option<String>)
    ensures
        r is Some <==> valid_utf8(bytes@),
        r matches Some(s) ==> s@ == decode_utf8(bytes@),
{
    String::from_utf8(bytes).ok()
}

/// Builds the string that a sequence of ASCII bytes spells.
pub(crate) fn ascii_to_string(bytes: Vec<u8>) -> (r: String)
    requires
        all_ascii(bytes@),
    ensures
        r@ == ascii_chars(bytes@),
{
    proof {
        lemma_ascii_decode(bytes@);
    }
    let ghost gb = bytes@;
    match string_from_utf8(bytes) {
        Some(s) => s,
        None => vstd::pervasive::unreached(),
    }
}

/// Three-way lexicographic order on byte sequences: negative, zero, or
/// positive as `a` sorts before, equal to, or after `b`.
pub open spec fn lex_cmp(a: Seq<u8>, b: Seq<u8>) -> int
    decreases a.len(),
{
    if a.len() == 0 && b.len() == 0 {
        0
    } else if a.len() == 0 {
        -1
    } else if b.len() == 0 {
        1
    } else if a[0] < b[0] {
        -1
    } else if a[0] > b[0] {
        1
    } else {
        lex_cmp(a.drop_first(), b.drop_first())
    }
}

/// The order compares equal exactly on equal sequences.
pub proof fn lemma_lex_cmp_zero(a: Seq<u8>, b: Seq<u8>)
    ensures
        lex_cmp(a, b) == 0 <==> a == b,
    decreases a.len(),
{
    if a.len() == 0 && b.len() == 0 {
        assert(a =~= b);
    } else if a.len() == 0 || b.len() == 0 {
    } else {
        lemma_lex_cmp_zero(a.drop_first(), b.drop_first());
        assert(forall|i: int| 1 <= i < a.len() ==> a[i] == #[trigger] a.drop_first()[i - 1]);
        assert(forall|i: int| 1 <= i < b.len() ==> b[i] == #[trigger] b.drop_first()[i - 1]);
        if a[0] == b[0] {
            if lex_cmp(a, b) == 0 {
                assert(a.drop_first() == b.drop_first());
                assert(a.len() == b.len());
                assert forall|i: int| 0 <= i < a.len() implies a[i] == b[i] by {
                    if i >= 1 {
                        assert(a[i] == a.drop_first()[i - 1]);
                        assert(b[i] == b.drop_first()[i - 1]);
                    }
                };
                assert(a =~= b);
            }
            if a == b {
                assert(a.drop_first() =~= b.drop_first());
            }
        }
    }
}

/// Swapping the arguments negates the order.
pub proof fn lemma_lex_cmp_antisym(a: Seq<u8>, b: Seq<u8>)
    ensures
        lex_cmp(a, b) == -lex_cmp(b, a),
    decreases a.len(),
{
    if a.len() != 0 && b.len() != 0 && a[0] == b[0] {
        lemma_lex_cmp_antisym(a.drop_first(), b.drop_first());
    }
}

/// The order is transitive, and strictly so when either step is strict.
pub proof fn lemma_lex_cmp_trans(a: Seq<u8>, b: Seq<u8>, c: Seq<u8>)
    requires
        lex_cmp(a, b) <= 0,
        lex_cmp(b, c) <= 0,
    ensures
        lex_cmp(a, c) <= 0,
        lex_cmp(a, b) < 0 || lex_cmp(b, c) < 0 ==> lex_cmp(a, c) < 0,
    decreases a.len(),
{
    if a.len() == 0 {
        if c.len() != 0 {
            assert(lex_cmp(a, c) == -1);
        } else {
            assert(b.len() == 0);
        }
    } else {
        assert(b.len() != 0);
        assert(c.len() != 0);
        if a[0] == b[0] && b[0] == c[0] {
            lemma_lex_cmp_trans(a.drop_first(), b.drop_first(), c.drop_first());
        }
    }
}

/// Three-way lexicographic comparison of byte slices.
pub fn bytes_cmp(a: &[u8], b: &[u8]) -> (r: i8)
    ensures
        r as int == lex_cmp(a@, b@),
{
    let alen = a.len();
    let blen = b.len();
    let mut i: usize = 0;
    proof {
        assert(a@.subrange(0, alen as int) =~= a@);
        assert(b@.subrange(0, blen as int) =~= b@);
    }
    while i < alen && i < blen
        invariant
            i <= alen,
            i <= blen,
            alen == a@.len(),
            blen == b@.len(),
            lex_cmp(a@, b@) == lex_cmp(
                a@.subrange(i as int, alen as int),
                b@.subrange(i as int, blen as int),
            ),
        decreases alen - i,
    {
        let x = *slice_index_get(a, i);
        let y = *slice_index_get(b, i);
        let ghost ra = a@.subrange(i as int, alen as int);
        let ghost rb = b@.subrange(i as int, blen as int);
        if x < y {
            return -1;
        }
        if x > y {
            return 1;
        }
        proof {
            assert(ra.drop_first() =~= a@.subrange(i + 1, alen as int));
            assert(rb.drop_first() =~= b@.subrange(i + 1, blen as int));
        }
        i += 1;
    }
    proof {
        assert(a@.subrange(i as int, alen as int).len() == alen - i);
        assert(b@.subrange(i as int, blen as int).len() == blen - i);
    }
    if alen < blen {
        -1
    } else if alen > blen {
        1
    } else {
        0
    }
}

} // verus!

