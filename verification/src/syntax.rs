//! The lexical grammar of the certdata format.
//!
//! Every rule is a pure function over a byte slice with three possible
//! outcomes: a parsed value together with the count of bytes consumed, a
//! signal that the slice is a valid but incomplete prefix and more input is
//! needed, or an error at a definite offset within the slice where no amount
//! of further input could make the rule match.

use vstd::prelude::*;
use vstd::slice::{slice_index_get, slice_subrange, slice_to_vec};
use vstd::utf8::{decode_utf8, valid_utf8};

use crate::text::{all_ascii, ascii_chars, ascii_to_string, bytes_eq, string_from_utf8};

verus! {

pub const SPACE: u8 = 32;

pub const TAB: u8 = 9;

pub const LF: u8 = 10;

pub const CR: u8 = 13;

pub const HASH: u8 = 35;

pub const QUOTE: u8 = 34;

pub const BACKSLASH: u8 = 92;

/// Horizontal whitespace: space or tab.
pub open spec fn is_space_byte(b: u8) -> bool {
    b == SPACE || b == TAB
}

/// The two line-break bytes.
pub open spec fn is_line_break(b: u8) -> bool {
    b == LF || b == CR
}

/// Bytes allowed in a token: ASCII alphanumeric or underscore.
pub open spec fn is_token_byte(b: u8) -> bool {
    (48 <= b <= 57) || (65 <= b <= 90) || (97 <= b <= 122) || b == 95
}

/// Digits 0 through 3, the allowed first digit of an octal escape.
pub open spec fn is_quad_byte(b: u8) -> bool {
    48 <= b <= 51
}

/// Digits 0 through 7.
pub open spec fn is_octal_byte(b: u8) -> bool {
    48 <= b <= 55
}

/// Hexadecimal digits, either case.
pub open spec fn is_hex_byte(b: u8) -> bool {
    (48 <= b <= 57) || (97 <= b <= 102) || (65 <= b <= 70)
}

/// Numeric value of a hexadecimal digit byte.
pub open spec fn hex_value(b: u8) -> int
    recommends
        is_hex_byte(b),
{
    if 48 <= b <= 57 {
        b - 48
    } else if 97 <= b <= 102 {
        b - 87
    } else {
        b - 55
    }
}

/// Length of the run of bytes satisfying `p` that starts at position `i`.
pub open spec fn run_len(s: Seq<u8>, i: int, p: spec_fn(u8) -> bool) -> int
    decreases s.len() - i,
    when 0 <= i <= s.len()
{
    if i >= s.len() {
        0
    } else if p(s[i]) {
        1 + run_len(s, i + 1, p)
    } else {
        0
    }
}

/// Bounds and content of a run: it covers exactly the bytes satisfying `p`
/// and stops at the first byte that does not, or at the end of the slice.
pub proof fn lemma_run_len(s: Seq<u8>, i: int, p: spec_fn(u8) -> bool)
    requires
        0 <= i <= s.len(),
    ensures
        0 <= run_len(s, i, p) <= s.len() - i,
        forall|j: int| i <= j < i + run_len(s, i, p) ==> p(s[j]),
        i + run_len(s, i, p) == s.len() || !p(s[i + run_len(s, i, p)]),
    decreases s.len() - i,
{
    if i < s.len() && p(s[i]) {
        lemma_run_len(s, i + 1, p);
    }
}

/// A run starting at `i` equals the run at the start of the suffix there.
pub proof fn lemma_run_len_suffix(s: Seq<u8>, i: int, p: spec_fn(u8) -> bool)
    requires
        0 <= i <= s.len(),
    ensures
        run_len(s, i, p) == run_len(s.subrange(i, s.len() as int), 0, p),
    decreases s.len() - i,
{
    let t = s.subrange(i, s.len() as int);
    if i < s.len() && p(s[i]) {
        lemma_run_len_suffix(s, i + 1, p);
        assert(t.subrange(1, t.len() as int) =~= s.subrange(i + 1, s.len() as int));
        lemma_run_len_suffix(t, 1, p);
        assert(run_len(t, 1, p) == run_len(t.subrange(1, t.len() as int), 0, p));
    }
}

/// Outcome of one grammar rule applied to a byte slice: a value plus the
/// count of bytes consumed, a request for more input, or an error at an
/// offset within the slice.
#[derive(Debug, Clone, PartialEq, Eq)]
pub enum Parsed<T> {
    Found(T, usize),
    Incomplete,
    Failed(usize),
}

/// Specification-level counterpart of [`Parsed`].
pub enum SpecParsed<T> {
    Found(T, int),
    Incomplete,
    Failed(int),
}

impl<T: View> View for Parsed<T> {
    type V = SpecParsed<T::V>;

    open spec fn view(&self) -> SpecParsed<T::V> {
        match self {
            Parsed::Found(v, n) => SpecParsed::Found(v.view(), *n as int),
            Parsed::Incomplete => SpecParsed::Incomplete,
            Parsed::Failed(k) => SpecParsed::Failed(*k as int),
        }
    }
}

/// The byte classes the scanner recognises.
#[derive(Clone, Copy)]
pub enum ByteClass {
    Space,
    Text,
    TokenChar,
}

/// What it means for a byte to belong to a class.
pub open spec fn class_holds(c: ByteClass, b: u8) -> bool {
    match c {
        ByteClass::Space => is_space_byte(b),
        ByteClass::Text => !is_line_break(b),
        ByteClass::TokenChar => is_token_byte(b),
    }
}

/// The class as a predicate on bytes, for use with [`run_len`].
pub open spec fn class_fn(c: ByteClass) -> spec_fn(u8) -> bool {
    |b: u8| class_holds(c, b)
}

fn matches_class(c: ByteClass, b: u8) -> (r: bool)
    ensures
        r == class_holds(c, b),
{
    match c {
        ByteClass::Space => b == SPACE || b == TAB,
        ByteClass::Text => b != LF && b != CR,
        ByteClass::TokenChar => (48 <= b && b <= 57) || (65 <= b && b <= 90) || (97 <= b && b
            <= 122) || b == 95,
    }
}

/// Advances from `from` over the run of bytes in class `c` and returns the
/// position of the first byte past the run.
fn scan(s: &[u8], from: usize, c: ByteClass) -> (r: usize)
    requires
        from <= s@.len(),
    ensures
        r as int == from + run_len(s@, from as int, class_fn(c)),
        from <= r <= s@.len(),
{
    proof {
        lemma_run_len(s@, from as int, class_fn(c));
    }
    let n = s.len();
    let mut i: usize = from;
    while i < n && matches_class(c, *slice_index_get(s, i))
        invariant
            from <= i <= n,
            n == s@.len(),
            run_len(s@, from as int, class_fn(c)) == (i - from) + run_len(
                s@,
                i as int,
                class_fn(c),
            ),
        decreases n - i,
    {
        proof {
            lemma_run_len(s@, i + 1, class_fn(c));
        }
        i += 1;
    }
    proof {
        lemma_run_len(s@, i as int, class_fn(c));
    }
    i
}

/// Comment rule: `#` through the end of the line.
pub open spec fn spec_comment(s: Seq<u8>) -> SpecParsed<()> {
    if s.len() == 0 {
        SpecParsed::Incomplete
    } else if s[0] != HASH {
        SpecParsed::Failed(0)
    } else {
        SpecParsed::Found((), 1 + run_len(s, 1, class_fn(ByteClass::Text)))
    }
}

/// Recognises a comment: `#` and every byte up to (not including) the line
/// break.
pub fn comment(s: &[u8]) -> (r: Parsed<()>)
    ensures
        r@ == spec_comment(s@),
{
    if s.len() == 0 {
        return Parsed::Incomplete;
    }
    if *slice_index_get(s, 0) != HASH {
        return Parsed::Failed(0);
    }
    let end = scan(s, 1, ByteClass::Text);
    Parsed::Found((), end)
}

/// Line-end rule: optional spaces, optional comment, optional CR, then a
/// mandatory LF.
pub open spec fn spec_endl(s: Seq<u8>) -> SpecParsed<()> {
    let i = run_len(s, 0, class_fn(ByteClass::Space));
    let j = if i < s.len() && s[i] == HASH {
        i + 1 + run_len(s, i + 1, class_fn(ByteClass::Text))
    } else {
        i
    };
    let k = if j < s.len() && s[j] == CR {
        j + 1
    } else {
        j
    };
    if k >= s.len() {
        SpecParsed::Incomplete
    } else if s[k] == LF {
        SpecParsed::Found((), k + 1)
    } else {
        SpecParsed::Failed(k)
    }
}

/// When a line end matches it consumes at least the final LF, and when it
/// fails the offset points at a byte of the slice.
pub proof fn lemma_spec_endl_bounds(s: Seq<u8>)
    ensures
        spec_endl(s) matches SpecParsed::Found(_, n) ==> 1 <= n <= s.len(),
        spec_endl(s) matches SpecParsed::Failed(k) ==> 0 <= k < s.len(),
{
    lemma_run_len(s, 0, class_fn(ByteClass::Space));
    let i = run_len(s, 0, class_fn(ByteClass::Space));
    if i < s.len() && s[i] == HASH {
        lemma_run_len(s, i + 1, class_fn(ByteClass::Text));
    }
}

/// Recognises a line end, tolerating trailing spaces and a comment.
pub fn endl(s: &[u8]) -> (r: Parsed<()>)
    ensures
        r@ == spec_endl(s@),
{
    let i = scan(s, 0, ByteClass::Space);
    let j = if i < s.len() && *slice_index_get(s, i) == HASH {
        scan(s, i + 1, ByteClass::Text)
    } else {
        i
    };
    let k = if j < s.len() && *slice_index_get(s, j) == CR {
        j + 1
    } else {
        j
    };
    if k >= s.len() {
        Parsed::Incomplete
    } else if *slice_index_get(s, k) == LF {
        Parsed::Found((), k + 1)
    } else {
        Parsed::Failed(k)
    }
}

/// Token rule: a maximal non-empty run of alphanumeric or underscore bytes.
pub open spec fn spec_token(s: Seq<u8>) -> SpecParsed<Seq<char>> {
    if s.len() == 0 {
        SpecParsed::Incomplete
    } else if !is_token_byte(s[0]) {
        SpecParsed::Failed(0)
    } else {
        let n = run_len(s, 0, class_fn(ByteClass::TokenChar));
        SpecParsed::Found(ascii_chars(s.subrange(0, n)), n)
    }
}

/// A token consumes at least one byte and at most the whole slice.
pub proof fn lemma_spec_token_bounds(s: Seq<u8>)
    ensures
        spec_token(s) matches SpecParsed::Found(_, n) ==> 1 <= n <= s.len(),
        spec_token(s) matches SpecParsed::Failed(k) ==> 0 <= k < s.len(),
{
    if s.len() > 0 && is_token_byte(s[0]) {
        lemma_run_len(s, 0, class_fn(ByteClass::TokenChar));
    }
}

/// Recognises a token and returns it as a string.
pub fn token(s: &[u8]) -> (r: Parsed<String>)
    ensures
        r@ == spec_token(s@),
{
    if s.len() == 0 {
        return Parsed::Incomplete;
    }
    if !matches_class(ByteClass::TokenChar, *slice_index_get(s, 0)) {
        return Parsed::Failed(0);
    }
    let end = scan(s, 0, ByteClass::TokenChar);
    proof {
        lemma_run_len(s@, 0, class_fn(ByteClass::TokenChar));
    }
    let bytes = slice_to_vec(slice_subrange(s, 0, end));
    proof {
        assert(all_ascii(bytes@));
    }
    let st = ascii_to_string(bytes);
    Parsed::Found(st, end)
}

/// Mandatory horizontal whitespace: at least one space or tab.
pub open spec fn spec_space(s: Seq<u8>) -> SpecParsed<()> {
    if s.len() == 0 {
        SpecParsed::Incomplete
    } else if !is_space_byte(s[0]) {
        SpecParsed::Failed(0)
    } else {
        SpecParsed::Found((), run_len(s, 0, class_fn(ByteClass::Space)))
    }
}

/// A space run consumes at least one byte.
pub proof fn lemma_spec_space_bounds(s: Seq<u8>)
    ensures
        spec_space(s) matches SpecParsed::Found(_, n) ==> 1 <= n <= s.len(),
        spec_space(s) matches SpecParsed::Failed(k) ==> 0 <= k < s.len(),
{
    if s.len() > 0 && is_space_byte(s[0]) {
        lemma_run_len(s, 0, class_fn(ByteClass::Space));
    }
}

/// Recognises mandatory whitespace between fields of a line.
pub fn space(s: &[u8]) -> (r: Parsed<()>)
    ensures
        r@ == spec_space(s@),
{
    if s.len() == 0 {
        return Parsed::Incomplete;
    }
    if !matches_class(ByteClass::Space, *slice_index_get(s, 0)) {
        return Parsed::Failed(0);
    }
    let end = scan(s, 0, ByteClass::Space);
    Parsed::Found((), end)
}

/// A single digit in the 0 through 3 range.
pub open spec fn spec_quad_digit(s: Seq<u8>) -> SpecParsed<u8> {
    if s.len() == 0 {
        SpecParsed::Incomplete
    } else if is_quad_byte(s[0]) {
        SpecParsed::Found((s[0] - 48) as u8, 1)
    } else {
        SpecParsed::Failed(0)
    }
}

/// Recognises the first digit of an octal escape, 0 through 3.
pub fn quad_digit(s: &[u8]) -> (r: Parsed<u8>)
    ensures
        r@ == spec_quad_digit(s@),
{
    if s.len() == 0 {
        return Parsed::Incomplete;
    }
    let b = *slice_index_get(s, 0);
    if 48 <= b && b <= 51 {
        Parsed::Found(b - 48, 1)
    } else {
        Parsed::Failed(0)
    }
}

/// A single octal digit.
pub open spec fn spec_octal_digit(s: Seq<u8>) -> SpecParsed<u8> {
    if s.len() == 0 {
        SpecParsed::Incomplete
    } else if is_octal_byte(s[0]) {
        SpecParsed::Found((s[0] - 48) as u8, 1)
    } else {
        SpecParsed::Failed(0)
    }
}

/// Recognises one octal digit, 0 through 7.
pub fn octal_digit(s: &[u8]) -> (r: Parsed<u8>)
    ensures
        r@ == spec_octal_digit(s@),
{
    if s.len() == 0 {
        return Parsed::Incomplete;
    }
    let b = *slice_index_get(s, 0);
    if 48 <= b && b <= 55 {
        Parsed::Found(b - 48, 1)
    } else {
        Parsed::Failed(0)
    }
}

/// A single hexadecimal digit.
pub open spec fn spec_hex_digit(s: Seq<u8>) -> SpecParsed<u8> {
    if s.len() == 0 {
        SpecParsed::Incomplete
    } else if is_hex_byte(s[0]) {
        SpecParsed::Found(hex_value(s[0]) as u8, 1)
    } else {
        SpecParsed::Failed(0)
    }
}

/// Recognises one hexadecimal digit, either case.
pub fn hex_digit(s: &[u8]) -> (r: Parsed<u8>)
    ensures
        r@ == spec_hex_digit(s@),
{
    if s.len() == 0 {
        return Parsed::Incomplete;
    }
    let b = *slice_index_get(s, 0);
    if 48 <= b && b <= 57 {
        Parsed::Found(b - 48, 1)
    } else if 97 <= b && b <= 102 {
        Parsed::Found(b - 87, 1)
    } else if 65 <= b && b <= 70 {
        Parsed::Found(b - 55, 1)
    } else {
        Parsed::Failed(0)
    }
}

/// Octal escape rule: a backslash, one digit in 0 through 3, and two digits
/// in 0 through 7, encoding one byte.
pub open spec fn spec_octal_esc(s: Seq<u8>) -> SpecParsed<u8> {
    if s.len() == 0 {
        SpecParsed::Incomplete
    } else if s[0] != BACKSLASH {
        SpecParsed::Failed(0)
    } else if s.len() == 1 {
        SpecParsed::Incomplete
    } else if !is_quad_byte(s[1]) {
        SpecParsed::Failed(1)
    } else if s.len() == 2 {
        SpecParsed::Incomplete
    } else if !is_octal_byte(s[2]) {
        SpecParsed::Failed(2)
    } else if s.len() == 3 {
        SpecParsed::Incomplete
    } else if !is_octal_byte(s[3]) {
        SpecParsed::Failed(3)
    } else {
        SpecParsed::Found(((s[1] - 48) * 64 + (s[2] - 48) * 8 + (s[3] - 48)) as u8, 4)
    }
}

/// Recognises one octal escape and returns the byte it encodes.
pub fn octal_esc(s: &[u8]) -> (r: Parsed<u8>)
    ensures
        r@ == spec_octal_esc(s@),
{
    if s.len() == 0 {
        return Parsed::Incomplete;
    }
    if *slice_index_get(s, 0) != BACKSLASH {
        return Parsed::Failed(0);
    }
    if s.len() == 1 {
        return Parsed::Incomplete;
    }
    let a = *slice_index_get(s, 1);
    if !(48 <= a && a <= 51) {
        return Parsed::Failed(1);
    }
    if s.len() == 2 {
        return Parsed::Incomplete;
    }
    let b = *slice_index_get(s, 2);
    if !(48 <= b && b <= 55) {
        return Parsed::Failed(2);
    }
    if s.len() == 3 {
        return Parsed::Incomplete;
    }
    let c = *slice_index_get(s, 3);
    if !(48 <= c && c <= 55) {
        return Parsed::Failed(3);
    }
    Parsed::Found((a - 48) * 64 + (b - 48) * 8 + (c - 48), 4)
}

/// Hex escape rule: a backslash, the letter `x`, and exactly two hexadecimal
/// digits, encoding one byte.
pub open spec fn spec_hex_esc(s: Seq<u8>) -> SpecParsed<u8> {
    if s.len() == 0 {
        SpecParsed::Incomplete
    } else if s[0] != BACKSLASH {
        SpecParsed::Failed(0)
    } else if s.len() == 1 {
        SpecParsed::Incomplete
    } else if s[1] != 120 {
        SpecParsed::Failed(0)
    } else if s.len() == 2 {
        SpecParsed::Incomplete
    } else if !is_hex_byte(s[2]) {
        SpecParsed::Failed(2)
    } else if s.len() == 3 {
        SpecParsed::Incomplete
    } else if !is_hex_byte(s[3]) {
        SpecParsed::Failed(3)
    } else {
        SpecParsed::Found((hex_value(s[2]) * 16 + hex_value(s[3])) as u8, 4)
    }
}

/// Recognises one `\xHH` escape and returns the byte it encodes.
pub fn hex_esc(s: &[u8]) -> (r: Parsed<u8>)
    ensures
        r@ == spec_hex_esc(s@),
{
    if s.len() == 0 {
        return Parsed::Incomplete;
    }
    if *slice_index_get(s, 0) != BACKSLASH {
        return Parsed::Failed(0);
    }
    if s.len() == 1 {
        return Parsed::Incomplete;
    }
    if *slice_index_get(s, 1) != 120 {
        return Parsed::Failed(0);
    }
    if s.len() == 2 {
        return Parsed::Incomplete;
    }
    let hi = match hex_digit(slice_subrange(s, 2, s.len())) {
        Parsed::Found(v, _) => v,
        Parsed::Incomplete => return Parsed::Incomplete,
        Parsed::Failed(_) => return Parsed::Failed(2),
    };
    if s.len() == 3 {
        return Parsed::Incomplete;
    }
    let lo = match hex_digit(slice_subrange(s, 3, s.len())) {
        Parsed::Found(v, _) => v,
        Parsed::Incomplete => return Parsed::Incomplete,
        Parsed::Failed(_) => return Parsed::Failed(3),
    };
    Parsed::Found(hi * 16 + lo, 4)
}

/// The body of a quoted string, beginning right after the opening quote:
/// raw bytes pass through, `\xHH` escapes decode to one byte each, and the
/// closing quote ends it.  Returns the decoded bytes and the count consumed,
/// including the closing quote.
pub open spec fn spec_qs_raw(s: Seq<u8>) -> SpecParsed<Seq<u8>>
    decreases s.len(),
{
    if s.len() == 0 {
        SpecParsed::Incomplete
    } else if s[0] == QUOTE {
        SpecParsed::Found(seq![], 1)
    } else if s[0] == BACKSLASH {
        match spec_hex_esc(s) {
            SpecParsed::Found(b, n) => if 0 < n <= s.len() {
                match spec_qs_raw(s.subrange(n, s.len() as int)) {
                    SpecParsed::Found(bs, m) => SpecParsed::Found(seq![b] + bs, n + m),
                    SpecParsed::Incomplete => SpecParsed::Incomplete,
                    SpecParsed::Failed(k) => SpecParsed::Failed(n + k),
                }
            } else {
                SpecParsed::Failed(0)
            },
            SpecParsed::Incomplete => SpecParsed::Incomplete,
            SpecParsed::Failed(_) => SpecParsed::Failed(0),
        }
    } else {
        match spec_qs_raw(s.subrange(1, s.len() as int)) {
            SpecParsed::Found(bs, m) => SpecParsed::Found(seq![s[0]] + bs, 1 + m),
            SpecParsed::Incomplete => SpecParsed::Incomplete,
            SpecParsed::Failed(k) => SpecParsed::Failed(1 + k),
        }
    }
}

/// The string-body rule consumes at least the closing quote, and a failure
/// offset points at a byte of the slice.
pub proof fn lemma_spec_qs_raw_bounds(s: Seq<u8>)
    ensures
        spec_qs_raw(s) matches SpecParsed::Found(_, m) ==> 1 <= m <= s.len(),
        spec_qs_raw(s) matches SpecParsed::Failed(k) ==> 0 <= k < s.len(),
    decreases s.len(),
{
    if s.len() == 0 || s[0] == QUOTE {
    } else if s[0] == BACKSLASH {
        match spec_hex_esc(s) {
            SpecParsed::Found(b, n) => {
                lemma_spec_qs_raw_bounds(s.subrange(n, s.len() as int));
            },
            _ => {},
        }
    } else {
        lemma_spec_qs_raw_bounds(s.subrange(1, s.len() as int));
    }
}

/// Quoted string rule: a quote, the string body, and a final UTF-8 check on
/// the decoded bytes; an invalid encoding fails at the start of the body.
pub open spec fn spec_quoted_string(s: Seq<u8>) -> SpecParsed<Seq<char>> {
    if s.len() == 0 {
        SpecParsed::Incomplete
    } else if s[0] != QUOTE {
        SpecParsed::Failed(0)
    } else {
        match spec_qs_raw(s.subrange(1, s.len() as int)) {
            SpecParsed::Found(bytes, m) => if valid_utf8(bytes) {
                SpecParsed::Found(decode_utf8(bytes), 1 + m)
            } else {
                SpecParsed::Failed(1)
            },
            SpecParsed::Incomplete => SpecParsed::Incomplete,
            SpecParsed::Failed(k) => SpecParsed::Failed(1 + k),
        }
    }
}

/// Recognises a quoted string and returns its decoded text.
pub fn quoted_string(s: &[u8]) -> (r: Parsed<String>)
    ensures
        r@ == spec_quoted_string(s@),
{
    let n = s.len();
    if n == 0 {
        return Parsed::Incomplete;
    }
    if *slice_index_get(s, 0) != QUOTE {
        return Parsed::Failed(0);
    }
    let mut out: Vec<u8> = Vec::new();
    let mut i: usize = 1;
    proof {
        assert(s@.subrange(1int, n as int) =~= s@.subrange(1int, s@.len() as int));
    }
    loop
        invariant
            1 <= i <= n,
            n == s@.len(),
            s@[0] == QUOTE,
            match spec_qs_raw(s@.subrange(i as int, n as int)) {
                SpecParsed::Found(bs, m) => spec_qs_raw(s@.subrange(1int, n as int))
                    == SpecParsed::Found(out@ + bs, (i - 1) + m),
                SpecParsed::Incomplete => spec_qs_raw(s@.subrange(1int, n as int))
                    is Incomplete,
                SpecParsed::Failed(k) => spec_qs_raw(s@.subrange(1int, n as int))
                    == SpecParsed::Failed::<Seq<u8>>((i - 1) + k),
            },
        decreases n - i,
    {
        let ghost t = s@.subrange(i as int, n as int);
        if i >= n {
            return Parsed::Incomplete;
        }
        let b = *slice_index_get(s, i);
        if b == QUOTE {
            proof {
                assert(spec_qs_raw(t) == SpecParsed::Found(Seq::<u8>::empty(), 1int));
                assert(out@ + Seq::<u8>::empty() =~= out@);
            }
            let ghost content = out@;
            match string_from_utf8(out) {
                Some(st) => {
                    return Parsed::Found(st, i + 1);
                },
                None => {
                    return Parsed::Failed(1);
                },
            }
        } else if b == BACKSLASH {
            match hex_esc(slice_subrange(s, i, n)) {
                Parsed::Found(v, esc_len) => {
                    proof {
                        assert(t.subrange(esc_len as int, t.len() as int) =~= s@.subrange(
                            i + esc_len,
                            n as int,
                        ));
                        assert(out@.push(v) =~= out@ + seq![v]);
                        assert forall|bs: Seq<u8>| true implies out@ + (seq![v] + bs) =~= (out@
                            + seq![v]) + bs by {};
                    }
                    out.push(v);
                    i = i + esc_len;
                },
                Parsed::Incomplete => {
                    return Parsed::Incomplete;
                },
                Parsed::Failed(_) => {
                    return Parsed::Failed(i);
                },
            }
        } else {
            proof {
                assert(t.subrange(1int, t.len() as int) =~= s@.subrange(i + 1, n as int));
                assert(out@.push(b) =~= out@ + seq![b]);
                assert(t[0] == b);
                assert forall|bs: Seq<u8>| true implies out@ + (seq![b] + bs) =~= (out@ + seq![b])
                    + bs by {};
            }
            out.push(b);
            i = i + 1;
        }
    }
}

/// Leading junk: any number of blank or comment lines, then optional
/// horizontal whitespace.  It never fails.
pub open spec fn spec_leading_junk(s: Seq<u8>) -> SpecParsed<()>
    decreases s.len(),
{
    match spec_endl(s) {
        SpecParsed::Found(u, n) => if 0 < n <= s.len() {
            match spec_leading_junk(s.subrange(n, s.len() as int)) {
                SpecParsed::Found(u2, m) => SpecParsed::Found(u2, n + m),
                SpecParsed::Incomplete => SpecParsed::Incomplete,
                SpecParsed::Failed(k) => SpecParsed::Failed(n + k),
            }
        } else {
            SpecParsed::Failed(0)
        },
        SpecParsed::Incomplete => SpecParsed::Incomplete,
        SpecParsed::Failed(_) => SpecParsed::Found((), run_len(s, 0, class_fn(ByteClass::Space))),
    }
}

/// Junk consumes at most the whole slice and never fails.
pub proof fn lemma_spec_junk_bounds(s: Seq<u8>)
    ensures
        spec_leading_junk(s) matches SpecParsed::Found(_, m) ==> 0 <= m <= s.len(),
        !(spec_leading_junk(s) is Failed),
    decreases s.len(),
{
    lemma_spec_endl_bounds(s);
    match spec_endl(s) {
        SpecParsed::Found(u, n) => {
            lemma_spec_junk_bounds(s.subrange(n, s.len() as int));
        },
        SpecParsed::Incomplete => {},
        SpecParsed::Failed(k) => {
            lemma_run_len(s, 0, class_fn(ByteClass::Space));
        },
    }
}

/// Skips blank lines, comment lines and leading whitespace.
pub fn leading_junk(s: &[u8]) -> (r: Parsed<()>)
    ensures
        r@ == spec_leading_junk(s@),
{
    let n = s.len();
    let mut i: usize = 0;
    proof {
        assert(s@.subrange(0int, n as int) =~= s@);
    }
    loop
        invariant
            i <= n,
            n == s@.len(),
            match spec_leading_junk(s@.subrange(i as int, n as int)) {
                SpecParsed::Found(u, m) => spec_leading_junk(s@) == SpecParsed::Found(u, i + m),
                SpecParsed::Incomplete => spec_leading_junk(s@) is Incomplete,
                SpecParsed::Failed(k) => spec_leading_junk(s@) == SpecParsed::Failed::<()>(i + k),
            },
        decreases n - i,
    {
        let ghost t = s@.subrange(i as int, n as int);
        match endl(slice_subrange(s, i, n)) {
            Parsed::Found(_, step) => {
                proof {
                    lemma_spec_endl_bounds(t);
                    assert(t.subrange(step as int, t.len() as int) =~= s@.subrange(
                        i + step,
                        n as int,
                    ));
                }
                i = i + step;
            },
            Parsed::Incomplete => {
                return Parsed::Incomplete;
            },
            Parsed::Failed(_) => {
                let end = scan(s, i, ByteClass::Space);
                proof {
                    lemma_run_len_suffix(s@, i as int, class_fn(ByteClass::Space));
                }
                return Parsed::Found((), end);
            },
        }
    }
}

/// Multiline octal block rule: octal escapes separated by arbitrary blank,
/// comment, or whitespace junk, up to but not including the junk before the
/// terminator.  It never fails; a byte that starts no further escape simply
/// ends the block.
pub open spec fn spec_multiline_octal(s: Seq<u8>) -> SpecParsed<Seq<u8>>
    decreases s.len(),
{
    if s.len() == 0 {
        SpecParsed::Found(seq![], 0)
    } else {
        match spec_leading_junk(s) {
            SpecParsed::Found(_, j) => if 0 <= j <= s.len() {
                match spec_octal_esc(s.subrange(j, s.len() as int)) {
                    SpecParsed::Found(b, n) => if 0 < n && j + n <= s.len() {
                        match spec_multiline_octal(s.subrange(j + n, s.len() as int)) {
                            SpecParsed::Found(bs, m) => SpecParsed::Found(seq![b] + bs, j + n + m),
                            SpecParsed::Incomplete => SpecParsed::Incomplete,
                            SpecParsed::Failed(k) => SpecParsed::Failed(j + n + k),
                        }
                    } else {
                        SpecParsed::Failed(j)
                    },
                    SpecParsed::Incomplete => SpecParsed::Incomplete,
                    SpecParsed::Failed(_) => SpecParsed::Found(seq![], 0),
                }
            } else {
                SpecParsed::Failed(0)
            },
            SpecParsed::Incomplete => SpecParsed::Incomplete,
            SpecParsed::Failed(k) => SpecParsed::Failed(k),
        }
    }
}

/// A block consumes at most the whole slice and never fails.
pub proof fn lemma_spec_mo_bounds(s: Seq<u8>)
    ensures
        spec_multiline_octal(s) matches SpecParsed::Found(_, m) ==> 0 <= m <= s.len(),
        !(spec_multiline_octal(s) is Failed),
    decreases s.len(),
{
    if s.len() > 0 {
        lemma_spec_junk_bounds(s);
        match spec_leading_junk(s) {
            SpecParsed::Found(_, j) => {
                match spec_octal_esc(s.subrange(j, s.len() as int)) {
                    SpecParsed::Found(b, n) => {
                        lemma_spec_mo_bounds(s.subrange(j + n, s.len() as int));
                    },
                    _ => {},
                }
            },
            _ => {},
        }
    }
}

/// Recognises a multiline octal block and returns the bytes it encodes.
pub fn multiline_octal(s: &[u8]) -> (r: Parsed<Vec<u8>>)
    ensures
        r@ == spec_multiline_octal(s@),
{
    let n = s.len();
    let mut out: Vec<u8> = Vec::new();
    let mut i: usize = 0;
    proof {
        assert(s@.subrange(0int, n as int) =~= s@);
    }
    loop
        invariant
            i <= n,
            n == s@.len(),
            match spec_multiline_octal(s@.subrange(i as int, n as int)) {
                SpecParsed::Found(bs, m) => spec_multiline_octal(s@) == SpecParsed::Found(
                    out@ + bs,
                    i + m,
                ),
                SpecParsed::Incomplete => spec_multiline_octal(s@) is Incomplete,
                SpecParsed::Failed(k) => spec_multiline_octal(s@) == SpecParsed::Failed::<
                    Seq<u8>,
                >(i + k),
            },
        decreases n - i,
    {
        let ghost t = s@.subrange(i as int, n as int);
        if i >= n {
            proof {
                assert(out@ + Seq::<u8>::empty() =~= out@);
            }
            return Parsed::Found(out, i);
        }
        match leading_junk(slice_subrange(s, i, n)) {
            Parsed::Found(_, j) => {
                proof {
                    lemma_spec_junk_bounds(t);
                    assert(t.subrange(j as int, t.len() as int) =~= s@.subrange(i + j, n as int));
                }
                match octal_esc(slice_subrange(s, i + j, n)) {
                    Parsed::Found(v, esc_len) => {
                        proof {
                            assert(t.subrange(j + esc_len, t.len() as int) =~= s@.subrange(
                                i + j + esc_len,
                                n as int,
                            ));
                            assert(out@.push(v) =~= out@ + seq![v]);
                            assert forall|bs: Seq<u8>| true implies out@ + (seq![v] + bs) =~= (out@
                                + seq![v]) + bs by {};
                        }
                        out.push(v);
                        i = i + j + esc_len;
                    },
                    Parsed::Incomplete => {
                        return Parsed::Incomplete;
                    },
                    Parsed::Failed(_) => {
                        proof {
                            assert(out@ + Seq::<u8>::empty() =~= out@);
                        }
                        return Parsed::Found(out, i);
                    },
                }
            },
            Parsed::Incomplete => {
                return Parsed::Incomplete;
            },
            Parsed::Failed(_) => {
                proof {
                    lemma_spec_junk_bounds(t);
                }
                return vstd::pervasive::unreached();
            },
        }
    }
}

/// Literal rule: the slice must begin with the given bytes; a shorter slice
/// that matches as far as it goes is incomplete, and any mismatch fails at
/// the start of the attempt.
pub open spec fn spec_tag(s: Seq<u8>, t: Seq<u8>) -> SpecParsed<()> {
    if s.len() >= t.len() {
        if s.subrange(0, t.len() as int) == t {
            SpecParsed::Found((), t.len() as int)
        } else {
            SpecParsed::Failed(0)
        }
    } else {
        if s == t.subrange(0, s.len() as int) {
            SpecParsed::Incomplete
        } else {
            SpecParsed::Failed(0)
        }
    }
}

fn tag(s: &[u8], t: &[u8]) -> (r: Parsed<()>)
    ensures
        r@ == spec_tag(s@, t@),
{
    if s.len() >= t.len() {
        if bytes_eq(slice_subrange(s, 0, t.len()), t) {
            Parsed::Found((), t.len())
        } else {
            Parsed::Failed(0)
        }
    } else {
        if bytes_eq(s, slice_subrange(t, 0, s.len())) {
            Parsed::Incomplete
        } else {
            Parsed::Failed(0)
        }
    }
}

/// The keyword that introduces a binary value, spelled `MULTILINE_OCTAL`.
pub open spec fn mo_keyword() -> Seq<u8> {
    seq![77u8, 85, 76, 84, 73, 76, 73, 78, 69, 95, 79, 67, 84, 65, 76]
}

fn mo_keyword_bytes() -> (r: Vec<u8>)
    ensures
        r@ == mo_keyword(),
{
    let v: Vec<u8> = vec![77u8, 85, 76, 84, 73, 76, 73, 78, 69, 95, 79, 67, 84, 65, 76];
    proof {
        assert(v@ =~= mo_keyword());
    }
    v
}

/// The keyword that introduces a string value, spelled `UTF8`.
pub open spec fn utf8_keyword() -> Seq<u8> {
    seq![85u8, 84, 70, 56]
}

fn utf8_keyword_bytes() -> (r: Vec<u8>)
    ensures
        r@ == utf8_keyword(),
{
    let v: Vec<u8> = vec![85u8, 84, 70, 56];
    proof {
        assert(v@ =~= utf8_keyword());
    }
    v
}

/// The keyword that terminates a binary value, spelled `END`.
pub open spec fn end_keyword() -> Seq<u8> {
    seq![69u8, 78, 68]
}

fn end_keyword_bytes() -> (r: Vec<u8>)
    ensures
        r@ == end_keyword(),
{
    let v: Vec<u8> = vec![69u8, 78, 68];
    proof {
        assert(v@ =~= end_keyword());
    }
    v
}

/// The keyword that opens the attribute stream, spelled `BEGINDATA`.
pub open spec fn begindata_keyword() -> Seq<u8> {
    seq![66u8, 69, 71, 73, 78, 68, 65, 84, 65]
}

fn begindata_keyword_bytes() -> (r: Vec<u8>)
    ensures
        r@ == begindata_keyword(),
{
    let v: Vec<u8> = vec![66u8, 69, 71, 73, 78, 68, 65, 84, 65];
    proof {
        assert(v@ =~= begindata_keyword());
    }
    v
}

/// One attribute's typed payload, exactly as written in the input: a
/// `MULTILINE_OCTAL` block becomes `Binary`, a `UTF8` quoted string becomes
/// `String`, and any other type tag carries its value as a plain `Token`.
#[derive(Debug, Clone, PartialEq, Eq)]
pub enum Value {
    Token(String, String),
    String(String),
    Binary(Vec<u8>),
}

/// Specification-level counterpart of [`Value`].
pub enum ValueView {
    Token(Seq<char>, Seq<char>),
    String(Seq<char>),
    Binary(Seq<u8>),
}

impl View for Value {
    type V = ValueView;

    open spec fn view(&self) -> ValueView {
        match self {
            Value::Token(ty, v) => ValueView::Token(ty@, v@),
            Value::String(v) => ValueView::String(v@),
            Value::Binary(v) => ValueView::Binary(v@),
        }
    }
}

/// The type tag under which a value was written.
pub open spec fn spec_value_type(v: ValueView) -> Seq<char> {
    match v {
        ValueView::Token(ty, _) => ty,
        ValueView::String(_) => "UTF8"@,
        ValueView::Binary(_) => "MULTILINE_OCTAL"@,
    }
}

impl Value {
    /// The type tag under which this value was written.
    pub fn get_type(&self) -> (r: &str)
        ensures
            r@ == spec_value_type(self@),
    {
        match self {
            Value::Token(ty, _) => ty.as_str(),
            Value::String(_) => "UTF8",
            Value::Binary(_) => "MULTILINE_OCTAL",
        }
    }

    /// Consumes the value and returns its type tag as an owned string.
    pub fn into_type(self) -> (r: String)
        ensures
            r@ == spec_value_type(self@),
    {
        match self {
            Value::Token(ty, _) => ty,
            Value::String(_) => "UTF8".to_owned(),
            Value::Binary(_) => "MULTILINE_OCTAL".to_owned(),
        }
    }
}

/// The remainder of a binary value after its keyword: a line end, the octal
/// block, a line end, the `END` keyword, and a final line end.
pub open spec fn spec_octal_value(s: Seq<u8>) -> SpecParsed<ValueView> {
    let len = s.len() as int;
    match spec_endl(s) {
        SpecParsed::Found(_, n1) => match spec_multiline_octal(s.subrange(n1, len)) {
            SpecParsed::Found(bits, n2) => match spec_endl(s.subrange(n1 + n2, len)) {
                SpecParsed::Found(_, n3) => match spec_tag(
                    s.subrange(n1 + n2 + n3, len),
                    end_keyword(),
                ) {
                    SpecParsed::Found(_, n4) => match spec_endl(
                        s.subrange(n1 + n2 + n3 + n4, len),
                    ) {
                        SpecParsed::Found(_, n5) => SpecParsed::Found(
                            ValueView::Binary(bits),
                            n1 + n2 + n3 + n4 + n5,
                        ),
                        SpecParsed::Incomplete => SpecParsed::Incomplete,
                        SpecParsed::Failed(k) => SpecParsed::Failed(n1 + n2 + n3 + n4 + k),
                    },
                    SpecParsed::Incomplete => SpecParsed::Incomplete,
                    SpecParsed::Failed(_) => SpecParsed::Failed(n1 + n2 + n3),
                },
                SpecParsed::Incomplete => SpecParsed::Incomplete,
                SpecParsed::Failed(k) => SpecParsed::Failed(n1 + n2 + k),
            },
            SpecParsed::Incomplete => SpecParsed::Incomplete,
            SpecParsed::Failed(k) => SpecParsed::Failed(n1 + k),
        },
        SpecParsed::Incomplete => SpecParsed::Incomplete,
        SpecParsed::Failed(k) => SpecParsed::Failed(k),
    }
}

/// The remainder of a string value after its keyword: mandatory whitespace,
/// a quoted string, and a line end.
pub open spec fn spec_string_value(s: Seq<u8>) -> SpecParsed<ValueView> {
    let len = s.len() as int;
    match spec_space(s) {
        SpecParsed::Found(_, n1) => match spec_quoted_string(s.subrange(n1, len)) {
            SpecParsed::Found(text, n2) => match spec_endl(s.subrange(n1 + n2, len)) {
                SpecParsed::Found(_, n3) => SpecParsed::Found(
                    ValueView::String(text),
                    n1 + n2 + n3,
                ),
                SpecParsed::Incomplete => SpecParsed::Incomplete,
                SpecParsed::Failed(k) => SpecParsed::Failed(n1 + n2 + k),
            },
            SpecParsed::Incomplete => SpecParsed::Incomplete,
            SpecParsed::Failed(k) => SpecParsed::Failed(n1 + k),
        },
        SpecParsed::Incomplete => SpecParsed::Incomplete,
        SpecParsed::Failed(k) => SpecParsed::Failed(k),
    }
}

/// A plain token value: a type token, mandatory whitespace, a value token,
/// and a line end.
pub open spec fn spec_token_value(s: Seq<u8>) -> SpecParsed<ValueView> {
    let len = s.len() as int;
    match spec_token(s) {
        SpecParsed::Found(ty, n1) => match spec_space(s.subrange(n1, len)) {
            SpecParsed::Found(_, n2) => match spec_token(s.subrange(n1 + n2, len)) {
                SpecParsed::Found(v, n3) => match spec_endl(s.subrange(n1 + n2 + n3, len)) {
                    SpecParsed::Found(_, n4) => SpecParsed::Found(
                        ValueView::Token(ty, v),
                        n1 + n2 + n3 + n4,
                    ),
                    SpecParsed::Incomplete => SpecParsed::Incomplete,
                    SpecParsed::Failed(k) => SpecParsed::Failed(n1 + n2 + n3 + k),
                },
                SpecParsed::Incomplete => SpecParsed::Incomplete,
                SpecParsed::Failed(k) => SpecParsed::Failed(n1 + n2 + k),
            },
            SpecParsed::Incomplete => SpecParsed::Incomplete,
            SpecParsed::Failed(k) => SpecParsed::Failed(n1 + k),
        },
        SpecParsed::Incomplete => SpecParsed::Incomplete,
        SpecParsed::Failed(k) => SpecParsed::Failed(k),
    }
}

/// Value rule: a `MULTILINE_OCTAL` block, a `UTF8` quoted string, or a plain
/// token pair.  Once one of the two keywords has matched, that branch is
/// committed and its errors are final.
pub open spec fn spec_type_and_value(s: Seq<u8>) -> SpecParsed<ValueView> {
    let len = s.len() as int;
    match spec_tag(s, mo_keyword()) {
        SpecParsed::Found(_, tn) => match spec_octal_value(s.subrange(tn, len)) {
            SpecParsed::Found(v, m) => SpecParsed::Found(v, tn + m),
            SpecParsed::Incomplete => SpecParsed::Incomplete,
            SpecParsed::Failed(k) => SpecParsed::Failed(tn + k),
        },
        SpecParsed::Incomplete => SpecParsed::Incomplete,
        SpecParsed::Failed(_) => match spec_tag(s, utf8_keyword()) {
            SpecParsed::Found(_, tn) => match spec_string_value(s.subrange(tn, len)) {
                SpecParsed::Found(v, m) => SpecParsed::Found(v, tn + m),
                SpecParsed::Incomplete => SpecParsed::Incomplete,
                SpecParsed::Failed(k) => SpecParsed::Failed(tn + k),
            },
            SpecParsed::Incomplete => SpecParsed::Incomplete,
            SpecParsed::Failed(_) => spec_token_value(s),
        },
    }
}

/// Attribute rule: leading junk, a key token, whitespace, and a value.
pub open spec fn spec_attribute(s: Seq<u8>) -> SpecParsed<(Seq<char>, ValueView)> {
    let len = s.len() as int;
    match spec_leading_junk(s) {
        SpecParsed::Found(_, j) => match spec_token(s.subrange(j, len)) {
            SpecParsed::Found(key, n1) => match spec_space(s.subrange(j + n1, len)) {
                SpecParsed::Found(_, n2) => match spec_type_and_value(
                    s.subrange(j + n1 + n2, len),
                ) {
                    SpecParsed::Found(v, n3) => SpecParsed::Found((key, v), j + n1 + n2 + n3),
                    SpecParsed::Incomplete => SpecParsed::Incomplete,
                    SpecParsed::Failed(k) => SpecParsed::Failed(j + n1 + n2 + k),
                },
                SpecParsed::Incomplete => SpecParsed::Incomplete,
                SpecParsed::Failed(k) => SpecParsed::Failed(j + n1 + k),
            },
            SpecParsed::Incomplete => SpecParsed::Incomplete,
            SpecParsed::Failed(k) => SpecParsed::Failed(j + k),
        },
        SpecParsed::Incomplete => SpecParsed::Incomplete,
        SpecParsed::Failed(k) => SpecParsed::Failed(k),
    }
}

/// Header rule: leading junk, the `BEGINDATA` keyword, and a line end.
pub open spec fn spec_begindata(s: Seq<u8>) -> SpecParsed<()> {
    let len = s.len() as int;
    match spec_leading_junk(s) {
        SpecParsed::Found(_, j) => match spec_tag(s.subrange(j, len), begindata_keyword()) {
            SpecParsed::Found(_, tn) => match spec_endl(s.subrange(j + tn, len)) {
                SpecParsed::Found(_, n2) => SpecParsed::Found((), j + tn + n2),
                SpecParsed::Incomplete => SpecParsed::Incomplete,
                SpecParsed::Failed(k) => SpecParsed::Failed(j + tn + k),
            },
            SpecParsed::Incomplete => SpecParsed::Incomplete,
            SpecParsed::Failed(_) => SpecParsed::Failed(j),
        },
        SpecParsed::Incomplete => SpecParsed::Incomplete,
        SpecParsed::Failed(k) => SpecParsed::Failed(k),
    }
}

fn octal_value(s: &[u8]) -> (r: Parsed<Value>)
    ensures
        r@ == spec_octal_value(s@),
{
    let len = s.len();
    let n1 = match endl(s) {
        Parsed::Found(_, x) => x,
        Parsed::Incomplete => {
            return Parsed::Incomplete;
        },
        Parsed::Failed(k) => {
            return Parsed::Failed(k);
        },
    };
    proof {
        lemma_spec_endl_bounds(s@);
        lemma_spec_mo_bounds(s@.subrange(n1 as int, len as int));
    }
    let (bits, n2) = match multiline_octal(slice_subrange(s, n1, len)) {
        Parsed::Found(v, x) => (v, x),
        Parsed::Incomplete => {
            return Parsed::Incomplete;
        },
        Parsed::Failed(k) => {
            return Parsed::Failed(n1 + k);
        },
    };
    let n3 = match endl(slice_subrange(s, n1 + n2, len)) {
        Parsed::Found(_, x) => x,
        Parsed::Incomplete => {
            return Parsed::Incomplete;
        },
        Parsed::Failed(k) => {
            return Parsed::Failed(n1 + n2 + k);
        },
    };
    proof {
        lemma_spec_endl_bounds(s@.subrange(n1 + n2, len as int));
    }
    let end_kw = end_keyword_bytes();
    let n4 = match tag(slice_subrange(s, n1 + n2 + n3, len), end_kw.as_slice()) {
        Parsed::Found(_, x) => x,
        Parsed::Incomplete => {
            return Parsed::Incomplete;
        },
        Parsed::Failed(_) => {
            return Parsed::Failed(n1 + n2 + n3);
        },
    };
    let n5 = match endl(slice_subrange(s, n1 + n2 + n3 + n4, len)) {
        Parsed::Found(_, x) => x,
        Parsed::Incomplete => {
            return Parsed::Incomplete;
        },
        Parsed::Failed(k) => {
            return Parsed::Failed(n1 + n2 + n3 + n4 + k);
        },
    };
    proof {
        lemma_spec_endl_bounds(s@.subrange(n1 + n2 + n3 + n4, len as int));
    }
    Parsed::Found(Value::Binary(bits), n1 + n2 + n3 + n4 + n5)
}

fn string_value(s: &[u8]) -> (r: Parsed<Value>)
    ensures
        r@ == spec_string_value(s@),
{
    let len = s.len();
    let n1 = match space(s) {
        Parsed::Found(_, x) => x,
        Parsed::Incomplete => {
            return Parsed::Incomplete;
        },
        Parsed::Failed(k) => {
            return Parsed::Failed(k);
        },
    };
    proof {
        lemma_spec_space_bounds(s@);
        lemma_spec_quoted_string_bounds(s@.subrange(n1 as int, len as int));
    }
    let (text, n2) = match quoted_string(slice_subrange(s, n1, len)) {
        Parsed::Found(v, x) => (v, x),
        Parsed::Incomplete => {
            return Parsed::Incomplete;
        },
        Parsed::Failed(k) => {
            return Parsed::Failed(n1 + k);
        },
    };
    proof {
        lemma_spec_quoted_string_bounds(s@.subrange(n1 as int, len as int));
    }
    let n3 = match endl(slice_subrange(s, n1 + n2, len)) {
        Parsed::Found(_, x) => x,
        Parsed::Incomplete => {
            return Parsed::Incomplete;
        },
        Parsed::Failed(k) => {
            return Parsed::Failed(n1 + n2 + k);
        },
    };
    proof {
        lemma_spec_endl_bounds(s@.subrange(n1 + n2, len as int));
    }
    Parsed::Found(Value::String(text), n1 + n2 + n3)
}

fn token_value(s: &[u8]) -> (r: Parsed<Value>)
    ensures
        r@ == spec_token_value(s@),
{
    let len = s.len();
    let (ty, n1) = match token(s) {
        Parsed::Found(v, x) => (v, x),
        Parsed::Incomplete => {
            return Parsed::Incomplete;
        },
        Parsed::Failed(k) => {
            return Parsed::Failed(k);
        },
    };
    proof {
        lemma_spec_token_bounds(s@);
        lemma_spec_space_bounds(s@.subrange(n1 as int, len as int));
    }
    let n2 = match space(slice_subrange(s, n1, len)) {
        Parsed::Found(_, x) => x,
        Parsed::Incomplete => {
            return Parsed::Incomplete;
        },
        Parsed::Failed(k) => {
            return Parsed::Failed(n1 + k);
        },
    };
    proof {
        lemma_spec_space_bounds(s@.subrange(n1 as int, len as int));
    }
    let (v, n3) = match token(slice_subrange(s, n1 + n2, len)) {
        Parsed::Found(v, x) => (v, x),
        Parsed::Incomplete => {
            return Parsed::Incomplete;
        },
        Parsed::Failed(k) => {
            return Parsed::Failed(n1 + n2 + k);
        },
    };
    proof {
        lemma_spec_token_bounds(s@.subrange(n1 + n2, len as int));
    }
    let n4 = match endl(slice_subrange(s, n1 + n2 + n3, len)) {
        Parsed::Found(_, x) => x,
        Parsed::Incomplete => {
            return Parsed::Incomplete;
        },
        Parsed::Failed(k) => {
            return Parsed::Failed(n1 + n2 + n3 + k);
        },
    };
    proof {
        lemma_spec_endl_bounds(s@.subrange(n1 + n2 + n3, len as int));
    }
    Parsed::Found(Value::Token(ty, v), n1 + n2 + n3 + n4)
}

/// A quoted string consumes at least its two quotes, and a failure offset
/// points into the slice.
pub proof fn lemma_spec_quoted_string_bounds(s: Seq<u8>)
    ensures
        spec_quoted_string(s) matches SpecParsed::Found(_, m) ==> 2 <= m <= s.len(),
        spec_quoted_string(s) matches SpecParsed::Failed(k) ==> 0 <= k < s.len(),
{
    if s.len() > 0 && s[0] == QUOTE {
        lemma_spec_qs_raw_bounds(s.subrange(1, s.len() as int));
    }
}

/// Recognises a typed value.
pub fn type_and_value(s: &[u8]) -> (r: Parsed<Value>)
    ensures
        r@ == spec_type_and_value(s@),
{
    let len = s.len();
    let mo_kw = mo_keyword_bytes();
    match tag(s, mo_kw.as_slice()) {
        Parsed::Found(_, tn) => {
            proof {
                lemma_spec_octal_value_bounds(s@.subrange(tn as int, len as int));
            }
            match octal_value(slice_subrange(s, tn, len)) {
                Parsed::Found(v, m) => Parsed::Found(v, tn + m),
                Parsed::Incomplete => Parsed::Incomplete,
                Parsed::Failed(k) => Parsed::Failed(tn + k),
            }
        },
        Parsed::Incomplete => Parsed::Incomplete,
        Parsed::Failed(_) => {
            let utf8_kw = utf8_keyword_bytes();
            match tag(s, utf8_kw.as_slice()) {
                Parsed::Found(_, tn) => {
                    proof {
                        lemma_spec_string_value_bounds(s@.subrange(tn as int, len as int));
                    }
                    match string_value(slice_subrange(s, tn, len)) {
                        Parsed::Found(v, m) => Parsed::Found(v, tn + m),
                        Parsed::Incomplete => Parsed::Incomplete,
                        Parsed::Failed(k) => Parsed::Failed(tn + k),
                    }
                },
                Parsed::Incomplete => Parsed::Incomplete,
                Parsed::Failed(_) => token_value(s),
            }
        },
    }
}

/// The binary-value remainder consumes at most the whole slice, and its
/// failure offsets point into or at the end of the slice.
pub proof fn lemma_spec_octal_value_bounds(s: Seq<u8>)
    ensures
        spec_octal_value(s) matches SpecParsed::Found(_, m) ==> 1 <= m <= s.len(),
        spec_octal_value(s) matches SpecParsed::Failed(k) ==> 0 <= k <= s.len(),
{
    let len = s.len() as int;
    lemma_spec_endl_bounds(s);
    match spec_endl(s) {
        SpecParsed::Found(_, n1) => {
            let t1 = s.subrange(n1, len);
            lemma_spec_mo_bounds(t1);
            match spec_multiline_octal(t1) {
                SpecParsed::Found(_, n2) => {
                    let t2 = s.subrange(n1 + n2, len);
                    lemma_spec_endl_bounds(t2);
                    match spec_endl(t2) {
                        SpecParsed::Found(_, n3) => {
                            let t3 = s.subrange(n1 + n2 + n3, len);
                            match spec_tag(t3, end_keyword()) {
                                SpecParsed::Found(_, n4) => {
                                    let t4 = s.subrange(n1 + n2 + n3 + n4, len);
                                    lemma_spec_endl_bounds(t4);
                                },
                                _ => {},
                            }
                        },
                        _ => {},
                    }
                },
                _ => {},
            }
        },
        _ => {},
    }
}

/// The string-value remainder consumes at most the whole slice, and its
/// failure offsets point into or at the end of the slice.
pub proof fn lemma_spec_string_value_bounds(s: Seq<u8>)
    ensures
        spec_string_value(s) matches SpecParsed::Found(_, m) ==> 1 <= m <= s.len(),
        spec_string_value(s) matches SpecParsed::Failed(k) ==> 0 <= k <= s.len(),
{
    let len = s.len() as int;
    lemma_spec_space_bounds(s);
    match spec_space(s) {
        SpecParsed::Found(_, n1) => {
            let t1 = s.subrange(n1, len);
            lemma_spec_quoted_string_bounds(t1);
            match spec_quoted_string(t1) {
                SpecParsed::Found(_, n2) => {
                    lemma_spec_endl_bounds(s.subrange(n1 + n2, len));
                },
                _ => {},
            }
        },
        _ => {},
    }
}

/// The token-value rule consumes at most the whole slice, and its failure
/// offsets point into or at the end of the slice.
pub proof fn lemma_spec_token_value_bounds(s: Seq<u8>)
    ensures
        spec_token_value(s) matches SpecParsed::Found(_, m) ==> 1 <= m <= s.len(),
        spec_token_value(s) matches SpecParsed::Failed(k) ==> 0 <= k <= s.len(),
{
    let len = s.len() as int;
    lemma_spec_token_bounds(s);
    match spec_token(s) {
        SpecParsed::Found(_, n1) => {
            let t1 = s.subrange(n1, len);
            lemma_spec_space_bounds(t1);
            match spec_space(t1) {
                SpecParsed::Found(_, n2) => {
                    let t2 = s.subrange(n1 + n2, len);
                    lemma_spec_token_bounds(t2);
                    match spec_token(t2) {
                        SpecParsed::Found(_, n3) => {
                            lemma_spec_endl_bounds(s.subrange(n1 + n2 + n3, len));
                        },
                        _ => {},
                    }
                },
                _ => {},
            }
        },
        _ => {},
    }
}

/// A value consumes at least one byte and at most the whole slice.
pub proof fn lemma_spec_tv_bounds(s: Seq<u8>)
    ensures
        spec_type_and_value(s) matches SpecParsed::Found(_, m) ==> 1 <= m <= s.len(),
        spec_type_and_value(s) matches SpecParsed::Failed(k) ==> 0 <= k <= s.len(),
{
    let len = s.len() as int;
    match spec_tag(s, mo_keyword()) {
        SpecParsed::Found(_, tn) => {
            lemma_spec_octal_value_bounds(s.subrange(tn, len));
        },
        SpecParsed::Incomplete => {},
        SpecParsed::Failed(_) => {
            match spec_tag(s, utf8_keyword()) {
                SpecParsed::Found(_, tn) => {
                    lemma_spec_string_value_bounds(s.subrange(tn, len));
                },
                SpecParsed::Incomplete => {},
                SpecParsed::Failed(_) => {
                    lemma_spec_token_value_bounds(s);
                },
            }
        },
    }
}

/// Recognises one attribute: optional blank or comment lines, then a key and
/// its typed value.
pub fn attribute(s: &[u8]) -> (r: Parsed<(String, Value)>)
    ensures
        r@ == spec_attribute(s@),
{
    let len = s.len();
    let j = match leading_junk(s) {
        Parsed::Found(_, x) => x,
        Parsed::Incomplete => {
            return Parsed::Incomplete;
        },
        Parsed::Failed(k) => {
            return Parsed::Failed(k);
        },
    };
    proof {
        lemma_spec_junk_bounds(s@);
    }
    let (key, n1) = match token(slice_subrange(s, j, len)) {
        Parsed::Found(v, x) => (v, x),
        Parsed::Incomplete => {
            return Parsed::Incomplete;
        },
        Parsed::Failed(k) => {
            return Parsed::Failed(j + k);
        },
    };
    proof {
        lemma_spec_token_bounds(s@.subrange(j as int, len as int));
    }
    let n2 = match space(slice_subrange(s, j + n1, len)) {
        Parsed::Found(_, x) => x,
        Parsed::Incomplete => {
            return Parsed::Incomplete;
        },
        Parsed::Failed(k) => {
            return Parsed::Failed(j + n1 + k);
        },
    };
    proof {
        lemma_spec_space_bounds(s@.subrange(j + n1, len as int));
    }
    proof {
        lemma_spec_tv_bounds(s@.subrange(j + n1 + n2, len as int));
    }
    match type_and_value(slice_subrange(s, j + n1 + n2, len)) {
        Parsed::Found(v, n3) => Parsed::Found((key, v), j + n1 + n2 + n3),
        Parsed::Incomplete => Parsed::Incomplete,
        Parsed::Failed(k) => Parsed::Failed(j + n1 + n2 + k),
    }
}

/// An attribute consumes at least one byte and at most the whole slice.
pub proof fn lemma_spec_attribute_bounds(s: Seq<u8>)
    ensures
        spec_attribute(s) matches SpecParsed::Found(_, m) ==> 1 <= m <= s.len(),
        spec_attribute(s) matches SpecParsed::Failed(k) ==> 0 <= k <= s.len(),
{
    let len = s.len() as int;
    lemma_spec_junk_bounds(s);
    match spec_leading_junk(s) {
        SpecParsed::Found(_, j) => {
            let t1 = s.subrange(j, len);
            lemma_spec_token_bounds(t1);
            match spec_token(t1) {
                SpecParsed::Found(_, n1) => {
                    let t2 = s.subrange(j + n1, len);
                    lemma_spec_space_bounds(t2);
                    match spec_space(t2) {
                        SpecParsed::Found(_, n2) => {
                            lemma_spec_tv_bounds(s.subrange(j + n1 + n2, len));
                        },
                        _ => {},
                    }
                },
                _ => {},
            }
        },
        _ => {},
    }
}

/// Recognises the `BEGINDATA` header that opens the attribute stream.
pub fn begindata(s: &[u8]) -> (r: Parsed<()>)
    ensures
        r@ == spec_begindata(s@),
{
    let len = s.len();
    let j = match leading_junk(s) {
        Parsed::Found(_, x) => x,
        Parsed::Incomplete => {
            return Parsed::Incomplete;
        },
        Parsed::Failed(k) => {
            return Parsed::Failed(k);
        },
    };
    proof {
        lemma_spec_junk_bounds(s@);
    }
    let bd_kw = begindata_keyword_bytes();
    let tn = match tag(slice_subrange(s, j, len), bd_kw.as_slice()) {
        Parsed::Found(_, x) => x,
        Parsed::Incomplete => {
            return Parsed::Incomplete;
        },
        Parsed::Failed(_) => {
            return Parsed::Failed(j);
        },
    };
    match endl(slice_subrange(s, j + tn, len)) {
        Parsed::Found(_, n2) => {
            proof {
                lemma_spec_endl_bounds(s@.subrange(j + tn, len as int));
            }
            Parsed::Found((), j + tn + n2)
        },
        Parsed::Incomplete => Parsed::Incomplete,
        Parsed::Failed(k) => Parsed::Failed(j + tn + k),
    }
}

/// The header consumes at least one byte and at most the whole slice.
pub proof fn lemma_spec_begindata_bounds(s: Seq<u8>)
    ensures
        spec_begindata(s) matches SpecParsed::Found(_, m) ==> 1 <= m <= s.len(),
        spec_begindata(s) matches SpecParsed::Failed(k) ==> 0 <= k <= s.len(),
{
    let len = s.len() as int;
    lemma_spec_junk_bounds(s);
    match spec_leading_junk(s) {
        SpecParsed::Found(_, j) => {
            match spec_tag(s.subrange(j, len), begindata_keyword()) {
                SpecParsed::Found(_, tn) => {
                    lemma_spec_endl_bounds(s.subrange(j + tn, len));
                },
                _ => {},
            }
        },
        _ => {},
    }
}

} // verus!
