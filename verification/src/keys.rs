//! Canonical byte encodings of typed keys.
//!
//! Every key is stored under the bytes given by [`AsBytes::as_bytes`]. No
//! two keys of one type have the same bytes. Numbers are encoded
//! big-endian, so that the byte-wise lexicographic order of the engine is
//! their numeric order; strings and byte vectors are their own bytes; the
//! encoding of a pair is the encoding of its first component followed by
//! that of its second, so that the records whose key begins with a given
//! first component are found by a scan under its encoding.

use vstd::prelude::*;
use vstd::slice::slice_to_vec;
use vstd::utf8::{encode_utf8, encode_utf8_decode_utf8, is_ascii_chars, is_ascii_chars_encode_utf8};

verus! {

/// The four big-endian bytes of `x`.
pub open spec fn u32_be(x: u32) -> Seq<u8> {
    seq![
        (x / 0x100_0000) as u8,
        ((x / 0x1_0000) % 0x100) as u8,
        ((x / 0x100) % 0x100) as u8,
        (x % 0x100) as u8,
    ]
}

/// The number whose big-endian bytes are the first four bytes of `b`.
pub open spec fn u32_from_be(b: Seq<u8>) -> int
    recommends
        b.len() == 4,
{
    b[0] as int * 0x100_0000 + b[1] as int * 0x1_0000 + b[2] as int * 0x100 + b[3] as int
}

/// `a` comes strictly before `b` in byte-wise lexicographic order: at the
/// first position where they differ `a` holds the smaller byte, or `a` is a
/// proper prefix of `b`.
pub open spec fn lex_lt(a: Seq<u8>, b: Seq<u8>) -> bool {
    exists|i: int| #[trigger] differs_at(a, b, i)
}

/// `a` and `b` agree on their first `i` bytes, and at position `i` either
/// `a` ends while `b` goes on, or `a` holds the smaller byte.
pub open spec fn differs_at(a: Seq<u8>, b: Seq<u8>, i: int) -> bool {
    &&& 0 <= i <= a.len()
    &&& i < b.len()
    &&& a.take(i) == b.take(i)
    &&& (i < a.len() ==> a[i] < b[i])
}

/// `a` is `b` or comes before it.
pub open spec fn lex_le(a: Seq<u8>, b: Seq<u8>) -> bool {
    a == b || lex_lt(a, b)
}

/// `key` begins with the bytes of `prefix`.
pub open spec fn has_prefix(key: Seq<u8>, prefix: Seq<u8>) -> bool {
    prefix.len() <= key.len() && key.take(prefix.len() as int) == prefix
}

/// A value with a canonical byte encoding, usable as the key of a record.
pub trait AsBytes {
    /// The encoding, as a mathematical sequence. A verified
    /// implementation defines it; one made outside the verifier cannot,
    /// and its `as_bytes` is trusted to return the same for the same
    /// value.
    open spec fn bytes(&self) -> Seq<u8> {
        arbitrary()
    }

    /// Encodes the value.
    fn as_bytes(&self) -> (out: Vec<u8>)
        ensures
            out@ == self.bytes(),
    ;
}

/// Encodes `x` as four big-endian bytes.
pub fn u32_to_be_bytes(x: u32) -> (out: Vec<u8>)
    ensures
        out@ == u32_be(x),
{
    let mut out: Vec<u8> = Vec::new();
    out.push((x / 0x100_0000) as u8);
    out.push(((x / 0x1_0000) % 0x100) as u8);
    out.push(((x / 0x100) % 0x100) as u8);
    out.push((x % 0x100) as u8);
    assert(out@ =~= u32_be(x));
    out
}

/// Decodes four big-endian bytes; `None` unless `bytes` holds exactly four.
pub fn u32_from_be_bytes(bytes: &[u8]) -> (out: Option<u32>)
    ensures
        out is Some <==> bytes@.len() == 4,
        out matches Some(x) ==> u32_be(x) == bytes@ && x == u32_from_be(bytes@),
{
    if bytes.len() != 4 {
        return None;
    }
    let b0: u32 = bytes[0] as u32;
    let b1: u32 = bytes[1] as u32;
    let b2: u32 = bytes[2] as u32;
    let b3: u32 = bytes[3] as u32;
    let x: u32 = b0 * 0x100_0000 + b1 * 0x1_0000 + b2 * 0x100 + b3;
    proof {
        lemma_be_digits(b0 as int, b1 as int, b2 as int, b3 as int);
        assert(u32_be(x) =~= bytes@);
    }
    Some(x)
}

/// The four base-256 digits of a number are recovered by division and
/// remainder.
proof fn lemma_be_digits(b0: int, b1: int, b2: int, b3: int)
    requires
        0 <= b0 < 0x100,
        0 <= b1 < 0x100,
        0 <= b2 < 0x100,
        0 <= b3 < 0x100,
    ensures
        ({
            let x = b0 * 0x100_0000 + b1 * 0x1_0000 + b2 * 0x100 + b3;
            &&& 0 <= x < 0x1_0000_0000
            &&& x / 0x100_0000 == b0
            &&& (x / 0x1_0000) % 0x100 == b1
            &&& (x / 0x100) % 0x100 == b2
            &&& x % 0x100 == b3
        }),
{
    let x = b0 * 0x100_0000 + b1 * 0x1_0000 + b2 * 0x100 + b3;
    let hi = b0 * 0x100 + b1;
    let mid = hi * 0x100 + b2;
    assert(x == mid * 0x100 + b3);
    assert(x / 0x100 == mid);
    assert(x == hi * 0x1_0000 + (b2 * 0x100 + b3));
    assert(x / 0x1_0000 == hi);
    assert(x == b0 * 0x100_0000 + (b1 * 0x1_0000 + b2 * 0x100 + b3));
    assert(x / 0x100_0000 == b0);
}

/// `a ++ b` as a fresh vector.
pub fn concat_bytes(a: &[u8], b: &[u8]) -> (out: Vec<u8>)
    ensures
        out@ == a@ + b@,
{
    let mut out: Vec<u8> = slice_to_vec(a);
    let mut i: usize = 0;
    while i < b.len()
        invariant
            i <= b@.len(),
            out@ == a@ + b@.take(i as int),
        decreases b@.len() - i,
    {
        out.push(b[i]);
        assert(b@.take(i as int).push(b@[i as int]) =~= b@.take(i + 1));
        assert(out@ =~= a@ + b@.take(i + 1));
        i += 1;
    }
    assert(b@.take(i as int) =~= b@);
    out
}

impl AsBytes for u32 {
    open spec fn bytes(&self) -> Seq<u8> {
        u32_be(*self)
    }

    fn as_bytes(&self) -> (out: Vec<u8>) {
        assert(self.bytes() == u32_be(*self));
        u32_to_be_bytes(*self)
    }
}

impl AsBytes for String {
    open spec fn bytes(&self) -> Seq<u8> {
        encode_utf8(self@)
    }

    fn as_bytes(&self) -> (out: Vec<u8>) {
        slice_to_vec(self.as_str().as_bytes())
    }
}

impl AsBytes for Vec<u8> {
    open spec fn bytes(&self) -> Seq<u8> {
        self@
    }

    fn as_bytes(&self) -> (out: Vec<u8>) {
        slice_to_vec(self.as_slice())
    }
}

impl AsBytes for (u32, u32) {
    open spec fn bytes(&self) -> Seq<u8> {
        self.0.bytes() + self.1.bytes()
    }

    fn as_bytes(&self) -> (out: Vec<u8>) {
        let a = u32_to_be_bytes(self.0);
        let b = u32_to_be_bytes(self.1);
        concat_bytes(a.as_slice(), b.as_slice())
    }
}

impl AsBytes for (u32, String) {
    open spec fn bytes(&self) -> Seq<u8> {
        self.0.bytes() + self.1.bytes()
    }

    fn as_bytes(&self) -> (out: Vec<u8>) {
        let a = u32_to_be_bytes(self.0);
        concat_bytes(a.as_slice(), self.1.as_str().as_bytes())
    }
}

impl AsBytes for (String, u32) {
    open spec fn bytes(&self) -> Seq<u8> {
        self.0.bytes() + self.1.bytes()
    }

    fn as_bytes(&self) -> (out: Vec<u8>) {
        let b = u32_to_be_bytes(self.1);
        concat_bytes(self.0.as_str().as_bytes(), b.as_slice())
    }
}

/// Every number below 2^32 is the sum of its four base-256 digits.
proof fn lemma_digits_sum(x: int)
    requires
        0 <= x < 0x1_0000_0000,
    ensures
        x == (x / 0x100_0000) * 0x100_0000 + ((x / 0x1_0000) % 0x100) * 0x1_0000 + ((x / 0x100)
            % 0x100) * 0x100 + x % 0x100,
        0 <= x / 0x100_0000 < 0x100,
{
    let q1 = x / 0x100;
    let q2 = x / 0x1_0000;
    let q3 = x / 0x100_0000;
    assert(q2 == q1 / 0x100);
    assert(q3 == q2 / 0x100);
    assert(x == q1 * 0x100 + x % 0x100);
    assert(q1 == q2 * 0x100 + q1 % 0x100);
    assert(q2 == q3 * 0x100 + q2 % 0x100);
}

/// Nothing comes before itself.
pub proof fn lemma_lex_lt_irreflexive(a: Seq<u8>)
    ensures
        !lex_lt(a, a),
{
}

/// Of two byte strings at most one comes before the other.
pub proof fn lemma_lex_lt_asymmetric(a: Seq<u8>, b: Seq<u8>)
    ensures
        !(lex_lt(a, b) && lex_lt(b, a)),
{
    if lex_lt(a, b) && lex_lt(b, a) {
        let i = choose|i: int| differs_at(a, b, i);
        let j = choose|j: int| differs_at(b, a, j);
        if i < j {
            assert(b.take(j)[i] == a.take(j)[i]);
        } else if j < i {
            assert(a.take(i)[j] == b.take(i)[j]);
        }
    }
}

/// A number is the number that its big-endian bytes encode.
pub proof fn lemma_u32_round_trip(x: u32)
    ensures
        u32_be(x).len() == 4,
        u32_from_be(u32_be(x)) == x,
{
    lemma_digits_sum(x as int);
}

/// Four bytes are the big-endian bytes of the number they encode.
pub proof fn lemma_u32_bytes_round_trip(b: Seq<u8>)
    requires
        b.len() == 4,
    ensures
        0 <= u32_from_be(b) <= u32::MAX,
        u32_be(u32_from_be(b) as u32) == b,
{
    lemma_be_digits(b[0] as int, b[1] as int, b[2] as int, b[3] as int);
    assert(u32_be(u32_from_be(b) as u32) =~= b);
}

/// What comes before something that comes before a third comes before
/// the third.
pub proof fn law_byte_order_is_transitive(a: Seq<u8>, b: Seq<u8>, c: Seq<u8>)
    requires
        lex_lt(a, b),
        lex_lt(b, c),
    ensures
        lex_lt(a, c),
{
    let i = choose|i: int| differs_at(a, b, i);
    let j = choose|j: int| differs_at(b, c, j);
    let k = if i <= j {
        i
    } else {
        j
    };
    assert forall|n: int| 0 <= n < k implies a[n] == c[n] by {
        assert(a.take(i)[n] == b.take(i)[n]);
        assert(b.take(j)[n] == c.take(j)[n]);
    }
    assert(a.take(k) =~= c.take(k));
    if k < a.len() {
        if i < j {
            assert(b.take(j)[i] == c.take(j)[i]);
        } else if j < i {
            assert(a.take(i)[j] == b.take(i)[j]);
        }
    }
    assert(differs_at(a, c, k));
}

/// Of two byte strings that are not the same, one comes before the
/// other.
pub proof fn law_byte_order_is_total(a: Seq<u8>, b: Seq<u8>)
    ensures
        a == b || lex_lt(a, b) || lex_lt(b, a),
    decreases a.len(),
{
    if a.len() == 0 {
        if b.len() > 0 {
            assert(a.take(0) =~= b.take(0));
            assert(differs_at(a, b, 0));
        } else {
            assert(a =~= b);
        }
    } else if b.len() == 0 {
        assert(b.take(0) =~= a.take(0));
        assert(differs_at(b, a, 0));
    } else if a[0] < b[0] {
        assert(a.take(0) =~= b.take(0));
        assert(differs_at(a, b, 0));
    } else if b[0] < a[0] {
        assert(b.take(0) =~= a.take(0));
        assert(differs_at(b, a, 0));
    } else {
        let head = seq![a[0]];
        assert(a =~= head + a.skip(1));
        assert(b =~= head + b.skip(1));
        law_byte_order_is_total(a.skip(1), b.skip(1));
        lemma_lex_lt_same_prefix(head, a.skip(1), b.skip(1));
        lemma_lex_lt_same_prefix(head, b.skip(1), a.skip(1));
    }
}

/// Equal-length sequences keep their order when anything is appended.
pub proof fn lemma_lex_lt_extend(a: Seq<u8>, b: Seq<u8>, x: Seq<u8>, y: Seq<u8>)
    requires
        a.len() == b.len(),
        lex_lt(a, b),
    ensures
        lex_lt(a + x, b + y),
{
    let i = choose|i: int| differs_at(a, b, i);
    assert((a + x).take(i) =~= a.take(i));
    assert((b + y).take(i) =~= b.take(i));
    assert(differs_at(a + x, b + y, i));
}

/// A common prefix does not change the order of what follows it.
pub proof fn lemma_lex_lt_same_prefix(p: Seq<u8>, x: Seq<u8>, y: Seq<u8>)
    ensures
        lex_lt(p + x, p + y) <==> lex_lt(x, y),
{
    if lex_lt(x, y) {
        let i = choose|i: int| differs_at(x, y, i);
        assert((p + x).take(p.len() + i) =~= p + x.take(i));
        assert((p + y).take(p.len() + i) =~= p + y.take(i));
        assert(differs_at(p + x, p + y, p.len() + i));
    }
    if lex_lt(p + x, p + y) {
        let j = choose|j: int| differs_at(p + x, p + y, j);
        if j < p.len() {
            assert((p + x)[j] == p[j]);
            assert((p + y)[j] == p[j]);
        } else {
            let i = j - p.len();
            assert forall|k: int| 0 <= k < i implies x[k] == y[k] by {
                assert((p + x).take(j)[p.len() + k] == (p + y).take(j)[p.len() + k]);
            }
            assert(x.take(i) =~= y.take(i));
            if i < x.len() {
                assert((p + x)[j] == x[i]);
            }
            assert((p + y)[j] == y[i]);
            assert(differs_at(x, y, i));
        }
    }
}

/// Big-endian encoding preserves order: a smaller number has the
/// lexicographically smaller key.
pub proof fn law_u32_order(a: u32, b: u32)
    requires
        a < b,
    ensures
        lex_lt(a.bytes(), b.bytes()),
{
    lemma_digits_sum(a as int);
    lemma_digits_sum(b as int);
    let x = u32_be(a);
    let y = u32_be(b);
    let i: int = if x[0] != y[0] {
        0
    } else if x[1] != y[1] {
        1
    } else if x[2] != y[2] {
        2
    } else {
        3
    };
    assert(x.take(i) =~= y.take(i));
    assert(differs_at(x, y, i));
}

/// Among the keys of numbers, an order of the keys is the order of the
/// numbers.
pub proof fn law_u32_order_from_keys(a: u32, b: u32)
    requires
        lex_lt(a.bytes(), b.bytes()),
    ensures
        a < b,
{
    if a > b {
        law_u32_order(b, a);
        lemma_lex_lt_asymmetric(a.bytes(), b.bytes());
    } else if a == b {
        lemma_lex_lt_irreflexive(a.bytes());
    }
}

/// `a` comes strictly before `b` in the lexicographic order of their
/// characters.
pub open spec fn chars_lt(a: Seq<char>, b: Seq<char>) -> bool {
    exists|i: int|
        0 <= i <= a.len() && i < b.len() && #[trigger] a.take(i) == b.take(i) && (i < a.len()
            ==> (a[i] as u32) < (b[i] as u32))
}

/// Strings of ASCII characters are ordered by their keys as they are by
/// their characters.
pub proof fn law_ascii_string_order(a: String, b: String)
    requires
        is_ascii_chars(a@),
        is_ascii_chars(b@),
        chars_lt(a@, b@),
    ensures
        lex_lt(a.bytes(), b.bytes()),
{
    is_ascii_chars_encode_utf8(a@);
    is_ascii_chars_encode_utf8(b@);
    let i = choose|i: int|
        0 <= i <= a@.len() && i < b@.len() && #[trigger] a@.take(i) == b@.take(i) && (i < a@.len()
            ==> (a@[i] as u32) < (b@[i] as u32));
    let x = a.bytes();
    let y = b.bytes();
    assert forall|n: int| 0 <= n < i implies x[n] == y[n] by {
        assert(a@.take(i)[n] == b@.take(i)[n]);
        assert(a@[n] as u8 == x[n]);
        assert(b@[n] as u8 == y[n]);
    }
    assert(x.take(i) =~= y.take(i));
    if i < a@.len() {
        assert(a@[i] as u8 == x[i]);
        assert(b@[i] as u8 == y[i]);
    }
    assert(differs_at(x, y, i));
}

/// A pair of numbers is ordered first by its first component, then by its
/// second; the encoding preserves that order.
pub proof fn law_u32_pair_order(a: (u32, u32), b: (u32, u32))
    requires
        a.0 < b.0 || (a.0 == b.0 && a.1 < b.1),
    ensures
        lex_lt(a.bytes(), b.bytes()),
{
    if a.0 < b.0 {
        law_u32_order(a.0, b.0);
        lemma_lex_lt_extend(a.0.bytes(), b.0.bytes(), a.1.bytes(), b.1.bytes());
    } else {
        law_u32_order(a.1, b.1);
        lemma_lex_lt_same_prefix(a.0.bytes(), a.1.bytes(), b.1.bytes());
    }
}

/// A number followed by a string is ordered first by the number, then by
/// the bytes of the string; the encoding preserves that order.
pub proof fn law_u32_string_order(a: (u32, String), b: (u32, String))
    requires
        a.0 < b.0 || (a.0 == b.0 && lex_lt(a.1.bytes(), b.1.bytes())),
    ensures
        lex_lt(a.bytes(), b.bytes()),
{
    if a.0 < b.0 {
        law_u32_order(a.0, b.0);
        lemma_lex_lt_extend(a.0.bytes(), b.0.bytes(), a.1.bytes(), b.1.bytes());
    } else {
        lemma_lex_lt_same_prefix(a.0.bytes(), a.1.bytes(), b.1.bytes());
    }
}

/// A string followed by a number is ordered first by the bytes of the
/// string, then by the number. The encoding preserves that order where
/// the strings are the same, and where they differ at a position that
/// both have; it does not where one string is the beginning of the
/// other.
pub proof fn law_string_u32_order(a: (String, u32), b: (String, u32), at: int)
    requires
        (a.0.bytes() == b.0.bytes() && a.1 < b.1) || (differs_at(a.0.bytes(), b.0.bytes(), at) && at
            < a.0.bytes().len()),
    ensures
        lex_lt(a.bytes(), b.bytes()),
{
    if a.0.bytes() == b.0.bytes() && a.1 < b.1 {
        law_u32_order(a.1, b.1);
        lemma_lex_lt_same_prefix(a.0.bytes(), a.1.bytes(), b.1.bytes());
    } else {
        assert(a.bytes().take(at) =~= a.0.bytes().take(at));
        assert(b.bytes().take(at) =~= b.0.bytes().take(at));
        assert(differs_at(a.bytes(), b.bytes(), at));
    }
}

/// The encoding of a pair starts with the encoding of its first component,
/// so the children of a parent are found under the parent's key.
pub proof fn law_pair_has_prefix<A: AsBytes, B: AsBytes>(first: A, second: B)
    ensures
        has_prefix(first.bytes() + second.bytes(), first.bytes()),
{
    assert((first.bytes() + second.bytes()).take(first.bytes().len() as int) =~= first.bytes());
}

/// Where the first component has a fixed width, the keys found under a
/// parent's encoding are exactly the pairs whose first component is that
/// parent.
pub proof fn law_u32_prefix_exact(parent: u32, first: u32, rest: Seq<u8>)
    ensures
        has_prefix(first.bytes() + rest, parent.bytes()) <==> first == parent,
{
    let k = first.bytes() + rest;
    assert(k.take(4) =~= first.bytes());
    if first.bytes() == parent.bytes() {
        lemma_digits_sum(first as int);
        lemma_digits_sum(parent as int);
        assert(u32_be(first)[0] == u32_be(parent)[0]);
        assert(u32_be(first)[1] == u32_be(parent)[1]);
        assert(u32_be(first)[2] == u32_be(parent)[2]);
        assert(u32_be(first)[3] == u32_be(parent)[3]);
    }
}

/// Where the first component is a string, which has no fixed width, the
/// keys found under a parent's encoding are exactly the pairs of that
/// parent among the pairs whose string is as long as the parent's.
pub proof fn law_string_prefix_exact(parent: String, first: String, rest: Seq<u8>)
    requires
        first.bytes().len() == parent.bytes().len(),
    ensures
        has_prefix(first.bytes() + rest, parent.bytes()) <==> first@ == parent@,
{
    let k = first.bytes() + rest;
    assert(k.take(first.bytes().len() as int) =~= first.bytes());
    if first.bytes() == parent.bytes() {
        law_string_key_is_injective(first, parent);
    }
}

/// Where the first component is a string, the keys found under a
/// parent's encoding include the pairs of every string that begins with
/// the parent's: a scan under `"ab"` finds the pairs of `"abc"` too.
pub proof fn law_string_prefix_reaches_longer(parent: String, first: String, rest: Seq<u8>)
    requires
        has_prefix(first.bytes(), parent.bytes()),
    ensures
        has_prefix(first.bytes() + rest, parent.bytes()),
{
    let k = first.bytes() + rest;
    let n = parent.bytes().len() as int;
    assert(k.take(n) =~= first.bytes().take(n));
}

/// No two numbers have the same key.
pub proof fn law_u32_key_is_injective(a: u32, b: u32)
    requires
        a.bytes() == b.bytes(),
    ensures
        a == b,
{
    lemma_u32_round_trip(a);
    lemma_u32_round_trip(b);
}

/// No two strings have the same key.
pub proof fn law_string_key_is_injective(a: String, b: String)
    requires
        a.bytes() == b.bytes(),
    ensures
        a@ == b@,
{
    encode_utf8_decode_utf8(a@);
    encode_utf8_decode_utf8(b@);
}

/// No two pairs of numbers have the same key.
pub proof fn law_u32_pair_key_is_injective(a: (u32, u32), b: (u32, u32))
    requires
        a.bytes() == b.bytes(),
    ensures
        a == b,
{
    lemma_u32_round_trip(a.0);
    lemma_u32_round_trip(b.0);
    lemma_u32_round_trip(a.1);
    lemma_u32_round_trip(b.1);
    assert(a.bytes().take(4) =~= a.0.bytes());
    assert(b.bytes().take(4) =~= b.0.bytes());
    assert(a.bytes().skip(4) =~= a.1.bytes());
    assert(b.bytes().skip(4) =~= b.1.bytes());
}

/// No two pairs of a number and a string have the same key.
pub proof fn law_u32_string_key_is_injective(a: (u32, String), b: (u32, String))
    requires
        a.bytes() == b.bytes(),
    ensures
        a.0 == b.0,
        a.1@ == b.1@,
{
    lemma_u32_round_trip(a.0);
    lemma_u32_round_trip(b.0);
    assert(a.bytes().take(4) =~= a.0.bytes());
    assert(b.bytes().take(4) =~= b.0.bytes());
    assert(a.bytes().skip(4) =~= a.1.bytes());
    assert(b.bytes().skip(4) =~= b.1.bytes());
    encode_utf8_decode_utf8(a.1@);
    encode_utf8_decode_utf8(b.1@);
}

/// No two pairs of a string and a number have the same key.
pub proof fn law_string_u32_key_is_injective(a: (String, u32), b: (String, u32))
    requires
        a.bytes() == b.bytes(),
    ensures
        a.0@ == b.0@,
        a.1 == b.1,
{
    lemma_u32_round_trip(a.1);
    lemma_u32_round_trip(b.1);
    let n = a.bytes().len() - 4;
    assert(a.bytes().take(n) =~= a.0.bytes());
    assert(b.bytes().take(n) =~= b.0.bytes());
    assert(a.bytes().skip(n) =~= a.1.bytes());
    assert(b.bytes().skip(n) =~= b.1.bytes());
    encode_utf8_decode_utf8(a.0@);
    encode_utf8_decode_utf8(b.0@);
}

} // verus!
