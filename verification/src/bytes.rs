//! Byte strings: lexicographic order, prefixes, and fixed-width integer encodings.
use vstd::bytes::{spec_u32_to_le_bytes, spec_u64_from_le_bytes, spec_u64_to_le_bytes};
use vstd::prelude::*;

verus! {

/// Strict lexicographic order on byte strings, as `<` on Rust slices: the first
/// differing byte decides, and a proper prefix sorts first.
pub open spec fn lex_lt(a: Seq<u8>, b: Seq<u8>) -> bool
    decreases a.len(),
{
    if a.len() == 0 {
        b.len() > 0
    } else if b.len() == 0 {
        false
    } else if a[0] != b[0] {
        a[0] < b[0]
    } else {
        lex_lt(a.drop_first(), b.drop_first())
    }
}

pub proof fn lemma_lex_irreflexive(a: Seq<u8>)
    ensures
        !lex_lt(a, a),
    decreases a.len(),
{
    if a.len() > 0 {
        lemma_lex_irreflexive(a.drop_first());
    }
}

pub proof fn lemma_lex_transitive(a: Seq<u8>, b: Seq<u8>, c: Seq<u8>)
    requires
        lex_lt(a, b),
        lex_lt(b, c),
    ensures
        lex_lt(a, c),
    decreases a.len(),
{
    if a.len() > 0 && b.len() > 0 && c.len() > 0 && a[0] == b[0] && b[0] == c[0] {
        lemma_lex_transitive(a.drop_first(), b.drop_first(), c.drop_first());
    }
}

pub proof fn lemma_lex_total(a: Seq<u8>, b: Seq<u8>)
    ensures
        a == b || lex_lt(a, b) || lex_lt(b, a),
    decreases a.len(),
{
    if a.len() == 0 && b.len() == 0 {
        assert(a =~= b);
    } else if a.len() > 0 && b.len() > 0 && a[0] == b[0] {
        lemma_lex_total(a.drop_first(), b.drop_first());
        if a.drop_first() == b.drop_first() {
            assert(a.drop_first().len() == b.drop_first().len());
            assert(a.len() == b.len());
            assert forall|i: int| 0 <= i < a.len() implies a[i] == b[i] by {
                if i > 0 {
                    assert(a[i] == a.drop_first()[i - 1]);
                    assert(b[i] == b.drop_first()[i - 1]);
                }
            }
            assert(a =~= b);
        }
    }
}

pub proof fn lemma_lex_asymmetric(a: Seq<u8>, b: Seq<u8>)
    requires
        lex_lt(a, b),
    ensures
        !lex_lt(b, a),
{
    if lex_lt(b, a) {
        lemma_lex_transitive(a, b, a);
        lemma_lex_irreflexive(a);
    }
}

proof fn lemma_lex_step(a: Seq<u8>, b: Seq<u8>, i: int)
    requires
        0 <= i < a.len(),
        0 <= i < b.len(),
    ensures
        lex_lt(a.skip(i), b.skip(i)) == (if a[i] != b[i] {
            a[i] < b[i]
        } else {
            lex_lt(a.skip(i + 1), b.skip(i + 1))
        }),
{
    assert(a.skip(i).drop_first() =~= a.skip(i + 1));
    assert(b.skip(i).drop_first() =~= b.skip(i + 1));
}

/// The outcome of comparing two byte strings.
#[derive(Clone, Copy, Debug, PartialEq, Eq)]
pub enum ByteOrder {
    Less,
    Equal,
    Greater,
}

/// Lexicographic three-way comparison of two byte strings.
pub fn compare_bytes(a: &[u8], b: &[u8]) -> (r: ByteOrder)
    ensures
        (r == ByteOrder::Less) == lex_lt(a@, b@),
        (r == ByteOrder::Equal) == (a@ == b@),
        (r == ByteOrder::Greater) == lex_lt(b@, a@),
{
    let mut i: usize = 0;
    assert(a@.skip(0) =~= a@);
    assert(b@.skip(0) =~= b@);
    while i < a.len() && i < b.len()
        invariant
            i <= a.len(),
            i <= b.len(),
            a@.take(i as int) =~= b@.take(i as int),
            lex_lt(a@, b@) == lex_lt(a@.skip(i as int), b@.skip(i as int)),
            lex_lt(b@, a@) == lex_lt(b@.skip(i as int), a@.skip(i as int)),
        decreases a.len() - i,
    {
        proof {
            lemma_lex_step(a@, b@, i as int);
            lemma_lex_step(b@, a@, i as int);
        }
        if a[i] < b[i] {
            proof {
                lemma_lex_asymmetric(a@, b@);
            }
            return ByteOrder::Less;
        } else if a[i] > b[i] {
            proof {
                lemma_lex_asymmetric(b@, a@);
            }
            return ByteOrder::Greater;
        }
        assert(a@.take(i + 1) =~= a@.take(i as int).push(a[i as int]));
        assert(b@.take(i + 1) =~= b@.take(i as int).push(b[i as int]));
        i = i + 1;
    }
    assert(a@ =~= a@.take(i as int) + a@.skip(i as int));
    assert(b@ =~= b@.take(i as int) + b@.skip(i as int));
    if a.len() == b.len() {
        assert(a@.skip(i as int) =~= b@.skip(i as int));
        proof {
            lemma_lex_irreflexive(a@);
        }
        ByteOrder::Equal
    } else if i == a.len() {
        ByteOrder::Less
    } else {
        ByteOrder::Greater
    }
}

/// Exact equality of two byte strings.
pub fn bytes_equal(a: &[u8], b: &[u8]) -> (r: bool)
    ensures
        r == (a@ == b@),
{
    match compare_bytes(a, b) {
        ByteOrder::Equal => true,
        _ => false,
    }
}

/// `key` begins with `prefix`.
pub open spec fn has_prefix(key: Seq<u8>, prefix: Seq<u8>) -> bool {
    prefix.len() <= key.len() && key.take(prefix.len() as int) == prefix
}

pub fn starts_with(key: &[u8], prefix: &[u8]) -> (r: bool)
    ensures
        r == has_prefix(key@, prefix@),
{
    if prefix.len() > key.len() {
        return false;
    }
    let mut i: usize = 0;
    while i < prefix.len()
        invariant
            i <= prefix.len() <= key.len(),
            key@.take(i as int) =~= prefix@.take(i as int),
        decreases prefix.len() - i,
    {
        if key[i] != prefix[i] {
            assert(key@.take(prefix.len() as int)[i as int] != prefix@[i as int]);
            return false;
        }
        assert(key@.take(i + 1) =~= key@.take(i as int).push(key[i as int]));
        assert(prefix@.take(i + 1) =~= prefix@.take(i as int).push(prefix[i as int]));
        i = i + 1;
    }
    assert(prefix@.take(i as int) =~= prefix@);
    true
}

/// An owned copy of a byte string.
pub fn copy_bytes(s: &[u8]) -> (out: Vec<u8>)
    ensures
        out@ == s@,
{
    let mut out: Vec<u8> = Vec::with_capacity(s.len());
    let mut i: usize = 0;
    while i < s.len()
        invariant
            i <= s.len(),
            out@ =~= s@.take(i as int),
        decreases s.len() - i,
    {
        out.push(s[i]);
        assert(s@.take(i + 1) =~= s@.take(i as int).push(s[i as int]));
        i = i + 1;
    }
    assert(s@.take(i as int) =~= s@);
    out
}

/// Append `s` to `out`.
pub fn append_bytes(out: &mut Vec<u8>, s: &[u8])
    ensures
        final(out)@ == old(out)@ + s@,
{
    let ghost start = out@;
    let mut i: usize = 0;
    while i < s.len()
        invariant
            i <= s.len(),
            out@ =~= start + s@.take(i as int),
        decreases s.len() - i,
    {
        out.push(s[i]);
        assert(s@.take(i + 1) =~= s@.take(i as int).push(s[i as int]));
        i = i + 1;
    }
    assert(s@.take(i as int) =~= s@);
}

/// Little-endian bytes of a 64-bit integer.
pub open spec fn le64(x: u64) -> Seq<u8> {
    spec_u64_to_le_bytes(x)
}

/// Little-endian bytes of a 32-bit integer.
pub open spec fn le32(x: u32) -> Seq<u8> {
    spec_u32_to_le_bytes(x)
}

/// Big-endian bytes of a 64-bit integer: the little-endian bytes reversed.
pub open spec fn be64(x: u64) -> Seq<u8> {
    spec_u64_to_le_bytes(x).reverse()
}

/// The integer whose big-endian bytes are `s` (eight bytes).
pub open spec fn from_be64(s: Seq<u8>) -> u64 {
    spec_u64_from_le_bytes(s.reverse())
}

pub proof fn lemma_le64(x: u64)
    ensures
        le64(x).len() == 8,
        spec_u64_from_le_bytes(le64(x)) == x,
{
    vstd::bytes::lemma_auto_spec_u64_to_from_le_bytes();
}

pub proof fn lemma_le64_injective(x: u64, y: u64)
    requires
        le64(x) == le64(y),
    ensures
        x == y,
{
    lemma_le64(x);
    lemma_le64(y);
}

pub proof fn lemma_be64(x: u64)
    ensures
        be64(x).len() == 8,
        from_be64(be64(x)) == x,
{
    lemma_le64(x);
    assert(be64(x).reverse() =~= le64(x));
}

pub proof fn lemma_le32(x: u32)
    ensures
        le32(x).len() == 4,
        vstd::bytes::spec_u32_from_le_bytes(le32(x)) == x,
{
    vstd::bytes::lemma_auto_spec_u32_to_from_le_bytes();
    assert(spec_u32_to_le_bytes(x).len() == 4);
}

/// Append the little-endian bytes of `x`.
pub fn push_le64(out: &mut Vec<u8>, x: u64)
    ensures
        final(out)@ == old(out)@ + le64(x),
{
    let b = vstd::bytes::u64_to_le_bytes(x);
    append_bytes(out, b.as_slice());
}

/// Append the little-endian bytes of `x`.
pub fn push_le32(out: &mut Vec<u8>, x: u32)
    ensures
        final(out)@ == old(out)@ + le32(x),
{
    let b = vstd::bytes::u32_to_le_bytes(x);
    append_bytes(out, b.as_slice());
}

/// Append the big-endian bytes of `x`.
pub fn push_be64(out: &mut Vec<u8>, x: u64)
    ensures
        final(out)@ == old(out)@ + be64(x),
{
    let b = vstd::bytes::u64_to_le_bytes(x);
    proof {
        lemma_le64(x);
    }
    let ghost start = out@;
    let mut i: usize = 8;
    while i > 0
        invariant
            i <= 8,
            b@ == le64(x),
            b@.len() == 8,
            out@ =~= start + le64(x).reverse().take(8 - i),
        decreases i,
    {
        i = i - 1;
        out.push(b[i]);
        assert(le64(x).reverse().take(8 - i) =~= le64(x).reverse().take(8 - i - 1).push(
            le64(x)[i as int],
        ));
    }
    assert(le64(x).reverse().take(8) =~= le64(x).reverse());
}

/// Decode eight little-endian bytes starting at `at`.
pub fn read_le64(s: &[u8], at: usize) -> (x: u64)
    requires
        at + 8 <= s@.len(),
    ensures
        x == spec_u64_from_le_bytes(s@.subrange(at as int, at + 8)),
{
    let mut b: Vec<u8> = Vec::with_capacity(8);
    let mut i: usize = 0;
    while i < 8
        invariant
            i <= 8,
            at + 8 <= s.len(),
            b@ =~= s@.subrange(at as int, at + i),
        decreases 8 - i,
    {
        b.push(s[at + i]);
        i = i + 1;
    }
    vstd::bytes::u64_from_le_bytes(b.as_slice())
}

/// Decode eight big-endian bytes starting at `at`.
pub fn read_be64(s: &[u8], at: usize) -> (x: u64)
    requires
        at + 8 <= s@.len(),
    ensures
        x == from_be64(s@.subrange(at as int, at + 8)),
{
    let mut b: Vec<u8> = Vec::with_capacity(8);
    let mut i: usize = 8;
    while i > 0
        invariant
            i <= 8,
            at + 8 <= s.len(),
            b@ =~= s@.subrange(at as int, at + 8).reverse().take(8 - i),
        decreases i,
    {
        i = i - 1;
        b.push(s[at + i]);
    }
    assert(s@.subrange(at as int, at + 8).reverse().take(8) =~= s@.subrange(
        at as int,
        at + 8,
    ).reverse());
    vstd::bytes::u64_from_le_bytes(b.as_slice())
}

/// Decode four little-endian bytes starting at `at`.
pub fn read_le32(s: &[u8], at: usize) -> (x: u32)
    requires
        at + 4 <= s@.len(),
    ensures
        x == vstd::bytes::spec_u32_from_le_bytes(s@.subrange(at as int, at + 4)),
{
    let mut b: Vec<u8> = Vec::with_capacity(4);
    let mut i: usize = 0;
    while i < 4
        invariant
            i <= 4,
            at + 4 <= s.len(),
            b@ =~= s@.subrange(at as int, at + i),
        decreases 4 - i,
    {
        b.push(s[at + i]);
        i = i + 1;
    }
    vstd::bytes::u32_from_le_bytes(b.as_slice())
}

/// Copy `N` bytes starting at `at` into an array.
pub fn read_array32(s: &[u8], at: usize) -> (out: [u8; 32])
    requires
        at + 32 <= s@.len(),
    ensures
        out@ == s@.subrange(at as int, at + 32),
{
    let mut out = [0u8; 32];
    let mut i: usize = 0;
    while i < 32
        invariant
            i <= 32,
            at + 32 <= s.len(),
            forall|j: int| 0 <= j < i ==> out@[j] == s@[at + j],
        decreases 32 - i,
    {
        out[i] = s[at + i];
        i = i + 1;
    }
    assert(out@ =~= s@.subrange(at as int, at + 32));
    out
}

} // verus!
