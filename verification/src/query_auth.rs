//! Locating an entity in a disclosed public dimension table. A table is flat:
//! a header of three fields (layout version, field count, entry count), then,
//! per entry in ascending key order, the key as eight little-endian 32-bit
//! limbs and its value fields, every field a 32-bit cell.
use crate::bytes::{ByteOrder, bytes_equal, compare_bytes, le32, lex_lt, push_le32};
use crate::query::Dim;
use vstd::prelude::*;

verus! {

/// Fields before the first entry: layout version, field count, entry count.
pub const HEADER_FIELDS: usize = 3;

/// Fields of an entry's key: eight 32-bit limbs.
pub const KEY_FIELDS: usize = 8;

/// Every field is a 32-bit cell.
pub open spec fn all_u32(s: Seq<u64>) -> bool {
    forall|i: int| 0 <= i < s.len() ==> #[trigger] s[i] <= u32::MAX
}

/// The bytes whose little-endian 32-bit limbs are `limbs`.
pub open spec fn limbs_bytes(limbs: Seq<u64>) -> Seq<u8>
    decreases limbs.len(),
{
    if limbs.len() == 0 {
        Seq::empty()
    } else {
        le32(limbs[0] as u32) + limbs_bytes(limbs.drop_first())
    }
}

/// The key a dimension is ordered by: the key itself, but for the numeric
/// dimensions (`Time`, `Signals`), whose keys hold a height in their first
/// eight bytes, little-endian, and nothing after; those order by that height.
pub open spec fn sort_key(dim: Dim, bytes: Seq<u8>) -> Option<Seq<u8>> {
    if dim == Dim::Time || dim == Dim::Signals {
        if exists|i: int| 8 <= i < 32 && #[trigger] bytes[i] != 0 {
            None
        } else {
            Some(bytes.take(8).reverse() + Seq::new(24, |i: int| 0u8))
        }
    } else {
        Some(bytes)
    }
}

/// The number of value fields of an entry of `dim` whose values start at
/// `start`: fixed per dimension, but for the axon lists, which hold their
/// length in their first two cells and eight cells per particle after them.
pub open spec fn value_width(f: Seq<u64>, dim: Dim, start: int) -> Option<int> {
    match dim {
        Dim::Particles => Some(12),
        Dim::Neurons => Some(6),
        Dim::Locations => Some(4),
        Dim::Coins => Some(2),
        Dim::Cards => Some(16),
        Dim::Files => Some(4),
        Dim::Time => Some(8),
        Dim::Signals => Some(28),
        Dim::Balances => Some(2),
        Dim::AxonsOut | Dim::AxonsIn => if start + 1 < f.len() && f[start] <= u32::MAX && f[start + 1]
            <= u32::MAX && (f[start] + f[start + 1] * 0x1_0000_0000) * 8 + 2 <= usize::MAX {
            Some((f[start] + f[start + 1] * 0x1_0000_0000) * 8 + 2)
        } else {
            None
        },
    }
}

/// Where an entry's primary value cell lies past the start of its values: a
/// signal's follows the sixteen cells of its neuron and its network.
pub open spec fn primary_shift(dim: Dim) -> int {
    if dim == Dim::Signals {
        16
    } else {
        0
    }
}

/// Walk the `n` entries left from `offset`, after `previous` in key order,
/// having found `key`'s primary cell at `found`: the cell if every entry is well
/// formed, keys ascend, and the last entry ends the table; else `None`.
pub open spec fn entries_walk(
    f: Seq<u64>,
    dim: Dim,
    key: Seq<u8>,
    n: nat,
    offset: int,
    previous: Option<Seq<u8>>,
    found: Option<int>,
) -> Option<int>
    decreases n,
{
    if n == 0 {
        if offset == f.len() {
            found
        } else {
            None
        }
    } else if offset < 0 || offset + KEY_FIELDS > f.len() || !all_u32(f.subrange(offset, offset + KEY_FIELDS)) {
        None
    } else {
        let bytes = limbs_bytes(f.subrange(offset, offset + KEY_FIELDS));
        let start = offset + KEY_FIELDS;
        match sort_key(dim, bytes) {
            None => None,
            Some(sk) => if previous matches Some(p) && !lex_lt(p, sk) {
                None
            } else {
                match value_width(f, dim, start) {
                    None => None,
                    Some(w) => if start + w > f.len() || !all_u32(f.subrange(start, start + w)) {
                        None
                    } else {
                        entries_walk(
                            f,
                            dim,
                            key,
                            (n - 1) as nat,
                            start + w,
                            Some(sk),
                            if bytes == key {
                                Some(start + primary_shift(dim))
                            } else {
                                found
                            },
                        )
                    },
                }
            },
        }
    }
}

/// The index of `key`'s primary value cell in the flat table `f` of `dim`:
/// `None` unless the table holds exactly its declared number of well-formed
/// entries, in strictly ascending key order, and one of them has that key.
pub open spec fn primary_index_spec(f: Seq<u64>, dim: Dim, key: Seq<u8>) -> Option<int> {
    if f.len() < HEADER_FIELDS {
        None
    } else {
        entries_walk(f, dim, key, f[2] as nat, HEADER_FIELDS as int, None, None)
    }
}

/// The 32 bytes of the eight limbs at `offset`, or `None` if one is no 32-bit cell.
fn key_bytes(fields: &[u64], offset: usize) -> (r: Option<Vec<u8>>)
    requires
        offset + KEY_FIELDS <= fields@.len(),
    ensures
        all_u32(fields@.subrange(offset as int, offset + KEY_FIELDS)) ==> (r matches Some(b) && b@ == limbs_bytes(
            fields@.subrange(offset as int, offset + KEY_FIELDS),
        )),
        !all_u32(fields@.subrange(offset as int, offset + KEY_FIELDS)) ==> r is None,
        r matches Some(b) ==> b@.len() == 32,
{
    let ghost limbs = fields@.subrange(offset as int, offset + KEY_FIELDS);
    let len = fields.len();
    let mut out: Vec<u8> = Vec::new();
    let mut i: usize = 0;
    assert(limbs.skip(0) =~= limbs);
    assert(out@ + limbs_bytes(limbs) =~= limbs_bytes(limbs));
    while i < KEY_FIELDS
        invariant
            i <= KEY_FIELDS,
            len == fields@.len(),
            offset + KEY_FIELDS <= len,
            limbs == fields@.subrange(offset as int, offset + KEY_FIELDS),
            all_u32(limbs.take(i as int)),
            out@ + limbs_bytes(limbs.skip(i as int)) == limbs_bytes(limbs),
            out@.len() == 4 * i,
        decreases KEY_FIELDS - i,
    {
        let limb = fields[offset + i];
        if limb > 0xffff_ffff {
            assert(limbs[i as int] == limb);
            return None;
        }
        proof {
            crate::bytes::lemma_le32(limb as u32);
            assert(limbs.skip(i as int).drop_first() =~= limbs.skip(i + 1));
            assert(limbs.skip(i as int)[0] == limb);
            assert(limbs.take(i + 1) =~= limbs.take(i as int).push(limb));
        }
        push_le32(&mut out, limb as u32);
        i = i + 1;
    }
    proof {
        assert(limbs.take(KEY_FIELDS as int) =~= limbs);
        assert(limbs.skip(KEY_FIELDS as int) =~= Seq::<u64>::empty());
        assert(out@ + limbs_bytes(Seq::<u64>::empty()) =~= out@);
    }
    Some(out)
}

/// The key an entry of `dim` is ordered by; see [`sort_key`].
fn sort_key_of(dim: Dim, bytes: &Vec<u8>) -> (r: Option<Vec<u8>>)
    requires
        bytes@.len() == 32,
    ensures
        match sort_key(dim, bytes@) {
            None => r is None,
            Some(k) => r matches Some(x) && x@ == k,
        },
{
    if matches!(dim, Dim::Time | Dim::Signals) {
        let mut i: usize = 8;
        while i < 32
            invariant
                8 <= i <= 32,
                bytes@.len() == 32,
                dim == Dim::Time || dim == Dim::Signals,
                forall|j: int| 8 <= j < i ==> bytes@[j] == 0,
            decreases 32 - i,
        {
            if bytes[i] != 0 {
                assert(exists|j: int| 8 <= j < 32 && bytes@[j] != 0) by {
                    assert(bytes@[i as int] != 0);
                }
                return None;
            }
            i = i + 1;
        }
        let mut out: Vec<u8> = Vec::new();
        let mut k: usize = 8;
        while k > 0
            invariant
                k <= 8,
                bytes@.len() == 32,
                out@ =~= bytes@.take(8).reverse().take(8 - k),
            decreases k,
        {
            k = k - 1;
            out.push(bytes[k]);
        }
        while out.len() < 32
            invariant
                8 <= out@.len() <= 32,
                out@.take(8) =~= bytes@.take(8).reverse(),
                forall|j: int| 8 <= j < out@.len() ==> out@[j] == 0,
            decreases 32 - out@.len(),
        {
            out.push(0);
        }
        assert(out@ =~= bytes@.take(8).reverse() + Seq::new(24, |i: int| 0u8));
        Some(out)
    } else {
        let mut out: Vec<u8> = Vec::new();
        crate::bytes::append_bytes(&mut out, bytes.as_slice());
        Some(out)
    }
}

/// The number of value fields of the entry whose values start at `start`;
/// see [`value_width`].
fn width_at(fields: &[u64], dim: Dim, start: usize) -> (r: Option<usize>)
    ensures
        match value_width(fields@, dim, start as int) {
            None => r is None,
            Some(w) => r matches Some(x) && x == w,
        },
{
    match dim {
        Dim::Particles => Some(12),
        Dim::Neurons => Some(6),
        Dim::Locations => Some(4),
        Dim::Coins => Some(2),
        Dim::Cards => Some(16),
        Dim::Files => Some(4),
        Dim::Time => Some(8),
        Dim::Signals => Some(28),
        Dim::Balances => Some(2),
        Dim::AxonsOut | Dim::AxonsIn => {
            if start >= fields.len() || fields.len() - start < 2 {
                return None;
            }
            let low = fields[start];
            let high = fields[start + 1];
            if low > 0xffff_ffff || high > 0xffff_ffff {
                return None;
            }
            let n: u128 = low as u128 + (high as u128) * 0x1_0000_0000;
            let w: u128 = n * 8 + 2;
            if w > usize::MAX as u128 {
                return None;
            }
            Some(w as usize)
        },
    }
}

/// Whether every field in `start..end` is a 32-bit cell.
fn cells_fit(fields: &[u64], start: usize, end: usize) -> (r: bool)
    requires
        start <= end <= fields@.len(),
    ensures
        r == all_u32(fields@.subrange(start as int, end as int)),
{
    let mut i: usize = start;
    while i < end
        invariant
            start <= i <= end <= fields@.len(),
            all_u32(fields@.subrange(start as int, i as int)),
        decreases end - i,
    {
        if fields[i] > 0xffff_ffff {
            assert(fields@.subrange(start as int, end as int)[i - start] == fields@[i as int]);
            return false;
        }
        assert(fields@.subrange(start as int, i + 1) =~= fields@.subrange(start as int, i as int).push(fields@[i as int]));
        i = i + 1;
    }
    true
}

/// The index of `key`'s primary value cell in the disclosed table `fields` of
/// `dim`, if the table is exactly its declared entries, well formed and in
/// strictly ascending key order, and one of them has that key.
pub fn primary_index(fields: &[u64], dim: Dim, key: &[u8; 32]) -> (r: Option<usize>)
    ensures
        match primary_index_spec(fields@, dim, key@) {
            None => r is None,
            Some(i) => r matches Some(x) && x == i,
        },
{
    if fields.len() < HEADER_FIELDS {
        return None;
    }
    let entries: u64 = fields[2];
    let ghost f = fields@;
    let mut offset: usize = HEADER_FIELDS;
    let mut previous: Option<Vec<u8>> = None;
    let mut found: Option<usize> = None;
    let mut i: u64 = 0;
    while i < entries
        invariant
            f == fields@,
            f.len() >= HEADER_FIELDS,
            entries == f[2],
            i <= entries,
            offset <= f.len(),
            primary_index_spec(f, dim, key@) == entries_walk(
                f,
                dim,
                key@,
                (entries - i) as nat,
                offset as int,
                match previous {
                    Some(p) => Some(p@),
                    None => None,
                },
                match found {
                    Some(x) => Some(x as int),
                    None => None,
                },
            ),
            previous matches Some(p) ==> p@.len() == 32,
            found matches Some(x) ==> x <= f.len(),
        decreases entries - i,
    {
        if fields.len() - offset < KEY_FIELDS {
            return None;
        }
        let bytes = match key_bytes(fields, offset) {
            Some(b) => b,
            None => {
                return None;
            },
        };
        let sk = match sort_key_of(dim, &bytes) {
            Some(k) => k,
            None => {
                return None;
            },
        };
        match &previous {
            Some(p) => {
                match compare_bytes(p.as_slice(), sk.as_slice()) {
                    ByteOrder::Less => {},
                    _ => {
                        return None;
                    },
                }
            },
            None => {},
        }
        let start = offset + KEY_FIELDS;
        let width = match width_at(fields, dim, start) {
            Some(w) => w,
            None => {
                return None;
            },
        };
        if width > fields.len() - start {
            return None;
        }
        let end = start + width;
        if !cells_fit(fields, start, end) {
            return None;
        }
        if bytes_equal(bytes.as_slice(), key) {
            found = Some(if matches!(dim, Dim::Signals) { start + 16 } else { start });
        }
        previous = Some(sk);
        offset = end;
        i = i + 1;
    }
    if offset != fields.len() {
        return None;
    }
    found
}

} // verus!
