//! Fallible, bounded storage access and commit outcomes.
use crate::bytes::{le64, lemma_le64, push_le64, read_le64};
use crate::storage::dim;
use vstd::bytes::spec_u64_from_le_bytes;
use vstd::prelude::*;

verus! {

pub const MAX_VALUE_ELEMENTS: usize = 131_072;

pub const MAX_PENDING_ELEMENTS: usize = 2_097_152;

pub const MAX_PENDING_KEYS: usize = 65_536;

pub const MAX_SCAN_ENTRIES: usize = 4096;

/// The Goldilocks prime 2^64 - 2^32 + 1; a canonical field element is below it.
pub const FIELD_MODULUS: u64 = 0xffff_ffff_0000_0001;

/// A shard row: a 32-byte key and its field elements, each held canonically as a `u64`.
pub type ShardEntry = ([u8; 32], Vec<u64>);

pub type StorageResult<T> = Result<T, StorageError>;

#[derive(Debug, Clone, PartialEq, Eq)]
pub enum StorageError {
    InvalidDimension(u8),
    Limit(&'static str),
    Corrupt(&'static str),
    Io(String),
    Busy,
    PendingWrites,
    Unsupported(&'static str),
    CommitUnknown { change_id: [u8; 32], message: String },
}

#[derive(Debug, Clone, Copy, PartialEq, Eq)]
pub enum Durability {
    Memory,
    Disk,
}

#[derive(Debug, Clone, Copy)]
pub struct ScanLimits {
    pub max_entries: usize,
    pub max_elements: usize,
}

impl ScanLimits {
    /// A page holds between one and `MAX_SCAN_ENTRIES` rows and a readable element budget.
    pub open spec fn valid(self) -> bool {
        &&& 0 < self.max_entries <= MAX_SCAN_ENTRIES
        &&& self.max_elements <= MAX_VALUE_ELEMENTS
    }

    /// The failure that `validate` reports for invalid limits.
    pub open spec fn validate_spec(self) -> StorageError {
        if self.max_entries == 0 || self.max_entries > MAX_SCAN_ENTRIES {
            StorageError::Limit("scan entry count")
        } else {
            StorageError::Limit("read element count")
        }
    }

    pub fn validate(self) -> (r: StorageResult<()>)
        ensures
            r is Ok <==> self.valid(),
            !self.valid() ==> r == Err::<(), StorageError>(self.validate_spec()),
            self.max_entries == 0 || self.max_entries > MAX_SCAN_ENTRIES ==> r == Err::<
                (),
                StorageError,
            >(StorageError::Limit("scan entry count")),
            0 < self.max_entries <= MAX_SCAN_ENTRIES && self.max_elements > MAX_VALUE_ELEMENTS
                ==> r == Err::<(), StorageError>(StorageError::Limit("read element count")),
    {
        if self.max_entries == 0 || self.max_entries > MAX_SCAN_ENTRIES {
            return Err(StorageError::Limit("scan entry count"));
        }
        check_read_limit(self.max_elements)
    }
}

/// Dimensions are numbered `0..=dim::EPHEMERAL`.
pub fn check_dimension(dimension: u8) -> (r: StorageResult<()>)
    ensures
        dimension <= dim::EPHEMERAL ==> r is Ok,
        dimension > dim::EPHEMERAL ==> r == Err::<(), StorageError>(
            StorageError::InvalidDimension(dimension),
        ),
{
    if dimension > dim::EPHEMERAL {
        return Err(StorageError::InvalidDimension(dimension));
    }
    Ok(())
}

/// A read may allocate at most `MAX_VALUE_ELEMENTS` field elements.
pub fn check_read_limit(max_elements: usize) -> (r: StorageResult<()>)
    ensures
        max_elements <= MAX_VALUE_ELEMENTS ==> r is Ok,
        max_elements > MAX_VALUE_ELEMENTS ==> r == Err::<(), StorageError>(
            StorageError::Limit("read element count"),
        ),
{
    if max_elements > MAX_VALUE_ELEMENTS {
        return Err(StorageError::Limit("read element count"));
    }
    Ok(())
}

/// An owned copy of a stored value, refused when it exceeds the caller's budget.
pub fn copy_value(value: &[u64], max_elements: usize) -> (r: StorageResult<Vec<u64>>)
    ensures
        max_elements > MAX_VALUE_ELEMENTS ==> r == Err::<Vec<u64>, StorageError>(
            StorageError::Limit("read element count"),
        ),
        max_elements <= MAX_VALUE_ELEMENTS && value@.len() > max_elements ==> r == Err::<
            Vec<u64>,
            StorageError,
        >(StorageError::Limit("value exceeds read budget")),
        max_elements <= MAX_VALUE_ELEMENTS && value@.len() <= max_elements ==> (r matches Ok(v)
            && v@ == value@),
{
    check_read_limit(max_elements)?;
    if value.len() > max_elements {
        return Err(StorageError::Limit("value exceeds read budget"));
    }
    let mut out: Vec<u64> = Vec::with_capacity(value.len());
    let mut i: usize = 0;
    while i < value.len()
        invariant
            i <= value.len(),
            out@ =~= value@.take(i as int),
        decreases value.len() - i,
    {
        out.push(value[i]);
        assert(value@.take(i + 1) =~= value@.take(i as int).push(value[i as int]));
        i = i + 1;
    }
    assert(value@.take(i as int) =~= value@);
    Ok(out)
}

/// A scanned row as produced, or the failure of producing it.
pub type ScanItem = StorageResult<ShardEntry>;

pub open spec fn entry_view(e: ShardEntry) -> (Seq<u8>, Seq<u64>) {
    (e.0@, e.1@)
}

pub open spec fn entries_view(s: Seq<ShardEntry>) -> Seq<(Seq<u8>, Seq<u64>)> {
    s.map_values(|e: ShardEntry| entry_view(e))
}

pub open spec fn item_view(e: ScanItem) -> Result<(Seq<u8>, Seq<u64>), StorageError> {
    match e {
        Ok(x) => Ok(entry_view(x)),
        Err(err) => Err(err),
    }
}

pub open spec fn items_view(s: Seq<ScanItem>) -> Seq<Result<(Seq<u8>, Seq<u64>), StorageError>> {
    s.map_values(|e: ScanItem| item_view(e))
}

/// The page that a bounded scan returns from `items`, in order: at most
/// `max_entries` rows, failing on the first failed row it reaches, stopping
/// before the first row that would exceed the remaining element budget, and
/// failing on a row larger than the whole budget.
pub open spec fn page_of(
    items: Seq<Result<(Seq<u8>, Seq<u64>), StorageError>>,
    max_entries: nat,
    max_elements: nat,
    used: nat,
) -> Result<Seq<(Seq<u8>, Seq<u64>)>, StorageError>
    decreases items.len(),
{
    if items.len() == 0 || max_entries == 0 {
        Ok(Seq::empty())
    } else {
        match items[0] {
            Err(e) => Err(e),
            Ok((key, value)) => if value.len() > max_elements {
                Err(StorageError::Limit("scan value exceeds page budget"))
            } else if value.len() > max_elements - used {
                Ok(Seq::empty())
            } else {
                match page_of(items.drop_first(), (max_entries - 1) as nat, max_elements, used + value.len()) {
                    Ok(rest) => Ok(seq![(key, value)] + rest),
                    Err(e) => Err(e),
                }
            },
        }
    }
}

pub open spec fn page_view(r: StorageResult<Vec<ShardEntry>>) -> Result<Seq<(Seq<u8>, Seq<u64>)>, StorageError> {
    match r {
        Ok(page) => Ok(entries_view(page@)),
        Err(e) => Err(e),
    }
}

/// Limit a page before retaining it: see [`page_of`].
pub fn collect_page(items: Vec<ScanItem>, limits: ScanLimits) -> (r: StorageResult<Vec<ShardEntry>>)
    ensures
        !limits.valid() ==> r == Err::<Vec<ShardEntry>, StorageError>(limits.validate_spec()),
        limits.valid() ==> page_view(r) == page_of(
            items_view(items@),
            limits.max_entries as nat,
            limits.max_elements as nat,
            0,
        ),
{
    limits.validate()?;
    let ghost all = items_view(items@);
    let mut page: Vec<ShardEntry> = Vec::new();
    let mut elements: usize = 0;
    let mut i: usize = 0;
    let n = items.len();
    let mut rest = items;
    assert(all.skip(0) =~= all);
    assert(items_view(rest@) =~= all);
    proof {
        match page_of(all, limits.max_entries as nat, limits.max_elements as nat, 0) {
            Ok(t) => {
                assert(entries_view(page@) + t =~= t);
            },
            Err(_) => {},
        }
    }
    while i < n && i < limits.max_entries
        invariant
            limits.valid(),
            all == items_view(items@),
            n == all.len(),
            i <= n,
            i <= limits.max_entries,
            page@.len() == i,
            elements <= limits.max_elements,
            rest@.len() == n - i,
            items_view(rest@) =~= all.skip(i as int),
            page_of(all, limits.max_entries as nat, limits.max_elements as nat, 0) == match page_of(
                all.skip(i as int),
                (limits.max_entries - i) as nat,
                limits.max_elements as nat,
                elements as nat,
            ) {
                Ok(tail) => Ok(entries_view(page@) + tail),
                Err(e) => Err(e),
            },
        decreases n - i,
    {
        let ghost rest_before = rest@;
        let item = rest.remove(0);
        assert(item_view(item) == items_view(rest_before)[0]);
        assert(all.skip(i as int)[0] == item_view(item));
        assert(all.skip(i as int).drop_first() =~= all.skip(i + 1));
        let ghost tail_page = page_of(
            all.skip(i as int),
            (limits.max_entries - i) as nat,
            limits.max_elements as nat,
            elements as nat,
        );
        let (key, value) = match item {
            Ok(entry) => entry,
            Err(e) => {
                assert(tail_page == Err::<Seq<(Seq<u8>, Seq<u64>)>, StorageError>(e));
                return Err(e);
            },
        };
        if value.len() > limits.max_elements {
            assert(tail_page == Err::<Seq<(Seq<u8>, Seq<u64>)>, StorageError>(
                StorageError::Limit("scan value exceeds page budget"),
            ));
            return Err(StorageError::Limit("scan value exceeds page budget"));
        }
        if value.len() > limits.max_elements - elements {
            assert(entries_view(page@) + Seq::empty() =~= entries_view(page@));
            return Ok(page);
        }
        assert(items_view(rest@) =~= all.skip(i + 1));
        elements = elements + value.len();
        let ghost before = entries_view(page@);
        let ghost x = entry_view((key, value));
        page.push((key, value));
        assert(entries_view(page@) =~= before.push(x));
        proof {
            let t = page_of(all.skip(i + 1), (limits.max_entries - i - 1) as nat, limits.max_elements as nat, elements as nat);
            match t {
                Ok(tail) => {
                    assert(before + (seq![x] + tail) =~= before.push(x) + tail);
                },
                Err(e) => {},
            }
        }
        i = i + 1;
    }
    proof {
        if i == n {
            assert(all.skip(i as int).len() == 0);
        }
        assert(entries_view(page@) + Seq::empty() =~= entries_view(page@));
    }
    Ok(page)
}

/// The little-endian encoding of field elements, eight bytes each.
pub open spec fn field_bytes(values: Seq<u64>) -> Seq<u8>
    decreases values.len(),
{
    if values.len() == 0 {
        Seq::empty()
    } else {
        field_bytes(values.drop_last()) + le64(values.last())
    }
}

pub proof fn lemma_field_bytes_len(values: Seq<u64>)
    ensures
        field_bytes(values).len() == 8 * values.len(),
    decreases values.len(),
{
    if values.len() > 0 {
        lemma_field_bytes_len(values.drop_last());
        lemma_le64(values.last());
    }
}

/// Serialize field elements to little-endian bytes.
pub fn serialize_field(values: &[u64]) -> (out: Vec<u8>)
    ensures
        out@ == field_bytes(values@),
{
    let mut out: Vec<u8> = Vec::new();
    let mut i: usize = 0;
    while i < values.len()
        invariant
            i <= values.len(),
            out@ == field_bytes(values@.take(i as int)),
        decreases values.len() - i,
    {
        push_le64(&mut out, values[i]);
        assert(values@.take(i + 1).drop_last() =~= values@.take(i as int));
        i = i + 1;
    }
    assert(values@.take(i as int) =~= values@);
    out
}

/// The elements that `bytes` encodes, eight little-endian bytes each.
pub open spec fn field_values(bytes: Seq<u8>) -> Seq<u64> {
    Seq::new(bytes.len() / 8, |i: int| spec_u64_from_le_bytes(bytes.subrange(8 * i, 8 * i + 8)))
}

/// What decoding `bytes` as at most `max_elements` field elements yields.
pub open spec fn field_decode(bytes: Seq<u8>, max_elements: nat) -> Result<Seq<u64>, StorageError> {
    if max_elements > MAX_VALUE_ELEMENTS {
        Err(StorageError::Limit("read element count"))
    } else if bytes.len() % 8 != 0 {
        Err(StorageError::Corrupt("field encoding length"))
    } else if bytes.len() / 8 > max_elements {
        Err(StorageError::Limit("value exceeds read budget"))
    } else if exists|i: int| 0 <= i < bytes.len() / 8 && #[trigger] field_values(bytes)[i] >= FIELD_MODULUS {
        Err(StorageError::Corrupt("noncanonical field element"))
    } else {
        Ok(field_values(bytes))
    }
}

pub open spec fn values_view(r: StorageResult<Vec<u64>>) -> Result<Seq<u64>, StorageError> {
    match r {
        Ok(v) => Ok(v@),
        Err(e) => Err(e),
    }
}

/// Deserialize little-endian field elements within a read budget, refusing a
/// ragged length and any non-canonical element.
pub fn deserialize_field(bytes: &[u8], max_elements: usize) -> (r: StorageResult<Vec<u64>>)
    ensures
        values_view(r) == field_decode(bytes@, max_elements as nat),
{
    check_read_limit(max_elements)?;
    if bytes.len() % 8 != 0 {
        return Err(StorageError::Corrupt("field encoding length"));
    }
    if bytes.len() / 8 > max_elements {
        return Err(StorageError::Limit("value exceeds read budget"));
    }
    let n = bytes.len() / 8;
    assert(8 * n == bytes.len()) by (nonlinear_arith)
        requires
            n == bytes.len() / 8,
            bytes.len() % 8 == 0,
    ;
    let ghost expected = field_values(bytes@);
    let mut out: Vec<u64> = Vec::with_capacity(n);
    let mut i: usize = 0;
    while i < n
        invariant
            n == bytes@.len() / 8,
            8 * n == bytes.len(),
            bytes@.len() % 8 == 0,
            max_elements <= MAX_VALUE_ELEMENTS,
            n <= max_elements,
            i <= n,
            expected == field_values(bytes@),
            out@ =~= expected.take(i as int),
            forall|j: int| 0 <= j < i ==> expected[j] < FIELD_MODULUS,
        decreases n - i,
    {
        let value = read_le64(bytes, 8 * i);
        assert(value == expected[i as int]);
        if value >= FIELD_MODULUS {
            return Err(StorageError::Corrupt("noncanonical field element"));
        }
        out.push(value);
        assert(expected.take(i + 1) =~= expected.take(i as int).push(expected[i as int]));
        i = i + 1;
    }
    assert(expected.take(i as int) =~= expected);
    Ok(out)
}

pub proof fn lemma_field_roundtrip(values: Seq<u64>)
    ensures
        field_values(field_bytes(values)) == values,
    decreases values.len(),
{
    lemma_field_bytes_len(values);
    if values.len() > 0 {
        let d = values.drop_last();
        lemma_field_roundtrip(d);
        lemma_field_bytes_len(d);
        lemma_le64(values.last());
        let b = field_bytes(values);
        assert forall|i: int| 0 <= i < values.len() implies #[trigger] field_values(b)[i] == values[i] by {
            if i < d.len() {
                assert(b.subrange(8 * i, 8 * i + 8) =~= field_bytes(d).subrange(8 * i, 8 * i + 8));
                assert(field_values(field_bytes(d))[i] == d[i]);
            } else {
                assert(b.subrange(8 * i, 8 * i + 8) =~= le64(values.last()));
            }
        }
        assert(field_values(b) =~= values);
    } else {
        assert(field_values(field_bytes(values)) =~= values);
    }
}

} // verus!
