//! Migration keys and the restartable transfer cursor: a namespace staged for
//! transfer, or fenced after one, takes no new writes.
use crate::bytes::{append_bytes, bytes_equal, le64, lemma_le64, push_le64, read_le64};
use crate::storage::application::Error;
use crate::storage::database::{Transaction, lookup};
use crate::storage::table::Table;
use vstd::bytes::spec_u64_from_le_bytes;
use vstd::prelude::*;

verus! {

pub type Particle = [u8; 32];

/// One tag byte followed by a 32-byte identity.
pub open spec fn tagged_key(tag: u8, id: Particle) -> Seq<u8> {
    seq![tag] + id@
}

/// The migration key that marks `id` as staged for transfer.
pub open spec fn stage_key_bytes(id: Particle) -> Seq<u8> {
    tagged_key(0x73, id)
}

/// The migration key of a transfer's cursor.
pub open spec fn cursor_key_bytes(id: Particle) -> Seq<u8> {
    tagged_key(0x74, id)
}

/// The migration key of a transfer's pinned target.
pub open spec fn target_key_bytes(id: Particle) -> Seq<u8> {
    tagged_key(0x75, id)
}

/// The migration key that fences a namespace after it moved.
pub open spec fn fence_key_bytes(id: Particle) -> Seq<u8> {
    tagged_key(0x66, id)
}

fn make_tagged_key(tag: u8, id: &Particle) -> (k: Vec<u8>)
    ensures
        k@ == tagged_key(tag, *id),
        k@.len() == 33,
{
    let mut k: Vec<u8> = Vec::new();
    k.push(tag);
    append_bytes(&mut k, id);
    assert(k@ =~= tagged_key(tag, *id));
    k
}

pub fn transfer_stage_key(id: &Particle) -> (k: Vec<u8>)
    ensures
        k@ == stage_key_bytes(*id),
        k@.len() == 33,
{
    make_tagged_key(0x73, id)
}

pub fn cursor_key(id: &Particle) -> (k: Vec<u8>)
    ensures
        k@ == cursor_key_bytes(*id),
        k@.len() == 33,
{
    make_tagged_key(0x74, id)
}

pub fn target_key(id: &Particle) -> (k: Vec<u8>)
    ensures
        k@ == target_key_bytes(*id),
        k@.len() == 33,
{
    make_tagged_key(0x75, id)
}

pub fn fence_key(id: &Particle) -> (k: Vec<u8>)
    ensures
        k@ == fence_key_bytes(*id),
        k@.len() == 33,
{
    make_tagged_key(0x66, id)
}

/// The number of application tables a transfer copies, in order.
pub const TRANSFER_TABLES: u8 = 5;

/// Where a transfer stands: the table it copies (5 once complete), the last key
/// copied in it, and the rows and bytes copied so far.
#[derive(Clone, Debug)]
pub struct Cursor {
    pub table: u8,
    pub after: Option<Vec<u8>>,
    pub rows: u64,
    pub bytes: u64,
}

/// The key bytes a cursor records after.
pub open spec fn cursor_after(c: Cursor) -> Seq<u8> {
    match c.after {
        Some(a) => a@,
        None => Seq::empty(),
    }
}

/// A cursor's bytes: table, length of the last key, rows, bytes, the last key.
pub open spec fn cursor_bytes(c: Cursor) -> Seq<u8> {
    seq![c.table, cursor_after(c).len() as u8] + le64(c.rows) + le64(c.bytes) + cursor_after(c)
}

/// Bytes of a well-formed cursor record.
pub open spec fn cursor_well_formed(b: Seq<u8>) -> bool {
    b.len() >= 18 && b[0] <= 5 && b[1] <= 64 && b.len() == 18 + b[1]
}

/// `c` is the cursor that `b` holds.
pub open spec fn cursor_decodes(b: Seq<u8>, c: Cursor) -> bool {
    &&& cursor_well_formed(b)
    &&& c.table == b[0]
    &&& (b[1] == 0 <==> c.after is None)
    &&& cursor_after(c) == b.subrange(18, b.len() as int)
    &&& c.rows == spec_u64_from_le_bytes(b.subrange(2, 10))
    &&& c.bytes == spec_u64_from_le_bytes(b.subrange(10, 18))
}

impl Cursor {
    pub fn encode(&self) -> (b: Vec<u8>)
        ensures
            b@ == cursor_bytes(*self),
    {
        let len: u8 = match &self.after {
            Some(a) => a.len() as u8,
            None => 0,
        };
        let mut b: Vec<u8> = Vec::new();
        b.push(self.table);
        b.push(len);
        push_le64(&mut b, self.rows);
        push_le64(&mut b, self.bytes);
        match &self.after {
            Some(a) => append_bytes(&mut b, a.as_slice()),
            None => {},
        }
        assert(b@ =~= cursor_bytes(*self));
        b
    }

    pub fn decode(b: &[u8]) -> (r: Result<Cursor, Error>)
        ensures
            cursor_well_formed(b@) ==> (r matches Ok(c) && cursor_decodes(b@, c)),
            !cursor_well_formed(b@) ==> r matches Err(Error::Corrupt),
    {
        if b.len() < 18 || b[0] > 5 || b[1] > 64 || b.len() != 18 + b[1] as usize {
            return Err(Error::Corrupt);
        }
        let after = if b[1] == 0 {
            None
        } else {
            let mut a: Vec<u8> = Vec::new();
            let mut i: usize = 18;
            while i < b.len()
                invariant
                    18 <= i <= b@.len(),
                    a@ =~= b@.subrange(18, i as int),
                decreases b@.len() - i,
            {
                a.push(b[i]);
                i = i + 1;
            }
            Some(a)
        };
        let rows = read_le64(b, 2);
        let bytes = read_le64(b, 10);
        let c = Cursor { table: b[0], after, rows, bytes };
        assert(cursor_after(c) =~= b@.subrange(18, b@.len() as int));
        Ok(c)
    }
}

/// A cursor that its record gives back: a table up to 5, and a last key of
/// one to 64 bytes when there is one.
pub open spec fn cursor_encodable(c: Cursor) -> bool {
    &&& c.table <= 5
    &&& match c.after {
        Some(a) => 1 <= a@.len() <= 64,
        None => true,
    }
}

/// Decoding a cursor's record gives the cursor back, field by field.
pub proof fn law_cursor_roundtrip(c: Cursor, d: Cursor)
    requires
        cursor_encodable(c),
        cursor_decodes(cursor_bytes(c), d),
    ensures
        d.table == c.table,
        d.rows == c.rows,
        d.bytes == c.bytes,
        cursor_after(d) == cursor_after(c),
        d.after is None <==> c.after is None,
{
    lemma_le64(c.rows);
    lemma_le64(c.bytes);
    let b = cursor_bytes(c);
    assert(b.subrange(2, 10) =~= le64(c.rows));
    assert(b.subrange(10, 18) =~= le64(c.bytes));
    assert(b.subrange(18, b.len() as int) =~= cursor_after(c));
}

/// Records of well-formed cursors always decode.
pub proof fn lemma_cursor_bytes_well_formed(c: Cursor)
    requires
        cursor_encodable(c),
    ensures
        cursor_well_formed(cursor_bytes(c)),
{
    lemma_le64(c.rows);
    lemma_le64(c.bytes);
}

/// An encodable cursor is the one its own record holds.
pub proof fn lemma_cursor_decodes_own(c: Cursor)
    requires
        cursor_encodable(c),
    ensures
        cursor_decodes(cursor_bytes(c), c),
{
    lemma_le64(c.rows);
    lemma_le64(c.bytes);
    let b = cursor_bytes(c);
    assert(b.subrange(2, 10) =~= le64(c.rows));
    assert(b.subrange(10, 18) =~= le64(c.bytes));
    assert(b.subrange(18, b.len() as int) =~= cursor_after(c));
}

/// A decoded cursor can be recorded again.
pub proof fn lemma_decoded_encodable(b: Seq<u8>, c: Cursor)
    requires
        cursor_decodes(b, c),
    ensures
        cursor_encodable(c),
{
}

/// Whether a namespace staged as a transfer source may be activated at `target`:
/// if it is staged, its transfer must be complete and pinned to `target`.
pub open spec fn completion(
    c: Map<Seq<u8>, Seq<u8>>,
    s: Map<Seq<u8>, Option<Seq<u8>>>,
    origin: Particle,
    target: Particle,
) -> Result<(), Error> {
    match lookup(c, s, Table::Migration, stage_key_bytes(origin), 32) {
        Err(e) => Err(crate::storage::application::app_error(e)),
        Ok(None) => Ok(()),
        Ok(Some(m)) => if m.len() != 32 {
            Err(Error::Corrupt)
        } else {
            match lookup(c, s, Table::Migration, seq![0x74u8] + m, 82) {
                Err(e) => Err(crate::storage::application::app_error(e)),
                Ok(None) => Err(Error::Corrupt),
                Ok(Some(cb)) => if !cursor_well_formed(cb) {
                    Err(Error::Corrupt)
                } else if cb[0] != 5 {
                    Err(Error::Fenced)
                } else {
                    match lookup(c, s, Table::Migration, seq![0x75u8] + m, 32) {
                        Err(e) => Err(crate::storage::application::app_error(e)),
                        Ok(v) => if v != Some(target@) {
                            Err(Error::Conflict)
                        } else {
                            Ok(())
                        },
                    }
                }
            }
        },
    }
}

/// Require that a staged transfer of `origin` completed into `target`.
pub fn require_complete(tx: &Transaction<'_>, origin: &Particle, target: &Particle) -> (r: Result<(), Error>)
    ensures
        r == completion(tx.committed(), tx.staged(), *origin, *target),
{
    let staged = match tx.get(Table::Migration, transfer_stage_key(origin).as_slice(), 32) {
        Ok(v) => v,
        Err(e) => {
            return Err(crate::storage::application::from_storage(e));
        },
    };
    let manifest = match staged {
        None => {
            return Ok(());
        },
        Some(m) => m,
    };
    if manifest.len() != 32 {
        return Err(Error::Corrupt);
    }
    let id = crate::bytes::read_array32(manifest.as_slice(), 0);
    assert(id@ =~= manifest@);
    let cursor = match tx.get(Table::Migration, cursor_key(&id).as_slice(), 82) {
        Ok(Some(c)) => c,
        Ok(None) => {
            return Err(Error::Corrupt);
        },
        Err(e) => {
            return Err(crate::storage::application::from_storage(e));
        },
    };
    let decoded = Cursor::decode(cursor.as_slice())?;
    if decoded.table != 5 {
        return Err(Error::Fenced);
    }
    let pinned = match tx.get(Table::Migration, target_key(&id).as_slice(), 32) {
        Ok(v) => v,
        Err(e) => {
            return Err(crate::storage::application::from_storage(e));
        },
    };
    let matches = match &pinned {
        Some(v) => bytes_equal(v.as_slice(), target),
        None => false,
    };
    if !matches {
        return Err(Error::Conflict);
    }
    Ok(())
}

} // verus!
