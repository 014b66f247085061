//! Bounded, resumable content storage under the shared owner: uploads are
//! staged part by part with a checksum each, verified by a host verifier, and
//! sealed into a file descriptor; an upload can be cancelled and reclaimed.
use crate::bytes::{
    append_bytes, be64, bytes_equal, copy_bytes, le32, le64, lemma_be64, lemma_le32, lemma_le64,
    push_be64, push_le32, push_le64, read_array32, read_le32, read_le64,
};
use crate::hash::{hemera_digest, hemera_hash};
use crate::storage::access::{StorageError, StorageResult};
use crate::storage::database::{
    MARKER_RESERVE, MAX_TRANSACTION_BYTES, MAX_TRANSACTION_KEYS, Transaction, lookup, same_error,
};
use crate::storage::table::{Table, address};
use vstd::bytes::{spec_u32_from_le_bytes, spec_u64_from_le_bytes};
use vstd::prelude::*;
use vstd::string::StringSliceAdditionalSpecFns;

pub mod store;
pub mod read;
pub mod verify;

verus! {

pub type Particle = [u8; 32];

/// A single part/read budget; a file may contain any number of parts.
pub const MAX_PART_BYTES: usize = 1_048_576;

pub const MAX_PAGE_ENTRIES: usize = 4096;

pub const PROGRESS_BYTES: usize = 93;

pub const FILE_BYTES: usize = 108;

#[derive(Debug, PartialEq, Eq)]
pub enum Error {
    Storage(StorageError),
    Conflict,
    Missing,
    Incomplete,
    IdentityMismatch,
    ProfileMismatch,
    Cancelled,
    InvalidRange,
}

pub type Result<T> = core::result::Result<T, Error>;

/// Two content errors are the same, with storage messages compared by characters.
pub open spec fn same_content_error(a: Error, b: Error) -> bool {
    match (a, b) {
        (Error::Storage(x), Error::Storage(y)) => same_error(x, y),
        (Error::Storage(_), _) => false,
        _ => a == b,
    }
}

#[derive(Debug, Clone, Copy, PartialEq, Eq)]
pub struct Spec {
    pub particle: Particle,
    pub profile: Particle,
    pub length: u64,
    pub part_bytes: u32,
}

/// A part size between one byte and `MAX_PART_BYTES`.
pub open spec fn spec_valid(s: Spec) -> bool {
    0 < s.part_bytes <= MAX_PART_BYTES
}

/// Number of parts: the length divided by the part size, rounded up.
pub open spec fn spec_parts(s: Spec) -> nat {
    if s.part_bytes == 0 {
        0
    } else {
        ((s.length as nat) / (s.part_bytes as nat) + if (s.length as nat) % (s.part_bytes as nat) != 0 {
            1nat
        } else {
            0nat
        }) as nat
    }
}

/// The length of part `index`: a full part, or the remainder for the last one.
pub open spec fn spec_part_len(s: Spec, index: nat) -> nat {
    let rest = s.length - index * s.part_bytes;
    if rest < s.part_bytes {
        rest as nat
    } else {
        s.part_bytes as nat
    }
}

impl Spec {
    pub fn validate(self) -> (r: Result<()>)
        ensures
            spec_valid(self) ==> r is Ok,
            !spec_valid(self) ==> r == Err::<(), Error>(Error::Storage(StorageError::Limit("content part budget"))),
    {
        if self.part_bytes == 0 || self.part_bytes as usize > MAX_PART_BYTES {
            return Err(Error::Storage(StorageError::Limit("content part budget")));
        }
        Ok(())
    }

    pub fn parts(self) -> (n: u64)
        ensures
            n == spec_parts(self),
    {
        let size = self.part_bytes as u64;
        if size == 0 {
            return 0;
        }
        let extra: u64 = if self.length % size != 0 {
            1
        } else {
            0
        };
        proof {
            assert(self.length / size <= self.length) by (nonlinear_arith)
                requires
                    size >= 1,
            ;
            if self.length % size != 0 {
                assert(self.length / size < self.length) by (nonlinear_arith)
                    requires
                        size >= 1,
                        self.length % size != 0,
                ;
            }
        }
        self.length / size + extra
    }

    /// The length of part `index`.
    pub fn part_len(self, index: u64) -> (r: Result<usize>)
        ensures
            !spec_valid(self) ==> r == Err::<usize, Error>(
                Error::Storage(StorageError::Limit("content part budget")),
            ),
            spec_valid(self) && index >= spec_parts(self) ==> r matches Err(Error::InvalidRange),
            spec_valid(self) && index < spec_parts(self) ==> (r matches Ok(n) && n == spec_part_len(
                self,
                index as nat,
            ) && n <= MAX_PART_BYTES),
    {
        self.validate()?;
        if index >= self.parts() {
            return Err(Error::InvalidRange);
        }
        let size = self.part_bytes as u64;
        proof {
            lemma_part_offset(self, index as nat);
        }
        let rest = self.length - index * size;
        if rest < size {
            Ok(rest as usize)
        } else {
            Ok(size as usize)
        }
    }
}

/// A part below the part count starts inside the content.
proof fn lemma_part_offset(s: Spec, index: nat)
    requires
        spec_valid(s),
        index < spec_parts(s),
    ensures
        index * s.part_bytes < s.length,
{
    let p = s.part_bytes as nat;
    let l = s.length as nat;
    let q = l / p;
    let r = l % p;
    assert(l == q * p + r) by (nonlinear_arith)
        requires
            p > 0,
            q == l / p,
            r == l % p,
    ;
    if r == 0 {
        assert(index < q);
        assert(index * p < q * p) by (nonlinear_arith)
            requires
                index < q,
                p > 0,
        ;
    } else {
        assert(index <= q);
        assert(index * p <= q * p) by (nonlinear_arith)
            requires
                index <= q,
                p > 0,
        ;
    }
}

#[derive(Debug, Clone, Copy, PartialEq, Eq)]
pub struct Upload {
    pub namespace: Particle,
    pub request: Particle,
}

#[derive(Debug, Clone, Copy, PartialEq, Eq)]
pub enum State {
    Staging,
    Sealed,
    Cancelled,
}

#[derive(Debug, Clone, Copy, PartialEq, Eq)]
pub struct Progress {
    pub spec: Spec,
    pub present_parts: u64,
    pub state: State,
    pub reclaimed_through: u64,
}

#[derive(Debug, Clone, Copy, PartialEq, Eq)]
pub struct FileInfo {
    pub spec: Spec,
    pub upload: Upload,
}

#[derive(Debug, PartialEq, Eq)]
pub struct Coverage {
    /// Durable arrivals, not independently authenticated ranges.
    pub present: Vec<(u64, bool)>,
    pub next: Option<u64>,
}

// ----- encodings -----

pub open spec fn spec_bytes_of(s: Spec) -> Seq<u8> {
    s.particle@ + s.profile@ + le64(s.length) + le32(s.part_bytes)
}

/// `s` is what `b` encodes.
pub open spec fn spec_decodes(b: Seq<u8>, s: Spec) -> bool {
    &&& b.len() == 76
    &&& s.particle@ == b.subrange(0, 32)
    &&& s.profile@ == b.subrange(32, 64)
    &&& s.length == spec_u64_from_le_bytes(b.subrange(64, 72))
    &&& s.part_bytes == spec_u32_from_le_bytes(b.subrange(72, 76))
}

pub open spec fn same_spec(a: Spec, b: Spec) -> bool {
    a.particle@ == b.particle@ && a.profile@ == b.profile@ && a.length == b.length && a.part_bytes
        == b.part_bytes
}

pub open spec fn state_byte(s: State) -> u8 {
    match s {
        State::Staging => 0,
        State::Sealed => 1,
        State::Cancelled => 2,
    }
}

pub open spec fn progress_bytes(p: Progress) -> Seq<u8> {
    spec_bytes_of(p.spec) + le64(p.present_parts) + seq![state_byte(p.state)] + le64(p.reclaimed_through)
}

/// The coverage rules of a progress record.
pub open spec fn progress_consistent(p: Progress) -> bool {
    &&& p.present_parts <= spec_parts(p.spec)
    &&& p.reclaimed_through <= spec_parts(p.spec)
    &&& (p.state == State::Sealed ==> p.present_parts == spec_parts(p.spec))
    &&& (p.state != State::Cancelled ==> p.reclaimed_through == 0)
}

/// `p` is what `b` encodes, and its spec and coverage are valid.
pub open spec fn progress_decodes(b: Seq<u8>, p: Progress) -> bool {
    &&& b.len() == 93
    &&& spec_decodes(b.subrange(0, 76), p.spec)
    &&& spec_valid(p.spec)
    &&& p.present_parts == spec_u64_from_le_bytes(b.subrange(76, 84))
    &&& b[84] == state_byte(p.state)
    &&& p.reclaimed_through == spec_u64_from_le_bytes(b.subrange(85, 93))
    &&& progress_consistent(p)
}

pub open spec fn pair_key(a: Particle, b: Particle) -> Seq<u8> {
    a@ + b@
}

/// The key prefix of an upload's parts: a digest of its namespace and request.
pub open spec fn upload_digest(upload: Upload) -> Seq<u8> {
    hemera_digest("bbg/content-upload\0".spec_bytes() + upload.namespace@ + upload.request@)
}

pub open spec fn part_key(upload: Upload, index: u64) -> Seq<u8> {
    upload_digest(upload) + be64(index)
}

pub open spec fn retention_key(namespace: Particle, root: Particle, particle: Particle) -> Seq<u8> {
    hemera_digest("bbg/content-retention\0".spec_bytes() + namespace@ + root@) + particle@
}

pub open spec fn uploads_address(upload: Upload) -> Seq<u8> {
    address(Table::Uploads, pair_key(upload.namespace, upload.request))
}

pub open spec fn files_address(namespace: Particle, particle: Particle) -> Seq<u8> {
    address(Table::Files, pair_key(namespace, particle))
}

pub fn make_pair_key(a: &Particle, b: &Particle) -> (k: Vec<u8>)
    ensures
        k@ == pair_key(*a, *b),
        k@.len() == 64,
{
    let mut k: Vec<u8> = Vec::new();
    append_bytes(&mut k, a);
    append_bytes(&mut k, b);
    k
}

/// The digest that prefixes every part key of `upload`.
pub fn make_upload_digest(upload: Upload) -> (d: [u8; 32])
    ensures
        d@ == upload_digest(upload),
{
    let mut input = copy_bytes("bbg/content-upload\0".as_bytes());
    append_bytes(&mut input, &upload.namespace);
    append_bytes(&mut input, &upload.request);
    hemera_hash(input.as_slice())
}

pub fn make_part_key(upload: Upload, index: u64) -> (k: Vec<u8>)
    ensures
        k@ == part_key(upload, index),
        k@.len() == 40,
{
    let digest = make_upload_digest(upload);
    let mut k: Vec<u8> = Vec::new();
    append_bytes(&mut k, &digest);
    push_be64(&mut k, index);
    proof {
        lemma_be64(index);
    }
    k
}

pub fn make_retention_key(namespace: &Particle, root: &Particle, particle: &Particle) -> (k: Vec<u8>)
    ensures
        k@ == retention_key(*namespace, *root, *particle),
        k@.len() == 64,
{
    let mut input = copy_bytes("bbg/content-retention\0".as_bytes());
    append_bytes(&mut input, namespace);
    append_bytes(&mut input, root);
    let digest = hemera_hash(input.as_slice());
    let mut k: Vec<u8> = Vec::new();
    append_bytes(&mut k, &digest);
    append_bytes(&mut k, particle);
    k
}

pub fn encode_spec(spec: Spec) -> (b: Vec<u8>)
    ensures
        b@ == spec_bytes_of(spec),
        b@.len() == 76,
        spec_decodes(b@, spec),
{
    let mut b: Vec<u8> = Vec::new();
    append_bytes(&mut b, &spec.particle);
    append_bytes(&mut b, &spec.profile);
    push_le64(&mut b, spec.length);
    push_le32(&mut b, spec.part_bytes);
    proof {
        lemma_le64(spec.length);
        lemma_le32(spec.part_bytes);
        assert(b@.subrange(0, 32) =~= spec.particle@);
        assert(b@.subrange(32, 64) =~= spec.profile@);
        assert(b@.subrange(64, 72) =~= le64(spec.length));
        assert(b@.subrange(72, 76) =~= le32(spec.part_bytes));
    }
    b
}

/// Decode and validate a 76-byte spec found at `at` within `bytes`.
pub fn decode_spec(bytes: &[u8], at: usize) -> (r: Result<Spec>)
    requires
        at + 76 <= bytes@.len(),
    ensures
        match r {
            Ok(s) => spec_decodes(bytes@.subrange(at as int, at + 76), s) && spec_valid(s),
            Err(e) => e == Error::Storage(StorageError::Corrupt("content part size")) && exists|s: Spec|
                spec_decodes(bytes@.subrange(at as int, at + 76), s) && !spec_valid(s),
        },
{
    let n = bytes.len();
    assert(at + 76 <= n);
    let particle = read_array32(bytes, at);
    let profile = read_array32(bytes, at + 32);
    let length = read_le64(bytes, at + 64);
    let part_bytes = read_le32(bytes, at + 72);
    let spec = Spec { particle, profile, length, part_bytes };
    let ghost b = bytes@.subrange(at as int, at + 76);
    assert(b.subrange(0, 32) =~= bytes@.subrange(at as int, at + 32));
    assert(b.subrange(32, 64) =~= bytes@.subrange(at + 32, at + 64));
    assert(b.subrange(64, 72) =~= bytes@.subrange(at + 64, at + 72));
    assert(b.subrange(72, 76) =~= bytes@.subrange(at + 72, at + 76));
    assert(spec_decodes(b, spec));
    if part_bytes == 0 || part_bytes as usize > MAX_PART_BYTES {
        assert(!spec_valid(spec));
        assert(exists|s: Spec| spec_decodes(b, s) && !spec_valid(s));
        return Err(Error::Storage(StorageError::Corrupt("content part size")));
    }
    Ok(spec)
}

pub fn encode_progress(p: Progress) -> (b: Vec<u8>)
    ensures
        b@ == progress_bytes(p),
        b@.len() == 93,
{
    let mut b = encode_spec(p.spec);
    push_le64(&mut b, p.present_parts);
    b.push(match p.state {
        State::Staging => 0u8,
        State::Sealed => 1u8,
        State::Cancelled => 2u8,
    });
    push_le64(&mut b, p.reclaimed_through);
    proof {
        lemma_le64(p.present_parts);
        lemma_le64(p.reclaimed_through);
    }
    b
}

/// A valid, consistent progress record reads back as itself.
pub proof fn lemma_progress_own(p: Progress)
    requires
        spec_valid(p.spec),
        progress_consistent(p),
    ensures
        progress_decodes(progress_bytes(p), p),
        progress_bytes(p).len() == 93,
{
    broadcast use vstd::array::group_array_axioms;

    lemma_le64(p.spec.length);
    lemma_le32(p.spec.part_bytes);
    lemma_le64(p.present_parts);
    lemma_le64(p.reclaimed_through);
    let b = progress_bytes(p);
    let sb = spec_bytes_of(p.spec);
    assert(b.subrange(0, 76) =~= sb);
    assert(sb.subrange(0, 32) =~= p.spec.particle@);
    assert(sb.subrange(32, 64) =~= p.spec.profile@);
    assert(sb.subrange(64, 72) =~= le64(p.spec.length));
    assert(sb.subrange(72, 76) =~= le32(p.spec.part_bytes));
    assert(b.subrange(76, 84) =~= le64(p.present_parts));
    assert(b.subrange(85, 93) =~= le64(p.reclaimed_through));
}

/// Some progress record is what `b` encodes.
pub open spec fn progress_valid(b: Seq<u8>) -> bool {
    exists|p: Progress| progress_decodes(b, p)
}

/// The progress record that `b` encodes, where there is one.
pub open spec fn stored_progress(b: Seq<u8>) -> Progress {
    choose|p: Progress| progress_decodes(b, p)
}

/// The part size that a record `b` carries.
pub open spec fn encoded_part_bytes(b: Seq<u8>) -> u32 {
    spec_u32_from_le_bytes(b.subrange(72, 76))
}

/// Why `b` is no progress record: its length, its part size, its state byte,
/// or else its coverage rules.
pub open spec fn progress_error(b: Seq<u8>) -> Error {
    if b.len() != 93 {
        Error::Storage(StorageError::Corrupt("upload record length"))
    } else if !(0 < encoded_part_bytes(b) <= MAX_PART_BYTES) {
        Error::Storage(StorageError::Corrupt("content part size"))
    } else if b[84] > 2 {
        Error::Storage(StorageError::Corrupt("upload state"))
    } else {
        Error::Storage(StorageError::Corrupt("upload coverage"))
    }
}

/// A record decodes from given bytes in one way only.
pub proof fn lemma_progress_unique(b: Seq<u8>, p: Progress, q: Progress)
    requires
        progress_decodes(b, p),
        progress_decodes(b, q),
    ensures
        p == q,
{
    assert(p.spec.particle =~= q.spec.particle);
    assert(p.spec.profile =~= q.spec.profile);
    assert(p.state == q.state) by {
        match p.state {
            State::Staging => {},
            State::Sealed => {},
            State::Cancelled => {},
        }
        match q.state {
            State::Staging => {},
            State::Sealed => {},
            State::Cancelled => {},
        }
    }
}

pub fn decode_progress(bytes: &[u8]) -> (r: Result<Progress>)
    ensures
        progress_valid(bytes@) ==> (r matches Ok(p) && progress_decodes(bytes@, p)),
        !progress_valid(bytes@) ==> r == Err::<Progress, Error>(progress_error(bytes@)),
{
    if bytes.len() != PROGRESS_BYTES {
        return Err(Error::Storage(StorageError::Corrupt("upload record length")));
    }
    let ghost b = bytes@;
    assert(b.subrange(0, 76).subrange(72, 76) =~= b.subrange(72, 76));
    let spec = match decode_spec(bytes, 0) {
        Ok(s) => s,
        Err(e) => {
            proof {
                let s = choose|s: Spec| spec_decodes(b.subrange(0, 76), s) && !spec_valid(s);
                assert(s.part_bytes == encoded_part_bytes(b));
            }
            return Err(e);
        },
    };
    assert(spec.part_bytes == encoded_part_bytes(b));
    let present_parts = read_le64(bytes, 76);
    let state = if bytes[84] == 0 {
        State::Staging
    } else if bytes[84] == 1 {
        State::Sealed
    } else if bytes[84] == 2 {
        State::Cancelled
    } else {
        return Err(Error::Storage(StorageError::Corrupt("upload state")));
    };
    let reclaimed_through = read_le64(bytes, 85);
    let parts = spec.parts();
    let p = Progress { spec, present_parts, state, reclaimed_through };
    let sealed = match state {
        State::Sealed => true,
        _ => false,
    };
    let cancelled = match state {
        State::Cancelled => true,
        _ => false,
    };
    if present_parts > parts || reclaimed_through > parts || (sealed && present_parts != parts) || (
    !cancelled && reclaimed_through != 0) {
        proof {
            assert forall|q: Progress| !progress_decodes(b, q) by {
                if progress_decodes(b, q) {
                    assert(q.spec.part_bytes == spec.part_bytes);
                    assert(q.spec.length == spec.length);
                    assert(spec_parts(q.spec) == spec_parts(spec));
                    assert(q.state == state);
                }
            }
        }
        return Err(Error::Storage(StorageError::Corrupt("upload coverage")));
    }
    assert(progress_decodes(b, p));
    Ok(p)
}

pub open spec fn file_bytes(info: FileInfo) -> Seq<u8> {
    info.upload.request@ + spec_bytes_of(info.spec)
}

pub fn encode_file(info: FileInfo) -> (b: Vec<u8>)
    ensures
        b@ == file_bytes(info),
        b@.len() == 108,
{
    let mut b: Vec<u8> = Vec::new();
    append_bytes(&mut b, &info.upload.request);
    let s = encode_spec(info.spec);
    append_bytes(&mut b, s.as_slice());
    b
}

// ----- reads inside a transaction -----

/// What the upload record of `upload` holds, as `progress` reports it.
pub open spec fn progress_read(
    committed: Map<Seq<u8>, Seq<u8>>,
    staged: Map<Seq<u8>, Option<Seq<u8>>>,
    upload: Upload,
    r: Result<Option<Progress>>,
) -> bool {
    match lookup(committed, staged, Table::Uploads, pair_key(upload.namespace, upload.request), 93) {
        Err(e) => r matches Err(x) && x == Error::Storage(e),
        Ok(None) => r matches Ok(None),
        Ok(Some(b)) => if progress_valid(b) {
            r matches Ok(Some(p)) && progress_decodes(b, p)
        } else {
            r == Err::<Option<Progress>, Error>(progress_error(b))
        },
    }
}

pub fn progress(tx: &Transaction<'_>, upload: Upload) -> (r: Result<Option<Progress>>)
    ensures
        progress_read(tx.committed(), tx.staged(), upload, r),
{
    let key = make_pair_key(&upload.namespace, &upload.request);
    let bytes = match tx.get(Table::Uploads, key.as_slice(), PROGRESS_BYTES) {
        Ok(b) => b,
        Err(e) => {
            return Err(Error::Storage(e));
        },
    };
    match bytes {
        Some(b) => Ok(Some(decode_progress(b.as_slice())?)),
        None => Ok(None),
    }
}

pub fn put_progress(tx: &mut Transaction<'_>, upload: Upload, value: Progress) -> (r: Result<()>)
    requires
        old(tx).wf(),
    ensures
        final(tx).wf(),
        final(tx).committed() == old(tx).committed(),
        final(tx).committed_entries() == old(tx).committed_entries(),
        r is Ok ==> final(tx).staged() == old(tx).staged().insert(uploads_address(upload), Some(progress_bytes(value))),
        r is Err ==> final(tx).staged() == old(tx).staged(),
        old(tx).staged().dom().len() < MAX_TRANSACTION_KEYS - 2 && old(tx).staged_bytes() + 64 + 93
            <= MAX_TRANSACTION_BYTES - MARKER_RESERVE ==> r is Ok,
        r is Ok ==> final(tx).staged_bytes() <= old(tx).staged_bytes() + 64 + 93,
        final(tx).staged().dom().len() <= old(tx).staged().dom().len() + 1,
        final(tx).staged().dom().finite(),
{
    let key = make_pair_key(&upload.namespace, &upload.request);
    let bytes = encode_progress(value);
    match tx.put(Table::Uploads, key.as_slice(), bytes.as_slice()) {
        Ok(()) => Ok(()),
        Err(e) => Err(Error::Storage(e)),
    }
}

/// `info` is the descriptor that `b` encodes for `namespace` and `particle`.
pub open spec fn file_decodes(b: Seq<u8>, namespace: Particle, particle: Particle, info: FileInfo) -> bool {
    &&& b.len() == 108
    &&& info.upload.namespace == namespace
    &&& info.upload.request@ == b.subrange(0, 32)
    &&& spec_decodes(b.subrange(32, 108), info.spec)
    &&& spec_valid(info.spec)
    &&& info.spec.particle@ == particle@
}

/// Some descriptor is what `b` encodes for `namespace` and `particle`.
pub open spec fn file_valid(b: Seq<u8>, namespace: Particle, particle: Particle) -> bool {
    exists|info: FileInfo| file_decodes(b, namespace, particle, info)
}

/// The descriptor that `b` encodes, where there is one.
pub open spec fn stored_file(b: Seq<u8>, namespace: Particle, particle: Particle) -> FileInfo {
    choose|info: FileInfo| file_decodes(b, namespace, particle, info)
}

/// Why `b` is no descriptor: its length, its part size, or its particle.
pub open spec fn file_error(b: Seq<u8>) -> Error {
    if b.len() != 108 {
        Error::Storage(StorageError::Corrupt("file descriptor length"))
    } else if !(0 < spec_u32_from_le_bytes(b.subrange(104, 108)) <= MAX_PART_BYTES) {
        Error::Storage(StorageError::Corrupt("content part size"))
    } else {
        Error::Storage(StorageError::Corrupt("file descriptor particle"))
    }
}

/// A descriptor decodes from given bytes in one way only.
pub proof fn lemma_file_unique(b: Seq<u8>, namespace: Particle, particle: Particle, p: FileInfo, q: FileInfo)
    requires
        file_decodes(b, namespace, particle, p),
        file_decodes(b, namespace, particle, q),
    ensures
        p == q,
{
    assert(p.spec.particle =~= q.spec.particle);
    assert(p.spec.profile =~= q.spec.profile);
    assert(p.upload.request =~= q.upload.request);
}

/// What the file descriptor of `particle` holds, as `file` reports it.
pub open spec fn file_read(
    committed: Map<Seq<u8>, Seq<u8>>,
    staged: Map<Seq<u8>, Option<Seq<u8>>>,
    namespace: Particle,
    particle: Particle,
    r: Result<Option<FileInfo>>,
) -> bool {
    match lookup(committed, staged, Table::Files, pair_key(namespace, particle), 108) {
        Err(e) => r matches Err(x) && x == Error::Storage(e),
        Ok(None) => r matches Ok(None),
        Ok(Some(b)) => if file_valid(b, namespace, particle) {
            r matches Ok(Some(info)) && file_decodes(b, namespace, particle, info)
        } else {
            r == Err::<Option<FileInfo>, Error>(file_error(b))
        },
    }
}

pub fn file(tx: &Transaction<'_>, namespace: Particle, particle: Particle) -> (r: Result<Option<FileInfo>>)
    ensures
        file_read(tx.committed(), tx.staged(), namespace, particle, r),
{
    let key = make_pair_key(&namespace, &particle);
    let bytes = match tx.get(Table::Files, key.as_slice(), FILE_BYTES) {
        Ok(b) => b,
        Err(e) => {
            return Err(Error::Storage(e));
        },
    };
    match bytes {
        None => Ok(None),
        Some(b) => {
            if b.len() != FILE_BYTES {
                return Err(Error::Storage(StorageError::Corrupt("file descriptor length")));
            }
            assert(b@.subrange(32, 108).subrange(72, 76) =~= b@.subrange(104, 108));
            let spec = match decode_spec(b.as_slice(), 32) {
                Ok(s) => s,
                Err(e) => {
                    proof {
                        let s = choose|s: Spec| spec_decodes(b@.subrange(32, 108), s) && !spec_valid(s);
                        assert forall|info: FileInfo| !file_decodes(b@, namespace, particle, info) by {
                            if file_decodes(b@, namespace, particle, info) {
                                assert(s.part_bytes == info.spec.part_bytes);
                            }
                        }
                    }
                    return Err(e);
                },
            };
            if !bytes_equal(&spec.particle, &particle) {
                proof {
                    assert forall|info: FileInfo| !file_decodes(b@, namespace, particle, info) by {
                        if file_decodes(b@, namespace, particle, info) {
                            assert(info.spec.particle@ == spec.particle@);
                        }
                    }
                }
                return Err(Error::Storage(StorageError::Corrupt("file descriptor particle")));
            }
            let request = read_array32(b.as_slice(), 0);
            let info = FileInfo { spec, upload: Upload { namespace, request } };
            assert(file_decodes(b@, namespace, particle, info));
            Ok(Some(info))
        },
    }
}

} // verus!
