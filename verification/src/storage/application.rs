//! Application history and retry semantics over the shared owner: one head per
//! namespace, an append-only history, immutable content and claims, and a
//! receipt per request so that a retried write is answered, not re-applied.
use crate::bytes::{
    be64, bytes_equal, from_be64, le64, lemma_be64, lemma_le64, push_be64, push_le64, read_array32,
    read_be64, read_le64,
};
use crate::storage::access::{StorageError, StorageResult};
use crate::storage::database::{
    ByteLimits, Database, MAX_BYTES_VALUE, MAX_TRANSACTION_BYTES, MARKER_RESERVE,
    MAX_TRANSACTION_KEYS, Transaction, apply_changes, engine_scan, lookup, overlay, raw_view,
    same_error, stage_bytes, stage_result, staged_of, with_markers,
};
use crate::storage::table::{Table, address};
use vstd::bytes::spec_u64_from_le_bytes;
use vstd::prelude::*;
use vstd::string::StringSliceAdditionalSpecFns;

verus! {

pub type Particle = [u8; 32];

#[derive(Debug, Clone, Copy, PartialEq, Eq)]
pub struct Head {
    pub index: u64,
    pub commit: Particle,
}

#[derive(Debug, PartialEq, Eq)]
pub enum Error {
    Storage(StorageError),
    CommitUnknown(String),
    Conflict,
    HeadMismatch,
    InvalidSequence,
    Limit,
    Corrupt,
    Fenced,
}

/// How a storage failure is reported to applications.
pub open spec fn app_error(e: StorageError) -> Error {
    match e {
        StorageError::CommitUnknown { message, .. } => Error::CommitUnknown(message),
        StorageError::Limit(_) => Error::Limit,
        StorageError::Corrupt(_) => Error::Corrupt,
        other => Error::Storage(other),
    }
}

/// Two application errors are the same, with messages compared by their characters.
pub open spec fn same_app_error(a: Error, b: Error) -> bool {
    match (a, b) {
        (Error::Storage(x), Error::Storage(y)) => same_error(x, y),
        (Error::CommitUnknown(x), Error::CommitUnknown(y)) => x@ == y@,
        (Error::Storage(_), _) => false,
        (Error::CommitUnknown(_), _) => false,
        _ => a == b,
    }
}

pub fn from_storage(e: StorageError) -> (r: Error)
    ensures
        r == app_error(e),
{
    match e {
        StorageError::CommitUnknown { message, .. } => Error::CommitUnknown(message),
        StorageError::Limit(_) => Error::Limit,
        StorageError::Corrupt(_) => Error::Corrupt,
        other => Error::Storage(other),
    }
}

/// A request to append `head` to `namespace`, with everything that it needs.
#[derive(Debug)]
pub struct Write<'a> {
    pub namespace: Particle,
    pub request: Particle,
    /// Must bind all inputs to the application and optional shard transition.
    pub fingerprint: Particle,
    pub expected: Option<Head>,
    pub head: Head,
    pub content: &'a [(Particle, Vec<u8>)],
    pub claims: &'a [(Particle, Particle)],
}

pub open spec fn head_bytes(h: Head) -> Seq<u8> {
    le64(h.index) + h.commit@
}

/// `h` is what `bytes` decodes to.
pub open spec fn head_decodes(bytes: Seq<u8>, h: Head) -> bool {
    bytes.len() == 40 && h.index == spec_u64_from_le_bytes(bytes.take(8)) && h.commit@ == bytes.skip(8)
}

pub open spec fn request_key(namespace: Particle, request: Particle) -> Seq<u8> {
    namespace@ + request@
}

pub open spec fn history_key(namespace: Particle, index: u64) -> Seq<u8> {
    namespace@ + be64(index)
}

pub open spec fn heads_address(namespace: Particle) -> Seq<u8> {
    address(Table::Heads, namespace@)
}

pub open spec fn requests_address(namespace: Particle, request: Particle) -> Seq<u8> {
    address(Table::Requests, request_key(namespace, request))
}

pub open spec fn history_address(namespace: Particle, index: u64) -> Seq<u8> {
    address(Table::History, history_key(namespace, index))
}

pub open spec fn content_address(id: Particle) -> Seq<u8> {
    address(Table::Content, id@)
}

/// The receipt of a request: its fingerprint and the head that it produced.
pub open spec fn receipt_bytes(fingerprint: Particle, h: Head) -> Seq<u8> {
    fingerprint@ + head_bytes(h)
}

pub fn encode_head(head: Head) -> (bytes: Vec<u8>)
    ensures
        bytes@ == head_bytes(head),
        bytes@.len() == 40,
{
    let mut bytes: Vec<u8> = Vec::new();
    push_le64(&mut bytes, head.index);
    crate::bytes::append_bytes(&mut bytes, &head.commit);
    proof {
        lemma_le64(head.index);
    }
    bytes
}

pub fn decode_head(bytes: &[u8]) -> (r: Result<Head, Error>)
    ensures
        bytes@.len() != 40 ==> r matches Err(Error::Corrupt),
        bytes@.len() == 40 ==> (r matches Ok(h) && head_decodes(bytes@, h)),
{
    if bytes.len() != 40 {
        return Err(Error::Corrupt);
    }
    let index = read_le64(bytes, 0);
    let commit = read_array32(bytes, 8);
    assert(bytes@.subrange(0, 8) =~= bytes@.take(8));
    assert(bytes@.subrange(8, 40) =~= bytes@.skip(8));
    Ok(Head { index, commit })
}

pub proof fn lemma_head_roundtrip(h: Head)
    ensures
        head_decodes(head_bytes(h), h),
{
    lemma_le64(h.index);
    assert(head_bytes(h).take(8) =~= le64(h.index));
    assert(head_bytes(h).skip(8) =~= h.commit@);
}

/// A receipt decodes to its fingerprint and head.
pub fn decode_request(bytes: &[u8]) -> (r: Result<(Particle, Head), Error>)
    ensures
        bytes@.len() != 72 ==> r matches Err(Error::Corrupt),
        bytes@.len() == 72 ==> (r matches Ok((f, h)) && f@ == bytes@.take(32) && head_decodes(
            bytes@.skip(32),
            h,
        )),
{
    if bytes.len() != 72 {
        return Err(Error::Corrupt);
    }
    let fingerprint = read_array32(bytes, 0);
    let mut rest: Vec<u8> = Vec::new();
    let mut i: usize = 32;
    while i < 72
        invariant
            32 <= i <= 72,
            bytes@.len() == 72,
            rest@ =~= bytes@.subrange(32, i as int),
        decreases 72 - i,
    {
        rest.push(bytes[i]);
        i = i + 1;
    }
    assert(bytes@.subrange(0, 32) =~= bytes@.take(32));
    assert(rest@ =~= bytes@.skip(32));
    let head = decode_head(rest.as_slice())?;
    Ok((fingerprint, head))
}

pub fn make_request_key(namespace: &Particle, request: &Particle) -> (key: Vec<u8>)
    ensures
        key@ == request_key(*namespace, *request),
{
    let mut key: Vec<u8> = Vec::new();
    crate::bytes::append_bytes(&mut key, namespace);
    crate::bytes::append_bytes(&mut key, request);
    key
}

pub fn make_history_key(namespace: &Particle, index: u64) -> (key: Vec<u8>)
    ensures
        key@ == history_key(*namespace, index),
        key@.len() == 40,
{
    let mut key: Vec<u8> = Vec::new();
    crate::bytes::append_bytes(&mut key, namespace);
    push_be64(&mut key, index);
    proof {
        lemma_be64(index);
    }
    key
}

/// Content of a write by identity, in order.
pub open spec fn content_view(content: Seq<(Particle, Vec<u8>)>) -> Seq<(Seq<u8>, Seq<u8>)> {
    content.map_values(|e: (Particle, Vec<u8>)| (e.0@, e.1@))
}

/// Claims of a write, in order.
pub open spec fn claims_view(claims: Seq<(Particle, Particle)>) -> Seq<(Seq<u8>, Seq<u8>)> {
    claims.map_values(|e: (Particle, Particle)| (e.0@, e.1@))
}

/// Total bytes of a write's content.
pub open spec fn content_total(content: Seq<(Particle, Vec<u8>)>) -> int
    decreases content.len(),
{
    if content.len() == 0 {
        0
    } else {
        content_total(content.drop_last()) + content.last().1@.len()
    }
}

pub const MAX_WRITE_CONTENT: usize = 131_072;

pub const MAX_WRITE_CLAIMS: usize = 4096;

pub const MAX_WRITE_BYTES: usize = 16_777_216;

/// A write's size is bounded before any storage work.
pub open spec fn write_in_bounds(w: Write) -> bool {
    &&& w.content@.len() <= MAX_WRITE_CONTENT
    &&& w.claims@.len() <= MAX_WRITE_CLAIMS
    &&& content_total(w.content@) <= MAX_WRITE_BYTES
}

pub fn validate_write(write: &Write<'_>) -> (r: Result<(), Error>)
    ensures
        write_in_bounds(*write) ==> r is Ok,
        !write_in_bounds(*write) ==> r matches Err(Error::Limit),
{
    if write.content.len() > MAX_WRITE_CONTENT || write.claims.len() > MAX_WRITE_CLAIMS {
        return Err(Error::Limit);
    }
    let mut total: usize = 0;
    let mut i: usize = 0;
    while i < write.content.len()
        invariant
            i <= write.content@.len(),
            total == content_total(write.content@.take(i as int)),
            total <= MAX_WRITE_BYTES,
        decreases write.content@.len() - i,
    {
        assert(write.content@.take(i + 1).drop_last() =~= write.content@.take(i as int));
        let n = write.content[i].1.len();
        if n > MAX_WRITE_BYTES - total {
            proof {
                lemma_content_total_prefix(write.content@, i + 1);
            }
            return Err(Error::Limit);
        }
        total = total + n;
        i = i + 1;
    }
    assert(write.content@.take(i as int) =~= write.content@);
    Ok(())
}

proof fn lemma_content_total_nonneg(content: Seq<(Particle, Vec<u8>)>)
    ensures
        content_total(content) >= 0,
    decreases content.len(),
{
    if content.len() > 0 {
        lemma_content_total_nonneg(content.drop_last());
    }
}

proof fn lemma_content_total_prefix(content: Seq<(Particle, Vec<u8>)>, n: int)
    requires
        0 <= n <= content.len(),
    ensures
        content_total(content.take(n)) <= content_total(content),
    decreases content.len() - n,
{
    if n < content.len() {
        lemma_content_total_prefix(content, n + 1);
        assert(content.take(n + 1).drop_last() =~= content.take(n));
    } else {
        assert(content.take(n) =~= content);
    }
}

/// Record each (key, value) once: an existing equal value is kept, a different
/// one is a conflict. Returns the staged changes after all of them.
pub open spec fn immutable_fold(
    committed: Map<Seq<u8>, Seq<u8>>,
    staged: Map<Seq<u8>, Option<Seq<u8>>>,
    table: Table,
    items: Seq<(Seq<u8>, Seq<u8>)>,
    max: nat,
) -> Result<Map<Seq<u8>, Option<Seq<u8>>>, Error>
    decreases items.len(),
{
    if items.len() == 0 {
        Ok(staged)
    } else {
        let (k, v) = items[0];
        match lookup(committed, staged, table, k, max) {
            Err(e) => Err(app_error(e)),
            Ok(Some(previous)) => if previous != v {
                Err(Error::Conflict)
            } else {
                immutable_fold(committed, staged, table, items.drop_first(), max)
            },
            Ok(None) => immutable_fold(
                committed,
                staged.insert(address(table, k), Some(v)),
                table,
                items.drop_first(),
                max,
            ),
        }
    }
}

/// What recording each (key, value) once does to a transaction with the
/// transaction budget in force: the answer, the staged changes and the staged
/// bytes at the point where it stops. An existing equal value is kept, a
/// different one is a conflict, a new one is staged unless the budget refuses it.
pub open spec fn immutable_outcome(
    committed: Map<Seq<u8>, Seq<u8>>,
    staged: Map<Seq<u8>, Option<Seq<u8>>>,
    bytes: int,
    table: Table,
    items: Seq<(Seq<u8>, Seq<u8>)>,
    max: nat,
) -> (Result<(), Error>, Map<Seq<u8>, Option<Seq<u8>>>, int)
    decreases items.len(),
{
    if items.len() == 0 {
        (Ok(()), staged, bytes)
    } else {
        let (k, v) = items[0];
        match lookup(committed, staged, table, k, max) {
            Err(e) => (Err(app_error(e)), staged, bytes),
            Ok(Some(previous)) => if previous != v {
                (Err(Error::Conflict), staged, bytes)
            } else {
                immutable_outcome(committed, staged, bytes, table, items.drop_first(), max)
            },
            Ok(None) => match stage_result(staged, bytes, table, k, Some(v)) {
                Err(e) => (Err(app_error(e)), staged, bytes),
                Ok(_) => immutable_outcome(
                    committed,
                    staged.insert(address(table, k), Some(v)),
                    stage_bytes(staged, bytes, table, k, Some(v)),
                    table,
                    items.drop_first(),
                    max,
                ),
            },
        }
    }
}

/// What recording a write's history entry, head and receipt, in that order,
/// does to a transaction: the answer and the staged changes where it stops.
pub open spec fn record_outcome(staged: Map<Seq<u8>, Option<Seq<u8>>>, bytes: int, w: Write) -> (
    Result<(), Error>,
    Map<Seq<u8>, Option<Seq<u8>>>,
) {
    let k1 = history_key(w.namespace, w.head.index);
    let v1 = w.head.commit@;
    let k2 = w.namespace@;
    let v2 = head_bytes(w.head);
    let k3 = request_key(w.namespace, w.request);
    let v3 = receipt_bytes(w.fingerprint, w.head);
    match stage_result(staged, bytes, Table::History, k1, Some(v1)) {
        Err(e) => (Err(app_error(e)), staged),
        Ok(_) => {
            let s1 = staged.insert(address(Table::History, k1), Some(v1));
            let b1 = stage_bytes(staged, bytes, Table::History, k1, Some(v1));
            match stage_result(s1, b1, Table::Heads, k2, Some(v2)) {
                Err(e) => (Err(app_error(e)), s1),
                Ok(_) => {
                    let s2 = s1.insert(address(Table::Heads, k2), Some(v2));
                    let b2 = stage_bytes(s1, b1, Table::Heads, k2, Some(v2));
                    match stage_result(s2, b2, Table::Requests, k3, Some(v3)) {
                        Err(e) => (Err(app_error(e)), s2),
                        Ok(_) => (Ok(()), s2.insert(address(Table::Requests, k3), Some(v3))),
                    }
                },
            }
        },
    }
}

/// What a fresh write answers and leaves over committed rows `c` once its
/// transition returned `x` with `staged` changes of `bytes` bytes: the
/// transition's error, or the budget's refusal of the write's history, head and
/// receipt, with nothing written; else the write's head, with the transition's
/// changes, the write's own rows and the commit markers committed at once.
pub open spec fn fresh_outcome(
    c: Map<Seq<u8>, Seq<u8>>,
    staged: Map<Seq<u8>, Option<Seq<u8>>>,
    bytes: int,
    w: Write,
    x: Result<(), Error>,
    r: Result<Head, Error>,
    after: Map<Seq<u8>, Seq<u8>>,
) -> bool {
    match x {
        Err(e) => r == Err::<Head, Error>(e) && after == c,
        Ok(_) => match record_outcome(staged, bytes, w) {
            (Err(e), _) => r == Err::<Head, Error>(e) && after == c,
            (Ok(_), t) => r == Ok::<Head, Error>(w.head) && exists|id: Seq<u8>|
                after == apply_changes(c, with_markers(t, id)),
        },
    }
}

/// Where a write stands before its transition runs.
pub enum Plan {
    /// The request already has a receipt with this fingerprint: answer its head.
    Recorded(Head),
    /// A new request: the changes staged for its content and claims.
    Fresh(Map<Seq<u8>, Option<Seq<u8>>>),
}

/// `a` and `b` are the same head.
pub open spec fn same_head(a: Option<Head>, b: Option<Head>) -> bool {
    match (a, b) {
        (Some(x), Some(y)) => x.index == y.index && x.commit@ == y.commit@,
        (None, None) => true,
        _ => false,
    }
}

/// The migration status that seals a store for export.
pub open spec fn export_sealed(c: Map<Seq<u8>, Seq<u8>>) -> bool {
    let a = address(Table::Migration, "status".spec_bytes());
    c.dom().contains(a) && c[a] == "export-v1".spec_bytes()
}

/// The migration status row is longer than any status that is read.
pub open spec fn status_oversized(c: Map<Seq<u8>, Seq<u8>>) -> bool {
    let a = address(Table::Migration, "status".spec_bytes());
    c.dom().contains(a) && c[a].len() > 16
}

/// What a write does to committed rows `c`, before its transition runs: a
/// recorded request is answered from its receipt, and only a new one is held
/// to the head, the claims, the content and the export fence.
pub open spec fn plan_write(c: Map<Seq<u8>, Seq<u8>>, w: Write) -> Result<Plan, Error> {
    let none = Map::<Seq<u8>, Option<Seq<u8>>>::empty();
    let ra = requests_address(w.namespace, w.request);
    let ha = heads_address(w.namespace);
    if !write_in_bounds(w) {
        Err(Error::Limit)
    } else if c.dom().contains(ra) && c[ra].len() > 72 {
        Err(Error::Limit)
    } else if c.dom().contains(ra) && c[ra].len() != 72 {
        Err(Error::Corrupt)
    } else if c.dom().contains(ra) {
        if c[ra].take(32) == w.fingerprint@ {
            Ok(Plan::Recorded(choose|h: Head| head_decodes(c[ra].skip(32), h)))
        } else {
            Err(Error::Conflict)
        }
    } else if c.dom().contains(ha) && c[ha].len() > 40 {
        Err(Error::Limit)
    } else if c.dom().contains(ha) && c[ha].len() != 40 {
        Err(Error::Corrupt)
    } else {
        let current = if c.dom().contains(ha) {
            Some(choose|h: Head| head_decodes(c[ha], h))
        } else {
            None
        };
        if !same_head(current, w.expected) {
            Err(Error::HeadMismatch)
        } else if current matches Some(h) && h.index == u64::MAX {
            Err(Error::InvalidSequence)
        } else if w.head.index != match current {
            Some(h) => h.index + 1,
            None => 0,
        } {
            Err(Error::InvalidSequence)
        } else {
            match immutable_fold(c, none, Table::Claims, claims_view(w.claims@), 32) {
                Err(e) => Err(e),
                Ok(s1) => match immutable_fold(
                    c,
                    s1,
                    Table::Content,
                    content_view(w.content@),
                    MAX_BYTES_VALUE as nat,
                ) {
                    Err(e) => Err(e),
                    Ok(s2) => if !overlay(c, s2).dom().contains(content_address(w.head.commit)) {
                        Err(Error::Corrupt)
                    } else if overlay(c, s2)[content_address(w.head.commit)].len() > MAX_BYTES_VALUE {
                        Err(Error::Limit)
                    } else if status_oversized(c) {
                        Err(Error::Limit)
                    } else if export_sealed(c) {
                        Err(Error::Fenced)
                    } else {
                        Ok(Plan::Fresh(s2))
                    },
                },
            }
        }
    }
}

/// A history row of `namespace`: a 40-byte key under it and a 32-byte commit.
pub open spec fn history_row_valid(row: (Seq<u8>, Seq<u8>), namespace: Particle) -> bool {
    row.0.len() == 40 && crate::bytes::has_prefix(row.0, namespace@) && row.1.len() == 32
}

/// Every row is a history row of `namespace`.
pub open spec fn history_rows_valid(rows: Seq<(Seq<u8>, Seq<u8>)>, namespace: Particle) -> bool {
    forall|i: int| 0 <= i < rows.len() ==> history_row_valid(#[trigger] rows[i], namespace)
}

/// The changes that record a fresh write: history, head and receipt.
pub open spec fn record_changes(s: Map<Seq<u8>, Option<Seq<u8>>>, w: Write) -> Map<Seq<u8>, Option<Seq<u8>>> {
    s.insert(history_address(w.namespace, w.head.index), Some(w.head.commit@)).insert(
        heads_address(w.namespace),
        Some(head_bytes(w.head)),
    ).insert(requests_address(w.namespace, w.request), Some(receipt_bytes(w.fingerprint, w.head)))
}

/// What `history` answers for `namespace` over `db`.
pub open spec fn history_outcome(db: Database, namespace: Particle, after: Option<u64>, limit: usize, r: Result<
    Vec<Head>,
    Error,
>) -> bool {
    &&& (limit == 0 || limit > 4096 ==> r matches Err(Error::Limit))
    &&& (0 < limit <= 4096 && after == Some(u64::MAX) ==> (r matches Ok(v) && v@.len() == 0))
    &&& (0 < limit <= 4096 && after != Some(u64::MAX) ==> {
                if db.failure() is Some {
                    r is Err
                } else {
                    match engine_scan(
                        db.entries(),
                        Table::History,
                        match after {
                            Some(n) => Some(history_key(namespace, n)),
                            None => None,
                        },
                        namespace@,
                        ByteLimits { max_entries: limit, max_bytes: (limit * 72) as usize },
                    ) {
                        Err(e) => r matches Err(x) && x == app_error(e),
                        Ok(rows) => if !history_rows_valid(rows, namespace) {
                            r matches Err(Error::Corrupt)
                        } else {
                            r matches Ok(v) && v@.len() == rows.len() && forall|i: int|
                                0 <= i < rows.len() ==> #[trigger] v@[i].index == from_be64(
                                    rows[i].0.skip(32),
                                ) && v@[i].commit@ == rows[i].1
                        },
                    }
                }
            })
}

pub struct ApplicationStore {
    db: Database,
}

impl ApplicationStore {
    pub closed spec fn database_view(&self) -> Database {
        self.db
    }

    pub fn from_database(db: Database) -> (s: Self)
        ensures
            s.database_view() == db,
    {
        Self { db }
    }

    /// The owner that this store writes through.
    pub fn database(&self) -> (db: &Database)
        ensures
            *db == self.database_view(),
    {
        &self.db
    }

    /// Publish changes staged against this store's owner; see `Database::commit`.
    pub(crate) fn commit_changes(&mut self, changes: crate::storage::database::Changes) -> (id: Option<[u8; 32]>)
        requires
            crate::storage::database::addresses_valid(changes.entries()),
        ensures
            final(self).database_view().failure() == old(self).database_view().failure(),
            changes.entries().len() == 0 ==> id is None && final(self).database_view().contents() == old(
                self,
            ).database_view().contents(),
            changes.entries().len() > 0 ==> (id matches Some(i) && final(self).database_view().contents()
                == apply_changes(
                old(self).database_view().contents(),
                with_markers(staged_of(changes@), i@),
            )),
    {
        self.db.commit(changes)
    }

    /// Validate this store's links; see `validate_links`.
    pub(crate) fn validate_links(&mut self) -> (r: Result<(), Error>)
        ensures
            final(self).database_view().failure() == old(self).database_view().failure(),
            old(self).database_view().failure() is Some ==> r is Err,
            old(self).database_view().failure() is None ==> match crate::storage::links::links_outcome(
                old(self).database_view().contents(),
                old(self).database_view().entries(),
            ) {
                Err(e) => r == Err::<(), Error>(e),
                Ok(_) => r is Ok || !crate::storage::links::receipts_fit(old(self).database_view().contents()),
            },
            r is Ok ==> crate::storage::links::receipt_rows(final(self).database_view().contents()).is_empty(),
            r is Ok ==> crate::ordered::sorted(final(self).database_view().entries())
                && final(self).database_view().contents() == crate::storage::database::bytes_of(
                crate::ordered::map_of(final(self).database_view().entries()),
            ),
            crate::storage::links::same_outside_receipts(
                final(self).database_view().contents(),
                old(self).database_view().contents(),
            ),
    {
        crate::storage::links::validate_links(&mut self.db)
    }

    /// Give back the owner.
    pub fn into_database(self) -> (db: Database)
        ensures
            db == self.database_view(),
    {
        self.db
    }

    /// The current head of `namespace`.
    pub fn head(&self, namespace: &Particle) -> (r: Result<Option<Head>, Error>)
        ensures
            self.database_view().failure() matches Some(f) ==> (r matches Err(e) && same_app_error(
                e,
                app_error(f),
            )),
            self.database_view().failure() is None ==> {
                let c = self.database_view().contents();
                let a = heads_address(*namespace);
                if !c.dom().contains(a) {
                    r matches Ok(None)
                } else if c[a].len() > 40 {
                    r matches Err(Error::Limit)
                } else if c[a].len() != 40 {
                    r matches Err(Error::Corrupt)
                } else {
                    r matches Ok(Some(h)) && head_decodes(c[a], h)
                }
            },
    {
        let bytes = match self.db.read(Table::Heads, namespace, 40) {
            Ok(b) => b,
            Err(e) => {
                return Err(from_storage(e));
            },
        };
        match bytes {
            Some(b) => Ok(Some(decode_head(b.as_slice())?)),
            None => Ok(None),
        }
    }

    /// Stored content by identity, within `max_bytes`.
    pub fn content(&self, id: &Particle, max_bytes: usize) -> (r: Result<Option<Vec<u8>>, Error>)
        ensures
            self.database_view().failure() matches Some(f) ==> (r matches Err(e) && same_app_error(
                e,
                app_error(f),
            )),
            self.database_view().failure() is None ==> {
                let c = self.database_view().contents();
                let a = content_address(*id);
                if max_bytes > MAX_BYTES_VALUE {
                    r matches Err(Error::Limit)
                } else if !c.dom().contains(a) {
                    r matches Ok(None)
                } else if c[a].len() > max_bytes {
                    r matches Err(Error::Limit)
                } else {
                    r matches Ok(Some(v)) && v@ == c[a]
                }
            },
    {
        match self.db.read(Table::Content, id, max_bytes) {
            Ok(v) => Ok(v),
            Err(e) => Err(from_storage(e)),
        }
    }

    /// The fingerprint and head recorded for a request, if any.
    pub fn resolve(&self, namespace: &Particle, request: &Particle) -> (r: Result<Option<(Particle, Head)>, Error>)
        ensures
            self.database_view().failure() matches Some(f) ==> (r matches Err(e) && same_app_error(
                e,
                app_error(f),
            )),
            self.database_view().failure() is None ==> {
                let c = self.database_view().contents();
                let a = requests_address(*namespace, *request);
                if !c.dom().contains(a) {
                    r matches Ok(None)
                } else if c[a].len() > 72 {
                    r matches Err(Error::Limit)
                } else if c[a].len() != 72 {
                    r matches Err(Error::Corrupt)
                } else {
                    r matches Ok(Some((fp, h))) && fp@ == c[a].take(32) && head_decodes(c[a].skip(32), h)
                }
            },
    {
        let key = make_request_key(namespace, request);
        let bytes = match self.db.read(Table::Requests, key.as_slice(), 72) {
            Ok(b) => b,
            Err(e) => {
                return Err(from_storage(e));
            },
        };
        match bytes {
            Some(b) => Ok(Some(decode_request(b.as_slice())?)),
            None => Ok(None),
        }
    }

    /// Heads recorded for `namespace` in index order, strictly after `after`.
    pub fn history(&self, namespace: &Particle, after: Option<u64>, limit: usize) -> (r: Result<
        Vec<Head>,
        Error,
    >)
        ensures
            history_outcome(self.database_view(), *namespace, after, limit, r),
    {
        if limit == 0 || limit > 4096 {
            return Err(Error::Limit);
        }
        if after == Some(u64::MAX) {
            return Ok(Vec::new());
        }
        let after_key: Option<Vec<u8>> = match after {
            Some(n) => Some(make_history_key(namespace, n)),
            None => None,
        };
        let rows = match self.db.scan(
            Table::History,
            match &after_key {
                Some(k) => Some(k.as_slice()),
                None => None,
            },
            namespace,
            ByteLimits { max_entries: limit, max_bytes: limit * 72 },
        ) {
            Ok(rows) => rows,
            Err(e) => {
                return Err(from_storage(e));
            },
        };
        let ghost rv = raw_view(rows@);
        let ghost scanned = engine_scan(
            self.database_view().entries(),
            Table::History,
            match after {
                Some(n) => Some(history_key(*namespace, n)),
                None => None,
            },
            namespace@,
            ByteLimits { max_entries: limit, max_bytes: (limit * 72) as usize },
        );
        assert(scanned == Ok::<Seq<(Seq<u8>, Seq<u8>)>, StorageError>(rv));
        let mut out: Vec<Head> = Vec::new();
        let mut i: usize = 0;
        while i < rows.len()
            invariant
                i <= rows@.len(),
                rv == raw_view(rows@),
                0 < limit <= 4096,
                after != Some(u64::MAX),
                self.database_view().failure() is None,
                scanned == engine_scan(
                    self.database_view().entries(),
                    Table::History,
                    match after {
                        Some(n) => Some(history_key(*namespace, n)),
                        None => None,
                    },
                    namespace@,
                    ByteLimits { max_entries: limit, max_bytes: (limit * 72) as usize },
                ),
                scanned == Ok::<Seq<(Seq<u8>, Seq<u8>)>, StorageError>(rv),
                out@.len() == i,
                forall|j: int| 0 <= j < i ==> history_row_valid(#[trigger] rv[j], *namespace),
                forall|j: int|
                    0 <= j < i ==> #[trigger] out@[j].index == from_be64(rv[j].0.skip(32))
                        && out@[j].commit@ == rv[j].1,
            decreases rows@.len() - i,
        {
            let (key, value) = (&rows[i].0, &rows[i].1);
            assert(rv[i as int] == (key@, value@));
            if key.len() != 40 || !crate::bytes::starts_with(key.as_slice(), namespace) || value.len() != 32 {
                proof {
                    if key@.len() == 40 && value@.len() == 32 {
                        assert(!crate::bytes::has_prefix(key@, namespace@));
                    }
                    assert(!history_row_valid(rv[i as int], *namespace));
                    assert(!history_rows_valid(rv, *namespace));
                    assert(self.database_view().failure() is None);
                    assert(engine_scan(
                        self.database_view().entries(),
                        Table::History,
                        match after {
                            Some(n) => Some(history_key(*namespace, n)),
                            None => None,
                        },
                        namespace@,
                        ByteLimits { max_entries: limit, max_bytes: (limit * 72) as usize },
                    ) == Ok::<Seq<(Seq<u8>, Seq<u8>)>, StorageError>(rv));
                }
                return Err(Error::Corrupt);
            }
            let index = read_be64(key.as_slice(), 32);
            let commit = read_array32(value.as_slice(), 0);
            assert(key@.subrange(32, 40) =~= key@.skip(32));
            assert(value@.subrange(0, 32) =~= value@);
            out.push(Head { index, commit });
            i = i + 1;
        }
        Ok(out)
    }

    /// Apply a write with no transition of its own.
    pub fn apply(&mut self, write: &Write<'_>) -> (r: Result<Head, Error>)
        ensures
            final(self).database_view().failure() == old(self).database_view().failure(),
            !write_in_bounds(*write) ==> r == Err::<Head, Error>(Error::Limit),
            old(self).database_view().failure() matches Some(f) ==> write_in_bounds(*write) ==> (r matches Err(
                e,
            ) && same_app_error(e, app_error(f))),
            r is Err ==> final(self).database_view().contents() == old(self).database_view().contents(),
            old(self).database_view().failure() is None ==> match plan_write(
                old(self).database_view().contents(),
                *write,
            ) {
                Err(e) => r matches Err(x) && x == e,
                Ok(Plan::Recorded(h)) => r matches Ok(x) && x.index == h.index && x.commit@ == h.commit@
                    && final(self).database_view().contents() == old(self).database_view().contents(),
                Ok(Plan::Fresh(s)) => r matches Ok(x) && x == write.head && exists|id: Seq<u8>|
                    final(self).database_view().contents() == apply_changes(
                        old(self).database_view().contents(),
                        with_markers(record_changes(s, *write), id),
                    ),
            },
    {
        validate_write(write)?;
        let staged = {
            let mut tx = match self.db.begin() {
                Ok(tx) => tx,
                Err(e) => {
                    return Err(from_storage(e));
                },
            };
            let plan = stage_write(&mut tx, write)?;
            match plan {
                Staged::Recorded(h) => {
                    return Ok(h);
                },
                Staged::Fresh => {},
            }
            finish_write(&mut tx, write)?;
            tx.into_changes()
        };
        let ghost s = staged_of(staged@);
        proof {
            vstd::set::axiom_set_contains_len(s.dom(), requests_address(write.namespace, write.request));
        }
        let id = self.db.commit(staged);
        proof {
            if id is Some {
                let i = id->Some_0;
                assert(self.db.contents() == apply_changes(old(self).db.contents(), with_markers(s, i@)));
            }
        }
        Ok(write.head)
    }
}

impl ApplicationStore {
    /// Apply a write whose new request also runs `transition` inside the same
    /// transaction, after the write's checks and before its head is recorded.
    /// A recorded request is answered without running the transition.
    pub fn apply_with<F: FnOnce(&mut Transaction<'_>) -> Result<(), Error>>(&mut self, write: &Write<'_>, transition: F) -> (r:
        Result<Head, Error>)
        requires
            forall|tx: &mut Transaction<'_>| tx.wf() ==> #[trigger] call_requires(transition, (tx,)),
            forall|tx: &mut Transaction<'_>, x: Result<(), Error>| #[trigger]
                call_ensures(transition, (tx,), x) ==> final(tx).wf() && final(tx).committed()
                    == tx.committed(),
        ensures
            final(self).database_view().failure() == old(self).database_view().failure(),
            !write_in_bounds(*write) ==> r == Err::<Head, Error>(Error::Limit),
            old(self).database_view().failure() matches Some(f) ==> write_in_bounds(*write) ==> (r matches Err(
                e,
            ) && same_app_error(e, app_error(f))),
            r is Err ==> final(self).database_view().contents() == old(self).database_view().contents(),
            old(self).database_view().failure() is None ==> match plan_write(
                old(self).database_view().contents(),
                *write,
            ) {
                Err(e) => r matches Err(x) && x == e,
                Ok(Plan::Recorded(h)) => r matches Ok(x) && x.index == h.index && x.commit@ == h.commit@
                    && final(self).database_view().contents() == old(self).database_view().contents(),
                Ok(Plan::Fresh(s)) => exists|tx: &mut Transaction<'_>, x: Result<(), Error>|
                    #[trigger] call_ensures(transition, (tx,), x) && tx.wf() && tx.committed() == old(
                        self,
                    ).database_view().contents() && tx.staged() == s && tx.staged_bytes() <= 64 * MAX_WRITE_CLAIMS
                        + 32 * MAX_WRITE_CONTENT + MAX_WRITE_BYTES && fresh_outcome(
                        old(self).database_view().contents(),
                        final(tx).staged(),
                        final(tx).staged_bytes(),
                        *write,
                        x,
                        r,
                        final(self).database_view().contents(),
                    ),
            },
            old(self).database_view().failure() is None ==> match plan_write(
                old(self).database_view().contents(),
                *write,
            ) {
                Ok(Plan::Fresh(_)) => r is Ok ==> {
                    let after = final(self).database_view().contents();
                    &&& r == Ok::<Head, Error>(write.head)
                    &&& after.dom().contains(heads_address(write.namespace))
                    &&& after[heads_address(write.namespace)] == head_bytes(write.head)
                    &&& after.dom().contains(history_address(write.namespace, write.head.index))
                    &&& after[history_address(write.namespace, write.head.index)] == write.head.commit@
                    &&& after.dom().contains(requests_address(write.namespace, write.request))
                    &&& after[requests_address(write.namespace, write.request)] == receipt_bytes(
                        write.fingerprint,
                        write.head,
                    )
                },
                _ => true,
            },
    {
        validate_write(write)?;
        let staged = {
            let mut tx = match self.db.begin() {
                Ok(tx) => tx,
                Err(e) => {
                    return Err(from_storage(e));
                },
            };
            let plan = stage_write(&mut tx, write)?;
            match plan {
                Staged::Recorded(h) => {
                    return Ok(h);
                },
                Staged::Fresh => {},
            }
            let result = transition(&mut tx);
            let ghost (after_staged, after_bytes) = (tx.staged(), tx.staged_bytes());
            match result {
                Ok(()) => {},
                Err(e) => {
                    return Err(e);
                },
            }
            finish_after_transition(&mut tx, write)?;
            assert(record_outcome(after_staged, after_bytes, *write) == (Ok::<(), Error>(()), tx.staged()));
            (tx.into_changes(), Ghost(after_staged), Ghost(after_bytes))
        };
        let (staged, Ghost(after_staged), Ghost(after_bytes)) = staged;
        let ghost s = staged_of(staged@);
        proof {
            vstd::set::axiom_set_contains_len(s.dom(), requests_address(write.namespace, write.request));
        }
        let id = self.db.commit(staged);
        proof {
            let i = id->Some_0;
            lemma_markers_keep_records(after_staged, i@, *write);
            assert(self.db.contents() == apply_changes(old(self).db.contents(), with_markers(s, i@)));
            assert(record_outcome(after_staged, after_bytes, *write).0 is Ok);
            assert(record_outcome(after_staged, after_bytes, *write).1 == s);
            assert(fresh_outcome(
                old(self).db.contents(),
                after_staged,
                after_bytes,
                *write,
                Ok(()),
                Ok::<Head, Error>(write.head),
                self.db.contents(),
            ));
        }
        Ok(write.head)
    }
}

/// Record a write after an arbitrary transition: the same three rows, which
/// may be refused if the transition exhausted the transaction budget.
fn finish_after_transition(tx: &mut Transaction<'_>, write: &Write<'_>) -> (r: Result<(), Error>)
    requires
        old(tx).wf(),
    ensures
        final(tx).wf(),
        final(tx).committed() == old(tx).committed(),
        r is Ok ==> final(tx).staged() == record_changes(old(tx).staged(), *write),
        (r, final(tx).staged()) == record_outcome(old(tx).staged(), old(tx).staged_bytes(), *write),
{
    proof {
        lemma_le64(write.head.index);
    }
    let key = make_history_key(&write.namespace, write.head.index);
    match tx.put(Table::History, key.as_slice(), &write.head.commit) {
        Ok(()) => {},
        Err(e) => {
            return Err(from_storage(e));
        },
    }
    let head = encode_head(write.head);
    match tx.put(Table::Heads, &write.namespace, head.as_slice()) {
        Ok(()) => {},
        Err(e) => {
            return Err(from_storage(e));
        },
    }
    let receipt_key = make_request_key(&write.namespace, &write.request);
    let mut receipt: Vec<u8> = Vec::new();
    crate::bytes::append_bytes(&mut receipt, &write.fingerprint);
    crate::bytes::append_bytes(&mut receipt, head.as_slice());
    match tx.put(Table::Requests, receipt_key.as_slice(), receipt.as_slice()) {
        Ok(()) => {},
        Err(e) => {
            return Err(from_storage(e));
        },
    }
    Ok(())
}

/// The commit markers never displace a write's head, history entry or receipt.
proof fn lemma_markers_keep_records(base: Map<Seq<u8>, Option<Seq<u8>>>, id: Seq<u8>, w: Write)
    ensures
        ({
            let m = with_markers(record_changes(base, w), id);
            &&& m[heads_address(w.namespace)] == Some(head_bytes(w.head))
            &&& m[history_address(w.namespace, w.head.index)] == Some(w.head.commit@)
            &&& m[requests_address(w.namespace, w.request)] == Some(receipt_bytes(w.fingerprint, w.head))
            &&& m.dom().contains(heads_address(w.namespace))
            &&& m.dom().contains(history_address(w.namespace, w.head.index))
            &&& m.dom().contains(requests_address(w.namespace, w.request))
        }),
{
    lemma_address_code(Table::Metadata, "last_transaction".spec_bytes());
    lemma_address_code(Table::Metadata, "last_commit".spec_bytes());
    lemma_address_code(Table::Heads, w.namespace@);
    lemma_address_code(Table::Requests, request_key(w.namespace, w.request));
    lemma_address_code(Table::History, history_key(w.namespace, w.head.index));
}

/// How far a write got inside its transaction.
pub enum Staged {
    Recorded(Head),
    Fresh,
}

proof fn lemma_status_key()
    ensures
        "status".spec_bytes().len() == 6,
{
    reveal_strlit("status");
    vstd::string::is_ascii_spec_bytes("status");
}

/// Stage `items` into `table` immutably; see [`immutable_fold`].
fn put_immutable_claims(tx: &mut Transaction<'_>, items: &[(Particle, Particle)]) -> (r: Result<(), Error>)
    requires
        old(tx).wf(),
        items@.len() <= MAX_WRITE_CLAIMS,
        old(tx).staged_bytes() == 0,
        old(tx).staged().dom().len() == 0,
        old(tx).staged().dom().finite(),
    ensures
        final(tx).staged().dom().finite(),
        final(tx).wf(),
        final(tx).committed() == old(tx).committed(),
        final(tx).committed_entries() == old(tx).committed_entries(),
        match immutable_fold(old(tx).committed(), old(tx).staged(), Table::Claims, claims_view(items@), 32) {
            Err(e) => r matches Err(x) && x == e,
            Ok(s) => r is Ok && final(tx).staged() == s,
        },
        final(tx).staged_bytes() <= 64 * items@.len(),
        final(tx).staged().dom().len() <= items@.len(),
{
    let ghost all = claims_view(items@);
    let ghost c = old(tx).committed();
    let ghost expected = immutable_fold(c, old(tx).staged(), Table::Claims, all, 32);
    assert(all.skip(0) =~= all);
    let mut i: usize = 0;
    while i < items.len()
        invariant
            i <= items@.len() <= MAX_WRITE_CLAIMS,
            all == claims_view(items@),
            tx.wf(),
            c == old(tx).committed(),
            expected == immutable_fold(c, old(tx).staged(), Table::Claims, all, 32),
            tx.committed() == c,
            tx.committed_entries() == old(tx).committed_entries(),
            expected == immutable_fold(c, tx.staged(), Table::Claims, all.skip(i as int), 32),
            tx.staged_bytes() <= 64 * i,
            tx.staged().dom().len() <= i,
            tx.staged().dom().finite(),
        decreases items@.len() - i,
    {
        let (key, value) = (&items[i].0, &items[i].1);
        proof {
            assert(all.skip(i as int)[0] == (key@, value@));
            assert(all.skip(i as int).drop_first() =~= all.skip(i + 1));
        }
        let previous = match tx.get(Table::Claims, key, 32) {
            Ok(p) => p,
            Err(e) => {
                return Err(from_storage(e));
            },
        };
        match previous {
            Some(p) => {
                if !bytes_equal(p.as_slice(), value) {
                    return Err(Error::Conflict);
                }
            },
            None => {
                match tx.put(Table::Claims, key, value) {
                    Ok(()) => {},
                    Err(e) => {
                        return Err(from_storage(e));
                    },
                }
            },
        }
        i = i + 1;
    }
    assert(all.skip(i as int).len() == 0);
    Ok(())
}

/// Stage a write's content immutably; see [`immutable_fold`].
fn put_immutable_content(tx: &mut Transaction<'_>, items: &[(Particle, Vec<u8>)]) -> (r: Result<(), Error>)
    requires
        old(tx).wf(),
        items@.len() <= MAX_WRITE_CONTENT,
        content_total(items@) <= MAX_WRITE_BYTES,
        old(tx).staged_bytes() <= 64 * MAX_WRITE_CLAIMS,
        old(tx).staged().dom().len() <= MAX_WRITE_CLAIMS,
        old(tx).staged().dom().finite(),
    ensures
        final(tx).staged().dom().finite(),
        final(tx).wf(),
        final(tx).committed() == old(tx).committed(),
        final(tx).committed_entries() == old(tx).committed_entries(),
        match immutable_fold(
            old(tx).committed(),
            old(tx).staged(),
            Table::Content,
            content_view(items@),
            MAX_BYTES_VALUE as nat,
        ) {
            Err(e) => r matches Err(x) && x == e,
            Ok(s) => r is Ok && final(tx).staged() == s,
        },
        final(tx).staged_bytes() <= 64 * MAX_WRITE_CLAIMS + 32 * items@.len() + content_total(items@),
        final(tx).staged().dom().len() <= MAX_WRITE_CLAIMS + items@.len(),
{
    let ghost all = content_view(items@);
    let ghost c = old(tx).committed();
    let ghost expected = immutable_fold(c, old(tx).staged(), Table::Content, all, MAX_BYTES_VALUE as nat);
    assert(all.skip(0) =~= all);
    assert(items@.take(0) =~= Seq::<(Particle, Vec<u8>)>::empty());
    let mut i: usize = 0;
    while i < items.len()
        invariant
            i <= items@.len() <= MAX_WRITE_CONTENT,
            content_total(items@) <= MAX_WRITE_BYTES,
            all == content_view(items@),
            tx.wf(),
            c == old(tx).committed(),
            expected == immutable_fold(c, old(tx).staged(), Table::Content, all, MAX_BYTES_VALUE as nat),
            tx.committed() == c,
            tx.committed_entries() == old(tx).committed_entries(),
            expected == immutable_fold(c, tx.staged(), Table::Content, all.skip(i as int), MAX_BYTES_VALUE as nat),
            tx.staged_bytes() <= 64 * MAX_WRITE_CLAIMS + 32 * i + content_total(items@.take(i as int)),
            tx.staged().dom().len() <= MAX_WRITE_CLAIMS + i,
            tx.staged().dom().finite(),
        decreases items@.len() - i,
    {
        let (key, value) = (&items[i].0, &items[i].1);
        proof {
            assert(all.skip(i as int)[0] == (key@, value@));
            assert(all.skip(i as int).drop_first() =~= all.skip(i + 1));
            assert(items@.take(i + 1).drop_last() =~= items@.take(i as int));
            assert(items@.take(i + 1).last() == items@[i as int]);
            lemma_content_total_prefix(items@, i + 1);
            lemma_content_total_nonneg(items@.take(i as int));
            assert(content_total(items@.take(i + 1)) == content_total(items@.take(i as int)) + value@.len());
        }
        let previous = match tx.get(Table::Content, key, MAX_BYTES_VALUE) {
            Ok(p) => p,
            Err(e) => {
                return Err(from_storage(e));
            },
        };
        match previous {
            Some(p) => {
                if !bytes_equal(p.as_slice(), value.as_slice()) {
                    return Err(Error::Conflict);
                }
            },
            None => {
                assert(key@.len() == 32);
                assert(value@.len() <= MAX_WRITE_BYTES);
                assert(tx.staged().dom().len() < MAX_TRANSACTION_KEYS - 2);
                assert(tx.staged_bytes() + key@.len() + value@.len() <= MAX_TRANSACTION_BYTES - MARKER_RESERVE);
                match tx.put(Table::Content, key, value.as_slice()) {
                    Ok(()) => {},
                    Err(e) => {
                        return Err(from_storage(e));
                    },
                }
            },
        }
        i = i + 1;
    }
    assert(all.skip(i as int).len() == 0);
    assert(items@.take(i as int) =~= items@);
    Ok(())
}

/// Everything up to a write's transition: fences, receipt, head checks, claims
/// and content. A recorded request is answered without staging anything.
fn stage_write(tx: &mut Transaction<'_>, write: &Write<'_>) -> (r: Result<Staged, Error>)
    requires
        old(tx).wf(),
        old(tx).staged_bytes() == 0,
        old(tx).staged() == Map::<Seq<u8>, Option<Seq<u8>>>::empty(),
        write_in_bounds(*write),
    ensures
        final(tx).wf(),
        final(tx).committed() == old(tx).committed(),
        final(tx).committed_entries() == old(tx).committed_entries(),
        match plan_write(old(tx).committed(), *write) {
            Err(e) => r matches Err(x) && x == e,
            Ok(Plan::Recorded(h)) => r matches Ok(Staged::Recorded(x)) && x.index == h.index && x.commit@
                == h.commit@ && final(tx).staged() == old(tx).staged(),
            Ok(Plan::Fresh(s)) => r matches Ok(Staged::Fresh) && final(tx).staged() == s,
        },
        final(tx).staged_bytes() <= 64 * MAX_WRITE_CLAIMS + 32 * MAX_WRITE_CONTENT + MAX_WRITE_BYTES,
        final(tx).staged().dom().len() <= MAX_WRITE_CLAIMS + MAX_WRITE_CONTENT,
{
    proof {
        lemma_status_key();
        reveal_strlit("export-v1");
        vstd::string::is_ascii_spec_bytes("export-v1");
    }
    let ghost c = tx.committed();
    let receipt_key = make_request_key(&write.namespace, &write.request);
    let prior = match tx.get(Table::Requests, receipt_key.as_slice(), 72) {
        Ok(p) => p,
        Err(e) => {
            return Err(from_storage(e));
        },
    };
    match prior {
        Some(p) => {
            let (fingerprint, head) = decode_request(p.as_slice())?;
            if bytes_equal(&fingerprint, &write.fingerprint) {
                return Ok(Staged::Recorded(head));
            } else {
                return Err(Error::Conflict);
            }
        },
        None => {},
    }
    let current_bytes = match tx.get(Table::Heads, &write.namespace, 40) {
        Ok(b) => b,
        Err(e) => {
            return Err(from_storage(e));
        },
    };
    let current = match current_bytes {
        Some(b) => Some(decode_head(b.as_slice())?),
        None => None,
    };
    let matches_expected = match (current, write.expected) {
        (Some(a), Some(b)) => a.index == b.index && bytes_equal(&a.commit, &b.commit),
        (None, None) => true,
        _ => false,
    };
    if !matches_expected {
        return Err(Error::HeadMismatch);
    }
    let next: u64 = match current {
        Some(h) => {
            if h.index == u64::MAX {
                return Err(Error::InvalidSequence);
            }
            h.index + 1
        },
        None => 0,
    };
    if write.head.index != next {
        return Err(Error::InvalidSequence);
    }
    put_immutable_claims(tx, write.claims)?;
    put_immutable_content(tx, write.content)?;
    let commit_content = match tx.get(Table::Content, &write.head.commit, MAX_BYTES_VALUE) {
        Ok(v) => v,
        Err(e) => {
            return Err(from_storage(e));
        },
    };
    if commit_content.is_none() {
        return Err(Error::Corrupt);
    }
    proof {
        let none = Map::<Seq<u8>, Option<Seq<u8>>>::empty();
        let s1 = immutable_fold(c, none, Table::Claims, claims_view(write.claims@), 32)->Ok_0;
        lemma_fold_keys(c, none, Table::Claims, claims_view(write.claims@), 32);
        lemma_fold_keys(c, s1, Table::Content, content_view(write.content@), MAX_BYTES_VALUE as nat);
        lemma_address_code(Table::Migration, "status".spec_bytes());
    }
    let status = match tx.get(Table::Migration, "status".as_bytes(), 16) {
        Ok(s) => s,
        Err(e) => {
            return Err(from_storage(e));
        },
    };
    match &status {
        Some(s) => {
            if bytes_equal(s.as_slice(), "export-v1".as_bytes()) {
                return Err(Error::Fenced);
            }
        },
        None => {},
    }
    Ok(Staged::Fresh)
}

/// Record a fresh write: history entry, head and receipt.
fn finish_write(tx: &mut Transaction<'_>, write: &Write<'_>) -> (r: Result<(), Error>)
    requires
        old(tx).wf(),
        old(tx).staged_bytes() <= 64 * MAX_WRITE_CLAIMS + 32 * MAX_WRITE_CONTENT + MAX_WRITE_BYTES,
        old(tx).staged().dom().len() <= MAX_WRITE_CLAIMS + MAX_WRITE_CONTENT,
    ensures
        final(tx).wf(),
        final(tx).committed() == old(tx).committed(),
        final(tx).committed_entries() == old(tx).committed_entries(),
        r is Ok,
        final(tx).staged() == record_changes(old(tx).staged(), *write),
{
    let key = make_history_key(&write.namespace, write.head.index);
    match tx.put(Table::History, key.as_slice(), &write.head.commit) {
        Ok(()) => {},
        Err(e) => {
            return Err(from_storage(e));
        },
    }
    let head = encode_head(write.head);
    match tx.put(Table::Heads, &write.namespace, head.as_slice()) {
        Ok(()) => {},
        Err(e) => {
            return Err(from_storage(e));
        },
    }
    let receipt_key = make_request_key(&write.namespace, &write.request);
    let mut receipt: Vec<u8> = Vec::new();
    crate::bytes::append_bytes(&mut receipt, &write.fingerprint);
    crate::bytes::append_bytes(&mut receipt, head.as_slice());
    match tx.put(Table::Requests, receipt_key.as_slice(), receipt.as_slice()) {
        Ok(()) => {},
        Err(e) => {
            return Err(from_storage(e));
        },
    }
    Ok(())
}

} // verus!

verus! {

/// Every change that an immutable fold adds lies in its table.
proof fn lemma_fold_keys(
    committed: Map<Seq<u8>, Seq<u8>>,
    staged: Map<Seq<u8>, Option<Seq<u8>>>,
    table: Table,
    items: Seq<(Seq<u8>, Seq<u8>)>,
    max: nat,
)
    requires
        immutable_fold(committed, staged, table, items, max) is Ok,
    ensures
        forall|a: Seq<u8>| #[trigger]
            immutable_fold(committed, staged, table, items, max)->Ok_0.dom().contains(a) ==> staged.dom().contains(a)
                || (a.len() >= 1 && a[0] == crate::storage::table::table_code(table)),
    decreases items.len(),
{
    if items.len() > 0 {
        let (k, v) = items[0];
        match lookup(committed, staged, table, k, max) {
            Ok(Some(_)) => {
                lemma_fold_keys(committed, staged, table, items.drop_first(), max);
            },
            Ok(None) => {
                let next = staged.insert(address(table, k), Some(v));
                lemma_fold_keys(committed, next, table, items.drop_first(), max);
                assert(address(table, k)[0] == crate::storage::table::table_code(table));
            },
            Err(_) => {},
        }
    }
}

/// An immutable fold leaves every row that the overlay already holds as it was.
proof fn lemma_fold_keeps(
    committed: Map<Seq<u8>, Seq<u8>>,
    staged: Map<Seq<u8>, Option<Seq<u8>>>,
    table: Table,
    items: Seq<(Seq<u8>, Seq<u8>)>,
    max: nat,
    a: Seq<u8>,
)
    requires
        immutable_fold(committed, staged, table, items, max) is Ok,
        overlay(committed, staged).dom().contains(a),
    ensures
        overlay(committed, immutable_fold(committed, staged, table, items, max)->Ok_0).dom().contains(a),
        overlay(committed, immutable_fold(committed, staged, table, items, max)->Ok_0)[a] == overlay(
            committed,
            staged,
        )[a],
    decreases items.len(),
{
    if items.len() > 0 {
        let (k, v) = items[0];
        match lookup(committed, staged, table, k, max) {
            Ok(Some(_)) => {
                lemma_fold_keeps(committed, staged, table, items.drop_first(), max, a);
            },
            Ok(None) => {
                let next = staged.insert(address(table, k), Some(v));
                assert(address(table, k) != a);
                assert(overlay(committed, next).dom().contains(a));
                assert(overlay(committed, next)[a] == overlay(committed, staged)[a]);
                lemma_fold_keeps(committed, next, table, items.drop_first(), max, a);
            },
            Err(_) => {},
        }
    }
}

/// After an immutable fold every item is held by the overlay with its value.
proof fn lemma_fold_holds(
    committed: Map<Seq<u8>, Seq<u8>>,
    staged: Map<Seq<u8>, Option<Seq<u8>>>,
    table: Table,
    items: Seq<(Seq<u8>, Seq<u8>)>,
    max: nat,
)
    requires
        immutable_fold(committed, staged, table, items, max) is Ok,
    ensures
        forall|i: int|
            0 <= i < items.len() ==> overlay(
                committed,
                immutable_fold(committed, staged, table, items, max)->Ok_0,
            ).dom().contains(address(table, #[trigger] items[i].0)) && overlay(
                committed,
                immutable_fold(committed, staged, table, items, max)->Ok_0,
            )[address(table, items[i].0)] == items[i].1,
    decreases items.len(),
{
    if items.len() > 0 {
        let (k, v) = items[0];
        let result = immutable_fold(committed, staged, table, items, max)->Ok_0;
        let next = match lookup(committed, staged, table, k, max) {
            Ok(Some(_)) => staged,
            _ => staged.insert(address(table, k), Some(v)),
        };
        lemma_fold_holds(committed, next, table, items.drop_first(), max);
        assert(overlay(committed, next).dom().contains(address(table, k)));
        assert(overlay(committed, next)[address(table, k)] == v);
        lemma_fold_keeps(committed, next, table, items.drop_first(), max, address(table, k));
        assert forall|i: int| 0 <= i < items.len() implies overlay(committed, result).dom().contains(
            address(table, #[trigger] items[i].0),
        ) && overlay(committed, result)[address(table, items[i].0)] == items[i].1 by {
            if i > 0 {
                assert(items[i] == items.drop_first()[i - 1]);
            }
        }
    }
}

/// An address's table code is its first byte.
proof fn lemma_address_code(t: Table, key: Seq<u8>)
    ensures
        address(t, key).len() >= 1,
        address(t, key)[0] == crate::storage::table::table_code(t),
        address(t, key).drop_first() == key,
{
    assert(address(t, key).drop_first() =~= key);
}

/// A write that was accepted is answered, when retried, with the head that it
/// recorded; and its head, history entry and receipt are what it wrote.
pub proof fn law_accepted_write_is_recorded(
    c: Map<Seq<u8>, Seq<u8>>,
    w: Write,
    s: Map<Seq<u8>, Option<Seq<u8>>>,
    id: Seq<u8>,
)
    requires
        plan_write(c, w) == Ok::<Plan, Error>(Plan::Fresh(s)),
    ensures
        ({
            let after = apply_changes(c, with_markers(record_changes(s, w), id));
            &&& after.dom().contains(heads_address(w.namespace))
            &&& after[heads_address(w.namespace)] == head_bytes(w.head)
            &&& after.dom().contains(history_address(w.namespace, w.head.index))
            &&& after[history_address(w.namespace, w.head.index)] == w.head.commit@
            &&& after.dom().contains(requests_address(w.namespace, w.request))
            &&& after[requests_address(w.namespace, w.request)] == receipt_bytes(w.fingerprint, w.head)
            &&& plan_write(after, w) matches Ok(Plan::Recorded(h)) && h.index == w.head.index
                && h.commit@ == w.head.commit@
            &&& forall|i: int|
                0 <= i < w.content@.len() ==> after.dom().contains(content_address(#[trigger] w.content@[i].0))
                    && after[content_address(w.content@[i].0)] == w.content@[i].1@
            &&& forall|i: int|
                0 <= i < w.claims@.len() ==> after.dom().contains(address(Table::Claims, (#[trigger] w.claims@[i]).0@))
                    && after[address(Table::Claims, w.claims@[i].0@)] == w.claims@[i].1@
        }),
{
    let none = Map::<Seq<u8>, Option<Seq<u8>>>::empty();
    let status = address(Table::Migration, "status".spec_bytes());
    let lt = address(Table::Metadata, "last_transaction".spec_bytes());
    let lc = address(Table::Metadata, "last_commit".spec_bytes());
    let ha = heads_address(w.namespace);
    let ra = requests_address(w.namespace, w.request);
    let hi = history_address(w.namespace, w.head.index);
    lemma_address_code(Table::Migration, "status".spec_bytes());
    lemma_address_code(Table::Metadata, "last_transaction".spec_bytes());
    lemma_address_code(Table::Metadata, "last_commit".spec_bytes());
    lemma_address_code(Table::Heads, w.namespace@);
    lemma_address_code(Table::Requests, request_key(w.namespace, w.request));
    lemma_address_code(Table::History, history_key(w.namespace, w.head.index));
    let s1 = immutable_fold(c, none, Table::Claims, claims_view(w.claims@), 32)->Ok_0;
    lemma_fold_keys(c, none, Table::Claims, claims_view(w.claims@), 32);
    lemma_fold_keys(c, s1, Table::Content, content_view(w.content@), MAX_BYTES_VALUE as nat);
    assert(!s.dom().contains(status));
    let r = record_changes(s, w);
    let m = with_markers(r, id);
    assert(!m.dom().contains(status));
    let after = apply_changes(c, m);
    assert(after.dom().contains(status) == c.dom().contains(status));
    assert(c.dom().contains(status) ==> after[status] == c[status]);
    assert(m.dom().contains(ra) && m[ra] == Some(receipt_bytes(w.fingerprint, w.head)));
    assert(m.dom().contains(ha) && m[ha] == Some(head_bytes(w.head)));
    assert(m.dom().contains(hi) && m[hi] == Some(w.head.commit@));
    lemma_le64(w.head.index);
    let receipt = receipt_bytes(w.fingerprint, w.head);
    assert(receipt.take(32) =~= w.fingerprint@);
    assert(receipt.skip(32) =~= head_bytes(w.head));
    lemma_head_roundtrip(w.head);
    let h = choose|h: Head| head_decodes(receipt.skip(32), h);
    assert(head_decodes(receipt.skip(32), h));
    assert(h.commit@ == w.head.commit@);
    let cv = content_view(w.content@);
    let kv = claims_view(w.claims@);
    lemma_fold_holds(c, s1, Table::Content, cv, MAX_BYTES_VALUE as nat);
    lemma_fold_holds(c, none, Table::Claims, kv, 32);
    assert forall|i: int| 0 <= i < w.content@.len() implies after.dom().contains(
        content_address(#[trigger] w.content@[i].0),
    ) && after[content_address(w.content@[i].0)] == w.content@[i].1@ by {
        let a = content_address(w.content@[i].0);
        assert(cv[i] == (w.content@[i].0@, w.content@[i].1@));
        assert(a == address(Table::Content, cv[i].0));
        lemma_address_code(Table::Content, cv[i].0);
        assert(overlay(c, s).dom().contains(a) && overlay(c, s)[a] == cv[i].1);
        assert(!m.dom().contains(a) || m[a] == s[a]) by {
            assert(a != lt && a != lc && a != ha && a != ra && a != hi);
        }
    }
    assert forall|i: int| 0 <= i < w.claims@.len() implies after.dom().contains(
        address(Table::Claims, (#[trigger] w.claims@[i]).0@),
    ) && after[address(Table::Claims, w.claims@[i].0@)] == w.claims@[i].1@ by {
        let a = address(Table::Claims, w.claims@[i].0@);
        assert(kv[i] == (w.claims@[i].0@, w.claims@[i].1@));
        lemma_address_code(Table::Claims, kv[i].0);
        assert(overlay(c, s1).dom().contains(a) && overlay(c, s1)[a] == kv[i].1);
        lemma_fold_keeps(c, s1, Table::Content, cv, MAX_BYTES_VALUE as nat, a);
        assert(overlay(c, s).dom().contains(a) && overlay(c, s)[a] == kv[i].1);
        assert(!m.dom().contains(a) || m[a] == s[a]) by {
            assert(a != lt && a != lc && a != ha && a != ra && a != hi);
        }
    }
}


/// A replay is answered from its receipt: after a fresh write commits, any
/// write in bounds with the same namespace, request and fingerprint plans as
/// already recorded, with the committed head, whatever head it expects or
/// carries.
pub proof fn law_replay_is_recorded(
    c: Map<Seq<u8>, Seq<u8>>,
    w: Write,
    s: Map<Seq<u8>, Option<Seq<u8>>>,
    id: Seq<u8>,
    replay: Write,
)
    requires
        plan_write(c, w) == Ok::<Plan, Error>(Plan::Fresh(s)),
        replay.namespace == w.namespace,
        replay.request == w.request,
        replay.fingerprint == w.fingerprint,
        write_in_bounds(replay),
    ensures
        plan_write(apply_changes(c, with_markers(record_changes(s, w), id)), replay) matches Ok(Plan::Recorded(h))
            && h.index == w.head.index && h.commit@ == w.head.commit@,
{
    law_accepted_write_is_recorded(c, w, s, id);
    let after = apply_changes(c, with_markers(record_changes(s, w), id));
    assert(plan_write(after, replay) == plan_write(after, w));
}

/// Claims and content never change once committed: a fresh write leaves every
/// claim and content row that the store held as it was.
pub proof fn law_committed_rows_are_immutable(
    c: Map<Seq<u8>, Seq<u8>>,
    w: Write,
    s: Map<Seq<u8>, Option<Seq<u8>>>,
    id: Seq<u8>,
    table: Table,
    k: Seq<u8>,
)
    requires
        plan_write(c, w) == Ok::<Plan, Error>(Plan::Fresh(s)),
        table == Table::Claims || table == Table::Content,
        c.dom().contains(address(table, k)),
    ensures
        ({
            let after = apply_changes(c, with_markers(record_changes(s, w), id));
            after.dom().contains(address(table, k)) && after[address(table, k)] == c[address(table, k)]
        }),
{
    let none = Map::<Seq<u8>, Option<Seq<u8>>>::empty();
    let a = address(table, k);
    let lt = address(Table::Metadata, "last_transaction".spec_bytes());
    let lc = address(Table::Metadata, "last_commit".spec_bytes());
    let ha = heads_address(w.namespace);
    let ra = requests_address(w.namespace, w.request);
    let hi = history_address(w.namespace, w.head.index);
    lemma_address_code(table, k);
    lemma_address_code(Table::Metadata, "last_transaction".spec_bytes());
    lemma_address_code(Table::Metadata, "last_commit".spec_bytes());
    lemma_address_code(Table::Heads, w.namespace@);
    lemma_address_code(Table::Requests, request_key(w.namespace, w.request));
    lemma_address_code(Table::History, history_key(w.namespace, w.head.index));
    let kv = claims_view(w.claims@);
    let cv = content_view(w.content@);
    let s1 = immutable_fold(c, none, Table::Claims, kv, 32)->Ok_0;
    assert(overlay(c, none) =~= c);
    lemma_fold_keeps(c, none, Table::Claims, kv, 32, a);
    lemma_fold_keeps(c, s1, Table::Content, cv, MAX_BYTES_VALUE as nat, a);
    assert(overlay(c, s).dom().contains(a) && overlay(c, s)[a] == c[a]);
    let m = with_markers(record_changes(s, w), id);
    assert(!m.dom().contains(a) || m[a] == s[a]) by {
        assert(a != lt && a != lc && a != ha && a != ra && a != hi);
    }
}

} // verus!
