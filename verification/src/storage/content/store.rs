//! The content store: uploads begin, take parts one at a time, and are read back
//! part by part with their checksums checked.
use crate::bytes::{bytes_equal, from_be64, read_be64};
use crate::hash::{hemera_digest, hemera_hash};
use crate::storage::access::StorageError;
use crate::storage::content::{
    Error, FileInfo, MAX_PAGE_ENTRIES, MAX_PART_BYTES, PROGRESS_BYTES, Particle, Progress, Result, Spec, State, Upload,
    file, file_error, file_read, file_valid, lemma_file_unique, make_part_key, make_upload_digest,
    make_retention_key, pair_key, part_key, progress, retention_key, progress_bytes, progress_decodes, stored_file, upload_digest,
    progress_error, progress_read, spec_bytes_of, progress_valid, put_progress, same_spec, spec_part_len,
    lemma_progress_own,
    spec_parts, spec_valid, stored_progress, uploads_address, lemma_progress_unique,
};
use crate::storage::database::{
    ByteLimits, Changes, Database, MARKER_RESERVE, addresses_valid, MAX_TRANSACTION_BYTES, MAX_TRANSACTION_KEYS, RawEntry,
    Transaction, apply_changes, engine_scan, lemma_byte_page_len, lemma_untouched_lookup, lookup, raw_view,
    same_error, stage_result, staged_of, with_markers,
};
use crate::storage::table::{Table, address, table_code};
use crate::storage::transfer::{fence_key, fence_key_bytes, stage_key_bytes, transfer_stage_key};
use vstd::prelude::*;
use vstd::string::StringSliceAdditionalSpecFns;

verus! {

/// A page budget between one entry and `MAX_PAGE_ENTRIES`.
pub open spec fn page_valid(limit: usize) -> bool {
    0 < limit <= MAX_PAGE_ENTRIES
}

pub fn page_limit(limit: usize) -> (r: Result<()>)
    ensures
        page_valid(limit) ==> r is Ok,
        !page_valid(limit) ==> r == Err::<(), Error>(
            Error::Storage(StorageError::Limit("content page budget")),
        ),
{
    if limit == 0 || limit > MAX_PAGE_ENTRIES {
        return Err(Error::Storage(StorageError::Limit("content page budget")));
    }
    Ok(())
}

/// Whether `namespace` takes content writes: not while the store is sealed for
/// export, nor while the namespace is staged for transfer or fenced after one.
pub open spec fn writable_spec(
    c: Map<Seq<u8>, Seq<u8>>,
    s: Map<Seq<u8>, Option<Seq<u8>>>,
    namespace: Particle,
) -> Result<()> {
    match lookup(c, s, Table::Migration, "status".spec_bytes(), 16) {
        Err(e) => Err(Error::Storage(e)),
        Ok(v) => if v == Some("export-v1".spec_bytes()) {
            Err(Error::Conflict)
        } else {
            match lookup(c, s, Table::Migration, stage_key_bytes(namespace), 32) {
                Err(e) => Err(Error::Storage(e)),
                Ok(Some(_)) => Err(Error::Conflict),
                Ok(None) => match lookup(c, s, Table::Migration, fence_key_bytes(namespace), 64) {
                    Err(e) => Err(Error::Storage(e)),
                    Ok(Some(_)) => Err(Error::Conflict),
                    Ok(None) => Ok(()),
                },
            }
        },
    }
}

pub fn writable(tx: &Transaction<'_>, namespace: &Particle) -> (r: Result<()>)
    ensures
        r == writable_spec(tx.committed(), tx.staged(), *namespace),
{
    let status = match tx.get(Table::Migration, "status".as_bytes(), 16) {
        Ok(v) => v,
        Err(e) => {
            return Err(Error::Storage(e));
        },
    };
    let sealed = match &status {
        Some(v) => bytes_equal(v.as_slice(), "export-v1".as_bytes()),
        None => false,
    };
    if sealed {
        return Err(Error::Conflict);
    }
    let stage = match tx.get(Table::Migration, transfer_stage_key(namespace).as_slice(), 32) {
        Ok(v) => v,
        Err(e) => {
            return Err(Error::Storage(e));
        },
    };
    if stage.is_some() {
        return Err(Error::Conflict);
    }
    let fence = match tx.get(Table::Migration, fence_key(namespace).as_slice(), 64) {
        Ok(v) => v,
        Err(e) => {
            return Err(Error::Storage(e));
        },
    };
    if fence.is_some() {
        return Err(Error::Conflict);
    }
    Ok(())
}

/// What reading part `index` of an upload gives: its bytes, when present with
/// the length its spec asks for and a matching checksum.
pub open spec fn read_part_spec(
    c: Map<Seq<u8>, Seq<u8>>,
    s: Map<Seq<u8>, Option<Seq<u8>>>,
    upload: Upload,
    spec: Spec,
    index: u64,
) -> Result<Seq<u8>> {
    let key = part_key(upload, index);
    match lookup(c, s, Table::Parts, key, MAX_PART_BYTES as nat) {
        Err(e) => Err(Error::Storage(e)),
        Ok(None) => Err(Error::Incomplete),
        Ok(Some(bytes)) => if !spec_valid(spec) {
            Err(Error::Storage(StorageError::Limit("content part budget")))
        } else if index >= spec_parts(spec) {
            Err(Error::InvalidRange)
        } else if bytes.len() != spec_part_len(spec, index as nat) {
            Err(Error::Storage(StorageError::Corrupt("content part length")))
        } else {
            match lookup(c, s, Table::PartChecks, key, 32) {
                Err(e) => Err(Error::Storage(e)),
                Ok(None) => Err(Error::Incomplete),
                Ok(Some(sum)) => if sum != hemera_digest(bytes) {
                    Err(Error::Storage(StorageError::Corrupt("content part checksum")))
                } else {
                    Ok(bytes)
                },
            }
        },
    }
}

pub fn read_part(tx: &Transaction<'_>, upload: Upload, spec: Spec, index: u64) -> (r: Result<Vec<u8>>)
    ensures
        match read_part_spec(tx.committed(), tx.staged(), upload, spec, index) {
            Ok(b) => r matches Ok(v) && v@ == b,
            Err(e) => r == Err::<Vec<u8>, Error>(e),
        },
{
    let key = make_part_key(upload, index);
    let bytes = match tx.get(Table::Parts, key.as_slice(), MAX_PART_BYTES) {
        Ok(Some(b)) => b,
        Ok(None) => {
            return Err(Error::Incomplete);
        },
        Err(e) => {
            return Err(Error::Storage(e));
        },
    };
    let len = spec.part_len(index)?;
    if bytes.len() != len {
        return Err(Error::Storage(StorageError::Corrupt("content part length")));
    }
    let sum = match tx.get(Table::PartChecks, key.as_slice(), 32) {
        Ok(Some(s)) => s,
        Ok(None) => {
            return Err(Error::Incomplete);
        },
        Err(e) => {
            return Err(Error::Storage(e));
        },
    };
    let expected = hemera_hash(bytes.as_slice());
    if !bytes_equal(sum.as_slice(), &expected) {
        return Err(Error::Storage(StorageError::Corrupt("content part checksum")));
    }
    Ok(bytes)
}

/// `a` and `b` are the same spec.
pub fn spec_equal(a: &Spec, b: &Spec) -> (r: bool)
    ensures
        r == same_spec(*a, *b),
{
    bytes_equal(&a.particle, &b.particle) && bytes_equal(&a.profile, &b.profile) && a.length
        == b.length && a.part_bytes == b.part_bytes
}

/// A new upload: nothing present, staging, nothing reclaimed.
pub open spec fn fresh_progress(spec: Spec) -> Progress {
    Progress { spec, present_parts: 0, state: State::Staging, reclaimed_through: 0 }
}

/// What `begin` answers over committed rows `c`, and the rows it leaves.
pub open spec fn begin_outcome(
    c: Map<Seq<u8>, Seq<u8>>,
    upload: Upload,
    spec: Spec,
    r: Result<Progress>,
    after: Map<Seq<u8>, Seq<u8>>,
) -> bool {
    let none = Map::<Seq<u8>, Option<Seq<u8>>>::empty();
    match writable_spec(c, none, upload.namespace) {
        Err(e) => r == Err::<Progress, Error>(e) && after == c,
        Ok(_) => match lookup(c, none, Table::Uploads, pair_key(upload.namespace, upload.request), 93) {
            Err(e) => r == Err::<Progress, Error>(Error::Storage(e)) && after == c,
            Ok(None) => r == Ok::<Progress, Error>(fresh_progress(spec)) && exists|id: Seq<u8>|
                after == apply_changes(
                    c,
                    with_markers(
                        none.insert(uploads_address(upload), Some(progress_bytes(fresh_progress(spec)))),
                        id,
                    ),
                ),
            Ok(Some(b)) => after == c && if !progress_valid(b) {
                r == Err::<Progress, Error>(progress_error(b))
            } else if !same_spec(stored_progress(b).spec, spec) {
                r == Err::<Progress, Error>(Error::Conflict)
            } else if stored_progress(b).state == State::Cancelled {
                r == Err::<Progress, Error>(Error::Cancelled)
            } else {
                r matches Ok(p) && progress_decodes(b, p)
            },
        },
    }
}

/// Where a part write stands against committed rows.
pub enum PartPlan {
    Refused(Error),
    /// The same bytes are already stored with their checksum.
    Present,
    /// The part is new; the upload's record becomes this one.
    Fresh(Progress),
}

/// The rows that store a new part and the upload's new record.
pub open spec fn part_changes(upload: Upload, index: u64, bytes: Seq<u8>, p: Progress) -> Map<
    Seq<u8>,
    Option<Seq<u8>>,
> {
    Map::<Seq<u8>, Option<Seq<u8>>>::empty().insert(
        address(Table::Parts, part_key(upload, index)),
        Some(bytes),
    ).insert(address(Table::PartChecks, part_key(upload, index)), Some(hemera_digest(bytes))).insert(
        uploads_address(upload),
        Some(progress_bytes(p)),
    )
}

/// What writing `bytes` as part `index` does against committed rows `c`.
pub open spec fn part_plan(c: Map<Seq<u8>, Seq<u8>>, upload: Upload, index: u64, bytes: Seq<u8>) -> PartPlan {
    let none = Map::<Seq<u8>, Option<Seq<u8>>>::empty();
    let key = part_key(upload, index);
    match writable_spec(c, none, upload.namespace) {
        Err(e) => PartPlan::Refused(e),
        Ok(_) => match lookup(c, none, Table::Uploads, pair_key(upload.namespace, upload.request), 93) {
            Err(e) => PartPlan::Refused(Error::Storage(e)),
            Ok(None) => PartPlan::Refused(Error::Missing),
            Ok(Some(b)) => if !progress_valid(b) {
                PartPlan::Refused(progress_error(b))
            } else {
                let p = stored_progress(b);
                if p.state == State::Cancelled {
                    PartPlan::Refused(Error::Cancelled)
                } else if index >= spec_parts(p.spec) || bytes.len() != spec_part_len(
                    p.spec,
                    index as nat,
                ) {
                    PartPlan::Refused(Error::InvalidRange)
                } else {
                    match lookup(c, none, Table::Parts, key, MAX_PART_BYTES as nat) {
                        Err(e) => PartPlan::Refused(Error::Storage(e)),
                        Ok(Some(existing)) => if existing != bytes {
                            PartPlan::Refused(Error::Conflict)
                        } else {
                            match lookup(c, none, Table::PartChecks, key, 32) {
                                Err(e) => PartPlan::Refused(Error::Storage(e)),
                                Ok(v) => if v != Some(hemera_digest(bytes)) {
                                    PartPlan::Refused(
                                        Error::Storage(StorageError::Corrupt("content part checksum")),
                                    )
                                } else {
                                    PartPlan::Present
                                },
                            }
                        },
                        Ok(None) => if p.state != State::Staging {
                            PartPlan::Refused(Error::Conflict)
                        } else {
                            match lookup(c, none, Table::PartChecks, key, 32) {
                                Err(e) => PartPlan::Refused(Error::Storage(e)),
                                Ok(Some(_)) => PartPlan::Refused(
                                    Error::Storage(StorageError::Corrupt("content coverage without bytes")),
                                ),
                                Ok(None) => if p.present_parts >= spec_parts(p.spec) {
                                    PartPlan::Refused(
                                        Error::Storage(StorageError::Corrupt("content part count")),
                                    )
                                } else {
                                    PartPlan::Fresh(
                                        Progress {
                                            spec: p.spec,
                                            present_parts: (p.present_parts + 1) as u64,
                                            state: p.state,
                                            reclaimed_through: p.reclaimed_through,
                                        },
                                    )
                                },
                            }
                        },
                    }
                }
            },
        },
    }
}

/// A refusal: the error, and no row changed.
pub open spec fn refused<T>(r: Result<T>, e: Error, c: Map<Seq<u8>, Seq<u8>>, after: Map<Seq<u8>, Seq<u8>>) -> bool {
    r == Err::<T, Error>(e) && after == c
}

/// Whether the sealed file of `p`'s particle came from `upload`.
pub open spec fn owns_file(c: Map<Seq<u8>, Seq<u8>>, upload: Upload, p: Progress) -> Result<bool> {
    let none = Map::<Seq<u8>, Option<Seq<u8>>>::empty();
    match lookup(c, none, Table::Files, pair_key(upload.namespace, p.spec.particle), 108) {
        Err(e) => Err(Error::Storage(e)),
        Ok(None) => Ok(false),
        Ok(Some(fb)) => if !file_valid(fb, upload.namespace, p.spec.particle) {
            Err(file_error(fb))
        } else {
            Ok(stored_file(fb, upload.namespace, p.spec.particle).upload.request@ == upload.request@)
        },
    }
}

/// The part key after which reclaiming resumes.
pub open spec fn cancel_after(upload: Upload, p: Progress) -> Option<Seq<u8>> {
    if p.reclaimed_through == 0 {
        None
    } else {
        Some(part_key(upload, (p.reclaimed_through - 1) as u64))
    }
}

/// The page budget of one cancel step: `limit` rows of 40-byte keys and 32-byte checksums.
pub open spec fn cancel_limits(limit: usize) -> ByteLimits {
    ByteLimits { max_entries: limit, max_bytes: (limit * 72) as usize }
}

/// Reclaim scanned checksum rows in order: each row must be a stored part at or
/// after the reclaim point; its bytes and checksum are removed.
pub open spec fn reclaim_rows(
    rows: Seq<(Seq<u8>, Seq<u8>)>,
    p: Progress,
    staged: Map<Seq<u8>, Option<Seq<u8>>>,
) -> Result<(Progress, Map<Seq<u8>, Option<Seq<u8>>>)>
    decreases rows.len(),
{
    if rows.len() == 0 {
        Ok((p, staged))
    } else {
        let (key, sum) = rows[0];
        if key.len() != 40 || sum.len() != 32 {
            Err(Error::Storage(StorageError::Corrupt("cancelled content part record")))
        } else {
            let index = from_be64(key.subrange(32, 40));
            if index < p.reclaimed_through || index >= spec_parts(p.spec) {
                Err(Error::Storage(StorageError::Corrupt("cancelled content part index")))
            } else if p.present_parts == 0 {
                Err(Error::Storage(StorageError::Corrupt("cancelled content coverage")))
            } else {
                reclaim_rows(
                    rows.drop_first(),
                    Progress {
                        spec: p.spec,
                        present_parts: (p.present_parts - 1) as u64,
                        state: p.state,
                        reclaimed_through: (index + 1) as u64,
                    },
                    staged.insert(address(Table::Parts, key), None).insert(address(Table::PartChecks, key), None),
                )
            }
        }
    }
}

/// One cancel step over committed entries: whether reclaiming is complete, and
/// the changes it stages.
pub open spec fn reclaim_outcome(
    entries: Seq<(Seq<u8>, Vec<u8>)>,
    upload: Upload,
    p: Progress,
    limit: usize,
) -> Result<(bool, Map<Seq<u8>, Option<Seq<u8>>>)> {
    let none = Map::<Seq<u8>, Option<Seq<u8>>>::empty();
    match engine_scan(entries, Table::PartChecks, cancel_after(upload, p), upload_digest(upload), cancel_limits(limit)) {
        Err(e) => Err(Error::Storage(e)),
        Ok(rows) => match reclaim_rows(
            rows,
            Progress { spec: p.spec, present_parts: p.present_parts, state: State::Cancelled, reclaimed_through: p.reclaimed_through },
            none,
        ) {
            Err(e) => Err(e),
            Ok((q, s)) => if rows.len() < limit && q.present_parts != 0 {
                Err(Error::Storage(StorageError::Corrupt("cancelled content missing coverage")))
            } else {
                let done = if rows.len() < limit {
                    Progress {
                        spec: q.spec,
                        present_parts: q.present_parts,
                        state: q.state,
                        reclaimed_through: spec_parts(q.spec) as u64,
                    }
                } else {
                    q
                };
                Ok((done.reclaimed_through == spec_parts(done.spec), s.insert(uploads_address(upload), Some(progress_bytes(done)))))
            },
        },
    }
}

/// What `cancel` answers over committed rows `c` (in address order `entries`),
/// and the rows it leaves.
pub open spec fn cancel_outcome(
    c: Map<Seq<u8>, Seq<u8>>,
    entries: Seq<(Seq<u8>, Vec<u8>)>,
    upload: Upload,
    limit: usize,
    r: Result<bool>,
    after: Map<Seq<u8>, Seq<u8>>,
) -> bool {
    let none = Map::<Seq<u8>, Option<Seq<u8>>>::empty();
    match writable_spec(c, none, upload.namespace) {
        Err(e) => refused(r, e, c, after),
        Ok(_) => match lookup(c, none, Table::Uploads, pair_key(upload.namespace, upload.request), 93) {
            Err(e) => refused(r, Error::Storage(e), c, after),
            Ok(None) => refused(r, Error::Missing, c, after),
            Ok(Some(b)) => if !progress_valid(b) {
                refused(r, progress_error(b), c, after)
            } else {
                match owns_file(c, upload, stored_progress(b)) {
                    Err(e) => refused(r, e, c, after),
                    Ok(true) => refused(r, Error::Conflict, c, after),
                    Ok(false) => match reclaim_outcome(entries, upload, stored_progress(b), limit) {
                        Err(e) => refused(r, e, c, after),
                        Ok((done, s)) => r == Ok::<bool, Error>(done) && exists|id: Seq<u8>|
                            after == apply_changes(c, with_markers(s, id)),
                    },
                }
            },
        },
    }
}


/// One cancel step inside a transaction that has staged nothing: mark `p`
/// cancelled, reclaim the next page of its parts, and stage its new record.
#[verifier::loop_isolation(false)]
fn reclaim(tx: &mut Transaction<'_>, upload: Upload, p: Progress, limit: usize) -> (r: Result<bool>)
    requires
        old(tx).wf(),
        old(tx).staged() == Map::<Seq<u8>, Option<Seq<u8>>>::empty(),
        old(tx).staged_bytes() == 0,
        page_valid(limit),
    ensures
        final(tx).wf(),
        final(tx).committed() == old(tx).committed(),
        final(tx).committed_entries() == old(tx).committed_entries(),
        match reclaim_outcome(old(tx).committed_entries(), upload, p, limit) {
            Err(e) => r == Err::<bool, Error>(e),
            Ok((done, s)) => r == Ok::<bool, Error>(done) && final(tx).staged() == s,
        },
{
    let ghost none = Map::<Seq<u8>, Option<Seq<u8>>>::empty();
    let ghost c = tx.committed();
    let ghost ce = tx.committed_entries();
    let mut current = p;
    let digest = make_upload_digest(upload);
    let cursor = if current.reclaimed_through == 0 {
        None
    } else {
        Some(make_part_key(upload, current.reclaimed_through - 1))
    };
    let limits = ByteLimits { max_entries: limit, max_bytes: limit * 72 };
    let scanned = match &cursor {
        Some(k) => tx.scan(Table::PartChecks, Some(k.as_slice()), &digest, limits),
        None => tx.scan(Table::PartChecks, None, &digest, limits),
    };
    let rows: Vec<RawEntry> = match scanned {
        Ok(rows) => rows,
        Err(e) => {
            return Err(Error::Storage(e));
        },
    };
    let ghost rv = raw_view(rows@);
    proof {
        assert(tx.staged().dom() =~= Set::<Seq<u8>>::empty());
        lemma_byte_page_len(
            crate::storage::database::select_rows(
                tx.committed_entries(),
                address(Table::PartChecks, upload_digest(upload)),
                match cancel_after(upload, current) {
                    Some(a) => Some(address(Table::PartChecks, a)),
                    None => None,
                },
            ),
            limit as nat,
            (limit * 72) as nat,
            0,
        );
    }
    let exhausted = rows.len() < limit;
    current.state = State::Cancelled;
    let ghost start = current;
    proof {
        assert(rv.skip(0) =~= rv);
        assert(tx.staged() =~= none);
    }
    let mut i: usize = 0;
    while i < rows.len()
        invariant
            tx.wf(),
            tx.committed() == c,
            tx.committed_entries() == ce,
            rv == raw_view(rows@),
            rows@.len() <= limit <= MAX_PAGE_ENTRIES,
            i <= rows@.len(),
            tx.staged().dom().finite(),
            tx.staged().dom().len() <= 2 * i,
            tx.staged_bytes() <= 80 * i,
            reclaim_rows(rv, start, none) == reclaim_rows(rv.skip(i as int), current, tx.staged()),
        decreases rows@.len() - i,
    {
        let key = &rows[i].0;
        let sum = &rows[i].1;
        proof {
            assert(rv.skip(i as int)[0] == rv[i as int]);
            assert(rv.skip(i as int).drop_first() =~= rv.skip(i + 1));
        }
        if key.len() != 40 || sum.len() != 32 {
            return Err(Error::Storage(StorageError::Corrupt("cancelled content part record")));
        }
        let index = read_be64(key.as_slice(), 32);
        if index < current.reclaimed_through || index >= current.spec.parts() {
            return Err(Error::Storage(StorageError::Corrupt("cancelled content part index")));
        }
        match tx.remove(Table::Parts, key.as_slice()) {
            Ok(()) => {},
            Err(e) => {
                return Err(Error::Storage(e));
            },
        }
        match tx.remove(Table::PartChecks, key.as_slice()) {
            Ok(()) => {},
            Err(e) => {
                return Err(Error::Storage(e));
            },
        }
        if current.present_parts == 0 {
            return Err(Error::Storage(StorageError::Corrupt("cancelled content coverage")));
        }
        current.reclaimed_through = index + 1;
        current.present_parts = current.present_parts - 1;
        i = i + 1;
    }
    proof {
        assert(rv.skip(i as int) =~= Seq::<(Seq<u8>, Seq<u8>)>::empty());
        assert(rv.len() == rows@.len());
    }
    let ghost q = current;
    let ghost s_loop = tx.staged();
    assert(reclaim_rows(rv, start, none) == Ok::<(Progress, Map<Seq<u8>, Option<Seq<u8>>>), Error>((q, s_loop)));
    if exhausted {
        if current.present_parts != 0 {
            return Err(Error::Storage(StorageError::Corrupt("cancelled content missing coverage")));
        }
        current.reclaimed_through = current.spec.parts();
    }
    match put_progress(tx, upload, current) {
        Ok(()) => {},
        Err(e) => {
            return Err(e);
        },
    }
    let done = current.reclaimed_through == current.spec.parts();
    proof {
        assert(tx.staged() == s_loop.insert(uploads_address(upload), Some(progress_bytes(current))));
    }
    Ok(done)
}

/// What retaining a sealed file under an application root does against what
/// a transaction sees: the file's descriptor, and whether a new retention
/// record is needed.
pub open spec fn retain_plan(
    c: Map<Seq<u8>, Seq<u8>>,
    s: Map<Seq<u8>, Option<Seq<u8>>>,
    namespace: Particle,
    particle: Particle,
    profile: Particle,
    root: Particle,
) -> Result<(FileInfo, bool)> {
    match writable_spec(c, s, namespace) {
        Err(e) => Err(e),
        Ok(_) => match lookup(c, s, Table::Files, pair_key(namespace, particle), 108) {
            Err(e) => Err(Error::Storage(e)),
            Ok(None) => Err(Error::Missing),
            Ok(Some(fb)) => if !file_valid(fb, namespace, particle) {
                Err(file_error(fb))
            } else {
                let info = stored_file(fb, namespace, particle);
                if info.spec.profile@ != profile@ {
                    Err(Error::ProfileMismatch)
                } else {
                    match lookup(c, s, Table::RetainedContent, retention_key(namespace, root, particle), 32) {
                        Err(e) => Err(Error::Storage(e)),
                        Ok(Some(v)) => if v != profile@ {
                            Err(Error::Conflict)
                        } else {
                            Ok((info, false))
                        },
                        Ok(None) => Ok((info, true)),
                    }
                }
            },
        },
    }
}

impl<'a> Transaction<'a> {
    /// Retain a sealed file in the same transaction as an application head.
    /// Authorization and the request fingerprint belong to the caller.
    pub fn retain_content(&mut self, namespace: Particle, particle: Particle, profile: Particle, root: Particle) -> (r:
        Result<FileInfo>)
        requires
            old(self).wf(),
        ensures
            final(self).wf(),
            final(self).committed() == old(self).committed(),
            final(self).committed_entries() == old(self).committed_entries(),
            match retain_plan(old(self).committed(), old(self).staged(), namespace, particle, profile, root) {
                Err(e) => r == Err::<FileInfo, Error>(e) && final(self).staged() == old(self).staged(),
                Ok((info, false)) => r == Ok::<FileInfo, Error>(info) && final(self).staged() == old(self).staged(),
                Ok((info, true)) => match stage_result(
                    old(self).staged(),
                    old(self).staged_bytes(),
                    Table::RetainedContent,
                    retention_key(namespace, root, particle),
                    Some(profile@),
                ) {
                    Ok(_) => r == Ok::<FileInfo, Error>(info) && final(self).staged() == old(self).staged().insert(
                        address(Table::RetainedContent, retention_key(namespace, root, particle)),
                        Some(profile@),
                    ),
                    Err(e) => r == Err::<FileInfo, Error>(Error::Storage(e)) && final(self).staged() == old(
                        self,
                    ).staged(),
                },
            },
            retain_plan(old(self).committed(), old(self).staged(), namespace, particle, profile, root) is Ok
                && old(self).staged().dom().len() < MAX_TRANSACTION_KEYS - 2 && old(self).staged_bytes() + 64
                + 32 <= MAX_TRANSACTION_BYTES - MARKER_RESERVE ==> r is Ok,
    {
        let ghost c = self.committed();
        let ghost st = self.staged();
        writable(self, &namespace)?;
        let info = match file(self, namespace, particle)? {
            Some(info) => info,
            None => {
                return Err(Error::Missing);
            },
        };
        proof {
            match lookup(c, st, Table::Files, pair_key(namespace, particle), 108) {
                Ok(Some(fb)) => {
                    lemma_file_unique(fb, namespace, particle, info, stored_file(fb, namespace, particle));
                },
                _ => {},
            }
        }
        if !bytes_equal(&info.spec.profile, &profile) {
            return Err(Error::ProfileMismatch);
        }
        let key = make_retention_key(&namespace, &root, &particle);
        let existing = match self.get(Table::RetainedContent, key.as_slice(), 32) {
            Ok(v) => v,
            Err(e) => {
                return Err(Error::Storage(e));
            },
        };
        match existing {
            Some(v) => {
                if !bytes_equal(v.as_slice(), &profile) {
                    return Err(Error::Conflict);
                }
            },
            None => {
                match self.put(Table::RetainedContent, key.as_slice(), &profile) {
                    Ok(()) => {},
                    Err(e) => {
                        return Err(Error::Storage(e));
                    },
                }
            },
        }
        Ok(info)
    }
}

/// Bounded, resumable content storage over the shared owner.
pub struct ContentStore {
    db: Database,
}

impl ContentStore {
    /// The owner this store works on.
    pub closed spec fn database_view(&self) -> Database {
        self.db
    }

    /// Committed rows.
    pub open spec fn contents(&self) -> Map<Seq<u8>, Seq<u8>> {
        self.database_view().contents()
    }

    /// The failure that froze the owner, if any.
    pub open spec fn failure(&self) -> Option<StorageError> {
        self.database_view().failure()
    }

    pub fn from_database(db: Database) -> (s: Self)
        ensures
            s.database_view() == db,
    {
        ContentStore { db }
    }

    pub fn database(&self) -> (db: &Database)
        ensures
            *db == self.database_view(),
    {
        &self.db
    }

    /// Publish changes staged against this store's owner; see `Database::commit`.
    pub(crate) fn commit_changes(&mut self, changes: Changes) -> (id: Option<[u8; 32]>)
        requires
            addresses_valid(changes.entries()),
        ensures
            final(self).failure() == old(self).failure(),
            changes.entries().len() == 0 ==> id is None && final(self).contents() == old(self).contents(),
            changes.entries().len() > 0 ==> (id matches Some(i) && final(self).contents() == apply_changes(
                old(self).contents(),
                with_markers(staged_of(changes@), i@),
            )),
    {
        self.db.commit(changes)
    }

    pub fn into_database(self) -> (db: Database)
        ensures
            db == self.database_view(),
    {
        self.db
    }

    /// Begin an upload, or answer the progress of the same upload begun before.
    pub fn begin(&mut self, upload: Upload, spec: Spec) -> (r: Result<Progress>)
        ensures
            final(self).failure() == old(self).failure(),
            r is Err ==> final(self).contents() == old(self).contents(),
            !spec_valid(spec) ==> r == Err::<Progress, Error>(
                Error::Storage(StorageError::Limit("content part budget")),
            ),
            spec_valid(spec) ==> (old(self).failure() matches Some(f) ==> (r matches Err(
                Error::Storage(e),
            ) && same_error(e, f))),
            spec_valid(spec) && old(self).failure() is None ==> begin_outcome(
                old(self).contents(),
                upload,
                spec,
                r,
                final(self).contents(),
            ),
    {
        spec.validate()?;
        let changes = {
            let mut tx = match self.db.begin() {
                Ok(tx) => tx,
                Err(e) => {
                    return Err(Error::Storage(e));
                },
            };
            writable(&tx, &upload.namespace)?;
            match progress(&tx, upload)? {
                Some(prior) => {
                    if !spec_equal(&prior.spec, &spec) {
                        return Err(Error::Conflict);
                    }
                    match prior.state {
                        State::Cancelled => {
                            return Err(Error::Cancelled);
                        },
                        _ => {},
                    }
                    proof {
                        let b = tx.committed()[uploads_address(upload)];
                        lemma_progress_unique(b, prior, stored_progress(b));
                    }
                    return Ok(prior);
                },
                None => {},
            }
            let value = Progress { spec, present_parts: 0, state: State::Staging, reclaimed_through: 0 };
            match put_progress(&mut tx, upload, value) {
                Ok(()) => {},
                Err(e) => {
                    return Err(e);
                },
            }
            tx.into_changes()
        };
        let ghost staged = staged_of(changes@);
        let id = self.db.commit(changes);
        proof {
            let i = id->Some_0;
            assert(staged == Map::<Seq<u8>, Option<Seq<u8>>>::empty().insert(
                uploads_address(upload),
                Some(progress_bytes(fresh_progress(spec))),
            ));
            assert(self.db.contents() == apply_changes(old(self).db.contents(), with_markers(staged, i@)));
        }
        Ok(Progress { spec, present_parts: 0, state: State::Staging, reclaimed_through: 0 })
    }

    /// The progress of an upload, if it was begun.
    pub fn progress(&self, upload: Upload) -> (r: Result<Option<Progress>>)
        ensures
            self.failure() matches Some(f) ==> (r matches Err(Error::Storage(e)) && same_error(e, f)),
            self.failure() is None ==> progress_read(self.contents(), Map::empty(), upload, r),
    {
        let tx = match self.db.begin() {
            Ok(tx) => tx,
            Err(e) => {
                return Err(Error::Storage(e));
            },
        };
        progress(&tx, upload)
    }

    /// The sealed file `particle` of `namespace`, if there is one.
    pub fn file(&self, namespace: Particle, particle: Particle) -> (r: Result<Option<FileInfo>>)
        ensures
            self.failure() matches Some(f) ==> (r matches Err(Error::Storage(e)) && same_error(e, f)),
            self.failure() is None ==> file_read(self.contents(), Map::empty(), namespace, particle, r),
    {
        let tx = match self.db.begin() {
            Ok(tx) => tx,
            Err(e) => {
                return Err(Error::Storage(e));
            },
        };
        file(&tx, namespace, particle)
    }

    /// Store part `index` of an upload with its checksum. A part already
    /// stored with the same bytes is accepted again and changes nothing.
    pub fn write_part(&mut self, upload: Upload, index: u64, bytes: &[u8]) -> (r: Result<()>)
        ensures
            final(self).failure() == old(self).failure(),
            r is Err ==> final(self).contents() == old(self).contents(),
            bytes@.len() > MAX_PART_BYTES ==> r == Err::<(), Error>(
                Error::Storage(StorageError::Limit("content part bytes")),
            ),
            bytes@.len() <= MAX_PART_BYTES ==> (old(self).failure() matches Some(f) ==> (r matches Err(
                Error::Storage(e),
            ) && same_error(e, f))),
            bytes@.len() <= MAX_PART_BYTES && old(self).failure() is None ==> match part_plan(
                old(self).contents(),
                upload,
                index,
                bytes@,
            ) {
                PartPlan::Refused(e) => r == Err::<(), Error>(e),
                PartPlan::Present => r is Ok && final(self).contents() == old(self).contents(),
                PartPlan::Fresh(p) => r is Ok && exists|id: Seq<u8>|
                    final(self).contents() == apply_changes(
                        old(self).contents(),
                        with_markers(part_changes(upload, index, bytes@, p), id),
                    ),
            },
    {
        if bytes.len() > MAX_PART_BYTES {
            return Err(Error::Storage(StorageError::Limit("content part bytes")));
        }
        let checksum = hemera_hash(bytes);
        let key = make_part_key(upload, index);
        let ghost c = self.db.contents();
        let changes = {
            let mut tx = match self.db.begin() {
                Ok(tx) => tx,
                Err(e) => {
                    return Err(Error::Storage(e));
                },
            };
            writable(&tx, &upload.namespace)?;
            let mut current = match progress(&tx, upload)? {
                Some(p) => p,
                None => {
                    return Err(Error::Missing);
                },
            };
            let ghost b = c[uploads_address(upload)];
            proof {
                lemma_progress_unique(b, current, stored_progress(b));
            }
            match current.state {
                State::Cancelled => {
                    return Err(Error::Cancelled);
                },
                _ => {},
            }
            let len = match current.spec.part_len(index) {
                Ok(n) => n,
                Err(e) => {
                    return Err(e);
                },
            };
            if bytes.len() != len {
                return Err(Error::InvalidRange);
            }
            let existing = match tx.get(Table::Parts, key.as_slice(), MAX_PART_BYTES) {
                Ok(v) => v,
                Err(e) => {
                    return Err(Error::Storage(e));
                },
            };
            match existing {
                Some(e) => {
                    if !bytes_equal(e.as_slice(), bytes) {
                        return Err(Error::Conflict);
                    }
                    let sum = match tx.get(Table::PartChecks, key.as_slice(), 32) {
                        Ok(v) => v,
                        Err(e) => {
                            return Err(Error::Storage(e));
                        },
                    };
                    let matches = match &sum {
                        Some(s) => bytes_equal(s.as_slice(), &checksum),
                        None => false,
                    };
                    if !matches {
                        return Err(Error::Storage(StorageError::Corrupt("content part checksum")));
                    }
                    return Ok(());
                },
                None => {},
            }
            match current.state {
                State::Staging => {},
                _ => {
                    return Err(Error::Conflict);
                },
            }
            let sum = match tx.get(Table::PartChecks, key.as_slice(), 32) {
                Ok(v) => v,
                Err(e) => {
                    return Err(Error::Storage(e));
                },
            };
            if sum.is_some() {
                return Err(Error::Storage(StorageError::Corrupt("content coverage without bytes")));
            }
            let parts = current.spec.parts();
            if current.present_parts >= parts {
                return Err(Error::Storage(StorageError::Corrupt("content part count")));
            }
            current.present_parts = current.present_parts + 1;
            match tx.put(Table::Parts, key.as_slice(), bytes) {
                Ok(()) => {},
                Err(e) => {
                    return Err(Error::Storage(e));
                },
            }
            match tx.put(Table::PartChecks, key.as_slice(), &checksum) {
                Ok(()) => {},
                Err(e) => {
                    return Err(Error::Storage(e));
                },
            }
            match put_progress(&mut tx, upload, current) {
                Ok(()) => {},
                Err(e) => {
                    return Err(e);
                },
            }
            proof {
                let q = stored_progress(b);
                let planned = Progress {
                    spec: q.spec,
                    present_parts: (q.present_parts + 1) as u64,
                    state: q.state,
                    reclaimed_through: q.reclaimed_through,
                };
                assert(spec_bytes_of(current.spec) =~= spec_bytes_of(planned.spec));
                assert(progress_bytes(current) =~= progress_bytes(planned));
                assert(tx.staged() =~= part_changes(upload, index, bytes@, planned));
            }
            tx.into_changes()
        };
        let ghost staged = staged_of(changes@);
        let id = self.db.commit(changes);
        proof {
            let i = id->Some_0;
            assert(self.db.contents() == apply_changes(c, with_markers(staged, i@)));
        }
        Ok(())
    }

    /// Cancel an upload and reclaim at most `limit` of its stored parts; true
    /// once every part is reclaimed. The cancelled record stays, so the upload's
    /// identity is never reused. A sealed file's own upload is not cancelled.
    pub fn cancel(&mut self, upload: Upload, limit: usize) -> (r: Result<bool>)
        ensures
            final(self).failure() == old(self).failure(),
            r is Err ==> final(self).contents() == old(self).contents(),
            !page_valid(limit) ==> r == Err::<bool, Error>(
                Error::Storage(StorageError::Limit("content page budget")),
            ),
            page_valid(limit) ==> (old(self).failure() matches Some(f) ==> (r matches Err(
                Error::Storage(e),
            ) && same_error(e, f))),
            page_valid(limit) && old(self).failure() is None ==> cancel_outcome(
                old(self).contents(),
                old(self).database_view().entries(),
                upload,
                limit,
                r,
                final(self).contents(),
            ),
    {
        page_limit(limit)?;
        let ghost c = self.db.contents();
        let ghost c_entries = self.db.entries();
        let ghost none = Map::<Seq<u8>, Option<Seq<u8>>>::empty();
        let result = {
            let mut tx = match self.db.begin() {
                Ok(tx) => tx,
                Err(e) => {
                    return Err(Error::Storage(e));
                },
            };
            writable(&tx, &upload.namespace)?;
            let mut current = match progress(&tx, upload)? {
                Some(p) => p,
                None => {
                    return Err(Error::Missing);
                },
            };
            let ghost b = c[uploads_address(upload)];
            proof {
                lemma_progress_unique(b, current, stored_progress(b));
            }
            let existing = file(&tx, upload.namespace, current.spec.particle)?;
            match existing {
                Some(f) => {
                    proof {
                        let fb = c[address(Table::Files, pair_key(upload.namespace, current.spec.particle))];
                        lemma_file_unique(fb, upload.namespace, current.spec.particle, f, stored_file(fb, upload.namespace, current.spec.particle));
                    }
                    if bytes_equal(&f.upload.request, &upload.request) {
                        return Err(Error::Conflict);
                    }
                },
                None => {},
            }
            let done = match reclaim(&mut tx, upload, current, limit) {
                Ok(d) => d,
                Err(e) => {
                    return Err(e);
                },
            };
            let ghost s_final = tx.staged();
            (done, tx.into_changes(), Ghost(s_final))
        };
        let (done, changes, Ghost(s_final)) = result;
        let ghost staged = staged_of(changes@);
        proof {
            assert(staged == s_final);
            vstd::set::axiom_set_contains_len(staged.dom(), uploads_address(upload));
        }
        let id = self.db.commit(changes);
        proof {
            let i = id->Some_0;
            assert(self.db.contents() == apply_changes(c, with_markers(staged, i@)));
        }
        Ok(done)
    }
}


/// The migration reads that decide whether a namespace is writable are not
/// touched by changes outside the migration table.
proof fn lemma_writable_kept(
    c: Map<Seq<u8>, Seq<u8>>,
    s: Map<Seq<u8>, Option<Seq<u8>>>,
    id: Seq<u8>,
    namespace: Particle,
)
    requires
        forall|a: Seq<u8>| #[trigger] s.dom().contains(a) ==> a.len() >= 1 && a[0] != table_code(Table::Migration),
    ensures
        writable_spec(apply_changes(c, with_markers(s, id)), Map::empty(), namespace) == writable_spec(
            c,
            Map::empty(),
            namespace,
        ),
{
    reveal_strlit("status");
    let keys = seq!["status".spec_bytes(), stage_key_bytes(namespace), fence_key_bytes(namespace)];
    assert forall|i: int| 0 <= i < 3 implies !s.dom().contains(address(Table::Migration, #[trigger] keys[i])) by {
        assert(address(Table::Migration, keys[i])[0] == table_code(Table::Migration));
    }
    lemma_untouched_lookup(c, s, id, Table::Migration, keys[0], 16);
    lemma_untouched_lookup(c, s, id, Table::Migration, keys[1], 32);
    lemma_untouched_lookup(c, s, id, Table::Migration, keys[2], 64);
}

/// Beginning an upload again with the same spec answers what the first
/// successful begin answered, and changes nothing.
pub proof fn law_begin_retry_answers_the_same(
    c: Map<Seq<u8>, Seq<u8>>,
    upload: Upload,
    spec: Spec,
    r1: Result<Progress>,
    after1: Map<Seq<u8>, Seq<u8>>,
    r2: Result<Progress>,
    after2: Map<Seq<u8>, Seq<u8>>,
)
    requires
        spec_valid(spec),
        begin_outcome(c, upload, spec, r1, after1),
        r1 is Ok,
        begin_outcome(after1, upload, spec, r2, after2),
    ensures
        r2 == r1,
        after2 == after1,
{
    let none = Map::<Seq<u8>, Option<Seq<u8>>>::empty();
    let key = pair_key(upload.namespace, upload.request);
    match lookup(c, none, Table::Uploads, key, 93) {
        Ok(None) => {
            let fresh = fresh_progress(spec);
            let pb = progress_bytes(fresh);
            let ch = none.insert(uploads_address(upload), Some(pb));
            let id = choose|id: Seq<u8>| after1 == apply_changes(c, #[trigger] with_markers(ch, id));
            assert(uploads_address(upload) == address(Table::Uploads, key));
            assert(forall|a: Seq<u8>| #[trigger] ch.dom().contains(a) ==> a.len() >= 1 && a[0] != table_code(Table::Migration));
            lemma_writable_kept(c, ch, id, upload.namespace);
            lemma_progress_own(fresh);
            crate::storage::database::law_committed_write_reads_back(c, ch, id, Table::Uploads, key, pb, 93);
            let stored = stored_progress(pb);
            lemma_progress_unique(pb, fresh, stored);
            let p2 = r2->Ok_0;
            lemma_progress_unique(pb, fresh, p2);
        },
        Ok(Some(b)) => {
            let p1 = r1->Ok_0;
            let p2 = r2->Ok_0;
            lemma_progress_unique(b, p1, p2);
        },
        Err(_) => {},
    }
}

/// Writing a part again with the bytes just written finds it present.
pub proof fn law_part_retry_is_present(
    c: Map<Seq<u8>, Seq<u8>>,
    upload: Upload,
    index: u64,
    bytes: Seq<u8>,
    p: Progress,
    id: Seq<u8>,
)
    requires
        part_plan(c, upload, index, bytes) == PartPlan::Fresh(p),
        bytes.len() <= MAX_PART_BYTES,
        hemera_digest(bytes).len() == 32,
    ensures
        part_plan(apply_changes(c, with_markers(part_changes(upload, index, bytes, p), id)), upload, index, bytes)
            == PartPlan::Present,
{
    let none = Map::<Seq<u8>, Option<Seq<u8>>>::empty();
    let ch = part_changes(upload, index, bytes, p);
    let after = apply_changes(c, with_markers(ch, id));
    let key = part_key(upload, index);
    let ukey = pair_key(upload.namespace, upload.request);
    let b = c[address(Table::Uploads, ukey)];
    let old_p = stored_progress(b);
    assert(uploads_address(upload) == address(Table::Uploads, ukey));
    assert(forall|a: Seq<u8>| #[trigger] ch.dom().contains(a) ==> a.len() >= 1 && a[0] != table_code(Table::Migration));
    lemma_writable_kept(c, ch, id, upload.namespace);
    assert(spec_valid(old_p.spec));
    lemma_progress_own(p);
    crate::storage::database::law_committed_write_reads_back(c, ch, id, Table::Uploads, ukey, progress_bytes(p), 93);
    lemma_progress_unique(progress_bytes(p), p, stored_progress(progress_bytes(p)));
    crate::storage::database::law_committed_write_reads_back(c, ch, id, Table::Parts, key, bytes, MAX_PART_BYTES as nat);
    crate::storage::database::law_committed_write_reads_back(c, ch, id, Table::PartChecks, key, hemera_digest(bytes), 32);
}

} // verus!
