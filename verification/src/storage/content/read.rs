//! Reads of the content store: upload listings, part coverage, sealed ranges,
//! and retention records.
use crate::bytes::{append_bytes, bytes_equal, has_prefix, read_array32, starts_with};
use crate::storage::access::StorageError;
use crate::storage::content::store::{ContentStore, page_limit, page_valid, read_part, read_part_spec};
use crate::storage::content::{
    Coverage, Error, FileInfo, MAX_PART_BYTES, PROGRESS_BYTES, Particle, Progress, Result, State,
    Upload, decode_progress, file, file_decodes, file_error, file_valid, lemma_file_unique,
    lemma_progress_unique, make_pair_key, make_part_key, make_retention_key, pair_key, part_key,
    progress, progress_decodes, progress_error, progress_valid, retention_key, spec_parts,
    stored_file, stored_progress,
};
use crate::storage::database::{
    ByteLimits, Database, RawEntry, engine_scan, lemma_byte_page_len, lookup, raw_view, same_error,
};
use crate::storage::table::{Table, address};
use vstd::prelude::*;

verus! {

/// Why a listed upload row is refused, if it is.
pub open spec fn upload_row_error(row: (Seq<u8>, Seq<u8>), namespace: Particle) -> Option<Error> {
    if row.0.len() != 64 || row.0.subrange(0, 32) != namespace@ {
        Some(Error::Storage(StorageError::Corrupt("upload key")))
    } else if !progress_valid(row.1) {
        Some(progress_error(row.1))
    } else {
        None
    }
}

/// The first refusal among listed upload rows.
pub open spec fn first_upload_error(rows: Seq<(Seq<u8>, Seq<u8>)>, namespace: Particle) -> Option<Error>
    decreases rows.len(),
{
    if rows.len() == 0 {
        None
    } else {
        match upload_row_error(rows[0], namespace) {
            Some(e) => Some(e),
            None => first_upload_error(rows.drop_first(), namespace),
        }
    }
}

/// Rows before `i` are accepted: the first refusal lies at `i` or later.
proof fn lemma_first_upload_error(rows: Seq<(Seq<u8>, Seq<u8>)>, namespace: Particle, i: int)
    requires
        0 <= i <= rows.len(),
        forall|j: int| 0 <= j < i ==> upload_row_error(#[trigger] rows[j], namespace) is None,
    ensures
        first_upload_error(rows, namespace) == first_upload_error(rows.skip(i), namespace),
    decreases i,
{
    if i > 0 {
        assert(rows.drop_first().skip(i - 1) =~= rows.skip(i));
        lemma_first_upload_error(rows.drop_first(), namespace, i - 1);
    } else {
        assert(rows.skip(0) =~= rows);
    }
}

/// The page budget of an upload listing.
pub open spec fn upload_limits(limit: usize) -> ByteLimits {
    ByteLimits { max_entries: limit, max_bytes: (limit * 157) as usize }
}

/// The listing cursor: the key of the last request seen.
pub open spec fn upload_cursor(namespace: Particle, after: Option<Particle>) -> Option<Seq<u8>> {
    match after {
        Some(request) => Some(pair_key(namespace, request)),
        None => None,
    }
}

/// What a part's checksum row says of its coverage.
pub open spec fn check_at(c: Map<Seq<u8>, Seq<u8>>, upload: Upload, index: u64) -> Result<bool> {
    match lookup(c, Map::empty(), Table::PartChecks, part_key(upload, index), 32) {
        Err(e) => Err(Error::Storage(e)),
        Ok(None) => Ok(false),
        Ok(Some(v)) => if v.len() != 32 {
            Err(Error::Storage(StorageError::Corrupt("content coverage checksum")))
        } else {
            Ok(true)
        },
    }
}

/// Coverage of positions `from..end`, or the first failure among them.
pub open spec fn coverage_from(c: Map<Seq<u8>, Seq<u8>>, upload: Upload, from: nat, end: nat) -> Result<
    Seq<(u64, bool)>,
>
    decreases end - from,
{
    if from >= end {
        Ok(Seq::empty())
    } else {
        match check_at(c, upload, from as u64) {
            Err(e) => Err(e),
            Ok(b) => match coverage_from(c, upload, from + 1, end) {
                Err(e) => Err(e),
                Ok(s) => Ok(seq![(from as u64, b)] + s),
            },
        }
    }
}

/// The end of a coverage page: `limit` positions on, or the part count.
pub open spec fn coverage_end(from: u64, limit: usize, parts: nat) -> nat {
    if from + limit < parts {
        (from + limit) as nat
    } else {
        parts
    }
}

/// `count` bytes of a sealed file from `position` on, part by part.
pub open spec fn range_bytes(c: Map<Seq<u8>, Seq<u8>>, info: FileInfo, position: nat, count: nat) -> Result<
    Seq<u8>,
>
    decreases count,
{
    if count == 0 || info.spec.part_bytes == 0 {
        Ok(Seq::empty())
    } else {
        let size = info.spec.part_bytes as nat;
        let index = position / size;
        match read_part_spec(c, Map::empty(), info.upload, info.spec, index as u64) {
            Err(e) => Err(e),
            Ok(bytes) => {
                let start = position % size;
                let take = if count < bytes.len() - start {
                    count as int
                } else {
                    bytes.len() - start
                };
                if take <= 0 {
                    Err(Error::InvalidRange)
                } else {
                    match range_bytes(c, info, (position + take) as nat, (count - take) as nat) {
                        Err(e) => Err(e),
                        Ok(rest) => Ok(bytes.subrange(start as int, start + take) + rest),
                    }
                }
            },
        }
    }
}

/// A position inside the content lies inside its part.
proof fn lemma_position_in_part(length: nat, size: nat, position: nat)
    requires
        size > 0,
        position < length,
    ensures
        (position / size) * size + position % size == position,
        position % size < size,
        position % size < length - (position / size) * size,
        (position / size) * size <= position,
{
    assert((position / size) * size + position % size == position) by (nonlinear_arith)
        requires
            size > 0,
    ;
    assert(position % size < size) by (nonlinear_arith)
        requires
            size > 0,
    ;
}

impl ContentStore {
    /// List uploads of one namespace, at most `limit`, after request `after`.
    #[verifier::loop_isolation(false)]
    pub fn uploads(&self, namespace: Particle, after: Option<Particle>, limit: usize) -> (r: Result<
        Vec<(Upload, Progress)>,
    >)
        ensures
            !page_valid(limit) ==> r == Err::<Vec<(Upload, Progress)>, Error>(
                Error::Storage(StorageError::Limit("content page budget")),
            ),
            page_valid(limit) ==> (self.failure() matches Some(f) ==> (r matches Err(Error::Storage(e))
                && same_error(e, f))),
            page_valid(limit) && self.failure() is None ==> match engine_scan(
                self.database_view().entries(),
                Table::Uploads,
                upload_cursor(namespace, after),
                namespace@,
                upload_limits(limit),
            ) {
                Err(e) => r == Err::<Vec<(Upload, Progress)>, Error>(Error::Storage(e)),
                Ok(rows) => match first_upload_error(rows, namespace) {
                    Some(e) => r == Err::<Vec<(Upload, Progress)>, Error>(e),
                    None => r matches Ok(v) && v@.len() == rows.len() && forall|i: int|
                        0 <= i < rows.len() ==> {
                            &&& (#[trigger] v@[i]).0.namespace == namespace
                            &&& v@[i].0.request@ == rows[i].0.subrange(32, 64)
                            &&& progress_decodes(rows[i].1, v@[i].1)
                        },
                },
            },
    {
        page_limit(limit)?;
        let cursor = match &after {
            Some(request) => Some(make_pair_key(&namespace, request)),
            None => None,
        };
        let limits = ByteLimits { max_entries: limit, max_bytes: limit * 157 };
        let scanned = match &cursor {
            Some(k) => self.database().scan(Table::Uploads, Some(k.as_slice()), &namespace, limits),
            None => self.database().scan(Table::Uploads, None, &namespace, limits),
        };
        let rows: Vec<RawEntry> = match scanned {
            Ok(rows) => rows,
            Err(e) => {
                return Err(Error::Storage(e));
            },
        };
        let ghost rv = raw_view(rows@);
        let mut out: Vec<(Upload, Progress)> = Vec::new();
        let mut i: usize = 0;
        while i < rows.len()
            invariant
                rv == raw_view(rows@),
                i <= rows@.len(),
                out@.len() == i,
                forall|j: int| 0 <= j < i ==> upload_row_error(#[trigger] rv[j], namespace) is None,
                forall|j: int|
                    0 <= j < i ==> {
                        &&& (#[trigger] out@[j]).0.namespace == namespace
                        &&& out@[j].0.request@ == rv[j].0.subrange(32, 64)
                        &&& progress_decodes(rv[j].1, out@[j].1)
                    },
            decreases rows@.len() - i,
        {
            let key = &rows[i].0;
            let value = &rows[i].1;
            if key.len() != 64 || !starts_with(key.as_slice(), &namespace) {
                proof {
                    lemma_first_upload_error(rv, namespace, i as int);
                    if key@.len() == 64 {
                        assert(!has_prefix(key@, namespace@));
                        assert(key@.subrange(0, 32) != namespace@);
                    }
                }
                return Err(Error::Storage(StorageError::Corrupt("upload key")));
            }
            assert(key@.subrange(0, 32) =~= namespace@);
            let p = match decode_progress(value.as_slice()) {
                Ok(p) => p,
                Err(e) => {
                    proof {
                        lemma_first_upload_error(rv, namespace, i as int);
                    }
                    return Err(e);
                },
            };
            let request = read_array32(key.as_slice(), 32);
            out.push((Upload { namespace, request }, p));
            i = i + 1;
        }
        proof {
            lemma_first_upload_error(rv, namespace, i as int);
            assert(rv.skip(i as int) =~= Seq::<(Seq<u8>, Seq<u8>)>::empty());
        }
        Ok(out)
    }

    /// Which of at most `limit` consecutive parts from `from` on have arrived.
    #[verifier::loop_isolation(false)]
    pub fn coverage(&self, upload: Upload, from: u64, limit: usize) -> (r: Result<Coverage>)
        ensures
            !page_valid(limit) ==> r == Err::<Coverage, Error>(
                Error::Storage(StorageError::Limit("content page budget")),
            ),
            page_valid(limit) ==> (self.failure() matches Some(f) ==> (r matches Err(Error::Storage(e))
                && same_error(e, f))),
            page_valid(limit) && self.failure() is None ==> match lookup(
                self.contents(),
                Map::empty(),
                Table::Uploads,
                pair_key(upload.namespace, upload.request),
                93,
            ) {
                Err(e) => r == Err::<Coverage, Error>(Error::Storage(e)),
                Ok(None) => r == Err::<Coverage, Error>(Error::Missing),
                Ok(Some(b)) => if !progress_valid(b) {
                    r == Err::<Coverage, Error>(progress_error(b))
                } else if stored_progress(b).state == State::Cancelled {
                    r == Err::<Coverage, Error>(Error::Cancelled)
                } else if from > spec_parts(stored_progress(b).spec) {
                    r == Err::<Coverage, Error>(Error::InvalidRange)
                } else {
                    let parts = spec_parts(stored_progress(b).spec);
                    let end = coverage_end(from, limit, parts);
                    match coverage_from(self.contents(), upload, from as nat, end) {
                        Err(e) => r == Err::<Coverage, Error>(e),
                        Ok(s) => r matches Ok(cov) && cov.present@ == s && cov.next == if end < parts {
                            Some(end as u64)
                        } else {
                            None::<u64>
                        },
                    }
                },
            },
    {
        page_limit(limit)?;
        let tx = match self.database().begin() {
            Ok(tx) => tx,
            Err(e) => {
                return Err(Error::Storage(e));
            },
        };
        let ghost c = self.contents();
        let current = match progress(&tx, upload)? {
            Some(p) => p,
            None => {
                return Err(Error::Missing);
            },
        };
        proof {
            let b = c[address(Table::Uploads, pair_key(upload.namespace, upload.request))];
            lemma_progress_unique(b, current, stored_progress(b));
        }
        match current.state {
            State::Cancelled => {
                return Err(Error::Cancelled);
            },
            _ => {},
        }
        let parts = current.spec.parts();
        if from > parts {
            return Err(Error::InvalidRange);
        }
        let end = if parts - from > limit as u64 {
            from + limit as u64
        } else {
            parts
        };
        let mut present: Vec<(u64, bool)> = Vec::new();
        let mut index = from;
        proof {
            assert(present@ + Seq::<(u64, bool)>::empty() =~= present@);
        }
        while index < end
            invariant
                from <= index <= end,
                tx.committed() == c,
                tx.staged() == Map::<Seq<u8>, Option<Seq<u8>>>::empty(),
                coverage_from(c, upload, from as nat, end as nat) == match coverage_from(
                    c,
                    upload,
                    index as nat,
                    end as nat,
                ) {
                    Err(e) => Err(e),
                    Ok(s) => Ok::<Seq<(u64, bool)>, Error>(present@ + s),
                },
            decreases end - index,
        {
            let key = make_part_key(upload, index);
            let sum = match tx.get(Table::PartChecks, key.as_slice(), 32) {
                Ok(v) => v,
                Err(e) => {
                    return Err(Error::Storage(e));
                },
            };
            let arrived = match &sum {
                Some(v) => {
                    if v.len() != 32 {
                        return Err(Error::Storage(StorageError::Corrupt("content coverage checksum")));
                    }
                    true
                },
                None => false,
            };
            proof {
                match coverage_from(c, upload, (index + 1) as nat, end as nat) {
                    Err(e) => {},
                    Ok(s) => {
                        assert(present@.push((index, arrived)) + s =~= present@ + (seq![(index, arrived)] + s));
                    },
                }
            }
            present.push((index, arrived));
            index = index + 1;
        }
        proof {
            assert(present@ + Seq::<(u64, bool)>::empty() =~= present@);
        }
        let next = if end < parts {
            Some(end)
        } else {
            None
        };
        Ok(Coverage { present, next })
    }

    /// Read at most `max_bytes` of a sealed file from `offset` on, checking
    /// each part's length and checksum. A local check, not a range proof.
    #[verifier::loop_isolation(false)]
    pub fn read_range(
        &self,
        namespace: Particle,
        particle: Particle,
        profile: Particle,
        offset: u64,
        max_bytes: usize,
    ) -> (r: Result<Vec<u8>>)
        ensures
            max_bytes > MAX_PART_BYTES ==> r == Err::<Vec<u8>, Error>(
                Error::Storage(StorageError::Limit("content read budget")),
            ),
            max_bytes <= MAX_PART_BYTES ==> (self.failure() matches Some(f) ==> (r matches Err(
                Error::Storage(e),
            ) && same_error(e, f))),
            max_bytes <= MAX_PART_BYTES && self.failure() is None ==> match lookup(
                self.contents(),
                Map::empty(),
                Table::Files,
                pair_key(namespace, particle),
                108,
            ) {
                Err(e) => r == Err::<Vec<u8>, Error>(Error::Storage(e)),
                Ok(None) => r == Err::<Vec<u8>, Error>(Error::Missing),
                Ok(Some(fb)) => if !file_valid(fb, namespace, particle) {
                    r == Err::<Vec<u8>, Error>(file_error(fb))
                } else {
                    let info = stored_file(fb, namespace, particle);
                    if info.spec.profile@ != profile@ {
                        r == Err::<Vec<u8>, Error>(Error::ProfileMismatch)
                    } else if offset > info.spec.length {
                        r == Err::<Vec<u8>, Error>(Error::InvalidRange)
                    } else {
                        let count = if info.spec.length - offset < max_bytes {
                            (info.spec.length - offset) as nat
                        } else {
                            max_bytes as nat
                        };
                        match range_bytes(self.contents(), info, offset as nat, count) {
                            Err(e) => r == Err::<Vec<u8>, Error>(e),
                            Ok(s) => r matches Ok(v) && v@ == s,
                        }
                    }
                },
            },
    {
        if max_bytes > MAX_PART_BYTES {
            return Err(Error::Storage(StorageError::Limit("content read budget")));
        }
        let ghost c = self.contents();
        let info = match self.file(namespace, particle)? {
            Some(info) => info,
            None => {
                return Err(Error::Missing);
            },
        };
        proof {
            let fb = c[address(Table::Files, pair_key(namespace, particle))];
            lemma_file_unique(fb, namespace, particle, info, stored_file(fb, namespace, particle));
        }
        if !bytes_equal(&info.spec.profile, &profile) {
            return Err(Error::ProfileMismatch);
        }
        if offset > info.spec.length {
            return Err(Error::InvalidRange);
        }
        let count: usize = if info.spec.length - offset < max_bytes as u64 {
            (info.spec.length - offset) as usize
        } else {
            max_bytes
        };
        let size = info.spec.part_bytes as u64;
        let mut output: Vec<u8> = Vec::new();
        let mut position = offset;
        proof {
            assert(output@ + Seq::<u8>::empty() =~= output@);
        }
        while output.len() < count
            invariant
                count <= max_bytes <= MAX_PART_BYTES,
                offset + count <= info.spec.length,
                0 < size <= MAX_PART_BYTES,
                size == info.spec.part_bytes,
                position == offset + output@.len(),
                output@.len() <= count,
                self.failure() is None,
                self.contents() == c,
                range_bytes(c, info, offset as nat, count as nat) == match range_bytes(
                    c,
                    info,
                    position as nat,
                    (count - output@.len()) as nat,
                ) {
                    Err(e) => Err(e),
                    Ok(s) => Ok::<Seq<u8>, Error>(output@ + s),
                },
            decreases count - output@.len(),
        {
            let index = position / size;
            let bytes = {
                let tx = match self.database().begin() {
                    Ok(tx) => tx,
                    Err(e) => {
                        return Err(Error::Storage(e));
                    },
                };
                match read_part(&tx, info.upload, info.spec, index) {
                    Ok(b) => b,
                    Err(e) => {
                        return Err(e);
                    },
                }
            };
            let start = position % size;
            proof {
                lemma_position_in_part(info.spec.length as nat, size as nat, position as nat);
            }
            let available = bytes.len() as u64 - start;
            let remaining = (count - output.len()) as u64;
            let take = if remaining < available {
                remaining
            } else {
                available
            };
            let mut k: u64 = 0;
            let ghost before = output@;
            while k < take
                invariant
                    k <= take,
                    start + take <= bytes@.len(),
                    output@ == before + bytes@.subrange(start as int, start + k),
                decreases take - k,
            {
                output.push(bytes[(start + k) as usize]);
                proof {
                    assert(bytes@.subrange(start as int, start + k + 1) =~= bytes@.subrange(
                        start as int,
                        start + k,
                    ).push(bytes@[start + k]));
                }
                k = k + 1;
            }
            proof {
                let rest = (count - before.len()) as nat;
                match range_bytes(c, info, (position + take) as nat, (rest - take) as nat) {
                    Err(e) => {},
                    Ok(s) => {
                        assert(before + (bytes@.subrange(start as int, start + take) + s) =~= output@ + s);
                    },
                }
            }
            position = position + take;
        }
        proof {
            assert(output@ + Seq::<u8>::empty() =~= output@);
        }
        Ok(output)
    }

    /// Whether `particle` is retained under application root `root` with `profile`.
    pub fn is_retained(&self, namespace: Particle, particle: Particle, profile: Particle, root: Particle) -> (r:
        Result<bool>)
        ensures
            self.failure() matches Some(f) ==> (r matches Err(Error::Storage(e)) && same_error(e, f)),
            self.failure() is None ==> match lookup(
                self.contents(),
                Map::empty(),
                Table::RetainedContent,
                retention_key(namespace, root, particle),
                32,
            ) {
                Err(e) => r == Err::<bool, Error>(Error::Storage(e)),
                Ok(None) => r == Ok::<bool, Error>(false),
                Ok(Some(v)) => if v == profile@ {
                    r == Ok::<bool, Error>(true)
                } else {
                    r == Err::<bool, Error>(Error::ProfileMismatch)
                },
            },
    {
        let key = make_retention_key(&namespace, &root, &particle);
        let value = match self.database().read(Table::RetainedContent, key.as_slice(), 32) {
            Ok(v) => v,
            Err(e) => {
                return Err(Error::Storage(e));
            },
        };
        match value {
            Some(v) => {
                if bytes_equal(v.as_slice(), &profile) {
                    Ok(true)
                } else {
                    Err(Error::ProfileMismatch)
                }
            },
            None => Ok(false),
        }
    }
}

} // verus!
