//! Read-only inspection of an application-only store, original or sealed for
//! export: its sources (every namespace head), its seal, its last transaction.
use crate::bytes::{append_bytes, bytes_equal, copy_bytes, from_be64, read_array32};
use crate::hash::{hemera_digest, hemera_hash};
use crate::storage::application::{
    ApplicationStore, Error, Head, Particle, app_error, decode_head, encode_head, from_storage,
    content_address, head_bytes, head_decodes, heads_address, history_key, history_outcome, history_rows_valid,
    lemma_head_roundtrip, requests_address, same_app_error,
};
use crate::storage::database::{
    ByteLimits, Database, MAX_BYTES_VALUE, MAX_TRANSACTION_BYTES, RawEntry, engine_scan, lookup,
    raw_view,
};
use crate::storage::records::{RECORD_DOMAINS, RecordDomain};
use crate::storage::table::{Table, address};
use vstd::prelude::*;
use vstd::string::StringSliceAdditionalSpecFns;

verus! {

pub const MAX_INSPECTION_ROWS: u64 = 1_000_000;

pub const MAX_INSPECTION_BYTES: u64 = 8_589_934_592;

/// The seal of a store exported for transfer.
#[derive(Clone, Copy, Debug, PartialEq, Eq)]
pub struct ArchiveSeal {
    pub target: Particle,
    pub nonce: Particle,
    pub prior: Particle,
    pub manifest: Particle,
}

/// Counts and digest of an inspected archive.
#[derive(Clone, Copy, Debug, PartialEq, Eq)]
pub struct ArchiveSummary {
    pub rows: u64,
    pub bytes: u64,
    pub tables: [u64; 5],
    pub digest: Particle,
}

/// The migration key of a store's export seal.
pub open spec fn seal_key() -> Seq<u8> {
    "application-export".spec_bytes()
}

/// The tables that must be empty in an application-only store: every shard
/// and every native record domain.
pub open spec fn foreign_tables() -> Seq<Table> {
    Seq::new(14, |d: int| Table::Shard(d as u8)) + Seq::new(7, |i: int| Table::Native(RECORD_DOMAINS@[i]))
}

pub open spec fn probe_limits() -> ByteLimits {
    ByteLimits { max_entries: 1, max_bytes: MAX_TRANSACTION_BYTES }
}

/// Every table in `tables` is empty, or the first failure among them.
pub open spec fn tables_empty(entries: Seq<(Seq<u8>, Vec<u8>)>, tables: Seq<Table>) -> Result<(), Error>
    decreases tables.len(),
{
    if tables.len() == 0 {
        Ok(())
    } else {
        match engine_scan(entries, tables[0], None, Seq::empty(), probe_limits()) {
            Err(e) => Err(app_error(e)),
            Ok(rows) => if rows.len() > 0 {
                Err(Error::Conflict)
            } else {
                tables_empty(entries, tables.drop_first())
            },
        }
    }
}

/// Head rows: a 32-byte namespace and a 40-byte head each.
pub open spec fn head_rows_valid(rows: Seq<(Seq<u8>, Seq<u8>)>) -> bool {
    forall|i: int| 0 <= i < rows.len() ==> (#[trigger] rows[i]).0.len() == 32 && rows[i].1.len() == 40
}

/// The sources' bytes in a transfer manifest: each namespace and its head.
pub open spec fn sources_bytes(rows: Seq<(Seq<u8>, Seq<u8>)>) -> Seq<u8>
    decreases rows.len(),
{
    if rows.len() == 0 {
        Seq::empty()
    } else {
        sources_bytes(rows.drop_last()) + rows.last().0 + rows.last().1
    }
}

/// What the manifest of an export hashes: a domain tag, the seal's target,
/// nonce and prior transaction, then the sources.
pub open spec fn manifest_input(prefix: Seq<u8>, rows: Seq<(Seq<u8>, Seq<u8>)>) -> Seq<u8> {
    "bbg/application-transfer/1\0".spec_bytes() + prefix + sources_bytes(rows)
}

/// The sources as namespaces and heads.
pub open spec fn sources_view(sources: Seq<(Particle, Head)>) -> Seq<(Seq<u8>, Seq<u8>)> {
    sources.map_values(|s: (Particle, Head)| (s.0@, head_bytes(s.1)))
}

/// What inspecting committed rows finds: the head rows, the seal's bytes and
/// the last transaction's marker; or why the store is not an archive.
pub open spec fn archive_check(c: Map<Seq<u8>, Seq<u8>>, entries: Seq<(Seq<u8>, Vec<u8>)>) -> Result<
    (Seq<(Seq<u8>, Seq<u8>)>, Option<Seq<u8>>, Option<Seq<u8>>),
    Error,
> {
    let none = Map::<Seq<u8>, Option<Seq<u8>>>::empty();
    match lookup(c, none, Table::Migration, "status".spec_bytes(), 16) {
        Err(e) => Err(app_error(e)),
        Ok(status) => if status matches Some(s) && s != "complete".spec_bytes() && s
            != "export-v1".spec_bytes() {
            Err(Error::Conflict)
        } else {
            match tables_empty(entries, foreign_tables()) {
                Err(e) => Err(e),
                Ok(_) => match engine_scan(
                    entries,
                    Table::Heads,
                    None,
                    Seq::empty(),
                    ByteLimits { max_entries: 257, max_bytes: 32768 },
                ) {
                    Err(e) => Err(app_error(e)),
                    Ok(rows) => if rows.len() == 0 || rows.len() > 256 {
                        Err(Error::Limit)
                    } else if !head_rows_valid(rows) {
                        Err(Error::Corrupt)
                    } else {
                        let sealed = status == Some("export-v1".spec_bytes());
                        match lookup(c, none, Table::Migration, seal_key(), 128) {
                            Err(e) => Err(app_error(e)),
                            Ok(Some(b)) => if b.len() != 128 || !sealed {
                                Err(Error::Corrupt)
                            } else if hemera_digest(manifest_input(b.subrange(0, 96), rows)) != b.subrange(
                                96,
                                128,
                            ) {
                                Err(Error::Corrupt)
                            } else {
                                marker_check(c, rows, Some(b))
                            },
                            Ok(None) => if sealed {
                                Err(Error::Corrupt)
                            } else {
                                marker_check(c, rows, None)
                            },
                        }
                    },
                },
            }
        }
    }
}

/// The last transaction's marker, after the other checks passed.
pub open spec fn marker_check(
    c: Map<Seq<u8>, Seq<u8>>,
    rows: Seq<(Seq<u8>, Seq<u8>)>,
    seal: Option<Seq<u8>>,
) -> Result<(Seq<(Seq<u8>, Seq<u8>)>, Option<Seq<u8>>, Option<Seq<u8>>), Error> {
    let a = address(Table::Metadata, "last_transaction".spec_bytes());
    if !c.dom().contains(a) {
        Ok((rows, seal, None))
    } else if c[a].len() > 32 {
        Err(Error::Limit)
    } else if c[a].len() != 32 {
        Err(Error::Corrupt)
    } else {
        Ok((rows, seal, Some(c[a])))
    }
}

/// Holds an application-only store for inspection; it exposes no mutation.
pub struct ApplicationArchive {
    store: ApplicationStore,
    sources: Vec<(Particle, Head)>,
    seal: Option<ArchiveSeal>,
    transaction: Option<Particle>,
}

/// The sources' manifest bytes, built from their heads.
pub fn manifest_bytes(prefix: &[u8], sources: &[(Particle, Head)]) -> (b: Vec<u8>)
    ensures
        b@ == manifest_input(prefix@, sources_view(sources@)),
{
    proof {
        reveal_strlit("bbg/application-transfer/1\0");
    }
    let mut b = copy_bytes("bbg/application-transfer/1\0".as_bytes());
    append_bytes(&mut b, prefix);
    let ghost start = b@;
    let mut i: usize = 0;
    while i < sources.len()
        invariant
            i <= sources@.len(),
            b@ == start + sources_bytes(sources_view(sources@.take(i as int))),
            start == "bbg/application-transfer/1\0".spec_bytes() + prefix@,
        decreases sources@.len() - i,
    {
        let (id, head) = &sources[i];
        append_bytes(&mut b, id);
        let hb = encode_head(*head);
        append_bytes(&mut b, hb.as_slice());
        proof {
            let v = sources_view(sources@.take(i + 1));
            assert(v.drop_last() =~= sources_view(sources@.take(i as int)));
            assert(v.last() == (id@, head_bytes(*head)));
        }
        i = i + 1;
    }
    assert(sources@.take(i as int) =~= sources@);
    b
}

impl ApplicationArchive {
    pub closed spec fn store_view(&self) -> ApplicationStore {
        self.store
    }

    /// Every namespace of the store with its head, in namespace order.
    pub closed spec fn sources_view(&self) -> Seq<(Particle, Head)> {
        self.sources@
    }

    pub closed spec fn seal_view(&self) -> Option<ArchiveSeal> {
        self.seal
    }

    pub closed spec fn transaction_view(&self) -> Option<Particle> {
        self.transaction
    }

    /// An archive holds at most 256 namespaces.
    #[verifier::type_invariant]
    closed spec fn sources_bounded(&self) -> bool {
        self.sources@.len() <= 256
    }

    /// Inspect an opened owner: it must hold application rows only, at most
    /// 256 namespaces, and a seal that matches its sources if it is exported.
    #[verifier::loop_isolation(false)]
    pub fn from_database(db: Database) -> (r: Result<Self, Error>)
        ensures
            db.failure() matches Some(f) ==> (r matches Err(e) && same_app_error(e, app_error(f))),
            db.failure() is None ==> match archive_check(db.contents(), db.entries()) {
                Err(e) => r matches Err(x) && x == e,
                Ok((rows, seal, marker)) => r matches Ok(a) && a.store_view().database_view() == db
                    && sources_view(a.sources_view()) == rows && match seal {
                    None => a.seal_view() is None,
                    Some(b) => a.seal_view() matches Some(s) && s.target@ == b.subrange(0, 32)
                        && s.nonce@ == b.subrange(32, 64) && s.prior@ == b.subrange(64, 96)
                        && s.manifest@ == b.subrange(96, 128),
                } && match marker {
                    None => a.transaction_view() is None,
                    Some(m) => a.transaction_view() matches Some(t) && t@ == m,
                },
            },
    {
        proof {
            reveal_strlit("status");
            reveal_strlit("complete");
            reveal_strlit("export-v1");
            reveal_strlit("application-export");
            vstd::string::is_ascii_spec_bytes("status");
        }
        let status = match db.read(Table::Migration, "status".as_bytes(), 16) {
            Ok(v) => v,
            Err(e) => {
                return Err(from_storage(e));
            },
        };
        let (known, sealed) = match &status {
            Some(s) => (bytes_equal(s.as_slice(), "complete".as_bytes()) || bytes_equal(
                s.as_slice(),
                "export-v1".as_bytes(),
            ), bytes_equal(s.as_slice(), "export-v1".as_bytes())),
            None => (true, false),
        };
        if !known {
            return Err(Error::Conflict);
        }
        let tiny = ByteLimits { max_entries: 1, max_bytes: MAX_TRANSACTION_BYTES };
        let ghost all = foreign_tables();
        assert(all.skip(0) =~= all);
        let mut d: u8 = 0;
        while d < 14
            invariant
                d <= 14,
                db.failure() is None,
                tiny == probe_limits(),
                all == foreign_tables(),
                tables_empty(db.entries(), all) == tables_empty(db.entries(), all.skip(d as int)),
            decreases 14 - d,
        {
            proof {
                assert(all.skip(d as int)[0] == Table::Shard(d));
                assert(all.skip(d as int).drop_first() =~= all.skip(d + 1));
            }
            let rows = match db.scan(Table::Shard(d), None, &[], tiny) {
                Ok(rows) => rows,
                Err(e) => {
                    return Err(from_storage(e));
                },
            };
            if rows.len() > 0 {
                return Err(Error::Conflict);
            }
            d = d + 1;
        }
        let mut k: usize = 0;
        while k < 7
            invariant
                k <= 7,
                db.failure() is None,
                tiny == probe_limits(),
                all == foreign_tables(),
                tables_empty(db.entries(), all) == tables_empty(db.entries(), all.skip(14 + k)),
            decreases 7 - k,
        {
            let domain = RECORD_DOMAINS[k];
            proof {
                assert(all.skip(14 + k)[0] == Table::Native(domain));
                assert(all.skip(14 + k).drop_first() =~= all.skip(14 + k + 1));
            }
            let rows = match db.scan(Table::Native(domain), None, &[], tiny) {
                Ok(rows) => rows,
                Err(e) => {
                    return Err(from_storage(e));
                },
            };
            if rows.len() > 0 {
                return Err(Error::Conflict);
            }
            k = k + 1;
        }
        assert(all.skip(21).len() == 0);
        let heads = match db.scan(Table::Heads, None, &[], ByteLimits { max_entries: 257, max_bytes: 32768 }) {
            Ok(rows) => rows,
            Err(e) => {
                return Err(from_storage(e));
            },
        };
        if heads.len() == 0 || heads.len() > 256 {
            return Err(Error::Limit);
        }
        let ghost rows = raw_view(heads@);
        let mut sources: Vec<(Particle, Head)> = Vec::new();
        let mut i: usize = 0;
        while i < heads.len()
            invariant
                rows == raw_view(heads@),
                i <= heads@.len(),
                sources_view(sources@) == rows.take(i as int),
                forall|j: int| 0 <= j < i ==> (#[trigger] rows[j]).0.len() == 32 && rows[j].1.len() == 40,
            decreases heads@.len() - i,
        {
            let (id, value) = &heads[i];
            assert(rows[i as int] == (id@, value@));
            if id.len() != 32 || value.len() != 40 {
                assert(!head_rows_valid(rows));
                return Err(Error::Corrupt);
            }
            let head = decode_head(value.as_slice())?;
            let namespace = read_array32(id.as_slice(), 0);
            proof {
                assert(namespace@ =~= id@);
                lemma_head_roundtrip(head);
                assert(head_bytes(head) =~= value@) by {
                    crate::bytes::lemma_le64(head.index);
                    assert(value@ =~= value@.take(8) + value@.skip(8));
                    vstd::bytes::lemma_auto_spec_u64_to_from_le_bytes();
                    assert(crate::bytes::le64(head.index) =~= value@.take(8));
                }
            }
            sources.push((namespace, head));
            proof {
                assert(sources_view(sources@) =~= rows.take(i + 1));
            }
            i = i + 1;
        }
        assert(rows.take(i as int) =~= rows);
        let seal_bytes = match db.read(Table::Migration, "application-export".as_bytes(), 128) {
            Ok(v) => v,
            Err(e) => {
                return Err(from_storage(e));
            },
        };
        let seal = match seal_bytes {
            Some(b) => {
                if b.len() != 128 || !sealed {
                    return Err(Error::Corrupt);
                }
                let prefix: Vec<u8> = {
                    let mut p: Vec<u8> = Vec::new();
                    let mut j: usize = 0;
                    while j < 96
                        invariant
                            j <= 96,
                            b@.len() == 128,
                            p@ =~= b@.subrange(0, j as int),
                        decreases 96 - j,
                    {
                        p.push(b[j]);
                        j = j + 1;
                    }
                    p
                };
                let input = manifest_bytes(prefix.as_slice(), sources.as_slice());
                let digest = hemera_hash(input.as_slice());
                let manifest = read_array32(b.as_slice(), 96);
                if !bytes_equal(&digest, &manifest) {
                    return Err(Error::Corrupt);
                }
                Some(
                    ArchiveSeal {
                        target: read_array32(b.as_slice(), 0),
                        nonce: read_array32(b.as_slice(), 32),
                        prior: read_array32(b.as_slice(), 64),
                        manifest,
                    },
                )
            },
            None => {
                if sealed {
                    return Err(Error::Corrupt);
                }
                None
            },
        };
        let transaction = match db.last_transaction() {
            Ok(t) => t,
            Err(e) => {
                return Err(from_storage(e));
            },
        };
        assert(sources@.len() == sources_view(sources@).len());
        Ok(
            ApplicationArchive {
                store: ApplicationStore::from_database(db),
                sources,
                seal,
                transaction,
            },
        )
    }

    pub fn sources(&self) -> (s: &[(Particle, Head)])
        ensures
            s@ == self.sources_view(),
    {
        self.sources.as_slice()
    }

    pub fn seal(&self) -> (s: Option<&ArchiveSeal>)
        ensures
            match self.seal_view() {
                Some(x) => s matches Some(y) && *y == x,
                None => s is None,
            },
    {
        match &self.seal {
            Some(s) => Some(s),
            None => None,
        }
    }

    pub fn last_transaction(&self) -> (t: Option<Particle>)
        ensures
            t == self.transaction_view(),
    {
        self.transaction
    }


    /// The current head of `namespace`.
    pub fn head(&self, namespace: &Particle) -> (r: Result<Option<Head>, Error>)
        ensures
            self.store_view().database_view().failure() matches Some(f) ==> (r matches Err(e) && same_app_error(
                e,
                app_error(f),
            )),
            self.store_view().database_view().failure() is None ==> {
                let c = self.store_view().database_view().contents();
                let a = heads_address(*namespace);
                if !c.dom().contains(a) {
                    r matches Ok(None)
                } else if c[a].len() > 40 {
                    r matches Err(Error::Limit)
                } else if c[a].len() != 40 {
                    r matches Err(Error::Corrupt)
                } else {
                    r matches Ok(Some(h)) && head_decodes(c[a], h)
                }
            },
    {
        self.store.head(namespace)
    }


    /// Stored content by identity, within `max_bytes`.
    pub fn content(&self, id: &Particle, max_bytes: usize) -> (r: Result<Option<Vec<u8>>, Error>)
        ensures
            self.store_view().database_view().failure() matches Some(f) ==> (r matches Err(e) && same_app_error(
                e,
                app_error(f),
            )),
            self.store_view().database_view().failure() is None ==> {
                let c = self.store_view().database_view().contents();
                let a = content_address(*id);
                if max_bytes > MAX_BYTES_VALUE {
                    r matches Err(Error::Limit)
                } else if !c.dom().contains(a) {
                    r matches Ok(None)
                } else if c[a].len() > max_bytes {
                    r matches Err(Error::Limit)
                } else {
                    r matches Ok(Some(v)) && v@ == c[a]
                }
            },
    {
        self.store.content(id, max_bytes)
    }


    /// The fingerprint and head recorded for a request, if any.
    pub fn resolve(&self, namespace: &Particle, request: &Particle) -> (r: Result<Option<(Particle, Head)>, Error>)
        ensures
            self.store_view().database_view().failure() matches Some(f) ==> (r matches Err(e) && same_app_error(
                e,
                app_error(f),
            )),
            self.store_view().database_view().failure() is None ==> {
                let c = self.store_view().database_view().contents();
                let a = requests_address(*namespace, *request);
                if !c.dom().contains(a) {
                    r matches Ok(None)
                } else if c[a].len() > 72 {
                    r matches Err(Error::Limit)
                } else if c[a].len() != 72 {
                    r matches Err(Error::Corrupt)
                } else {
                    r matches Ok(Some((fp, h))) && fp@ == c[a].take(32) && head_decodes(c[a].skip(32), h)
                }
            },
    {
        self.store.resolve(namespace, request)
    }


    /// Heads recorded for `namespace` in index order, strictly after `after`.
    pub fn history(&self, namespace: &Particle, after: Option<u64>, limit: usize) -> (r: Result<
        Vec<Head>,
        Error,
    >)
        ensures
            history_outcome(self.store_view().database_view(), *namespace, after, limit, r),
    {
        let r = self.store.history(namespace, after, limit);
        r
    }

    /// The store under inspection.
    pub fn store(&self) -> (s: &ApplicationStore)
        ensures
            *s == self.store_view(),
    {
        &self.store
    }

    /// Give back the inspected store.
    pub fn into_store(self) -> (s: ApplicationStore)
        ensures
            s == self.store_view(),
    {
        self.store
    }

    /// Give back the store and its sources, for a transfer.
    pub fn into_parts(self) -> (parts: (ApplicationStore, Vec<(Particle, Head)>))
        ensures
            parts.0 == self.store_view(),
            parts.1@ == self.sources_view(),
            parts.1@.len() <= 256,
    {
        proof {
            use_type_invariant(&self);
        }
        (self.store, self.sources)
    }
}

} // verus!
