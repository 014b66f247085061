//! Restartable transfer of a sealed application-only store into a shared
//! owner: the source is sealed once with a manifest over its heads, then
//! copied page by page; every target row is written immutably.
use crate::bytes::{append_bytes, bytes_equal, copy_bytes, read_array32};
use crate::hash::{hemera_digest, hemera_hash};
use crate::storage::application::{
    ApplicationStore, Error, Head, Particle, app_error, encode_head, from_storage, head_bytes,
    same_app_error,
};
use crate::storage::archive::{
    ApplicationArchive, manifest_bytes, manifest_input, seal_key, sources_view,
};
use crate::storage::database::{
    Database, Transaction, apply_changes, lookup, staged_of, with_markers,
};
use crate::storage::inspection::marker_of;
use crate::storage::table::{Table, address};
use vstd::prelude::*;
use vstd::string::StringSliceAdditionalSpecFns;

pub mod stage;

verus! {

/// A sealed application store being transferred to `target`.
pub struct TransferSource {
    store: ApplicationStore,
    manifest: Particle,
    target: Particle,
    sources: Vec<(Particle, Head)>,
}

/// How far a transfer has come.
#[derive(Clone, Debug, PartialEq, Eq)]
pub struct TransferProgress {
    pub manifest: Particle,
    pub rows: u64,
    pub bytes: u64,
    pub complete: bool,
}

/// Every source head is still the head recorded in the store.
pub open spec fn heads_match(c: Map<Seq<u8>, Seq<u8>>, sources: Seq<(Particle, Head)>) -> Result<(), Error>
    decreases sources.len(),
{
    if sources.len() == 0 {
        Ok(())
    } else {
        match lookup(c, Map::empty(), Table::Heads, sources[0].0@, 40) {
            Err(e) => Err(app_error(e)),
            Ok(v) => if v != Some(head_bytes(sources[0].1)) {
                Err(Error::Conflict)
            } else {
                heads_match(c, sources.drop_first())
            },
        }
    }
}

/// The seal of an export: target, nonce, prior transaction, and the manifest
/// over those and the sources.
pub open spec fn seal_of(target: Particle, key: Particle, prior: Seq<u8>, sources: Seq<(Particle, Head)>) -> Seq<u8> {
    target@ + key@ + prior + hemera_digest(manifest_input(target@ + key@ + prior, sources_view(sources)))
}

/// The address of the migration status.
pub open spec fn status_key() -> Seq<u8> {
    "status".spec_bytes()
}

/// A seal whose manifest matches the sources.
pub open spec fn seal_checked(b: Seq<u8>, sources: Seq<(Particle, Head)>, changes: Option<Map<Seq<u8>, Option<Seq<u8>>>>) -> Result<
    (Seq<u8>, Option<Map<Seq<u8>, Option<Seq<u8>>>>),
    Error,
> {
    if hemera_digest(manifest_input(b.take(96), sources_view(sources))) != b.subrange(96, 128) {
        Err(Error::Corrupt)
    } else {
        Ok((b, changes))
    }
}

/// What opening a transfer from an archive does over its committed rows `c`:
/// the seal in force, and the changes that record a new seal.
pub open spec fn source_outcome(c: Map<Seq<u8>, Seq<u8>>, sources: Seq<(Particle, Head)>, target: Particle, key: Particle) -> Result<
    (Seq<u8>, Option<Map<Seq<u8>, Option<Seq<u8>>>>),
    Error,
> {
    let none = Map::<Seq<u8>, Option<Seq<u8>>>::empty();
    match lookup(c, none, Table::Migration, status_key(), 16) {
        Err(e) => Err(app_error(e)),
        Ok(status) => if exists|i: int| 0 <= i < sources.len() && (#[trigger] sources[i]).0 == target {
            Err(Error::Conflict)
        } else {
            match lookup(c, none, Table::Migration, seal_key(), 128) {
                Err(e) => Err(app_error(e)),
                Ok(Some(b)) => if b.len() != 128 || b.take(32) != target@ || b.subrange(32, 64) != key@ {
                    Err(Error::Conflict)
                } else {
                    seal_checked(b, sources, None)
                },
                Ok(None) => if status == Some("export-v1".spec_bytes()) {
                    Err(Error::Corrupt)
                } else {
                    match marker_of(c) {
                        Err(e) => Err(e),
                        Ok(m) => {
                            let prior = match m {
                                Some(p) => p,
                                None => Seq::new(32, |i: int| 0u8),
                            };
                            let b = seal_of(target, key, prior, sources);
                            match heads_match(c, sources) {
                                Err(e) => Err(e),
                                Ok(_) => seal_checked(
                                    b,
                                    sources,
                                    Some(
                                        none.insert(address(Table::Migration, seal_key()), Some(b)).insert(
                                            address(Table::Migration, status_key()),
                                            Some("export-v1".spec_bytes()),
                                        ),
                                    ),
                                ),
                            }
                        },
                    }
                },
            }
        },
    }
}

impl TransferSource {
    pub closed spec fn store_view(&self) -> ApplicationStore {
        self.store
    }

    pub closed spec fn manifest_view(&self) -> Particle {
        self.manifest
    }

    pub closed spec fn target_view(&self) -> Particle {
        self.target
    }

    pub closed spec fn sources_view(&self) -> Seq<(Particle, Head)> {
        self.sources@
    }

    /// Each view is the field it names.
    proof fn lemma_views(&self)
        ensures
            self.store_view() == self.store,
            self.manifest_view() == self.manifest,
            self.target_view() == self.target,
            self.sources_view() == self.sources@,
    {
    }

    /// A transfer carries the sources of one archive: at most 256 of them.
    #[verifier::type_invariant]
    spec fn sources_bounded(&self) -> bool {
        self.sources@.len() <= 256
    }

    pub fn manifest(&self) -> (m: Particle)
        ensures
            m == self.manifest_view(),
    {
        self.manifest
    }

    pub fn sources(&self) -> (s: &[(Particle, Head)])
        ensures
            s@ == self.sources_view(),
    {
        self.sources.as_slice()
    }

    pub fn store(&self) -> (s: &ApplicationStore)
        ensures
            *s == self.store_view(),
    {
        &self.store
    }

    /// Give back the sealed source store.
    pub fn into_store(self) -> (s: ApplicationStore)
        ensures
            s == self.store_view(),
    {
        self.store
    }
}

/// Check that every source head is still recorded, inside a transaction.
fn check_heads(tx: &Transaction<'_>, sources: &[(Particle, Head)]) -> (r: Result<(), Error>)
    requires
        tx.staged() == Map::<Seq<u8>, Option<Seq<u8>>>::empty(),
    ensures
        r == heads_match(tx.committed(), sources@),
{
    let mut i: usize = 0;
    proof {
        assert(sources@.skip(0) =~= sources@);
    }
    while i < sources.len()
        invariant
            i <= sources@.len(),
            tx.staged() == Map::<Seq<u8>, Option<Seq<u8>>>::empty(),
            heads_match(tx.committed(), sources@) == heads_match(tx.committed(), sources@.skip(i as int)),
        decreases sources@.len() - i,
    {
        proof {
            assert(sources@.skip(i as int)[0] == sources@[i as int]);
            assert(sources@.skip(i as int).drop_first() =~= sources@.skip(i + 1));
        }
        let (id, head) = &sources[i];
        let recorded = match tx.get(Table::Heads, id, 40) {
            Ok(v) => v,
            Err(e) => {
                return Err(from_storage(e));
            },
        };
        let expected = encode_head(*head);
        let same = match &recorded {
            Some(v) => bytes_equal(v.as_slice(), expected.as_slice()),
            None => false,
        };
        if !same {
            return Err(Error::Conflict);
        }
        i = i + 1;
    }
    proof {
        assert(sources@.skip(i as int) =~= Seq::<(Particle, Head)>::empty());
    }
    Ok(())
}

impl TransferSource {
    /// Seal an archive for transfer to `target` with nonce `key`, or resume a
    /// transfer sealed before with the same target and nonce. The seal's
    /// manifest binds the target, nonce, prior transaction and every head.
    #[verifier::loop_isolation(false)]
    pub fn from_archive(archive: ApplicationArchive, target: Particle, key: Particle) -> (r: Result<Self, Error>)
        ensures
            archive.store_view().database_view().failure() is Some ==> r is Err,
            archive.store_view().database_view().failure() is None ==> {
                let db = archive.store_view().database_view();
                match source_outcome(db.contents(), archive.sources_view(), target, key) {
                    Err(e) => r matches Err(x) && x == e,
                    Ok((b, changes)) => r matches Ok(t) && t.target_view() == target && t.manifest_view()@
                        == b.subrange(96, 128) && t.sources_view() == archive.sources_view()
                        && t.store_view().database_view().failure() is None && match changes {
                        None => t.store_view().database_view() == db,
                        Some(ch) => exists|id: Seq<u8>|
                            t.store_view().database_view().contents() == apply_changes(
                                db.contents(),
                                with_markers(ch, id),
                            ),
                    },
                }
            },
    {
        let (store, sources) = archive.into_parts();
        let mut db = store.into_database();
        let ghost c = db.contents();
        proof {
            reveal_strlit("status");
            reveal_strlit("export-v1");
            reveal_strlit("application-export");
            vstd::string::is_ascii_spec_bytes("status");
            vstd::string::is_ascii_spec_bytes("export-v1");
            vstd::string::is_ascii_spec_bytes("application-export");
        }
        let status = match db.read(Table::Migration, "status".as_bytes(), 16) {
            Ok(v) => v,
            Err(e) => {
                return Err(from_storage(e));
            },
        };
        let mut i: usize = 0;
        while i < sources.len()
            invariant
                i <= sources@.len(),
                forall|j: int| 0 <= j < i ==> (#[trigger] sources@[j]).0 != target,
            decreases sources@.len() - i,
        {
            if bytes_equal(&sources[i].0, &target) {
                proof {
                    assert(sources@[i as int].0@ == target@);
                    assert(sources@[i as int].0 =~= target);
                }
                return Err(Error::Conflict);
            }
            proof {
                if sources@[i as int].0 == target {
                    assert(sources@[i as int].0@ == target@);
                }
            }
            i = i + 1;
        }
        let existing = match db.read(Table::Migration, "application-export".as_bytes(), 128) {
            Ok(v) => v,
            Err(e) => {
                return Err(from_storage(e));
            },
        };
        let ghost mut changes: Option<Map<Seq<u8>, Option<Seq<u8>>>> = None;
        let seal: Vec<u8> = match existing {
            Some(b) => {
                if b.len() != 128 {
                    return Err(Error::Conflict);
                }
                let t = read_array32(b.as_slice(), 0);
                let k = read_array32(b.as_slice(), 32);
                if !bytes_equal(&t, &target) || !bytes_equal(&k, &key) {
                    proof {
                        assert(t@ == b@.subrange(0, 32));
                        assert(b@.take(32) =~= b@.subrange(0, 32));
                    }
                    return Err(Error::Conflict);
                }
                assert(b@.take(32) =~= t@);
                b
            },
            None => {
                let sealed = match &status {
                    Some(s) => bytes_equal(s.as_slice(), "export-v1".as_bytes()),
                    None => false,
                };
                if sealed {
                    return Err(Error::Corrupt);
                }
                let prior = match db.last_transaction() {
                    Ok(Some(p)) => p,
                    Ok(None) => [0u8; 32],
                    Err(e) => {
                        return Err(from_storage(e));
                    },
                };
                let mut prefix: Vec<u8> = Vec::new();
                append_bytes(&mut prefix, &target);
                append_bytes(&mut prefix, &key);
                append_bytes(&mut prefix, &prior);
                let input = manifest_bytes(prefix.as_slice(), sources.as_slice());
                let digest = hemera_hash(input.as_slice());
                let mut seal = copy_bytes(prefix.as_slice());
                append_bytes(&mut seal, &digest);
                proof {
                    let p = match marker_of(c) {
                        Ok(Some(m)) => m,
                        _ => Seq::new(32, |i: int| 0u8),
                    };
                    assert(prior@ =~= p);
                    assert(seal@ =~= seal_of(target, key, p, sources@));
                }
                let committed = {
                    let mut tx = match db.begin() {
                        Ok(tx) => tx,
                        Err(e) => {
                            return Err(from_storage(e));
                        },
                    };
                    check_heads(&tx, sources.as_slice())?;
                    let previous = match tx.get(Table::Migration, "application-export".as_bytes(), 128) {
                        Ok(v) => v,
                        Err(e) => {
                            return Err(from_storage(e));
                        },
                    };
                    if previous.is_some() {
                        return Err(Error::Conflict);
                    }
                    match tx.put(Table::Migration, "application-export".as_bytes(), seal.as_slice()) {
                        Ok(()) => {},
                        Err(e) => {
                            return Err(from_storage(e));
                        },
                    }
                    match tx.put(Table::Migration, "status".as_bytes(), "export-v1".as_bytes()) {
                        Ok(()) => {},
                        Err(e) => {
                            return Err(from_storage(e));
                        },
                    }
                    let ghost s = tx.staged();
                    (tx.into_changes(), Ghost(s))
                };
                let (staged, Ghost(s)) = committed;
                proof {
                    vstd::set::axiom_set_contains_len(s.dom(), address(Table::Migration, status_key()));
                    changes = Some(s);
                }
                let id = db.commit(staged);
                proof {
                    let x = id->Some_0@;
                    assert(db.contents() == apply_changes(c, with_markers(s, x)));
                }
                seal
            },
        };
        let mut head96: Vec<u8> = Vec::new();
        let mut j: usize = 0;
        while j < 96
            invariant
                j <= 96,
                seal@.len() == 128,
                head96@ =~= seal@.take(j as int),
            decreases 96 - j,
        {
            head96.push(seal[j]);
            j = j + 1;
        }
        let input = manifest_bytes(head96.as_slice(), sources.as_slice());
        let digest = hemera_hash(input.as_slice());
        let manifest = read_array32(seal.as_slice(), 96);
        if !bytes_equal(&digest, &manifest) {
            return Err(Error::Corrupt);
        }
        proof {
            assert(head96@ =~= seal@.take(96));
            assert(manifest@ == seal@.subrange(96, 128));
            assert(seal_checked(seal@, sources@, changes) == Ok::<(Seq<u8>, Option<Map<Seq<u8>, Option<Seq<u8>>>>), Error>((seal@, changes)));
            assert(source_outcome(c, sources@, target, key) == Ok::<(Seq<u8>, Option<Map<Seq<u8>, Option<Seq<u8>>>>), Error>((seal@, changes)));
        }
        let ghost final_db = db;
        let result = TransferSource { store: ApplicationStore::from_database(db), manifest, target, sources };
        proof {
            assert(result.store_view().database_view() == final_db);
            assert(result.sources_view() == archive.sources_view());
            assert(result.target_view() == target);
            match changes {
                None => {
                    assert(final_db == archive.store_view().database_view());
                },
                Some(ch) => {
                    assert(exists|id: Seq<u8>| final_db.contents() == apply_changes(c, with_markers(ch, id)));
                },
            }
        }
        Ok(result)
    }
}

} // verus!
