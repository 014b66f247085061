//! Verification of a complete upload by a host verifier, part by part, and the
//! sealing of its file descriptor.
use crate::storage::access::StorageError;
use crate::storage::content::store::{
    ContentStore, page_limit, page_valid, read_part, read_part_spec, spec_equal, writable, writable_spec,
};
use crate::storage::content::{
    Error, FileInfo, Particle, Progress, Result, Spec, State, Upload, encode_file, file, file_bytes,
    file_error, file_valid, files_address, lemma_file_unique, lemma_progress_unique, make_pair_key,
    pair_key, progress, progress_bytes, progress_error, progress_valid, put_progress, same_spec,
    spec_parts, stored_file, stored_progress, uploads_address,
};
use crate::storage::database::{Transaction, apply_changes, lookup, same_error, staged_of, with_markers};
use crate::storage::table::{Table, address};
use vstd::prelude::*;

verus! {

/// A host verifier bound to one identity profile: it hashes or checks the
/// parts it is given in order and reports the particle they make.
pub trait Verifier {
    fn profile(&self) -> Particle;

    fn update(&mut self, bytes: &[u8]) -> Result<()>;

    fn finish(self) -> Result<Particle>;
}

/// What sealing a verified upload does against committed rows `c`: the file
/// descriptor it answers and the changes it stages.
pub open spec fn seal_plan(c: Map<Seq<u8>, Seq<u8>>, upload: Upload, spec: Spec) -> Result<
    (FileInfo, Map<Seq<u8>, Option<Seq<u8>>>),
> {
    let none = Map::<Seq<u8>, Option<Seq<u8>>>::empty();
    match writable_spec(c, none, upload.namespace) {
        Err(e) => Err(e),
        Ok(_) => match lookup(c, none, Table::Uploads, pair_key(upload.namespace, upload.request), 93) {
            Err(e) => Err(Error::Storage(e)),
            Ok(None) => Err(Error::Missing),
            Ok(Some(b)) => if !progress_valid(b) {
                Err(progress_error(b))
            } else {
                let p = stored_progress(b);
                let sealed = Progress {
                    spec: p.spec,
                    present_parts: p.present_parts,
                    state: State::Sealed,
                    reclaimed_through: p.reclaimed_through,
                };
                if p.state == State::Cancelled {
                    Err(Error::Cancelled)
                } else if !same_spec(p.spec, spec) || p.present_parts != spec_parts(spec) {
                    Err(Error::Conflict)
                } else {
                    match lookup(c, none, Table::Files, pair_key(upload.namespace, spec.particle), 108) {
                        Err(e) => Err(Error::Storage(e)),
                        Ok(None) => {
                            let info = FileInfo { spec, upload };
                            Ok(
                                (
                                    info,
                                    none.insert(
                                        files_address(upload.namespace, spec.particle),
                                        Some(file_bytes(info)),
                                    ).insert(uploads_address(upload), Some(progress_bytes(sealed))),
                                ),
                            )
                        },
                        Ok(Some(fb)) => if !file_valid(fb, upload.namespace, spec.particle) {
                            Err(file_error(fb))
                        } else {
                            let existing = stored_file(fb, upload.namespace, spec.particle);
                            if existing.spec.profile@ != spec.profile@ || existing.spec.length != spec.length {
                                Err(Error::Conflict)
                            } else {
                                Ok((existing, none.insert(uploads_address(upload), Some(progress_bytes(sealed)))))
                            }
                        },
                    }
                }
            },
        },
    }
}

/// Seal a verified upload inside a transaction that has staged nothing.
fn seal(tx: &mut Transaction<'_>, upload: Upload, spec: Spec) -> (r: Result<FileInfo>)
    requires
        old(tx).wf(),
        old(tx).staged() == Map::<Seq<u8>, Option<Seq<u8>>>::empty(),
        old(tx).staged_bytes() == 0,
    ensures
        final(tx).wf(),
        final(tx).committed() == old(tx).committed(),
        match seal_plan(old(tx).committed(), upload, spec) {
            Err(e) => r == Err::<FileInfo, Error>(e),
            Ok((info, s)) => r == Ok::<FileInfo, Error>(info) && final(tx).staged() == s,
        },
{
    let ghost c = tx.committed();
    writable(tx, &upload.namespace)?;
    let mut current = match progress(tx, upload)? {
        Some(p) => p,
        None => {
            return Err(Error::Missing);
        },
    };
    proof {
        let b = c[uploads_address(upload)];
        lemma_progress_unique(b, current, stored_progress(b));
    }
    match current.state {
        State::Cancelled => {
            return Err(Error::Cancelled);
        },
        _ => {},
    }
    if !spec_equal(&current.spec, &spec) || current.present_parts != spec.parts() {
        return Err(Error::Conflict);
    }
    let info = match file(tx, upload.namespace, spec.particle)? {
        Some(existing) => {
            proof {
                let fb = c[files_address(upload.namespace, spec.particle)];
                lemma_file_unique(fb, upload.namespace, spec.particle, existing, stored_file(fb, upload.namespace, spec.particle));
            }
            if !crate::bytes::bytes_equal(&existing.spec.profile, &spec.profile) || existing.spec.length
                != spec.length {
                return Err(Error::Conflict);
            }
            existing
        },
        None => {
            let candidate = FileInfo { spec, upload };
            let key = make_pair_key(&upload.namespace, &spec.particle);
            let bytes = encode_file(candidate);
            match tx.put(Table::Files, key.as_slice(), bytes.as_slice()) {
                Ok(()) => {},
                Err(e) => {
                    return Err(Error::Storage(e));
                },
            }
            candidate
        },
    };
    current.state = State::Sealed;
    match put_progress(tx, upload, current) {
        Ok(()) => {},
        Err(e) => {
            return Err(e);
        },
    }
    Ok(info)
}

/// A verification session over a complete upload. Parts are fed to the host
/// verifier in order; no database transaction stays open while it runs.
pub struct Verification<V> {
    upload: Upload,
    spec: Spec,
    verifier: Option<V>,
    next: u64,
    complete: Option<FileInfo>,
    fed: Ghost<Seq<Seq<u8>>>,
    reported: Ghost<Option<Particle>>,
}

/// Where feeding at most `m` more parts from part `n` of `p` stops.
pub open spec fn feed_end(n: u64, m: usize, p: nat) -> int {
    let e = if n + m < p {
        n + m
    } else {
        p as int
    };
    if n < e {
        e
    } else {
        n as int
    }
}

/// What reading part `index` for the verifier answers over committed rows
/// `c`: the upload's progress must be present, not cancelled and for `spec`,
/// and the part stored, intact and of its length.
pub open spec fn part_for_verifier(c: Map<Seq<u8>, Seq<u8>>, upload: Upload, spec: Spec, index: u64) -> Result<Seq<u8>> {
    let none = Map::<Seq<u8>, Option<Seq<u8>>>::empty();
    match lookup(c, none, Table::Uploads, pair_key(upload.namespace, upload.request), 93) {
        Err(e) => Err(Error::Storage(e)),
        Ok(None) => Err(Error::Missing),
        Ok(Some(b)) => if !progress_valid(b) {
            Err(progress_error(b))
        } else if stored_progress(b).state == State::Cancelled {
            Err(Error::Cancelled)
        } else if !same_spec(stored_progress(b).spec, spec) {
            Err(Error::Conflict)
        } else {
            read_part_spec(c, none, upload, spec, index)
        },
    }
}

/// The parts `from` to `from + n` as stored for the verifier.
pub open spec fn parts_for_verifier(c: Map<Seq<u8>, Seq<u8>>, upload: Upload, spec: Spec, from: u64, n: nat) -> Seq<Seq<u8>> {
    Seq::new(n, |k: int| part_for_verifier(c, upload, spec, (from + k) as u64)->Ok_0)
}

/// What opening a verification session of `upload` for a verifier of
/// `profile` answers over committed rows `c`: the upload's spec once it is
/// present, not cancelled, of that profile and complete; else why not.
pub open spec fn session_plan(c: Map<Seq<u8>, Seq<u8>>, upload: Upload, profile: Particle) -> Result<Spec> {
    match lookup(c, Map::empty(), Table::Uploads, pair_key(upload.namespace, upload.request), 93) {
        Err(e) => Err(Error::Storage(e)),
        Ok(None) => Err(Error::Missing),
        Ok(Some(b)) => if !progress_valid(b) {
            Err(progress_error(b))
        } else if stored_progress(b).state == State::Cancelled {
            Err(Error::Cancelled)
        } else if stored_progress(b).spec.profile@ != profile@ {
            Err(Error::ProfileMismatch)
        } else if stored_progress(b).present_parts != spec_parts(stored_progress(b).spec) {
            Err(Error::Incomplete)
        } else {
            Ok(stored_progress(b).spec)
        },
    }
}

/// Sealing an upload whose verifier reported `reported`: refused unless it is
/// the particle of the upload's spec, else the sealing plan.
pub open spec fn seal_reported(c: Map<Seq<u8>, Seq<u8>>, upload: Upload, spec: Spec, reported: Particle) -> Result<
    (FileInfo, Map<Seq<u8>, Option<Seq<u8>>>),
> {
    if reported@ != spec.particle@ {
        Err(Error::IdentityMismatch)
    } else {
        seal_plan(c, upload, spec)
    }
}

impl<V> Verification<V> {
    pub closed spec fn upload(&self) -> Upload {
        self.upload
    }

    pub closed spec fn spec(&self) -> Spec {
        self.spec
    }

    /// Parts fed to the verifier so far.
    pub closed spec fn next(&self) -> u64 {
        self.next
    }

    /// The sealed descriptor, once the session completed.
    pub closed spec fn complete(&self) -> Option<FileInfo> {
        self.complete
    }

    /// Whether the verifier is still held: it is dropped on its first failure
    /// and consumed when it finishes.
    pub closed spec fn active(&self) -> bool {
        self.verifier is Some
    }

    /// The bytes handed to the verifier so far, in order.
    pub closed spec fn fed(&self) -> Seq<Seq<u8>> {
        self.fed@
    }

    /// The particle the verifier reported when it finished, if it has.
    pub closed spec fn reported(&self) -> Option<Particle> {
        self.reported@
    }

}

impl<V: Verifier> Verification<V> {
    pub fn new(upload: Upload, spec: Spec, verifier: V) -> (v: Self)
        ensures
            v.upload() == upload,
            v.spec() == spec,
            v.next() == 0,
            v.complete() is None,
            v.active(),
            v.fed() == Seq::<Seq<u8>>::empty(),
            v.reported() is None,
    {
        Verification {
            upload,
            spec,
            verifier: Some(verifier),
            next: 0,
            complete: None,
            fed: Ghost(Seq::empty()),
            reported: Ghost(None),
        }
    }

    pub fn verified_parts(&self) -> (n: u64)
        ensures
            n == self.next(),
    {
        self.next
    }

    /// Feed at most `max_parts` further parts to the verifier; once all parts
    /// are fed, check the particle it reports and seal the file descriptor.
    /// Each part is read afresh (the upload present, not cancelled, of this
    /// spec, the part intact) and handed over in order; a part that cannot be
    /// read ends the step with its error before the verifier sees it. Work is
    /// bounded by `max_parts` parts; memory holds one part.
    #[verifier::loop_isolation(false)]
    pub fn step(&mut self, store: &mut ContentStore, max_parts: usize) -> (r: Result<Option<FileInfo>>)
        ensures
            final(store).failure() == old(store).failure(),
            final(self).upload() == old(self).upload(),
            final(self).spec() == old(self).spec(),
            old(self).next() <= final(self).next(),
            old(self).next() <= spec_parts(old(self).spec()) ==> final(self).next() <= spec_parts(
                old(self).spec(),
            ),
            !page_valid(max_parts) ==> r == Err::<Option<FileInfo>, Error>(
                Error::Storage(StorageError::Limit("content page budget")),
            ) && final(store).contents() == old(store).contents(),
            page_valid(max_parts) && old(self).complete() is Some ==> r == Ok::<Option<FileInfo>, Error>(
                old(self).complete(),
            ) && final(store).contents() == old(store).contents(),
            page_valid(max_parts) && old(self).complete() is None && !old(self).active() ==> r == Err::<
                Option<FileInfo>,
                Error,
            >(Error::Conflict) && final(store).contents() == old(store).contents(),
            page_valid(max_parts) && old(self).complete() is None && old(store).failure() is Some ==> r is Err,
            r is Err ==> final(store).contents() == old(store).contents(),
            r == Ok::<Option<FileInfo>, Error>(None) ==> final(store).contents() == old(store).contents()
                && final(self).next() < spec_parts(old(self).spec()) && final(self).active(),
            (r matches Ok(Some(info)) ==> final(self).complete() == Some(info)),
            !page_valid(max_parts) || old(self).complete() is Some ==> final(self).fed() == old(self).fed()
                && final(self).reported() == old(self).reported() && final(self).next() == old(self).next(),
            page_valid(max_parts) && old(self).complete() is None && r is Ok ==> final(self).next() == feed_end(
                old(self).next(),
                max_parts,
                spec_parts(old(self).spec()),
            ) && final(self).fed().len() - old(self).fed().len() == final(self).next() - old(self).next(),
            r matches Ok(Some(_)) && old(self).complete() is None ==> (final(self).reported() matches Some(p) && p@
                == old(self).spec().particle@),
            final(self).reported() != old(self).reported() ==> (final(self).reported() matches Some(p) && (p@
                != old(self).spec().particle@ ==> r == Err::<Option<FileInfo>, Error>(Error::IdentityMismatch))
                && (p@ == old(self).spec().particle@ && old(store).failure() is None ==> match seal_plan(
                old(store).contents(),
                old(self).upload(),
                old(self).spec(),
            ) {
                Ok((i, _)) => r == Ok::<Option<FileInfo>, Error>(Some(i)),
                Err(e) => r == Err::<Option<FileInfo>, Error>(e),
            })),
            final(self).fed().len() >= old(self).fed().len(),
            final(self).fed() == old(self).fed() + parts_for_verifier(
                old(store).contents(),
                old(self).upload(),
                old(self).spec(),
                old(self).next(),
                (final(self).fed().len() - old(self).fed().len()) as nat,
            ),
            forall|k: int|
                0 <= k < final(self).fed().len() - old(self).fed().len() ==> (#[trigger] part_for_verifier(
                    old(store).contents(),
                    old(self).upload(),
                    old(self).spec(),
                    (old(self).next() + k) as u64,
                )) is Ok,
            final(self).next() <= old(self).next() + (final(self).fed().len() - old(self).fed().len()),
            page_valid(max_parts) && old(self).complete() is None && old(self).active() && old(store).failure() is None
                && final(self).next() < spec_parts(old(self).spec()) && final(self).fed().len() - old(self).fed().len()
                == final(self).next() - old(self).next() ==> match r {
                Err(e) => part_for_verifier(
                    old(store).contents(),
                    old(self).upload(),
                    old(self).spec(),
                    final(self).next(),
                ) == Err::<Seq<u8>, Error>(e),
                Ok(_) => true,
            },
            page_valid(max_parts) && max_parts > 0 && old(self).complete() is None && old(self).active()
                && old(store).failure() is None && old(self).next() < spec_parts(old(self).spec()) ==> match part_for_verifier(
                old(store).contents(),
                old(self).upload(),
                old(self).spec(),
                old(self).next(),
            ) {
                Err(e) => r == Err::<Option<FileInfo>, Error>(e) && final(self).fed() == old(self).fed(),
                Ok(_) => final(self).fed().len() > old(self).fed().len(),
            },
            (r matches Ok(Some(info)) ==> old(self).complete() is None ==> (old(self).next() <= spec_parts(
                old(self).spec(),
            ) ==> final(self).next() == spec_parts(old(self).spec())) && match seal_plan(old(store).contents(), old(self).upload(), old(self).spec()) {
                Ok((i, s)) => info == i && exists|id: Seq<u8>|
                    final(store).contents() == apply_changes(old(store).contents(), with_markers(s, id)),
                Err(_) => false,
            }),
    {
        page_limit(max_parts)?;
        match self.complete {
            Some(info) => {
                return Ok(Some(info));
            },
            None => {},
        }
        if self.verifier.is_none() {
            return Err(Error::Conflict);
        }
        let parts = self.spec.parts();
        let reach = if u64::MAX - self.next > max_parts as u64 {
            self.next + max_parts as u64
        } else {
            u64::MAX
        };
        let end = if reach < parts {
            reach
        } else {
            parts
        };
        let ghost c = store.contents();
        let ghost start = self.next;
        while self.next < end
            invariant
                start <= self.next,
                self.next <= end || self.next == start,
                end <= parts,
                store.failure() is Some ==> self.next == start,
                start < parts ==> start < end,
                parts == spec_parts(self.spec),
                self.verifier is Some,
                self.complete is None,
                store.contents() == c,
                store.failure() == old(store).failure(),
                self.upload == old(self).upload,
                self.spec == old(self).spec,
                self.reported == old(self).reported,
                self.fed@ == old(self).fed@ + parts_for_verifier(c, self.upload, self.spec, start, (self.next - start) as nat),
                forall|k: int| 0 <= k < self.next - start ==> (#[trigger] part_for_verifier(
                    c,
                    self.upload,
                    self.spec,
                    (start + k) as u64,
                )) is Ok,
            decreases end - self.next,
        {
            let ghost expected = part_for_verifier(c, self.upload, self.spec, self.next);
            proof {
                if self.next > start {
                    assert(part_for_verifier(c, self.upload, self.spec, (start + 0) as u64) is Ok);
                }
            }
            let bytes = {
                let tx = match store.database().begin() {
                    Ok(tx) => tx,
                    Err(e) => {
                        return Err(Error::Storage(e));
                    },
                };
                let current = match progress(&tx, self.upload) {
                    Ok(Some(p)) => p,
                    Ok(None) => {
                        return Err(Error::Missing);
                    },
                    Err(e) => {
                        return Err(e);
                    },
                };
                proof {
                    let b = c[uploads_address(self.upload)];
                    lemma_progress_unique(b, current, stored_progress(b));
                }
                match current.state {
                    State::Cancelled => {
                        return Err(Error::Cancelled);
                    },
                    _ => {},
                }
                if !spec_equal(&current.spec, &self.spec) {
                    return Err(Error::Conflict);
                }
                match read_part(&tx, self.upload, self.spec, self.next) {
                    Ok(b) => b,
                    Err(e) => {
                        return Err(e);
                    },
                }
            };
            let mut verifier = match self.verifier.take() {
                Some(v) => v,
                None => {
                    return Err(Error::Conflict);
                },
            };
            proof {
                assert(expected == Ok::<Seq<u8>, Error>(bytes@));
                let n = (self.next - start) as nat;
                assert(parts_for_verifier(c, self.upload, self.spec, start, n + 1) =~= parts_for_verifier(
                    c,
                    self.upload,
                    self.spec,
                    start,
                    n,
                ).push(bytes@));
            }
            self.fed = Ghost(self.fed@.push(bytes@));
            match verifier.update(bytes.as_slice()) {
                Ok(()) => {},
                Err(e) => {
                    return Err(e);
                },
            }
            self.verifier = Some(verifier);
            self.next = self.next + 1;
        }
        proof {
            if self.next > start {
                assert(part_for_verifier(c, self.upload, self.spec, (start + 0) as u64) is Ok);
            }
        }
        if self.next < parts {
            return Ok(None);
        }
        let verifier = self.verifier.take();
        let particle = match verifier {
            Some(v) => v.finish()?,
            None => {
                return Err(Error::Conflict);
            },
        };
        self.reported = Ghost(Some(particle));
        let info = store.seal_verified(self.upload, self.spec, &particle)?;
        self.complete = Some(info);
        Ok(Some(info))
    }
}

impl ContentStore {
    /// Open a verification session: the upload must be complete and its
    /// profile the verifier's.
    pub fn verify<V: Verifier>(&self, upload: Upload, verifier: V) -> (r: Result<Verification<V>>)
        ensures
            self.failure() matches Some(f) ==> (r matches Err(Error::Storage(e)) && same_error(e, f)),
            self.failure() is None ==> match lookup(
                self.contents(),
                Map::empty(),
                Table::Uploads,
                pair_key(upload.namespace, upload.request),
                93,
            ) {
                Err(e) => r matches Err(x) && x == Error::Storage(e),
                Ok(None) => r matches Err(Error::Missing),
                Ok(Some(b)) => if !progress_valid(b) {
                    r matches Err(x) && x == progress_error(b)
                } else if stored_progress(b).state == State::Cancelled {
                    r matches Err(Error::Cancelled)
                } else {
                    let p = stored_progress(b);
                    &&& (r matches Err(e) ==> e == Error::ProfileMismatch || (e == Error::Incomplete
                        && p.present_parts != spec_parts(p.spec)))
                    &&& (p.present_parts != spec_parts(p.spec) ==> r is Err)
                    &&& (r matches Ok(v) ==> v.upload() == upload && v.spec() == p.spec && v.next() == 0
                        && v.complete() is None && v.active())
                },
            },
            self.failure() is None ==> exists|p: Particle|
                #[trigger] call_ensures(V::profile, (&verifier,), p) && match session_plan(self.contents(), upload, p) {
                    Err(e) => r matches Err(x) && x == e,
                    Ok(spec) => r matches Ok(v) && v.upload() == upload && v.spec() == spec && v.next() == 0
                        && v.complete() is None && v.active() && v.fed().len() == 0 && v.reported() is None,
                },
    {
        let profile = verifier.profile();
        let spec = self.session_spec(upload, &profile)?;
        Ok(Verification::new(upload, spec, verifier))
    }

    /// The spec of `upload` that a verification session for a verifier of
    /// `profile` runs over; see [`session_plan`].
    pub fn session_spec(&self, upload: Upload, profile: &Particle) -> (r: Result<Spec>)
        ensures
            self.failure() matches Some(f) ==> (r matches Err(Error::Storage(e)) && same_error(e, f)),
            self.failure() is None ==> r == session_plan(self.contents(), upload, *profile),
    {
        let current = match self.progress(upload)? {
            Some(p) => p,
            None => {
                return Err(Error::Missing);
            },
        };
        proof {
            let b = self.contents()[uploads_address(upload)];
            lemma_progress_unique(b, current, stored_progress(b));
        }
        match current.state {
            State::Cancelled => {
                return Err(Error::Cancelled);
            },
            _ => {},
        }
        if !crate::bytes::bytes_equal(&current.spec.profile, profile) {
            return Err(Error::ProfileMismatch);
        }
        if current.present_parts != current.spec.parts() {
            return Err(Error::Incomplete);
        }
        Ok(current.spec)
    }

    /// Seal an upload whose verifier reported the particle `reported`: a
    /// particle other than the spec's is an identity mismatch; see [`seal_reported`].
    pub(crate) fn seal_verified(&mut self, upload: Upload, spec: Spec, reported: &Particle) -> (r: Result<FileInfo>)
        ensures
            final(self).failure() == old(self).failure(),
            r is Err ==> final(self).contents() == old(self).contents(),
            reported@ != spec.particle@ ==> r == Err::<FileInfo, Error>(Error::IdentityMismatch),
            reported@ == spec.particle@ ==> (old(self).failure() matches Some(f) ==> (r matches Err(Error::Storage(e))
                && same_error(e, f))),
            old(self).failure() is None ==> match seal_reported(old(self).contents(), upload, spec, *reported) {
                Err(e) => r == Err::<FileInfo, Error>(e),
                Ok((info, s)) => r == Ok::<FileInfo, Error>(info) && exists|id: Seq<u8>|
                    final(self).contents() == apply_changes(old(self).contents(), with_markers(s, id)),
            },
    {
        if !crate::bytes::bytes_equal(reported, &spec.particle) {
            return Err(Error::IdentityMismatch);
        }
        self.seal_upload(upload, spec)
    }

    /// Seal a verified upload: record its file descriptor, or accept the one
    /// recorded before with the same profile and length.
    pub(crate) fn seal_upload(&mut self, upload: Upload, spec: Spec) -> (r: Result<FileInfo>)
        ensures
            final(self).failure() == old(self).failure(),
            r is Err ==> final(self).contents() == old(self).contents(),
            old(self).failure() matches Some(f) ==> (r matches Err(Error::Storage(e)) && same_error(e, f)),
            old(self).failure() is None ==> match seal_plan(old(self).contents(), upload, spec) {
                Err(e) => r == Err::<FileInfo, Error>(e),
                Ok((info, s)) => r == Ok::<FileInfo, Error>(info) && exists|id: Seq<u8>|
                    final(self).contents() == apply_changes(old(self).contents(), with_markers(s, id)),
            },
    {
        let result = {
            let mut tx = match self.database().begin() {
                Ok(tx) => tx,
                Err(e) => {
                    return Err(Error::Storage(e));
                },
            };
            let info = seal(&mut tx, upload, spec)?;
            let ghost s = tx.staged();
            (info, tx.into_changes(), Ghost(s))
        };
        let (info, changes, Ghost(s)) = result;
        proof {
            vstd::set::axiom_set_contains_len(s.dom(), uploads_address(upload));
        }
        let id = self.commit_changes(changes);
        proof {
            let i = id->Some_0;
            assert(self.contents() == apply_changes(old(self).contents(), with_markers(s, i@)));
        }
        Ok(info)
    }
}

} // verus!

