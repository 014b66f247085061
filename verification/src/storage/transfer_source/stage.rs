//! Copying a sealed source into its target page by page. The target's cursor
//! record says how far the copy has come; each page is committed together
//! with the cursor that follows it, so a copy resumes exactly where it stopped.
use super::TransferSource;
use crate::bytes::{bytes_equal, copy_bytes, read_array32};
use crate::storage::application::{
    ApplicationStore, Error, Head, Particle, app_error, from_storage, immutable_fold, immutable_outcome,
};
use crate::bytes::has_prefix;
use crate::ordered::{has_key, lemma_map_of_has_key, lemma_map_of_index, lemma_sorted_unique, map_of, sorted};
use crate::storage::access::StorageError;
use crate::storage::database::{
    ByteLimits, Database, MAX_BYTES_VALUE, MAX_TRANSACTION_BYTES, RawEntry, Transaction, apply_changes, bytes_of, engine_scan,
    lookup, overlay, raw_view, read_view, select_rows, stage_result, staged_of, with_markers,
};
use crate::storage::links::{receipts_prefix, same_outside_receipts};
use super::TransferProgress;
use vstd::bytes::spec_u64_from_le_bytes;
use crate::storage::paging::{
    law_page_resumes_after_cursor, lemma_page_outcomes, lemma_page_prefix, lemma_select_same_rows,
};
use crate::storage::generation::{
    ReaderGeneration, generation_marker, generation_rank, promote, status_address, status_read,
};
use crate::storage::inspection::{inspected_table, inspected_table_at, table_rows};
use crate::storage::validation::{record_valid, validate_record};
use crate::storage::table::{Table, address, table_code, table_valid};
use crate::storage::transfer::{
    Cursor, cursor_bytes, cursor_decodes, cursor_encodable, cursor_key, lemma_cursor_decodes_own, lemma_decoded_encodable, cursor_key_bytes, cursor_well_formed, fence_key, fence_key_bytes,
    stage_key_bytes, target_key, target_key_bytes, transfer_stage_key,
};
use vstd::prelude::*;
use vstd::string::StringSliceAdditionalSpecFns;

verus! {

/// The address of a transfer's cursor record in the target.
pub open spec fn cursor_address(manifest: Particle) -> Seq<u8> {
    address(Table::Migration, cursor_key_bytes(manifest))
}

/// The last key that a cursor record names, if any.
pub open spec fn record_after(b: Seq<u8>) -> Option<Seq<u8>> {
    if b[1] == 0 {
        None
    } else {
        Some(b.subrange(18, b.len() as int))
    }
}

/// An address outside the migration and metadata tables, where transfer and
/// commit bookkeeping live.
pub open spec fn outside_bookkeeping(a: Seq<u8>) -> bool {
    !(a.len() >= 1 && (a[0] == table_code(Table::Migration) || a[0] == table_code(Table::Metadata)))
}

/// Every row outside the bookkeeping tables keeps its value.
pub open spec fn kept_rows(old: Map<Seq<u8>, Seq<u8>>, new: Map<Seq<u8>, Seq<u8>>) -> bool {
    forall|a: Seq<u8>|
        #[trigger] old.dom().contains(a) && outside_bookkeeping(a) ==> new.dom().contains(a) && new[a] == old[a]
}

/// Every row that appeared outside the bookkeeping tables is a row of `src`.
pub open spec fn copied_from(src: Map<Seq<u8>, Seq<u8>>, old: Map<Seq<u8>, Seq<u8>>, new: Map<Seq<u8>, Seq<u8>>) -> bool {
    forall|a: Seq<u8>|
        #[trigger] new.dom().contains(a) && outside_bookkeeping(a) && !old.dom().contains(a) ==> src.dom().contains(a)
            && src[a] == new[a]
}

/// The first `k` of `rows` are in `tgt` under `table`, with their values.
pub open spec fn copied_rows(rows: Seq<(Seq<u8>, Seq<u8>)>, table: Table, tgt: Map<Seq<u8>, Seq<u8>>, k: int) -> bool {
    forall|i: int|
        0 <= i < k ==> tgt.dom().contains(address(table, (#[trigger] rows[i]).0)) && tgt[address(table, rows[i].0)]
            == rows[i].1
}

/// `x` is the key of row `k - 1`: resuming after it leaves the rows from `k` on.
pub open spec fn resumes_at(rows: Seq<(Seq<u8>, Seq<u8>)>, x: Seq<u8>, k: int) -> bool {
    0 < k <= rows.len() && rows[k - 1].0 == x
}

/// Every source row before the position (`table`, `after`) is in the target:
/// all rows of the earlier tables, and the rows of `table` up to `after`.
pub open spec fn copied_through(
    entries: Seq<(Seq<u8>, Vec<u8>)>,
    tgt: Map<Seq<u8>, Seq<u8>>,
    table: int,
    after: Option<Seq<u8>>,
) -> bool {
    &&& forall|o: int|
        0 <= o < table && o < 5 ==> #[trigger] copied_rows(
            table_rows(entries, inspected_table(o)),
            inspected_table(o),
            tgt,
            table_rows(entries, inspected_table(o)).len() as int,
        )
    &&& 0 <= table < 5 ==> match after {
        None => true,
        Some(x) => resumed(entries, tgt, table, x),
    }
}

/// The rows of the table of ordinal `table` up to the one keyed `x` are in
/// the target.
pub open spec fn resumed(entries: Seq<(Seq<u8>, Vec<u8>)>, tgt: Map<Seq<u8>, Seq<u8>>, table: int, x: Seq<u8>) -> bool {
    exists|k: int|
        #[trigger] resumes_at(table_rows(entries, inspected_table(table)), x, k) && copied_rows(
            table_rows(entries, inspected_table(table)),
            inspected_table(table),
            tgt,
            k,
        )
}

/// What the target's cursor record promises: every source row before the
/// position it names has been copied.
pub open spec fn transfer_state(entries: Seq<(Seq<u8>, Vec<u8>)>, tgt: Map<Seq<u8>, Seq<u8>>, manifest: Particle) -> bool {
    let a = cursor_address(manifest);
    tgt.dom().contains(a) ==> cursor_well_formed(tgt[a]) && copied_through(
        entries,
        tgt,
        tgt[a][0] as int,
        record_after(tgt[a]),
    )
}

/// Staged changes that only write values, never deletions.
pub open spec fn writes_only(s: Map<Seq<u8>, Option<Seq<u8>>>) -> bool {
    forall|a: Seq<u8>| #[trigger] s.dom().contains(a) ==> s[a] is Some
}

/// What an immutable fold stages: what was staged stays; a new address was in
/// neither the committed rows nor the staged ones and carries an item; every
/// item reads back with its value.
pub proof fn lemma_fold_facts(
    c: Map<Seq<u8>, Seq<u8>>,
    s: Map<Seq<u8>, Option<Seq<u8>>>,
    table: Table,
    items: Seq<(Seq<u8>, Seq<u8>)>,
    max: nat,
)
    requires
        writes_only(s),
        immutable_fold(c, s, table, items, max) is Ok,
    ensures
        ({
            let s2 = immutable_fold(c, s, table, items, max)->Ok_0;
            &&& writes_only(s2)
            &&& forall|a: Seq<u8>| #[trigger] s.dom().contains(a) ==> s2.dom().contains(a) && s2[a] == s[a]
            &&& forall|a: Seq<u8>|
                #[trigger] s2.dom().contains(a) && !s.dom().contains(a) ==> !c.dom().contains(a) && exists|i: int|
                    0 <= i < items.len() && a == address(table, (#[trigger] items[i]).0) && s2[a] == Some(items[i].1)
            &&& forall|i: int|
                0 <= i < items.len() ==> overlay(c, s2).dom().contains(address(table, (#[trigger] items[i]).0))
                    && overlay(c, s2)[address(table, items[i].0)] == items[i].1
        }),
    decreases items.len(),
{
    if items.len() > 0 {
        let (k, v) = items[0];
        let a0 = address(table, k);
        let rest = items.drop_first();
        let s2 = immutable_fold(c, s, table, items, max)->Ok_0;
        match lookup(c, s, table, k, max) {
            Err(_) => {},
            Ok(Some(previous)) => {
                lemma_fold_facts(c, s, table, rest, max);
                assert(s2 == immutable_fold(c, s, table, rest, max)->Ok_0);
                assert forall|a: Seq<u8>| #[trigger] s2.dom().contains(a) && !s.dom().contains(a) implies !c.dom().contains(
                    a,
                ) && exists|i: int|
                    0 <= i < items.len() && a == address(table, (#[trigger] items[i]).0) && s2[a] == Some(
                        items[i].1,
                    ) by {
                    let j = choose|j: int|
                        0 <= j < rest.len() && a == address(table, (#[trigger] rest[j]).0) && s2[a] == Some(rest[j].1);
                    assert(items[j + 1] == rest[j]);
                }
                assert forall|i: int| 0 <= i < items.len() implies overlay(c, s2).dom().contains(
                    address(table, (#[trigger] items[i]).0),
                ) && overlay(c, s2)[address(table, items[i].0)] == items[i].1 by {
                    if i > 0 {
                        assert(items[i] == rest[i - 1]);
                    } else {
                        if s.dom().contains(a0) {
                            assert(s2[a0] == s[a0]);
                        } else {
                            assert(!s2.dom().contains(a0));
                        }
                    }
                }
            },
            Ok(None) => {
                let s1 = s.insert(a0, Some(v));
                assert(!s.dom().contains(a0));
                assert(!c.dom().contains(a0));
                lemma_fold_facts(c, s1, table, rest, max);
                assert(s2 == immutable_fold(c, s1, table, rest, max)->Ok_0);
                assert forall|a: Seq<u8>| #[trigger] s.dom().contains(a) implies s2.dom().contains(a) && s2[a] == s[a] by {
                    assert(s1.dom().contains(a) && s1[a] == s[a]);
                }
                assert forall|a: Seq<u8>| #[trigger] s2.dom().contains(a) && !s.dom().contains(a) implies !c.dom().contains(
                    a,
                ) && exists|i: int|
                    0 <= i < items.len() && a == address(table, (#[trigger] items[i]).0) && s2[a] == Some(
                        items[i].1,
                    ) by {
                    if a == a0 {
                        assert(items[0].0 == k);
                        assert(s2[a] == s1[a0]);
                    } else {
                        assert(!s1.dom().contains(a));
                        let j = choose|j: int|
                            0 <= j < rest.len() && a == address(table, (#[trigger] rest[j]).0) && s2[a] == Some(
                                rest[j].1,
                            );
                        assert(items[j + 1] == rest[j]);
                    }
                }
                assert forall|i: int| 0 <= i < items.len() implies overlay(c, s2).dom().contains(
                    address(table, (#[trigger] items[i]).0),
                ) && overlay(c, s2)[address(table, items[i].0)] == items[i].1 by {
                    if i > 0 {
                        assert(items[i] == rest[i - 1]);
                    } else {
                        assert(s1.dom().contains(a0));
                        assert(s2[a0] == s1[a0]);
                    }
                }
            },
        }
    }
}

/// The cursor of a transfer that has copied nothing yet.
pub open spec fn fresh_cursor() -> Cursor {
    Cursor { table: 0, after: None, rows: 0, bytes: 0 }
}

/// Stage each source as moving under `manifest`, in order: a source that is
/// the target itself, already has a head, is fenced, or is staged already
/// refuses the transfer.
pub open spec fn prepare_sources(
    c: Map<Seq<u8>, Seq<u8>>,
    s: Map<Seq<u8>, Option<Seq<u8>>>,
    sources: Seq<(Particle, Head)>,
    target: Particle,
    manifest: Particle,
) -> Result<Map<Seq<u8>, Option<Seq<u8>>>, Error>
    decreases sources.len(),
{
    if sources.len() == 0 {
        Ok(s)
    } else {
        let id = sources[0].0;
        if id == target {
            Err(Error::Conflict)
        } else {
            match lookup(c, s, Table::Heads, id@, 40) {
                Err(e) => Err(app_error(e)),
                Ok(Some(_)) => Err(Error::Conflict),
                Ok(None) => match lookup(c, s, Table::Migration, fence_key_bytes(id), 64) {
                    Err(e) => Err(app_error(e)),
                    Ok(Some(_)) => Err(Error::Conflict),
                    Ok(None) => match lookup(c, s, Table::Migration, stage_key_bytes(id), 32) {
                        Err(e) => Err(app_error(e)),
                        Ok(Some(_)) => Err(Error::Conflict),
                        Ok(None) => prepare_sources(
                            c,
                            s.insert(address(Table::Migration, stage_key_bytes(id)), Some(manifest@)),
                            sources.drop_first(),
                            target,
                            manifest,
                        ),
                    },
                },
            }
        }
    }
}

/// What preparing the target does over its committed rows `c`: nothing when
/// the transfer's cursor exists; otherwise the changes that raise the reader
/// generation, stage every source, pin the target and record a fresh cursor.
pub open spec fn prepare_plan(
    c: Map<Seq<u8>, Seq<u8>>,
    manifest: Particle,
    target: Particle,
    sources: Seq<(Particle, Head)>,
) -> Result<Option<Map<Seq<u8>, Option<Seq<u8>>>>, Error> {
    let none = Map::<Seq<u8>, Option<Seq<u8>>>::empty();
    match lookup(c, none, Table::Migration, cursor_key_bytes(manifest), 82) {
        Err(e) => Err(app_error(e)),
        Ok(Some(_)) => Ok(None),
        Ok(None) => match status_read(c, none) {
            Err(e) => Err(app_error(e)),
            Ok(g) => {
                let s0 = if generation_rank(g) >= generation_rank(ReaderGeneration::NeuronV1) {
                    none
                } else {
                    none.insert(status_address(), Some(generation_marker(ReaderGeneration::NeuronV1)))
                };
                match prepare_sources(c, s0, sources, target, manifest) {
                    Err(e) => Err(e),
                    Ok(s) => Ok(
                        Some(
                            s.insert(address(Table::Migration, target_key_bytes(manifest)), Some(target@)).insert(
                                cursor_address(manifest),
                                Some(cursor_bytes(fresh_cursor())),
                            ),
                        ),
                    ),
                }
            },
        },
    }
}

impl TransferSource {
    /// Prepare the target once: raise its reader generation, stage every
    /// source, pin the target and record a fresh cursor.
    fn prepare_target(&self, target: &mut ApplicationStore) -> (r: Result<(), Error>)
        ensures
            final(target).database_view().failure() == old(target).database_view().failure(),
            old(target).database_view().failure() is Some ==> r is Err && final(target).database_view().contents()
                == old(target).database_view().contents(),
            old(target).database_view().failure() is None ==> match prepare_plan(
                old(target).database_view().contents(),
                self.manifest_view(),
                self.target_view(),
                self.sources_view(),
            ) {
                Err(e) => r == Err::<(), Error>(e) && final(target).database_view().contents() == old(
                    target,
                ).database_view().contents(),
                Ok(None) => r is Ok && final(target).database_view().contents() == old(
                    target,
                ).database_view().contents(),
                Ok(Some(s)) => r is Ok && exists|id: Seq<u8>|
                    final(target).database_view().contents() == apply_changes(
                        old(target).database_view().contents(),
                        #[trigger] with_markers(s, id),
                    ),
            },
    {
        proof {
            use_type_invariant(self);
            self.lemma_views();
        }
        let ghost c = target.database_view().contents();
        let ghost sources = self.sources@;
        let ghost none = Map::<Seq<u8>, Option<Seq<u8>>>::empty();
        let key = cursor_key(&self.manifest);
        let built = {
            let mut tx = match target.database().begin() {
                Ok(tx) => tx,
                Err(e) => {
                    return Err(from_storage(e));
                },
            };
            let existing = match tx.get(Table::Migration, key.as_slice(), 82) {
                Ok(v) => v,
                Err(e) => {
                    return Err(from_storage(e));
                },
            };
            if existing.is_some() {
                return Ok(());
            }
            assert(lookup(c, none, Table::Migration, cursor_key_bytes(self.manifest), 82) == Ok::<Option<Seq<u8>>, crate::storage::access::StorageError>(None));
            match promote(&mut tx, ReaderGeneration::NeuronV1) {
                Ok(_) => {},
                Err(e) => {
                    return Err(from_storage(e));
                },
            }
            let ghost s0 = tx.staged();
            let ghost finish = |s: Map<Seq<u8>, Option<Seq<u8>>>|
                s.insert(address(Table::Migration, target_key_bytes(self.manifest)), Some(self.target@)).insert(
                    cursor_address(self.manifest),
                    Some(cursor_bytes(fresh_cursor())),
                );
            proof {
                assert(sources.skip(0) =~= sources);
                assert(prepare_plan(c, self.manifest, self.target, sources) == match prepare_sources(c, s0, sources, self.target, self.manifest) {
                    Err(e) => Err(e),
                    Ok(s) => Ok(Some(finish(s))),
                });
            }
            let mut i: usize = 0;
            while i < self.sources.len()
                invariant
                    tx.wf(),
                    tx.committed() == c,
                    i <= sources.len() <= 256,
                    sources == self.sources@,
                    prepare_sources(c, s0, sources, self.target, self.manifest) == prepare_sources(
                        c,
                        tx.staged(),
                        sources.skip(i as int),
                        self.target,
                        self.manifest,
                    ),
                    tx.staged_bytes() <= 15 + 65 * i,
                    tx.staged().dom().len() <= 1 + i,
                    tx.staged().dom().finite(),
                    c == old(target).database_view().contents(),
                    self.manifest_view() == self.manifest,
                    self.target_view() == self.target,
                    self.sources_view() == sources,
                    prepare_plan(c, self.manifest, self.target, sources) == match prepare_sources(c, s0, sources, self.target, self.manifest) {
                        Err(e) => Err(e),
                        Ok(s) => Ok(Some(finish(s))),
                    },
                decreases sources.len() - i,
            {
                let id = self.sources[i].0;
                proof {
                    assert(sources.skip(i as int)[0] == sources[i as int]);
                    assert(sources.skip(i as int).drop_first() =~= sources.skip(i + 1));
                }
                if bytes_equal(&id, &self.target) {
                    proof {
                        assert(id =~= self.target);
                        assert(sources.skip(i as int)[0].0 == self.target);
                        assert(prepare_sources(c, tx.staged(), sources.skip(i as int), self.target, self.manifest)
                            == Err::<Map<Seq<u8>, Option<Seq<u8>>>, Error>(Error::Conflict));
                        assert(prepare_sources(c, s0, sources, self.target, self.manifest)
                            == Err::<Map<Seq<u8>, Option<Seq<u8>>>, Error>(Error::Conflict));
                    }
                    return Err(Error::Conflict);
                }
                proof {
                    if id == self.target {
                        assert(id@ == self.target@);
                    }
                }
                match tx.get(Table::Heads, &id, 40) {
                    Ok(Some(_)) => {
                        return Err(Error::Conflict);
                    },
                    Ok(None) => {},
                    Err(e) => {
                        return Err(from_storage(e));
                    },
                }
                match tx.get(Table::Migration, fence_key(&id).as_slice(), 64) {
                    Ok(Some(_)) => {
                        return Err(Error::Conflict);
                    },
                    Ok(None) => {},
                    Err(e) => {
                        return Err(from_storage(e));
                    },
                }
                let staged_key = transfer_stage_key(&id);
                match tx.get(Table::Migration, staged_key.as_slice(), 32) {
                    Ok(Some(_)) => {
                        return Err(Error::Conflict);
                    },
                    Ok(None) => {},
                    Err(e) => {
                        return Err(from_storage(e));
                    },
                }
                match tx.put(Table::Migration, staged_key.as_slice(), &self.manifest) {
                    Ok(()) => {},
                    Err(e) => {
                        return Err(from_storage(e));
                    },
                }
                i = i + 1;
            }
            let ghost s1 = tx.staged();
            proof {
                assert(sources.skip(i as int) =~= Seq::<(Particle, Head)>::empty());
                assert(65 * i <= 65 * 256) by (nonlinear_arith)
                    requires
                        i <= 256,
                ;
                assert(prepare_sources(c, s0, sources, self.target, self.manifest) == Ok::<Map<Seq<u8>, Option<Seq<u8>>>, Error>(s1));
            }
            match tx.put(Table::Migration, target_key(&self.manifest).as_slice(), &self.target) {
                Ok(()) => {},
                Err(e) => {
                    return Err(from_storage(e));
                },
            }
            let fresh = Cursor { table: 0, after: None, rows: 0, bytes: 0 };
            let record = fresh.encode();
            proof {
                crate::storage::transfer::lemma_cursor_bytes_well_formed(fresh);
            }
            match tx.put(Table::Migration, key.as_slice(), record.as_slice()) {
                Ok(()) => {},
                Err(e) => {
                    return Err(from_storage(e));
                },
            }
            let ghost s = tx.staged();
            proof {
                assert(fresh == fresh_cursor());
                assert(s == s1.insert(address(Table::Migration, target_key_bytes(self.manifest)), Some(self.target@)).insert(
                    cursor_address(self.manifest),
                    Some(cursor_bytes(fresh_cursor())),
                ));
                assert(finish(s1) == s);
                assert(prepare_plan(c, self.manifest, self.target, sources) == Ok::<Option<Map<Seq<u8>, Option<Seq<u8>>>>, Error>(Some(s)));
            }
            (tx.into_changes(), Ghost(s))
        };
        let (changes, Ghost(s)) = built;
        proof {
            vstd::set::axiom_set_contains_len(s.dom(), cursor_address(self.manifest));
            assert(changes.entries().len() > 0);
        }
        let id = target.commit_changes(changes);
        proof {
            let x = id->Some_0@;
            let plan_s = prepare_plan(
                old(target).database_view().contents(),
                self.manifest_view(),
                self.target_view(),
                self.sources_view(),
            )->Ok_0->Some_0;
            assert(plan_s == s);
            assert(target.database_view().contents() == apply_changes(
                old(target).database_view().contents(),
                with_markers(plan_s, x),
            ));
        }
        Ok(())
    }
}


/// One of the five tables that a transfer copies.
pub open spec fn copied_table(table: Table) -> bool {
    table is Content || table is Claims || table is Requests || table is History || table is Heads
}

/// Committing a page over `c`: the page's immutable changes `s2` and the next
/// cursor record `nb` at `ca`, with the commit markers. Rows outside the
/// bookkeeping tables keep their values, the page reads back, every new row
/// is a row of the page, and the cursor record is `nb`.
proof fn lemma_page_commit(
    c: Map<Seq<u8>, Seq<u8>>,
    s2: Map<Seq<u8>, Option<Seq<u8>>>,
    ca: Seq<u8>,
    nb: Seq<u8>,
    x: Seq<u8>,
    table: Table,
    items: Seq<(Seq<u8>, Seq<u8>)>,
)
    requires
        copied_table(table),
        ca.len() >= 1,
        ca[0] == table_code(Table::Migration),
        writes_only(s2),
        forall|a: Seq<u8>|
            #[trigger] s2.dom().contains(a) ==> !c.dom().contains(a) && exists|i: int|
                0 <= i < items.len() && a == address(table, (#[trigger] items[i]).0) && s2[a] == Some(items[i].1),
        forall|i: int|
            0 <= i < items.len() ==> overlay(c, s2).dom().contains(address(table, (#[trigger] items[i]).0))
                && overlay(c, s2)[address(table, items[i].0)] == items[i].1,
    ensures
        ({
            let f = apply_changes(c, with_markers(s2.insert(ca, Some(nb)), x));
            &&& kept_rows(c, f)
            &&& copied_rows(items, table, f, items.len() as int)
            &&& forall|a: Seq<u8>|
                #[trigger] f.dom().contains(a) && outside_bookkeeping(a) && !c.dom().contains(a) ==> exists|i: int|
                    0 <= i < items.len() && a == address(table, (#[trigger] items[i]).0) && f[a] == items[i].1
            &&& f.dom().contains(ca) && f[ca] == nb
        }),
{
    let w = with_markers(s2.insert(ca, Some(nb)), x);
    let f = apply_changes(c, w);
    reveal_strlit("last_commit");
    reveal_strlit("last_transaction");
    assert forall|a: Seq<u8>| outside_bookkeeping(a) implies (#[trigger] w.dom().contains(a) <==> s2.dom().contains(a))
        && (w.dom().contains(a) ==> w[a] == s2[a]) by {
        assert(a != ca);
        assert(a != address(Table::Metadata, "last_commit".spec_bytes()));
        assert(a != address(Table::Metadata, "last_transaction".spec_bytes()));
    }
    assert forall|a: Seq<u8>| #[trigger] c.dom().contains(a) && outside_bookkeeping(a) implies f.dom().contains(a)
        && f[a] == c[a] by {
        assert(!s2.dom().contains(a));
        assert(!w.dom().contains(a));
    }
    assert forall|i: int| 0 <= i < items.len() implies f.dom().contains(address(table, (#[trigger] items[i]).0))
        && f[address(table, items[i].0)] == items[i].1 by {
        let a = address(table, items[i].0);
        assert(a[0] == table_code(table));
        assert(outside_bookkeeping(a));
    }
    assert forall|a: Seq<u8>| #[trigger] f.dom().contains(a) && outside_bookkeeping(a) && !c.dom().contains(a) implies exists|i: int|
        0 <= i < items.len() && a == address(table, (#[trigger] items[i]).0) && f[a] == items[i].1 by {
        assert(w.dom().contains(a));
        assert(s2.dom().contains(a));
        let i = choose|i: int|
            0 <= i < items.len() && a == address(table, (#[trigger] items[i]).0) && s2[a] == Some(items[i].1);
        assert(f[a] == items[i].1);
    }
    assert(w.dom().contains(ca) && w[ca] == Some(nb)) by {
        assert(ca != address(Table::Metadata, "last_commit".spec_bytes()));
        assert(ca != address(Table::Metadata, "last_transaction".spec_bytes()));
    }
}

/// Stage the rows of a page into `table` immutably; see [`immutable_fold`].
fn put_rows(tx: &mut Transaction<'_>, table: Table, rows: &Vec<RawEntry>) -> (r: Result<(), Error>)
    requires
        old(tx).wf(),
        table_valid(table),
    ensures
        final(tx).wf(),
        final(tx).committed() == old(tx).committed(),
        final(tx).committed_entries() == old(tx).committed_entries(),
        immutable_fold(old(tx).committed(), old(tx).staged(), table, raw_view(rows@), MAX_BYTES_VALUE as nat) is Err
            ==> r is Err,
        r is Ok ==> immutable_fold(old(tx).committed(), old(tx).staged(), table, raw_view(rows@), MAX_BYTES_VALUE as nat)
            == Ok::<Map<Seq<u8>, Option<Seq<u8>>>, Error>(final(tx).staged()),
        ({
            let o = immutable_outcome(
                old(tx).committed(),
                old(tx).staged(),
                old(tx).staged_bytes(),
                table,
                raw_view(rows@),
                MAX_BYTES_VALUE as nat,
            );
            &&& r == o.0
            &&& final(tx).staged() == o.1
            &&& r is Ok ==> final(tx).staged_bytes() == o.2
        }),
{
    let ghost all = raw_view(rows@);
    let ghost c = old(tx).committed();
    let ghost expected = immutable_fold(c, old(tx).staged(), table, all, MAX_BYTES_VALUE as nat);
    let ghost outcome = immutable_outcome(c, old(tx).staged(), old(tx).staged_bytes(), table, all, MAX_BYTES_VALUE as nat);
    assert(all.skip(0) =~= all);
    let mut i: usize = 0;
    while i < rows.len()
        invariant
            i <= rows@.len(),
            all == raw_view(rows@),
            table_valid(table),
            tx.wf(),
            c == old(tx).committed(),
            tx.committed() == c,
            tx.committed_entries() == old(tx).committed_entries(),
            expected == immutable_fold(c, old(tx).staged(), table, all, MAX_BYTES_VALUE as nat),
            expected == immutable_fold(c, tx.staged(), table, all.skip(i as int), MAX_BYTES_VALUE as nat),
            outcome == immutable_outcome(c, old(tx).staged(), old(tx).staged_bytes(), table, all, MAX_BYTES_VALUE as nat),
            outcome == immutable_outcome(c, tx.staged(), tx.staged_bytes(), table, all.skip(i as int), MAX_BYTES_VALUE as nat),
        decreases rows@.len() - i,
    {
        let (key, value) = (&rows[i].0, &rows[i].1);
        proof {
            assert(all.skip(i as int)[0] == (key@, value@));
            assert(all.skip(i as int).drop_first() =~= all.skip(i + 1));
        }
        let previous = match tx.get(table, key.as_slice(), MAX_BYTES_VALUE) {
            Ok(p) => p,
            Err(e) => {
                return Err(from_storage(e));
            },
        };
        match previous {
            Some(p) => {
                if !bytes_equal(p.as_slice(), value.as_slice()) {
                    return Err(Error::Conflict);
                }
                proof {
                    assert(p@ =~= value@);
                }
            },
            None => {
                match tx.put(table, key.as_slice(), value.as_slice()) {
                    Ok(()) => {},
                    Err(e) => {
                        return Err(from_storage(e));
                    },
                }
            },
        }
        i = i + 1;
    }
    assert(all.skip(i as int).len() == 0);
    Ok(())
}


/// The table of each ordinal is one that a transfer copies, outside the
/// bookkeeping tables.
proof fn lemma_copied_tables(o: int)
    ensures
        copied_table(inspected_table(o)),
        table_valid(inspected_table(o)),
        table_code(inspected_table(o)) != table_code(Table::Migration),
        table_code(inspected_table(o)) != table_code(Table::Metadata),
{
}

/// Rows kept in place stay copied.
proof fn lemma_copied_kept(rows: Seq<(Seq<u8>, Seq<u8>)>, table: Table, t1: Map<Seq<u8>, Seq<u8>>, t2: Map<Seq<u8>, Seq<u8>>, k: int)
    requires
        copied_table(table),
        copied_rows(rows, table, t1, k),
        kept_rows(t1, t2),
    ensures
        copied_rows(rows, table, t2, k),
{
    assert forall|i: int| 0 <= i < k implies t2.dom().contains(address(table, (#[trigger] rows[i]).0))
        && t2[address(table, rows[i].0)] == rows[i].1 by {
        let a = address(table, rows[i].0);
        assert(a[0] == table_code(table));
        assert(t1.dom().contains(a));
    }
}

/// A cursor position stays covered when rows are only kept.
proof fn lemma_through_kept(
    entries: Seq<(Seq<u8>, Vec<u8>)>,
    t1: Map<Seq<u8>, Seq<u8>>,
    t2: Map<Seq<u8>, Seq<u8>>,
    table: int,
    after: Option<Seq<u8>>,
)
    requires
        copied_through(entries, t1, table, after),
        kept_rows(t1, t2),
    ensures
        copied_through(entries, t2, table, after),
{
    assert forall|o: int| 0 <= o < table && o < 5 implies #[trigger] copied_rows(
        table_rows(entries, inspected_table(o)),
        inspected_table(o),
        t2,
        table_rows(entries, inspected_table(o)).len() as int,
    ) by {
        lemma_copied_tables(o);
        lemma_copied_kept(
            table_rows(entries, inspected_table(o)),
            inspected_table(o),
            t1,
            t2,
            table_rows(entries, inspected_table(o)).len() as int,
        );
    }
    if 0 <= table < 5 {
        match after {
            None => {},
            Some(x) => {
                let rows = table_rows(entries, inspected_table(table));
                let k = choose|k: int| #[trigger] resumes_at(rows, x, k) && copied_rows(rows, inspected_table(table), t1, k);
                lemma_copied_tables(table);
                lemma_copied_kept(rows, inspected_table(table), t1, t2, k);
            },
        }
    }
}

/// The bytes that a page of a transfer may take.
pub open spec fn transfer_limits() -> ByteLimits {
    ByteLimits { max_entries: 512, max_bytes: (MAX_TRANSACTION_BYTES - 4096) as usize }
}

/// A scan after the cursor's position reads the next rows of its table: an
/// empty page means the table is done, and a full one moves the position to
/// its last row once the page is in the target.
proof fn lemma_page_advance(
    entries: Seq<(Seq<u8>, Vec<u8>)>,
    t1: Map<Seq<u8>, Seq<u8>>,
    t2: Map<Seq<u8>, Seq<u8>>,
    table: int,
    after: Option<Seq<u8>>,
    page: Seq<(Seq<u8>, Seq<u8>)>,
)
    requires
        sorted(entries),
        0 <= table < 5,
        copied_through(entries, t1, table, after),
        engine_scan(entries, inspected_table(table), after, Seq::empty(), transfer_limits()) == Ok::<
            Seq<(Seq<u8>, Seq<u8>)>,
            StorageError,
        >(page),
        kept_rows(t1, t2),
        copied_rows(page, inspected_table(table), t2, page.len() as int),
    ensures
        page.len() == 0 ==> copied_through(entries, t2, table + 1, None),
        page.len() > 0 ==> copied_through(entries, t2, table, Some(page[page.len() - 1].0)),
{
    let tb = inspected_table(table);
    let rows = table_rows(entries, tb);
    let prefix = address(tb, Seq::<u8>::empty());
    let code = table_code(tb);
    lemma_copied_tables(table);
    lemma_through_kept(entries, t1, t2, table, after);
    assert(prefix =~= seq![code]);
    let k0: int = match after {
        None => 0,
        Some(x) => choose|k: int| #[trigger] resumes_at(rows, x, k) && copied_rows(rows, tb, t1, k),
    };
    assert(select_rows(entries, prefix, match after {
        Some(a) => Some(address(tb, a)),
        None => None,
    }) == rows.skip(k0)) by {
        match after {
            None => {
                assert(rows.skip(0) =~= rows);
            },
            Some(x) => {
                law_page_resumes_after_cursor(entries, prefix, code, k0);
            },
        }
    }
    assert(copied_rows(rows, tb, t2, k0)) by {
        if after is Some {
            lemma_copied_kept(rows, tb, t1, t2, k0);
        }
    }
    let lim = transfer_limits();
    lemma_page_prefix(rows.skip(k0), lim.max_entries as nat, lim.max_bytes as nat, 0);
    lemma_page_outcomes(rows.skip(k0), lim.max_entries as nat, lim.max_bytes as nat);
    let p = page.len() as int;
    assert(page == rows.skip(k0).take(p));
    if p == 0 {
        assert(k0 == rows.len());
        assert forall|o: int| 0 <= o < table + 1 && o < 5 implies #[trigger] copied_rows(
            table_rows(entries, inspected_table(o)),
            inspected_table(o),
            t2,
            table_rows(entries, inspected_table(o)).len() as int,
        ) by {
            if o < table {
            } else {
                assert(o == table);
            }
        }
    } else {
        assert(copied_rows(rows, tb, t2, k0 + p)) by {
            assert forall|i: int| 0 <= i < k0 + p implies t2.dom().contains(address(tb, (#[trigger] rows[i]).0))
                && t2[address(tb, rows[i].0)] == rows[i].1 by {
                if i >= k0 {
                    assert(page[i - k0] == rows[i]);
                }
            }
        }
        assert(page[p - 1] == rows[k0 + p - 1]);
        let x = page[p - 1].0;
        let w = k0 + p;
        assert(resumed(entries, t2, table, x)) by {
            assert(resumes_at(table_rows(entries, inspected_table(table)), x, w));
        }
        assert(copied_through(entries, t2, table, Some(x)));
    }
}


/// Every selected row is an entry under the prefix, with its value.
proof fn lemma_select_value(entries: Seq<(Seq<u8>, Vec<u8>)>, prefix: Seq<u8>, after: Option<Seq<u8>>, i: int)
    requires
        prefix.len() >= 1,
        0 <= i < select_rows(entries, prefix, after).len(),
    ensures
        exists|j: int|
            0 <= j < entries.len() && (#[trigger] entries[j]).0 == seq![prefix[0]] + select_rows(entries, prefix, after)[i].0
                && entries[j].1@ == select_rows(entries, prefix, after)[i].1,
    decreases entries.len(),
{
    let all = select_rows(entries, prefix, after);
    let tail = entries.drop_first();
    let a = entries[0].0;
    let kept = has_prefix(a, prefix) && match after {
        Some(c) => crate::bytes::lex_lt(c, a),
        None => true,
    };
    if kept {
        if i == 0 {
            assert(seq![prefix[0]] + a.drop_first() =~= a);
            assert(entries[0].0 == seq![prefix[0]] + all[0].0);
        } else {
            assert(all[i] == select_rows(tail, prefix, after)[i - 1]);
            lemma_select_value(tail, prefix, after, i - 1);
            let j = choose|j: int|
                0 <= j < tail.len() && (#[trigger] tail[j]).0 == seq![prefix[0]] + select_rows(tail, prefix, after)[i
                    - 1].0 && tail[j].1@ == select_rows(tail, prefix, after)[i - 1].1;
            assert(entries[j + 1] == tail[j]);
        }
    } else {
        assert(all[i] == select_rows(tail, prefix, after)[i]);
        lemma_select_value(tail, prefix, after, i);
        let j = choose|j: int|
            0 <= j < tail.len() && (#[trigger] tail[j]).0 == seq![prefix[0]] + select_rows(tail, prefix, after)[i].0
                && tail[j].1@ == select_rows(tail, prefix, after)[i].1;
        assert(entries[j + 1] == tail[j]);
    }
}

/// A row that a scan of a copied table reads is a row of the store, with its value.
proof fn lemma_scan_row_source(
    entries: Seq<(Seq<u8>, Vec<u8>)>,
    table: Table,
    after: Option<Seq<u8>>,
    page: Seq<(Seq<u8>, Seq<u8>)>,
    i: int,
)
    requires
        sorted(entries),
        engine_scan(entries, table, after, Seq::empty(), transfer_limits()) == Ok::<
            Seq<(Seq<u8>, Seq<u8>)>,
            StorageError,
        >(page),
        0 <= i < page.len(),
    ensures
        bytes_of(map_of(entries)).dom().contains(address(table, page[i].0)),
        bytes_of(map_of(entries))[address(table, page[i].0)] == page[i].1,
{
    let prefix = address(table, Seq::<u8>::empty());
    assert(prefix =~= seq![table_code(table)]);
    let bound = match after {
        Some(a) => Some(address(table, a)),
        None => None,
    };
    let sel = select_rows(entries, prefix, bound);
    let lim = transfer_limits();
    lemma_page_prefix(sel, lim.max_entries as nat, lim.max_bytes as nat, 0);
    assert(page[i] == sel[i]);
    lemma_select_value(entries, prefix, bound, i);
    let j = choose|j: int|
        0 <= j < entries.len() && (#[trigger] entries[j]).0 == seq![prefix[0]] + sel[i].0 && entries[j].1@ == sel[i].1;
    lemma_sorted_unique(entries);
    lemma_map_of_index(entries, j);
}

/// Changes confined to the bookkeeping tables.
pub open spec fn bookkeeping_only(s: Map<Seq<u8>, Option<Seq<u8>>>) -> bool {
    forall|a: Seq<u8>| #[trigger] s.dom().contains(a) ==> !outside_bookkeeping(a)
}

/// Committing bookkeeping changes leaves every other row as it was.
proof fn lemma_bookkeeping_commit(c: Map<Seq<u8>, Seq<u8>>, s: Map<Seq<u8>, Option<Seq<u8>>>, x: Seq<u8>)
    requires
        bookkeeping_only(s),
    ensures
        ({
            let f = apply_changes(c, with_markers(s, x));
            &&& kept_rows(c, f)
            &&& forall|a: Seq<u8>| #[trigger] f.dom().contains(a) && outside_bookkeeping(a) ==> c.dom().contains(a)
        }),
{
    let w = with_markers(s, x);
    reveal_strlit("last_commit");
    reveal_strlit("last_transaction");
    assert forall|a: Seq<u8>| outside_bookkeeping(a) implies !(#[trigger] w.dom().contains(a)) by {
        assert(a != address(Table::Metadata, "last_commit".spec_bytes()));
        assert(a != address(Table::Metadata, "last_transaction".spec_bytes()));
    }
}

/// Preparing stages migration rows only.
proof fn lemma_prepare_bookkeeping(
    c: Map<Seq<u8>, Seq<u8>>,
    s: Map<Seq<u8>, Option<Seq<u8>>>,
    sources: Seq<(Particle, Head)>,
    target: Particle,
    manifest: Particle,
)
    requires
        bookkeeping_only(s),
        prepare_sources(c, s, sources, target, manifest) is Ok,
    ensures
        bookkeeping_only(prepare_sources(c, s, sources, target, manifest)->Ok_0),
    decreases sources.len(),
{
    if sources.len() > 0 {
        let id = sources[0].0;
        let s1 = s.insert(address(Table::Migration, stage_key_bytes(id)), Some(manifest@));
        assert(bookkeeping_only(s1));
        lemma_prepare_bookkeeping(c, s1, sources.drop_first(), target, manifest);
    }
}

/// A prepared plan changes bookkeeping rows only, and records a fresh cursor.
proof fn lemma_plan_commit(
    c: Map<Seq<u8>, Seq<u8>>,
    manifest: Particle,
    target: Particle,
    sources: Seq<(Particle, Head)>,
    x: Seq<u8>,
)
    requires
        prepare_plan(c, manifest, target, sources) matches Ok(Some(_)),
    ensures
        ({
            let s = prepare_plan(c, manifest, target, sources)->Ok_0->Some_0;
            let f = apply_changes(c, with_markers(s, x));
            &&& bookkeeping_only(s)
            &&& f.dom().contains(cursor_address(manifest))
            &&& f[cursor_address(manifest)] == cursor_bytes(fresh_cursor())
        }),
{
    let none = Map::<Seq<u8>, Option<Seq<u8>>>::empty();
    let g = status_read(c, none)->Ok_0;
    let s0 = if generation_rank(g) >= generation_rank(ReaderGeneration::NeuronV1) {
        none
    } else {
        none.insert(status_address(), Some(generation_marker(ReaderGeneration::NeuronV1)))
    };
    reveal_strlit("status");
    assert(bookkeeping_only(s0));
    lemma_prepare_bookkeeping(c, s0, sources, target, manifest);
    reveal_strlit("last_commit");
    reveal_strlit("last_transaction");
    let ca = cursor_address(manifest);
    assert(ca[0] != address(Table::Metadata, "last_commit".spec_bytes())[0]);
    assert(ca[0] != address(Table::Metadata, "last_transaction".spec_bytes())[0]);
}

/// A cursor's last key as bytes.
pub open spec fn after_of(c: Cursor) -> Option<Seq<u8>> {
    match c.after {
        Some(a) => Some(a@),
        None => None,
    }
}

/// A cursor record names the position of the cursor it decodes to.
proof fn lemma_record_cursor(b: Seq<u8>, c: Cursor)
    requires
        cursor_decodes(b, c),
    ensures
        b[0] == c.table,
        record_after(b) == after_of(c),
{
}

/// The progress that a cursor record reports.
pub open spec fn progress_recorded(b: Seq<u8>, p: TransferProgress) -> bool {
    &&& cursor_well_formed(b)
    &&& p.rows == spec_u64_from_le_bytes(b.subrange(2, 10))
    &&& p.bytes == spec_u64_from_le_bytes(b.subrange(10, 18))
    &&& p.complete == (b[0] == 5)
}

/// What committing a page with the cursor that follows it answers on a
/// target whose owner is not frozen: the recorded cursor must be `cursor`,
/// the rows are recorded immutably, then the next cursor, all within the
/// transaction budget.
pub open spec fn page_write_result(
    c: Map<Seq<u8>, Seq<u8>>,
    manifest: Particle,
    table: Table,
    items: Seq<(Seq<u8>, Seq<u8>)>,
    cursor: Cursor,
    next: Cursor,
) -> Result<(), Error> {
    match lookup(c, Map::empty(), Table::Migration, cursor_key_bytes(manifest), 82) {
        Err(e) => Err(app_error(e)),
        Ok(current) => if current != Some(cursor_bytes(cursor)) {
            Err(Error::Conflict)
        } else {
            let o = immutable_outcome(c, Map::empty(), 0, table, items, MAX_BYTES_VALUE as nat);
            match o.0 {
                Err(e) => Err(e),
                Ok(_) => match stage_result(o.1, o.2, Table::Migration, cursor_key_bytes(manifest), Some(cursor_bytes(next))) {
                    Err(e) => Err(app_error(e)),
                    Ok(_) => Ok(()),
                },
            }
        },
    }
}

impl TransferSource {
    /// Commit one page to the target with the cursor that follows it, if the
    /// target's cursor is still `cursor`.
    fn write_page(&self, target: &mut ApplicationStore, table: Table, rows: &Vec<RawEntry>, cursor: &Cursor, next: &Cursor) -> (r:
        Result<(), Error>)
        requires
            copied_table(table),
            table_valid(table),
        ensures
            final(target).database_view().failure() == old(target).database_view().failure(),
            r is Err ==> final(target).database_view().contents() == old(target).database_view().contents(),
            old(target).database_view().failure() is Some ==> r is Err,
            old(target).database_view().failure() is None ==> r == page_write_result(
                old(target).database_view().contents(),
                self.manifest_view(),
                table,
                raw_view(rows@),
                *cursor,
                *next,
            ),
            r is Ok ==> {
                let c = old(target).database_view().contents();
                let f = final(target).database_view().contents();
                let ca = cursor_address(self.manifest_view());
                let items = raw_view(rows@);
                &&& c.dom().contains(ca) && c[ca] == cursor_bytes(*cursor)
                &&& kept_rows(c, f)
                &&& copied_rows(items, table, f, items.len() as int)
                &&& forall|a: Seq<u8>|
                    #[trigger] f.dom().contains(a) && outside_bookkeeping(a) && !c.dom().contains(a) ==> exists|i: int|
                        0 <= i < items.len() && a == address(table, (#[trigger] items[i]).0) && f[a] == items[i].1
                &&& f.dom().contains(ca) && f[ca] == cursor_bytes(*next)
            },
    {
        proof {
            self.lemma_views();
        }
        let ghost c = target.database_view().contents();
        let ghost ca = cursor_address(self.manifest);
        let ghost none = Map::<Seq<u8>, Option<Seq<u8>>>::empty();
        let key = cursor_key(&self.manifest);
        let expected = cursor.encode();
        let record = next.encode();
        let built = {
            let mut tx = match target.database().begin() {
                Ok(tx) => tx,
                Err(e) => {
                    return Err(from_storage(e));
                },
            };
            let current = match tx.get(Table::Migration, key.as_slice(), 82) {
                Ok(v) => v,
                Err(e) => {
                    return Err(from_storage(e));
                },
            };
            let same = match &current {
                Some(b) => bytes_equal(b.as_slice(), expected.as_slice()),
                None => false,
            };
            proof {
                assert(same == (read_view(Ok::<Option<Vec<u8>>, crate::storage::access::StorageError>(current))
                    == Ok::<Option<Seq<u8>>, crate::storage::access::StorageError>(Some(cursor_bytes(*cursor)))));
            }
            if !same {
                return Err(Error::Conflict);
            }
            proof {
                assert(current->Some_0@ =~= expected@);
                assert(c.dom().contains(ca) && c[ca] == cursor_bytes(*cursor));
            }
            put_rows(&mut tx, table, rows)?;
            let ghost s2 = tx.staged();
            match tx.put(Table::Migration, key.as_slice(), record.as_slice()) {
                Ok(()) => {},
                Err(e) => {
                    return Err(from_storage(e));
                },
            }
            let ghost s = tx.staged();
            proof {
                assert(s == s2.insert(ca, Some(record@)));
            }
            (tx.into_changes(), Ghost(s2), Ghost(s))
        };
        let (changes, Ghost(s2), Ghost(s)) = built;
        proof {
            vstd::set::axiom_set_contains_len(s.dom(), ca);
            assert(changes.entries().len() > 0);
            assert(writes_only(none));
            lemma_fold_facts(c, none, table, raw_view(rows@), MAX_BYTES_VALUE as nat);
            assert(immutable_fold(c, none, table, raw_view(rows@), MAX_BYTES_VALUE as nat) == Ok::<
                Map<Seq<u8>, Option<Seq<u8>>>,
                Error,
            >(s2));
        }
        let id = target.commit_changes(changes);
        proof {
            let x = id->Some_0@;
            lemma_page_commit(c, s2, ca, record@, x, table, raw_view(rows@));
        }
        Ok(())
    }
}


/// What counting a page into a cursor's totals answers: each row must have
/// its table's shape, and the row count and the key-and-value byte count
/// must stay within `u64`. The totals after the page where it succeeds.
pub open spec fn count_page(table: Table, rows: Seq<(Seq<u8>, Seq<u8>)>, count: u64, bytes: u64) -> Result<(u64, u64), Error>
    decreases rows.len(),
{
    if rows.len() == 0 {
        Ok((count, bytes))
    } else {
        let (k, v) = rows[0];
        if !record_valid(table, k, v) {
            Err(Error::Corrupt)
        } else if count + 1 > u64::MAX || bytes + k.len() > u64::MAX || bytes + k.len() + v.len() > u64::MAX {
            Err(Error::Limit)
        } else {
            count_page(table, rows.drop_first(), (count + 1) as u64, (bytes + k.len() + v.len()) as u64)
        }
    }
}

/// The page that probes a namespace for uploads: its first row.
pub open spec fn upload_probe() -> ByteLimits {
    ByteLimits { max_entries: 1, max_bytes: (MAX_TRANSACTION_BYTES - 4096) as usize }
}

/// Whether the target's `entries` hold no upload under any of the `sources`
/// namespaces. Preparing a transfer fences those namespaces; it would strand an
/// upload in progress there, which only an import that also moves content can
/// carry over, so such a target is refused.
pub open spec fn uploads_clear(entries: Seq<(Seq<u8>, Vec<u8>)>, sources: Seq<(Particle, Head)>) -> Result<(), Error>
    decreases sources.len(),
{
    if sources.len() == 0 {
        Ok(())
    } else {
        match engine_scan(entries, Table::Uploads, None, sources[0].0@, upload_probe()) {
            Err(e) => Err(app_error(e)),
            Ok(rows) => if rows.len() > 0 {
                Err(Error::Storage(StorageError::Unsupported(UPLOADS_IN_PROGRESS)))
            } else {
                uploads_clear(entries, sources.drop_first())
            },
        }
    }
}

/// The refusal of a transfer over uploads in progress.
pub const UPLOADS_IN_PROGRESS: &'static str = "uploads in progress at the destination need a content-aware import";

/// How far a recorded cursor has gone: the tables finished and the rows counted.
pub open spec fn cursor_measure(b: Seq<u8>) -> int {
    b[0] + spec_u64_from_le_bytes(b.subrange(2, 10))
}

/// How far the transfer of `manifest` into rows `t` has gone: the recorded
/// cursor's measure, or nothing for a transfer not yet prepared.
pub open spec fn resume_measure(t: Map<Seq<u8>, Seq<u8>>, manifest: Particle) -> int {
    if t.dom().contains(cursor_address(manifest)) {
        cursor_measure(t[cursor_address(manifest)])
    } else {
        0
    }
}

/// Counting a page that passes adds one row per row of the page.
proof fn lemma_count_page_rows(table: Table, rows: Seq<(Seq<u8>, Seq<u8>)>, count: u64, bytes: u64)
    ensures
        count_page(table, rows, count, bytes) matches Ok((n, _)) ==> n == count + rows.len(),
    decreases rows.len(),
{
    if rows.len() > 0 {
        let (k, v) = rows[0];
        if record_valid(table, k, v) && !(count + 1 > u64::MAX || bytes + k.len() > u64::MAX || bytes + k.len()
            + v.len() > u64::MAX) {
            lemma_count_page_rows(table, rows.drop_first(), (count + 1) as u64, (bytes + k.len() + v.len()) as u64);
        }
    }
}

impl TransferSource {
    /// Refuse a target that holds an upload under a source namespace; see
    /// [`uploads_clear`].
    fn check_uploads(&self, target: &ApplicationStore) -> (r: Result<(), Error>)
        ensures
            target.database_view().failure() is None ==> r == uploads_clear(
                target.database_view().entries(),
                self.sources_view(),
            ),
    {
        proof {
            self.lemma_views();
        }
        let ghost all = self.sources@;
        let ghost e = target.database_view().entries();
        let mut i: usize = 0;
        proof {
            assert(all.skip(0) =~= all);
        }
        while i < self.sources.len()
            invariant
                i <= all.len(),
                all == self.sources@,
                all == self.sources_view(),
                e == target.database_view().entries(),
                target.database_view().failure() is None ==> uploads_clear(e, all) == uploads_clear(e, all.skip(i as int)),
            decreases all.len() - i,
        {
            let limits = ByteLimits { max_entries: 1, max_bytes: MAX_TRANSACTION_BYTES - 4096 };
            let rows = match target.database().scan(Table::Uploads, None, &self.sources[i].0, limits) {
                Ok(rows) => rows,
                Err(e) => {
                    return Err(from_storage(e));
                },
            };
            proof {
                assert(limits == upload_probe());
                assert(all.skip(i as int)[0] == all[i as int]);
                assert(all.skip(i as int).drop_first() =~= all.skip(i + 1));
            }
            if rows.len() > 0 {
                return Err(Error::Storage(StorageError::Unsupported(UPLOADS_IN_PROGRESS)));
            }
            i = i + 1;
        }
        proof {
            assert(all.skip(i as int) =~= Seq::<(Particle, Head)>::empty());
        }
        Ok(())
    }
}

/// The host accepts every content row it is shown.
pub open spec fn content_accepted<F: Fn(Particle, &[u8], &ApplicationStore) -> Result<(), Error>>(f: F) -> bool {
    forall|p: Particle, b: &[u8], s: &ApplicationStore, x: Result<(), Error>| #[trigger]
        call_ensures(f, (p, b, s), x) ==> x is Ok
}

impl TransferSource {
    /// Validate a page of rows of the table at `cursor` and count it into the
    /// cursor that follows it: the same table, after the page's last key.
    fn check_page<F: Fn(Particle, &[u8], &ApplicationStore) -> Result<(), Error>>(
        &self,
        ordinal: usize,
        rows: &Vec<RawEntry>,
        cursor: &Cursor,
        validate_content: &F,
    ) -> (r: Result<Cursor, Error>)
        requires
            ordinal < 5,
            cursor.table == ordinal,
            rows@.len() > 0,
            forall|p: Particle, b: &[u8], s: &ApplicationStore| #[trigger] call_requires(*validate_content, (p, b, s)),
        ensures
            r matches Ok(next) ==> next.table == cursor.table && cursor_encodable(next) && after_of(next) == Some(
                raw_view(rows@)[rows@.len() - 1].0,
            ),
            r matches Ok(next) ==> count_page(inspected_table(ordinal as int), raw_view(rows@), cursor.rows, cursor.bytes)
                == Ok::<(u64, u64), Error>((next.rows, next.bytes)),
            r matches Err(e) ==> count_page(inspected_table(ordinal as int), raw_view(rows@), cursor.rows, cursor.bytes)
                == Err::<(u64, u64), Error>(e) || (ordinal == 0 && exists|p: Particle, b: &[u8], s: &ApplicationStore|
                #[trigger] call_ensures(*validate_content, (p, b, s), Err::<(), Error>(e))),
            ordinal != 0 || content_accepted(*validate_content) ==> match count_page(
                inspected_table(ordinal as int),
                raw_view(rows@),
                cursor.rows,
                cursor.bytes,
            ) {
                Ok(_) => r is Ok,
                Err(e) => r == Err::<Cursor, Error>(e),
            },
    {
        let ghost all = raw_view(rows@);
        let ghost expected = count_page(inspected_table(ordinal as int), all, cursor.rows, cursor.bytes);
        proof {
            assert(all.skip(0) =~= all);
        }
        let table = inspected_table_at(ordinal);
        let mut count = cursor.rows;
        let mut bytes = cursor.bytes;
        let mut i: usize = 0;
        while i < rows.len()
            invariant
                i <= rows@.len(),
                table == inspected_table(ordinal as int),
                ordinal < 5,
                forall|j: int| 0 <= j < i ==> record_valid(table, (#[trigger] rows@[j]).0@, rows@[j].1@),
                forall|p: Particle, b: &[u8], s: &ApplicationStore| #[trigger] call_requires(*validate_content, (p, b, s)),
                all == raw_view(rows@),
                expected == count_page(table, all, cursor.rows, cursor.bytes),
                expected == count_page(table, all.skip(i as int), count, bytes),
            decreases rows@.len() - i,
        {
            let (key, value) = (&rows[i].0, &rows[i].1);
            proof {
                assert(all.skip(i as int)[0] == (key@, value@));
                assert(all.skip(i as int).drop_first() =~= all.skip(i + 1));
            }
            match validate_record(table, key.as_slice(), value.as_slice()) {
                Ok(()) => {},
                Err(e) => {
                    return Err(Error::Corrupt);
                },
            }
            if ordinal == 0 {
                let id = read_array32(key.as_slice(), 0);
                match validate_content(id, value.as_slice(), &self.store) {
                    Ok(()) => {},
                    Err(e) => {
                        return Err(e);
                    },
                }
            }
            count = match count.checked_add(1) {
                Some(v) => v,
                None => {
                    return Err(Error::Limit);
                },
            };
            bytes = match bytes.checked_add(key.len() as u64) {
                Some(v) => v,
                None => {
                    return Err(Error::Limit);
                },
            };
            bytes = match bytes.checked_add(value.len() as u64) {
                Some(v) => v,
                None => {
                    return Err(Error::Limit);
                },
            };
            i = i + 1;
        }
        let last_at = rows.len() - 1;
        let last = copy_bytes(rows[last_at].0.as_slice());
        proof {
            assert(record_valid(table, rows@[last_at as int].0@, rows@[last_at as int].1@));
        }
        Ok(Cursor { table: cursor.table, after: Some(last), rows: count, bytes })
    }

    /// Copy at most `pages` pages of the source into `target`, each committed
    /// with the cursor that follows it. Content rows are checked by the host's
    /// `validate_content`; once every table is copied the source's links are
    /// validated. The target's rows outside its bookkeeping keep their values,
    /// every new one is a source row, and the rows before the recorded cursor
    /// stay copied; the progress returned is the one that cursor records.
    pub fn stage<F: Fn(Particle, &[u8], &ApplicationStore) -> Result<(), Error>>(
        &mut self,
        target: &mut ApplicationStore,
        pages: usize,
        validate_content: F,
    ) -> (r: Result<TransferProgress, Error>)
        requires
            forall|p: Particle, b: &[u8], s: &ApplicationStore| #[trigger] call_requires(validate_content, (p, b, s)),
        ensures
            final(self).manifest_view() == old(self).manifest_view(),
            final(self).target_view() == old(self).target_view(),
            final(self).sources_view() == old(self).sources_view(),
            final(self).store_view().database_view().failure() == old(self).store_view().database_view().failure(),
            same_outside_receipts(
                final(self).store_view().database_view().contents(),
                old(self).store_view().database_view().contents(),
            ),
            final(target).database_view().failure() == old(target).database_view().failure(),
            pages == 0 || pages > 4096 ==> (r matches Err(Error::Limit)) && *final(target) == *old(target)
                && *final(self) == *old(self),
            !(pages == 0 || pages > 4096) && old(target).database_view().failure() is Some ==> r is Err,
            !(pages == 0 || pages > 4096) && old(target).database_view().failure() is None && lookup(
                old(target).database_view().contents(),
                Map::empty(),
                Table::Migration,
                cursor_key_bytes(old(self).manifest_view()),
                82,
            ) == Ok::<Option<Seq<u8>>, StorageError>(None) ==> match uploads_clear(
                old(target).database_view().entries(),
                old(self).sources_view(),
            ) {
                Err(e) => r == Err::<TransferProgress, Error>(e) && final(target).database_view().contents() == old(
                    target,
                ).database_view().contents(),
                Ok(_) => true,
            },
            !(pages == 0 || pages > 4096) && old(target).database_view().failure() is None && (lookup(
                old(target).database_view().contents(),
                Map::empty(),
                Table::Migration,
                cursor_key_bytes(old(self).manifest_view()),
                82,
            ) != Ok::<Option<Seq<u8>>, StorageError>(None) || uploads_clear(
                old(target).database_view().entries(),
                old(self).sources_view(),
            ) is Ok) ==> (prepare_plan(
                old(target).database_view().contents(),
                old(self).manifest_view(),
                old(self).target_view(),
                old(self).sources_view(),
            ) matches Err(e) ==> r == Err::<TransferProgress, Error>(e) && final(target).database_view().contents()
                == old(target).database_view().contents()),
            kept_rows(old(target).database_view().contents(), final(target).database_view().contents()),
            copied_from(
                old(self).store_view().database_view().contents(),
                old(target).database_view().contents(),
                final(target).database_view().contents(),
            ),
            r matches Ok(p) ==> p.complete || cursor_measure(
                final(target).database_view().contents()[cursor_address(old(self).manifest_view())],
            ) >= resume_measure(old(target).database_view().contents(), old(self).manifest_view()) + pages,
            r matches Ok(p) ==> p.manifest == old(self).manifest_view() && final(target).database_view().contents().dom().contains(
                cursor_address(old(self).manifest_view()),
            ) && progress_recorded(
                final(target).database_view().contents()[cursor_address(old(self).manifest_view())],
                p,
            ),
            !old(target).database_view().contents().dom().contains(cursor_address(old(self).manifest_view()))
                || transfer_state(
                old(self).store_view().database_view().entries(),
                old(target).database_view().contents(),
                old(self).manifest_view(),
            ) ==> transfer_state(
                old(self).store_view().database_view().entries(),
                final(target).database_view().contents(),
                old(self).manifest_view(),
            ),
    {
        proof {
            self.lemma_views();
            use_type_invariant(&*self);
        }
        let ghost t0 = target.database_view().contents();
        let ghost c0 = self.store.database_view().contents();
        let ghost e0 = self.store.database_view().entries();
        let ghost m = self.manifest;
        let ghost ca = cursor_address(self.manifest);
        let ghost good = !t0.dom().contains(ca) || transfer_state(e0, t0, m);
        if pages == 0 || pages > 4096 {
            return Err(Error::Limit);
        }
        let ghost plan = prepare_plan(t0, self.manifest, self.target, self.sources@);
        let ghost te0 = target.database_view().entries();
        let probe = cursor_key(&self.manifest);
        let unprepared = match target.database().read(Table::Migration, probe.as_slice(), 82) {
            Ok(None) => true,
            _ => false,
        };
        if unprepared {
            self.check_uploads(target)?;
        }
        self.prepare_target(target)?;
        let ghost t1 = target.database_view().contents();
        proof {
            match plan {
                Ok(None) => {},
                Ok(Some(s)) => {
                    let x = choose|x: Seq<u8>| t1 == apply_changes(t0, #[trigger] with_markers(s, x));
                    lemma_plan_commit(t0, self.manifest, self.target, self.sources@, x);
                    lemma_bookkeeping_commit(t0, s, x);
                    crate::storage::transfer::lemma_cursor_bytes_well_formed(fresh_cursor());
                    assert(cursor_bytes(fresh_cursor())[0] == 0 && cursor_bytes(fresh_cursor())[1] == 0);
                    assert(copied_through(e0, t1, 0, None));
                },
                Err(_) => {},
            }
        }
        let key = cursor_key(&self.manifest);
        let record = match target.database().read(Table::Migration, key.as_slice(), 82) {
            Ok(Some(b)) => b,
            Ok(None) => {
                return Err(Error::Corrupt);
            },
            Err(e) => {
                return Err(from_storage(e));
            },
        };
        let mut cursor = Cursor::decode(record.as_slice())?;
        proof {
            lemma_record_cursor(record@, cursor);
            lemma_decoded_encodable(record@, cursor);
            assert(t1.dom().contains(ca) && t1[ca] == record@);
            if !t0.dom().contains(ca) {
                crate::storage::transfer::lemma_cursor_decodes_own(fresh_cursor());
                assert(record@ == cursor_bytes(fresh_cursor()));
            }
        }
        let ghost start = resume_measure(t0, m);
        assert(cursor.table + cursor.rows == start);
        let mut n: usize = 0;
        while n < pages && cursor.table != 5
            invariant
                n <= pages,
                0 < pages <= 4096,
                m == old(self).manifest_view(),
                t0 == old(target).database_view().contents(),
                c0 == old(self).store_view().database_view().contents(),
                e0 == old(self).store_view().database_view().entries(),
                good == (!t0.dom().contains(ca) || transfer_state(e0, t0, m)),
                prepare_plan(t0, m, old(self).target_view(), old(self).sources_view()) is Ok,
                self.sources@.len() <= 256,
                self.manifest == m,
                self.manifest_view() == m,
                self.target_view() == old(self).target_view(),
                self.sources_view() == old(self).sources_view(),
                ca == cursor_address(m),
                self.store.database_view().failure() == old(self).store_view().database_view().failure(),
                same_outside_receipts(self.store.database_view().contents(), c0),
                cursor.table < 5 ==> self.store.database_view() == old(self).store_view().database_view(),
                target.database_view().failure() == old(target).database_view().failure(),
                target.database_view().contents().dom().contains(ca),
                cursor_decodes(target.database_view().contents()[ca], cursor),
                cursor_encodable(cursor),
                kept_rows(t0, target.database_view().contents()),
                copied_from(c0, t0, target.database_view().contents()),
                good ==> copied_through(
                    e0,
                    target.database_view().contents(),
                    cursor.table as int,
                    after_of(cursor),
                ),
                forall|p: Particle, b: &[u8], s: &ApplicationStore| #[trigger] call_requires(validate_content, (p, b, s)),
                cursor.table + cursor.rows >= start + n,
                te0 == old(target).database_view().entries(),
                old(target).database_view().failure() is None && lookup(
                    t0,
                    Map::empty(),
                    Table::Migration,
                    cursor_key_bytes(m),
                    82,
                ) == Ok::<Option<Seq<u8>>, StorageError>(None) ==> uploads_clear(te0, old(self).sources_view()) is Ok,
            decreases pages - n,
        {
            let ordinal = cursor.table as usize;
            let table = inspected_table_at(ordinal);
            proof {
                lemma_copied_tables(ordinal as int);
            }
            let after: Option<&[u8]> = match &cursor.after {
                Some(a) => Some(a.as_slice()),
                None => None,
            };
            let limits = ByteLimits { max_entries: 512, max_bytes: MAX_TRANSACTION_BYTES - 4096 };
            let rows = match self.store.database().scan(table, after, &[], limits) {
                Ok(rows) => rows,
                Err(e) => {
                    return Err(from_storage(e));
                },
            };
            let ghost e = self.store.database_view().entries();
            let ghost t = target.database_view().contents();
            proof {
                assert(limits == transfer_limits());
                let empty: &[u8] = &[];
                assert(empty@ =~= Seq::<u8>::empty());
            }
            let next = if rows.len() == 0 {
                let next = Cursor { table: cursor.table + 1, after: None, rows: cursor.rows, bytes: cursor.bytes };
                if next.table == 5 {
                    let mut store = ApplicationStore::from_database(Database::new());
                    std::mem::swap(&mut store, &mut self.store);
                    let checked = store.validate_links();
                    std::mem::swap(&mut store, &mut self.store);
                    match checked {
                        Ok(()) => {},
                        Err(e) => {
                            return Err(e);
                        },
                    }
                }
                next
            } else {
                let next = self.check_page(ordinal, &rows, &cursor, &validate_content)?;
                proof {
                    lemma_count_page_rows(inspected_table(ordinal as int), raw_view(rows@), cursor.rows, cursor.bytes);
                }
                next
            };
            self.write_page(target, table, &rows, &cursor, &next)?;
            let ghost t2 = target.database_view().contents();
            proof {
                let page = raw_view(rows@);
                lemma_cursor_decodes_own(next);
                assert forall|a: Seq<u8>| #[trigger] t2.dom().contains(a) && outside_bookkeeping(a) && !t0.dom().contains(a)
                    implies c0.dom().contains(a) && c0[a] == t2[a] by {
                    if t.dom().contains(a) {
                        assert(c0.dom().contains(a) && c0[a] == t[a]);
                    } else {
                        let i = choose|i: int|
                            0 <= i < page.len() && a == address(table, (#[trigger] page[i]).0) && t2[a] == page[i].1;
                        lemma_scan_row_source(e, table, after_of(cursor), page, i);
                    }
                }
                if good {
                    lemma_page_advance(e, t, t2, ordinal as int, after_of(cursor), page);
                }
            }
            cursor = next;
            n = n + 1;
        }
        let progress = TransferProgress {
            manifest: self.manifest,
            rows: cursor.rows,
            bytes: cursor.bytes,
            complete: cursor.table == 5,
        };
        Ok(progress)
    }
}


/// Once the target's cursor names the end of the last table, every row of the
/// five copied tables of the source is in the target with its value.
pub proof fn law_completed_transfer_holds_every_row(
    entries: Seq<(Seq<u8>, Vec<u8>)>,
    tgt: Map<Seq<u8>, Seq<u8>>,
    manifest: Particle,
    o: int,
    i: int,
)
    requires
        transfer_state(entries, tgt, manifest),
        tgt.dom().contains(cursor_address(manifest)),
        tgt[cursor_address(manifest)][0] == 5,
        0 <= o < 5,
        0 <= i < table_rows(entries, inspected_table(o)).len(),
    ensures
        tgt.dom().contains(address(inspected_table(o), table_rows(entries, inspected_table(o))[i].0)),
        tgt[address(inspected_table(o), table_rows(entries, inspected_table(o))[i].0)] == table_rows(
            entries,
            inspected_table(o),
        )[i].1,
{
    let rows = table_rows(entries, inspected_table(o));
    assert(copied_rows(rows, inspected_table(o), tgt, rows.len() as int));
    assert(rows[i] == rows[i]);
}

/// A transfer that has not begun, or whose cursor record is fresh, promises
/// nothing yet: its state holds.
pub proof fn law_fresh_transfer_state(entries: Seq<(Seq<u8>, Vec<u8>)>, tgt: Map<Seq<u8>, Seq<u8>>, manifest: Particle)
    requires
        tgt.dom().contains(cursor_address(manifest)) ==> tgt[cursor_address(manifest)] == cursor_bytes(fresh_cursor()),
    ensures
        transfer_state(entries, tgt, manifest),
{
    crate::storage::transfer::lemma_cursor_bytes_well_formed(fresh_cursor());
    assert(cursor_bytes(fresh_cursor())[0] == 0 && cursor_bytes(fresh_cursor())[1] == 0);
}

} // verus!
