//! Bounded inspection of an application archive: every row of the five
//! application tables is counted, shape-checked, hashed into a digest, and
//! tied to its namespace's head, history and content.
use crate::bytes::{
    append_bytes, be64, bytes_equal, copy_bytes, from_be64, le64, lemma_be64, lemma_le64, push_be64,
    push_le64, read_array32, read_be64,
};
use crate::hash::{StreamHasher, hemera_digest};
use crate::ordered::{OrderedMap, sorted};
use crate::storage::application::{
    Error, Head, Particle, app_error, decode_head, decode_request, from_storage, history_key,
    make_history_key,
};
use crate::storage::archive::{ApplicationArchive, ArchiveSummary, MAX_INSPECTION_BYTES, MAX_INSPECTION_ROWS};
use crate::storage::database::{
    ByteLimits, MAX_BYTES_VALUE, MAX_KEY_BYTES, MAX_TRANSACTION_BYTES, RawEntry, byte_page, engine_scan, lookup,
    raw_view, select_rows,
};
use crate::storage::paging::{law_page_resumes_after_cursor, lemma_page_prefix};
use crate::storage::table::{Table, address, table_code};
use crate::storage::validation::{record_valid, validate_record};
use vstd::bytes::spec_u64_from_le_bytes;
use vstd::prelude::*;
use vstd::string::StringSliceAdditionalSpecFns;

verus! {

/// The application tables in inspection order.
pub open spec fn inspected_table(ordinal: int) -> Table {
    if ordinal == 0 {
        Table::Content
    } else if ordinal == 1 {
        Table::Claims
    } else if ordinal == 2 {
        Table::Requests
    } else if ordinal == 3 {
        Table::History
    } else {
        Table::Heads
    }
}

/// Rows per inspection page, and the page byte budget.
pub open spec fn inspect_limits() -> ByteLimits {
    ByteLimits { max_entries: 512, max_bytes: (MAX_TRANSACTION_BYTES - 4096) as usize }
}

/// Every row of `table`, in key order.
pub open spec fn table_rows(entries: Seq<(Seq<u8>, Vec<u8>)>, table: Table) -> Seq<(Seq<u8>, Seq<u8>)> {
    select_rows(entries, address(table, Seq::empty()), None)
}

/// What an inspection has found so far.
pub struct Tally {
    pub rows: nat,
    pub bytes: nat,
    pub tables: Seq<nat>,
    /// Everything hashed into the digest so far.
    pub input: Seq<u8>,
    /// Request positions (namespace, then big-endian index) not yet matched by history.
    pub receipts: Set<Seq<u8>>,
    /// The last history position seen.
    pub previous: Option<(Seq<u8>, u64)>,
    /// Tables begun.
    pub started: nat,
}

/// A head, as read for `namespace`, bounds the inspected position and its
/// history and content must be present.
pub open spec fn inspect_links(c: Map<Seq<u8>, Seq<u8>>, namespace: Seq<u8>, index: u64, commit: Seq<u8>) -> Result<
    (),
    Error,
> {
    let none = Map::<Seq<u8>, Option<Seq<u8>>>::empty();
    match lookup(c, none, Table::Heads, namespace, 40) {
        Err(e) => Err(app_error(e)),
        Ok(None) => Err(Error::Corrupt),
        Ok(Some(b)) => if b.len() != 40 {
            Err(Error::Corrupt)
        } else if index > spec_u64_from_le_bytes(b.take(8)) {
            Err(Error::Corrupt)
        } else {
            match lookup(c, none, Table::History, namespace + be64(index), 32) {
                Err(e) => Err(app_error(e)),
                Ok(v) => if v != Some(commit) {
                    Err(Error::Corrupt)
                } else {
                    match lookup(c, none, Table::Content, commit, MAX_BYTES_VALUE as nat) {
                        Err(e) => Err(app_error(e)),
                        Ok(None) => Err(Error::Corrupt),
                        Ok(Some(_)) => Ok(()),
                    }
                },
            }
        },
    }
}

/// Inspect one row of the table at `ordinal`: count it within the budgets,
/// check its shape, hash it, and check its links.
pub open spec fn inspect_row(
    c: Map<Seq<u8>, Seq<u8>>,
    ordinal: int,
    key: Seq<u8>,
    value: Seq<u8>,
    st: Tally,
    max_rows: nat,
    max_bytes: nat,
) -> Result<Tally, Error> {
    let table = inspected_table(ordinal);
    let rows = st.rows + 1;
    let bytes = st.bytes + key.len() + value.len();
    if rows > max_rows || bytes > max_bytes {
        Err(Error::Limit)
    } else if !record_valid(table, key, value) {
        Err(Error::Corrupt)
    } else {
        let counted = Tally {
            rows: rows as nat,
            bytes: bytes as nat,
            tables: st.tables.update(ordinal, st.tables[ordinal] + 1),
            input: st.input + le64(key.len() as u64) + key + le64(value.len() as u64) + value,
            receipts: st.receipts,
            previous: st.previous,
            started: st.started,
        };
        let namespace = key.take(32);
        if ordinal == 0 || ordinal == 1 {
            Ok(counted)
        } else if ordinal == 4 {
            match inspect_links(c, namespace, spec_u64_from_le_bytes(value.take(8)), value.skip(8)) {
                Err(e) => Err(e),
                Ok(_) => Ok(counted),
            }
        } else if ordinal == 2 {
            let index = spec_u64_from_le_bytes(value.skip(32).take(8));
            let position = namespace + be64(index);
            if st.receipts.contains(position) {
                Err(Error::Corrupt)
            } else {
                match inspect_links(c, namespace, index, value.skip(40)) {
                    Err(e) => Err(e),
                    Ok(_) => Ok(Tally { receipts: st.receipts.insert(position), ..counted }),
                }
            }
        } else {
            let index = from_be64(key.skip(32));
            let expected: int = match st.previous {
                Some((p, n)) => if p == namespace {
                    n + 1
                } else {
                    0
                },
                None => 0,
            };
            if expected > u64::MAX || index != expected || !st.receipts.contains(namespace + be64(index)) {
                Err(Error::Corrupt)
            } else {
                match inspect_links(c, namespace, index, value) {
                    Err(e) => Err(e),
                    Ok(_) => Ok(
                        Tally {
                            receipts: st.receipts.remove(namespace + be64(index)),
                            previous: Some((namespace, index)),
                            ..counted
                        },
                    ),
                }
            }
        }
    }
}

/// Inspect `rows` in order.
pub open spec fn inspect_rows(
    c: Map<Seq<u8>, Seq<u8>>,
    ordinal: int,
    rows: Seq<(Seq<u8>, Seq<u8>)>,
    st: Tally,
    max_rows: nat,
    max_bytes: nat,
) -> Result<Tally, Error>
    decreases rows.len(),
{
    if rows.len() == 0 {
        Ok(st)
    } else {
        match inspect_row(c, ordinal, rows[0].0, rows[0].1, st, max_rows, max_bytes) {
            Err(e) => Err(e),
            Ok(next) => inspect_rows(c, ordinal, rows.drop_first(), next, max_rows, max_bytes),
        }
    }
}

/// Inspect the `remaining` rows of a table page by page.
pub open spec fn inspect_pages(
    c: Map<Seq<u8>, Seq<u8>>,
    ordinal: int,
    remaining: Seq<(Seq<u8>, Seq<u8>)>,
    st: Tally,
    max_rows: nat,
    max_bytes: nat,
) -> Result<Tally, Error>
    decreases remaining.len(),
{
    let limits = inspect_limits();
    match byte_page(remaining, limits.max_entries as nat, limits.max_bytes as nat, 0) {
        Err(e) => Err(app_error(e)),
        Ok(page) => if page.len() == 0 {
            Ok(st)
        } else {
            proof {
                lemma_page_prefix(remaining, limits.max_entries as nat, limits.max_bytes as nat, 0);
            }
            match inspect_rows(c, ordinal, page, st, max_rows, max_bytes) {
                Err(e) => Err(e),
                Ok(next) => inspect_pages(
                    c,
                    ordinal,
                    remaining.skip(page.len() as int),
                    next,
                    max_rows,
                    max_bytes,
                ),
            }
        },
    }
}

/// Inspect the tables from `ordinal` on.
pub open spec fn inspect_tables(
    c: Map<Seq<u8>, Seq<u8>>,
    entries: Seq<(Seq<u8>, Vec<u8>)>,
    ordinal: int,
    st: Tally,
    max_rows: nat,
    max_bytes: nat,
) -> Result<Tally, Error>
    decreases 5 - ordinal,
{
    if ordinal >= 5 {
        Ok(st)
    } else {
        let started = Tally { input: st.input + seq![ordinal as u8], started: st.started + 1, ..st };
        match inspect_pages(
            c,
            ordinal,
            table_rows(entries, inspected_table(ordinal)),
            started,
            max_rows,
            max_bytes,
        ) {
            Err(e) => Err(e),
            Ok(next) => inspect_tables(c, entries, ordinal + 1, next, max_rows, max_bytes),
        }
    }
}

/// Inspecting rows leaves the count of tables begun as it was.
proof fn lemma_rows_started(
    c: Map<Seq<u8>, Seq<u8>>,
    ordinal: int,
    rows: Seq<(Seq<u8>, Seq<u8>)>,
    st: Tally,
    max_rows: nat,
    max_bytes: nat,
)
    ensures
        inspect_rows(c, ordinal, rows, st, max_rows, max_bytes) matches Ok(t) ==> t.started == st.started,
    decreases rows.len(),
{
    if rows.len() > 0 {
        match inspect_row(c, ordinal, rows[0].0, rows[0].1, st, max_rows, max_bytes) {
            Ok(next) => {
                lemma_rows_started(c, ordinal, rows.drop_first(), next, max_rows, max_bytes);
            },
            Err(_) => {},
        }
    }
}

/// Inspecting pages leaves the count of tables begun as it was.
proof fn lemma_pages_started(
    c: Map<Seq<u8>, Seq<u8>>,
    ordinal: int,
    remaining: Seq<(Seq<u8>, Seq<u8>)>,
    st: Tally,
    max_rows: nat,
    max_bytes: nat,
)
    ensures
        inspect_pages(c, ordinal, remaining, st, max_rows, max_bytes) matches Ok(t) ==> t.started == st.started,
    decreases remaining.len(),
{
    let limits = inspect_limits();
    lemma_page_prefix(remaining, limits.max_entries as nat, limits.max_bytes as nat, 0);
    match byte_page(remaining, limits.max_entries as nat, limits.max_bytes as nat, 0) {
        Ok(page) => if page.len() > 0 {
            lemma_rows_started(c, ordinal, page, st, max_rows, max_bytes);
            match inspect_rows(c, ordinal, page, st, max_rows, max_bytes) {
                Ok(next) => {
                    lemma_pages_started(c, ordinal, remaining.skip(page.len() as int), next, max_rows, max_bytes);
                },
                Err(_) => {},
            }
        },
        Err(_) => {},
    }
}

/// The last transaction's marker as the owner reports it.
pub open spec fn marker_of(c: Map<Seq<u8>, Seq<u8>>) -> Result<Option<Seq<u8>>, Error> {
    let a = address(Table::Metadata, "last_transaction".spec_bytes());
    if !c.dom().contains(a) {
        Ok(None)
    } else if c[a].len() > 32 {
        Err(Error::Limit)
    } else if c[a].len() != 32 {
        Err(Error::Corrupt)
    } else {
        Ok(Some(c[a]))
    }
}

/// An inspection's starting point: nothing counted, the digest's domain tag.
pub open spec fn initial_tally() -> Tally {
    Tally {
        rows: 0,
        bytes: 0,
        tables: seq![0nat, 0nat, 0nat, 0nat, 0nat],
        input: "bbg/application-archive-rows/1\0".spec_bytes(),
        receipts: Set::empty(),
        previous: None,
        started: 0,
    }
}

/// The whole inspection: every table, then every receipt matched by history
/// and the last transaction unchanged since the archive was opened.
pub open spec fn inspection(
    c: Map<Seq<u8>, Seq<u8>>,
    entries: Seq<(Seq<u8>, Vec<u8>)>,
    max_rows: nat,
    max_bytes: nat,
    transaction: Option<Seq<u8>>,
) -> Result<Tally, Error> {
    match inspect_tables(c, entries, 0, initial_tally(), max_rows, max_bytes) {
        Err(e) => Err(e),
        Ok(t) => if !t.receipts.is_empty() {
            Err(Error::Corrupt)
        } else {
            match marker_of(c) {
                Err(e) => Err(e),
                Ok(m) => if m != transaction {
                    Err(Error::Corrupt)
                } else {
                    Ok(t)
                },
            }
        },
    }
}

/// `s` reports tally `t`.
pub open spec fn summary_matches(s: ArchiveSummary, t: Tally) -> bool {
    &&& s.rows == t.rows
    &&& s.bytes == t.bytes
    &&& t.tables.len() == 5
    &&& forall|i: int| 0 <= i < 5 ==> s.tables@[i] == #[trigger] t.tables[i]
    &&& s.digest@ == hemera_digest(t.input)
}

pub fn inspected_table_at(ordinal: usize) -> (t: Table)
    requires
        ordinal < 5,
    ensures
        t == inspected_table(ordinal as int),
{
    if ordinal == 0 {
        Table::Content
    } else if ordinal == 1 {
        Table::Claims
    } else if ordinal == 2 {
        Table::Requests
    } else if ordinal == 3 {
        Table::History
    } else {
        Table::Heads
    }
}

/// Check the links of an inspected position; see [`inspect_links`].
fn check_links(archive: &ApplicationArchive, namespace: &Particle, index: u64, commit: &[u8]) -> (r: Result<(), Error>)
    requires
        commit@.len() == 32,
    ensures
        archive.store_view().database_view().failure() is Some ==> r is Err,
        archive.store_view().database_view().failure() is None ==> r == inspect_links(
            archive.store_view().database_view().contents(),
            namespace@,
            index,
            commit@,
        ),
{
    let store = archive.store();
    let selected = match store.head(namespace)? {
        Some(h) => h,
        None => {
            return Err(Error::Corrupt);
        },
    };
    if index > selected.index {
        return Err(Error::Corrupt);
    }
    let key = make_history_key(namespace, index);
    let recorded = match store.database().read(Table::History, key.as_slice(), 32) {
        Ok(v) => v,
        Err(e) => {
            return Err(from_storage(e));
        },
    };
    let same = match &recorded {
        Some(v) => bytes_equal(v.as_slice(), commit),
        None => false,
    };
    if !same {
        return Err(Error::Corrupt);
    }
    let id = read_array32(commit, 0);
    assert(id@ =~= commit@);
    match store.content(&id, MAX_BYTES_VALUE)? {
        Some(_) => Ok(()),
        None => Err(Error::Corrupt),
    }
}

/// The running state of an inspection.
struct Counter {
    rows: u64,
    bytes: u64,
    tables: [u64; 5],
    hasher: StreamHasher,
    receipts: OrderedMap<()>,
    previous: Option<(Particle, u64)>,
}

/// `k` holds tally `t`, within the inspection budgets.
spec fn counter_matches(k: Counter, t: Tally) -> bool {
    &&& k.rows == t.rows
    &&& k.bytes == t.bytes
    &&& t.tables.len() == 5
    &&& forall|i: int| 0 <= i < 5 ==> k.tables@[i] == #[trigger] t.tables[i] && t.tables[i] <= t.rows
    &&& k.hasher.absorbed() == t.input
    &&& k.receipts@.dom() == t.receipts
    &&& match k.previous {
        Some((p, n)) => t.previous == Some((p@, n)),
        None => t.previous is None,
    }
    &&& t.rows <= MAX_INSPECTION_ROWS
    &&& t.bytes <= MAX_INSPECTION_BYTES
    &&& t.started <= 5
    &&& t.input.len() <= 31 + t.started + 17 * t.rows + t.bytes
}

/// The host check refused some row with `e`.
pub open spec fn host_refused<F: Fn(Particle, &[u8], &ApplicationArchive) -> Result<(), Error>>(f: F, e: Error) -> bool {
    exists|p: Particle, b: &[u8], a: &ApplicationArchive| #[trigger] call_ensures(f, (p, b, a), Err::<(), Error>(e))
}

/// Every content row is accepted by the host's validation.
pub open spec fn accepts_all<F: Fn(Particle, &[u8], &ApplicationArchive) -> Result<(), Error>>(f: F) -> bool {
    forall|p: Particle, b: &[u8], a: &ApplicationArchive, out: Result<(), Error>|
        #[trigger] call_ensures(f, (p, b, a), out) ==> out is Ok
}

/// Inspect one row; see [`inspect_row`].
fn inspect_one<F: Fn(Particle, &[u8], &ApplicationArchive) -> Result<(), Error>>(
    archive: &ApplicationArchive,
    ordinal: usize,
    key: &[u8],
    value: &[u8],
    k: &mut Counter,
    max_rows: u64,
    max_bytes: u64,
    validate_content: &F,
    Ghost(st): Ghost<Tally>,
) -> (r: Result<(), Error>)
    requires
        ordinal < 5,
        counter_matches(*old(k), st),
        max_rows <= MAX_INSPECTION_ROWS,
        max_bytes <= MAX_INSPECTION_BYTES,
        archive.store_view().database_view().failure() is None,
        forall|p: Particle, b: &[u8], a: &ApplicationArchive| #[trigger]
            call_requires(*validate_content, (p, b, a)),
    ensures
        r is Ok ==> (inspect_row(
            archive.store_view().database_view().contents(),
            ordinal as int,
            key@,
            value@,
            st,
            max_rows as nat,
            max_bytes as nat,
        ) matches Ok(t) && counter_matches(*final(k), t)),
        r matches Err(e) ==> inspect_row(
            archive.store_view().database_view().contents(),
            ordinal as int,
            key@,
            value@,
            st,
            max_rows as nat,
            max_bytes as nat,
        ) == Err::<Tally, Error>(e) || host_refused(*validate_content, e),
accepts_all(*validate_content) ==> match inspect_row(
            archive.store_view().database_view().contents(),
            ordinal as int,
            key@,
            value@,
            st,
            max_rows as nat,
            max_bytes as nat,
        ) {
            Ok(t) => r is Ok,
            Err(e) => r == Err::<(), Error>(e),
        },
{
    let ghost c = archive.store_view().database_view().contents();
    if k.rows >= max_rows {
        return Err(Error::Limit);
    }
    let size = match (key.len() as u64).checked_add(value.len() as u64) {
        Some(n) => n,
        None => {
            return Err(Error::Limit);
        },
    };
    if size > max_bytes || k.bytes > max_bytes - size {
        return Err(Error::Limit);
    }
    let table = inspected_table_at(ordinal);
    if validate_record(table, key, value).is_err() {
        return Err(Error::Corrupt);
    }
    let mut frame: Vec<u8> = Vec::new();
    push_le64(&mut frame, key.len() as u64);
    append_bytes(&mut frame, key);
    push_le64(&mut frame, value.len() as u64);
    append_bytes(&mut frame, value);
    proof {
        lemma_le64(key.len() as u64);
        lemma_le64(value.len() as u64);
    }
    let ghost counted = Tally {
        rows: (st.rows + 1) as nat,
        bytes: (st.bytes + key@.len() + value@.len()) as nat,
        tables: st.tables.update(ordinal as int, st.tables[ordinal as int] + 1),
        input: st.input + le64(key@.len() as u64) + key@ + le64(value@.len() as u64) + value@,
        receipts: st.receipts,
        previous: st.previous,
        started: st.started,
    };
    if ordinal == 0 {
        let id = read_array32(key, 0);
        match validate_content(id, value, archive) {
            Ok(()) => {},
            Err(e) => {
                return Err(e);
            },
        }
    }
    let namespace = read_array32(key, 0);
    proof {
        assert(namespace@ =~= key@.take(32));
    }
    let mut receipt: Option<Vec<u8>> = None;
    let mut position: Option<Vec<u8>> = None;
    if ordinal == 4 {
        let head = match decode_head(value) {
            Ok(h) => h,
            Err(e) => {
                return Err(e);
            },
        };
        proof {
            assert(value@.take(8) =~= value@.subrange(0, 8));
        }
        check_links(archive, &namespace, head.index, &head.commit)?;
    } else if ordinal == 2 {
        let (_, head) = match decode_request(value) {
            Ok(x) => x,
            Err(e) => {
                return Err(e);
            },
        };
        let mut pos = copy_bytes(&namespace);
        push_be64(&mut pos, head.index);
        proof {
            lemma_be64(head.index);
            assert(value@.skip(32).take(8) =~= value@.skip(32).take(8));
        }
        if k.receipts.get(pos.as_slice()).is_some() {
            return Err(Error::Corrupt);
        }
        proof {
            assert(head.commit@ =~= value@.skip(40)) by {
                assert(value@.skip(32).skip(8) =~= value@.skip(40));
            }
        }
        check_links(archive, &namespace, head.index, &head.commit)?;
        receipt = Some(pos);
    } else if ordinal == 3 {
        let index = read_be64(key, 32);
        proof {
            assert(key@.subrange(32, 40) =~= key@.skip(32));
        }
        let expected: u64 = match &k.previous {
            Some((p, n)) => {
                if bytes_equal(p, &namespace) {
                    if *n == u64::MAX {
                        return Err(Error::Corrupt);
                    }
                    *n + 1
                } else {
                    0
                }
            },
            None => 0,
        };
        if index != expected {
            return Err(Error::Corrupt);
        }
        let mut pos = copy_bytes(&namespace);
        push_be64(&mut pos, index);
        proof {
            lemma_be64(index);
        }
        if k.receipts.get(pos.as_slice()).is_none() {
            return Err(Error::Corrupt);
        }
        check_links(archive, &namespace, index, value)?;
        position = Some(pos);
    }
    k.rows = k.rows + 1;
    k.bytes = k.bytes + size;
    k.tables[ordinal] = k.tables[ordinal] + 1;
    k.hasher.update(frame.as_slice());
    match receipt {
        Some(pos) => {
            k.receipts.set(pos, ());
        },
        None => {},
    }
    match position {
        Some(pos) => {
            k.receipts.remove(pos.as_slice());
            let index = read_be64(key, 32);
            k.previous = Some((namespace, index));
        },
        None => {},
    }
    proof {
        let t = inspect_row(c, ordinal as int, key@, value@, st, max_rows as nat, max_bytes as nat);
        assert(t is Ok);
        let t = t->Ok_0;
        assert(k.rows == t.rows);
        assert(k.bytes == t.bytes);
        assert(t.tables == counted.tables);
        assert forall|i: int| 0 <= i < 5 implies k.tables@[i] == #[trigger] t.tables[i] && t.tables[i] <= t.rows by {
            if i != ordinal {
                assert(t.tables[i] == st.tables[i]);
            }
        }
        assert(frame@ =~= le64(key@.len() as u64) + key@ + le64(value@.len() as u64) + value@);
        assert(t.input =~= st.input + frame@);
        assert(k.hasher.absorbed() == t.input);
        assert(k.receipts@.dom() =~= t.receipts);
        assert(t.input.len() <= 31 + t.started + 17 * t.rows + t.bytes);
    }
    Ok(())
}

/// Inspect the rows of one page in order; see [`inspect_rows`].
fn inspect_page<F: Fn(Particle, &[u8], &ApplicationArchive) -> Result<(), Error>>(
    archive: &ApplicationArchive,
    ordinal: usize,
    page: &Vec<RawEntry>,
    k: &mut Counter,
    max_rows: u64,
    max_bytes: u64,
    validate_content: &F,
    Ghost(st): Ghost<Tally>,
) -> (r: Result<(), Error>)
    requires
        ordinal < 5,
        counter_matches(*old(k), st),
        max_rows <= MAX_INSPECTION_ROWS,
        max_bytes <= MAX_INSPECTION_BYTES,
        archive.store_view().database_view().failure() is None,
        forall|p: Particle, b: &[u8], a: &ApplicationArchive| #[trigger]
            call_requires(*validate_content, (p, b, a)),
    ensures
        r is Ok ==> (inspect_rows(
            archive.store_view().database_view().contents(),
            ordinal as int,
            raw_view(page@),
            st,
            max_rows as nat,
            max_bytes as nat,
        ) matches Ok(t) && counter_matches(*final(k), t)),
        r matches Err(e) ==> inspect_rows(
            archive.store_view().database_view().contents(),
            ordinal as int,
            raw_view(page@),
            st,
            max_rows as nat,
            max_bytes as nat,
        ) == Err::<Tally, Error>(e) || host_refused(*validate_content, e),
accepts_all(*validate_content) ==> match inspect_rows(
            archive.store_view().database_view().contents(),
            ordinal as int,
            raw_view(page@),
            st,
            max_rows as nat,
            max_bytes as nat,
        ) {
            Ok(t) => r is Ok,
            Err(e) => r == Err::<(), Error>(e),
        },
{
    let ghost c = archive.store_view().database_view().contents();
    let ghost pv = raw_view(page@);
    let ghost mut cur = st;
    let mut i: usize = 0;
    proof {
        assert(pv.skip(0) =~= pv);
    }
    while i < page.len()
        invariant
            i <= page@.len(),
            pv == raw_view(page@),
            ordinal < 5,
            max_rows <= MAX_INSPECTION_ROWS,
            max_bytes <= MAX_INSPECTION_BYTES,
            archive.store_view().database_view().failure() is None,
            c == archive.store_view().database_view().contents(),
            forall|p: Particle, b: &[u8], a: &ApplicationArchive| #[trigger]
                call_requires(*validate_content, (p, b, a)),
            counter_matches(*k, cur),
            inspect_rows(c, ordinal as int, pv, st, max_rows as nat, max_bytes as nat) == inspect_rows(
                c,
                ordinal as int,
                pv.skip(i as int),
                cur,
                max_rows as nat,
                max_bytes as nat,
            ),
        decreases page@.len() - i,
    {
        proof {
            assert(pv.skip(i as int)[0] == pv[i as int]);
            assert(pv.skip(i as int).drop_first() =~= pv.skip(i + 1));
        }
        let ghost next = inspect_row(c, ordinal as int, pv[i as int].0, pv[i as int].1, cur, max_rows as nat, max_bytes as nat);
        match inspect_one(archive, ordinal, page[i].0.as_slice(), page[i].1.as_slice(), k, max_rows, max_bytes, validate_content, Ghost(cur)) {
            Ok(()) => {},
            Err(e) => {
                return Err(e);
            },
        }
        proof {
            cur = next->Ok_0;
        }
        i = i + 1;
    }
    proof {
        assert(pv.skip(i as int) =~= Seq::<(Seq<u8>, Seq<u8>)>::empty());
    }
    Ok(())
}

/// Inspect every row of the table at `ordinal`, page by page; see [`inspect_pages`].
fn inspect_table<F: Fn(Particle, &[u8], &ApplicationArchive) -> Result<(), Error>>(
    archive: &ApplicationArchive,
    ordinal: usize,
    k: &mut Counter,
    max_rows: u64,
    max_bytes: u64,
    validate_content: &F,
    Ghost(st): Ghost<Tally>,
) -> (r: Result<(), Error>)
    requires
        ordinal < 5,
        counter_matches(*old(k), st),
        max_rows <= MAX_INSPECTION_ROWS,
        max_bytes <= MAX_INSPECTION_BYTES,
        forall|p: Particle, b: &[u8], a: &ApplicationArchive| #[trigger]
            call_requires(*validate_content, (p, b, a)),
    ensures
        archive.store_view().database_view().failure() is Some ==> r is Err,
        archive.store_view().database_view().failure() is None ==> {
            let db = archive.store_view().database_view();
            let outcome = inspect_pages(
                db.contents(),
                ordinal as int,
                table_rows(db.entries(), inspected_table(ordinal as int)),
                st,
                max_rows as nat,
                max_bytes as nat,
            );
            &&& (r is Ok ==> (outcome matches Ok(t) && counter_matches(*final(k), t)))
            &&& (r matches Err(e) ==> outcome == Err::<Tally, Error>(e) || host_refused(*validate_content, e))
            &&& (accepts_all(*validate_content) ==> match outcome {
                Ok(t) => r is Ok,
                Err(e) => r == Err::<(), Error>(e),
            })
        },
{
    let db = archive.store().database();
    let ghost c = db.contents();
    let ghost entries = db.entries();
    let table = inspected_table_at(ordinal);
    let limits = ByteLimits { max_entries: 512, max_bytes: MAX_TRANSACTION_BYTES - 4096 };
    let ghost all = table_rows(entries, table);
    let ghost mut done: int = 0;
    let ghost mut cur = st;
    let mut cursor: Option<Vec<u8>> = None;
    proof {
        assert(all.skip(0) =~= all);
    }
    loop
        invariant
            ordinal < 5,
            table == inspected_table(ordinal as int),
            limits == inspect_limits(),
            db == archive.store_view().database_view(),
            c == db.contents(),
            entries == db.entries(),
            all == table_rows(entries, table),
            max_rows <= MAX_INSPECTION_ROWS,
            max_bytes <= MAX_INSPECTION_BYTES,
            forall|p: Particle, b: &[u8], a: &ApplicationArchive| #[trigger]
                call_requires(*validate_content, (p, b, a)),
            0 <= done <= all.len(),
            cursor is None <==> done == 0,
            cursor matches Some(x) ==> done > 0 && x@ == all[done - 1].0 && x@.len() <= MAX_KEY_BYTES,
            done > 0 ==> db.failure() is None,
            counter_matches(*k, cur),
            db.failure() is None ==> inspect_pages(c, ordinal as int, all, st, max_rows as nat, max_bytes as nat)
                == inspect_pages(c, ordinal as int, all.skip(done), cur, max_rows as nat, max_bytes as nat),
        decreases all.len() - done,
    {
        let prefix: [u8; 0] = [];
        let scanned = match &cursor {
            Some(x) => db.scan(table, Some(x.as_slice()), &prefix, limits),
            None => db.scan(table, None, &prefix, limits),
        };
        proof {
            assert(address(table, Seq::<u8>::empty()) =~= seq![table_code(table)]);
            assert(prefix@ =~= Seq::<u8>::empty());
            if cursor is Some {
                let x = cursor->Some_0;
                assert(address(table, x@) =~= seq![table_code(table)] + all[done - 1].0);
                law_page_resumes_after_cursor(entries, seq![table_code(table)], table_code(table), done);
            }
        }
        let page: Vec<RawEntry> = match scanned {
            Ok(p) => p,
            Err(e) => {
                return Err(from_storage(e));
            },
        };
        let ghost pv = raw_view(page@);
        proof {
            let after_address = if cursor is Some {
                Some(address(table, cursor->Some_0@))
            } else {
                None
            };
            assert(select_rows(entries, address(table, prefix@), after_address) == all.skip(done));
            assert(byte_page(all.skip(done), 512, (MAX_TRANSACTION_BYTES - 4096) as nat, 0) == Ok::<
                Seq<(Seq<u8>, Seq<u8>)>,
                crate::storage::access::StorageError,
            >(pv));
            lemma_page_prefix(all.skip(done), 512, (MAX_TRANSACTION_BYTES - 4096) as nat, 0);
        }
        if page.len() == 0 {
            return Ok(());
        }
        let ghost next = inspect_rows(c, ordinal as int, pv, cur, max_rows as nat, max_bytes as nat);
        match inspect_page(archive, ordinal, &page, k, max_rows, max_bytes, validate_content, Ghost(cur)) {
            Ok(()) => {},
            Err(e) => {
                return Err(e);
            },
        }
        proof {
            cur = next->Ok_0;
            assert(pv.len() == page@.len());
            assert(all.skip(done).skip(pv.len() as int) =~= all.skip(done + pv.len()));
        }
        let last = copy_bytes(page[page.len() - 1].0.as_slice());
        proof {
            assert(pv[pv.len() - 1] == all.skip(done)[pv.len() - 1]);
            done = done + pv.len();
        }
        cursor = Some(last);
    }
}

impl ApplicationArchive {
    /// Inspect every row of the five application tables within `max_rows` rows
    /// and `max_bytes` key-and-value bytes: shapes, request receipts matched
    /// one to one by history, history contiguous from zero, every position
    /// below its head with history and content present. The host validates
    /// content rows. Returns counts and a digest of all rows.
    pub fn inspect<F: Fn(Particle, &[u8], &ApplicationArchive) -> Result<(), Error>>(
        &self,
        max_rows: u64,
        max_bytes: u64,
        validate_content: F,
    ) -> (r: Result<ArchiveSummary, Error>)
        requires
            forall|p: Particle, b: &[u8], a: &ApplicationArchive| #[trigger]
                call_requires(validate_content, (p, b, a)),
        ensures
            max_rows == 0 || max_rows > MAX_INSPECTION_ROWS || max_bytes == 0 || max_bytes
                > MAX_INSPECTION_BYTES ==> r matches Err(Error::Limit),
            !(max_rows == 0 || max_rows > MAX_INSPECTION_ROWS || max_bytes == 0 || max_bytes
                > MAX_INSPECTION_BYTES) ==> {
                let db = self.store_view().database_view();
                let ins = inspection(
                    db.contents(),
                    db.entries(),
                    max_rows as nat,
                    max_bytes as nat,
                    match self.transaction_view() {
                        Some(t) => Some(t@),
                        None => None,
                    },
                );
                &&& (db.failure() is Some ==> r is Err)
                &&& (db.failure() is None ==> (r matches Ok(s) ==> (ins matches Ok(t) && summary_matches(s, t))))
                &&& (db.failure() is None ==> (r matches Err(e) ==> (ins matches Err(x) && x == e) || host_refused(
                    validate_content,
                    e,
                )))
                &&& (db.failure() is None && accepts_all(validate_content) ==> match ins {
                    Ok(t) => r matches Ok(s) && summary_matches(s, t),
                    Err(e) => r matches Err(x) && x == e,
                })
            },
    {
        if max_rows == 0 || max_rows > MAX_INSPECTION_ROWS || max_bytes == 0 || max_bytes
            > MAX_INSPECTION_BYTES {
            return Err(Error::Limit);
        }
        let db = self.store().database();
        let ghost c = db.contents();
        let ghost entries = db.entries();
        proof {
            reveal_strlit("bbg/application-archive-rows/1\0");
            vstd::string::is_ascii_spec_bytes("bbg/application-archive-rows/1\0");
        }
        let mut hasher = StreamHasher::new();
        hasher.update("bbg/application-archive-rows/1\0".as_bytes());
        let mut k = Counter {
            rows: 0,
            bytes: 0,
            tables: [0u64; 5],
            hasher,
            receipts: OrderedMap::new(),
            previous: None,
        };
        let ghost mut st = initial_tally();
        proof {
            assert(k.receipts@.dom() =~= Set::<Seq<u8>>::empty());
            assert(k.tables@ =~= seq![0u64, 0u64, 0u64, 0u64, 0u64]);
        }
        let mut ordinal: usize = 0;
        while ordinal < 5
            invariant
                ordinal <= 5,
                st.started == ordinal,
                0 < max_rows && 0 < max_bytes,
                db == self.store_view().database_view(),
                c == db.contents(),
                entries == db.entries(),
                max_rows <= MAX_INSPECTION_ROWS,
                max_bytes <= MAX_INSPECTION_BYTES,
                forall|p: Particle, b: &[u8], a: &ApplicationArchive| #[trigger]
                    call_requires(validate_content, (p, b, a)),
                counter_matches(k, st),
                inspect_tables(c, entries, 0, initial_tally(), max_rows as nat, max_bytes as nat)
                    == inspect_tables(c, entries, ordinal as int, st, max_rows as nat, max_bytes as nat),
            decreases 5 - ordinal,
        {
            let tag: [u8; 1] = [ordinal as u8];
            k.hasher.update(&tag);
            proof {
                assert(tag@ =~= seq![ordinal as u8]);
                st = Tally { input: st.input + seq![ordinal as u8], started: st.started + 1, ..st };
            }
            let ghost next = inspect_pages(
                c,
                ordinal as int,
                table_rows(entries, inspected_table(ordinal as int)),
                st,
                max_rows as nat,
                max_bytes as nat,
            );
            match inspect_table(self, ordinal, &mut k, max_rows, max_bytes, &validate_content, Ghost(st)) {
                Ok(()) => {},
                Err(e) => {
                    return Err(e);
                },
            }
            proof {
                lemma_pages_started(
                    c,
                    ordinal as int,
                    table_rows(entries, inspected_table(ordinal as int)),
                    st,
                    max_rows as nat,
                    max_bytes as nat,
                );
                st = next->Ok_0;
            }
            ordinal = ordinal + 1;
        }
        proof {
            use_type_invariant(&k.receipts);
            k.receipts.lemma_wf();
        }
        if k.receipts.len() > 0 {
            proof {
                crate::ordered::lemma_map_of_index(k.receipts.entries(), 0);
            }
            return Err(Error::Corrupt);
        }
        proof {
            if !st.receipts.is_empty() {
                let x = st.receipts.choose();
                crate::ordered::lemma_map_of_has_key(k.receipts.entries(), x);
            }
        }
        let marker = match db.last_transaction() {
            Ok(m) => m,
            Err(e) => {
                return Err(from_storage(e));
            },
        };
        let same = match (&marker, &self.last_transaction()) {
            (Some(a), Some(b)) => bytes_equal(a, b),
            (None, None) => true,
            _ => false,
        };
        if !same {
            return Err(Error::Corrupt);
        }
        let digest = k.hasher.finalize();
        Ok(ArchiveSummary { rows: k.rows, bytes: k.bytes, tables: k.tables, digest })
    }
}

} // verus!