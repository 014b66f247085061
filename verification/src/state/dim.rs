//! The committed layout of each dimension: its entries in key order, each a
//! 32-byte key and its value as 32-bit cells. A 64-bit value takes two cells,
//! low half first; 32 bytes take eight cells, each four bytes little-endian.
//! The numeric dimensions (`Time`, `Signals`) are keyed by a height, written
//! little-endian into the first eight bytes of the key.
use super::BbgState;
use crate::bytes::read_le32;
use crate::ordered::OrderedMap;
use crate::query::Dim;
use crate::query_auth::value_width;
use crate::types::{
    CardRecord, CoinRecord, FileRecord, LocationRecord, NeuronRecord, Particle, ParticleRecord, SignalRecord,
};
use vstd::bytes::spec_u32_from_le_bytes;
use vstd::prelude::*;

verus! {

/// The two cells of a 64-bit value: low half, then high half.
pub open spec fn u64_cells(x: u64) -> Seq<u64> {
    seq![(x % 0x1_0000_0000) as u64, (x / 0x1_0000_0000) as u64]
}

/// The eight cells of 32 bytes: each four bytes, little-endian.
pub open spec fn bytes_cells(b: Seq<u8>) -> Seq<u64> {
    Seq::new(8, |i: int| spec_u32_from_le_bytes(b.subrange(4 * i, 4 * i + 4)) as u64)
}

/// A value as the cells of its dimension.
pub trait Cells {
    spec fn cells(&self) -> Seq<u64>;

    fn push_cells(&self, out: &mut Vec<u64>)
        ensures
            final(out)@ == old(out)@ + self.cells(),
    ;
}

fn push_u64(out: &mut Vec<u64>, x: u64)
    ensures
        final(out)@ == old(out)@ + u64_cells(x),
{
    out.push(x % 0x1_0000_0000);
    out.push(x / 0x1_0000_0000);
    assert(final(out)@ =~= old(out)@ + u64_cells(x));
}

fn push_bytes(out: &mut Vec<u64>, b: &[u8; 32])
    ensures
        final(out)@ == old(out)@ + bytes_cells(b@),
{
    let ghost start = out@;
    let mut i: usize = 0;
    while i < 8
        invariant
            i <= 8,
            b@.len() == 32,
            out@ =~= start + bytes_cells(b@).take(i as int),
        decreases 8 - i,
    {
        let limb = read_le32(b, 4 * i);
        out.push(limb as u64);
        assert(bytes_cells(b@).take(i + 1) =~= bytes_cells(b@).take(i as int).push(limb as u64));
        i = i + 1;
    }
    assert(bytes_cells(b@).take(8) =~= bytes_cells(b@));
}

impl Cells for ParticleRecord {
    open spec fn cells(&self) -> Seq<u64> {
        u64_cells(self.energy) + u64_cells(self.pi_star) + u64_cells(self.weight) + u64_cells(self.s_yes)
            + u64_cells(self.s_no) + u64_cells(self.meta_score)
    }

    fn push_cells(&self, out: &mut Vec<u64>) {
        push_u64(out, self.energy);
        push_u64(out, self.pi_star);
        push_u64(out, self.weight);
        push_u64(out, self.s_yes);
        push_u64(out, self.s_no);
        push_u64(out, self.meta_score);
    }
}

impl Cells for NeuronRecord {
    open spec fn cells(&self) -> Seq<u64> {
        u64_cells(self.focus) + u64_cells(self.karma) + u64_cells(self.stake)
    }

    fn push_cells(&self, out: &mut Vec<u64>) {
        push_u64(out, self.focus);
        push_u64(out, self.karma);
        push_u64(out, self.stake);
    }
}

impl Cells for LocationRecord {
    open spec fn cells(&self) -> Seq<u64> {
        u64_cells(self.lat as u32 as u64) + u64_cells(self.lon as u32 as u64)
    }

    fn push_cells(&self, out: &mut Vec<u64>) {
        push_u64(out, self.lat as u32 as u64);
        push_u64(out, self.lon as u32 as u64);
    }
}

impl Cells for CoinRecord {
    open spec fn cells(&self) -> Seq<u64> {
        u64_cells(self.total_supply)
    }

    fn push_cells(&self, out: &mut Vec<u64>) {
        push_u64(out, self.total_supply);
    }
}

impl Cells for CardRecord {
    open spec fn cells(&self) -> Seq<u64> {
        bytes_cells(self.owner@) + bytes_cells(self.particle@)
    }

    fn push_cells(&self, out: &mut Vec<u64>) {
        push_bytes(out, &self.owner);
        push_bytes(out, &self.particle);
    }
}

impl Cells for FileRecord {
    open spec fn cells(&self) -> Seq<u64> {
        u64_cells(if self.available { 1 } else { 0 }) + u64_cells(self.chunk_count as u64)
    }

    fn push_cells(&self, out: &mut Vec<u64>) {
        push_u64(out, if self.available { 1 } else { 0 });
        push_u64(out, self.chunk_count as u64);
    }
}

impl Cells for SignalRecord {
    open spec fn cells(&self) -> Seq<u64> {
        bytes_cells(self.neuron@) + u64_cells(self.link_count as u64) + u64_cells(self.block_height) + bytes_cells(
            self.proof_hash@,
        )
    }

    fn push_cells(&self, out: &mut Vec<u64>) {
        push_bytes(out, &self.neuron);
        push_u64(out, self.link_count as u64);
        push_u64(out, self.block_height);
        push_bytes(out, &self.proof_hash);
    }
}

impl Cells for Particle {
    open spec fn cells(&self) -> Seq<u64> {
        bytes_cells(self@)
    }

    fn push_cells(&self, out: &mut Vec<u64>) {
        push_bytes(out, self);
    }
}

impl Cells for u64 {
    open spec fn cells(&self) -> Seq<u64> {
        u64_cells(*self)
    }

    fn push_cells(&self, out: &mut Vec<u64>) {
        push_u64(out, *self);
    }
}

/// The cells of the particles of a list, one after another.
pub open spec fn list_cells(v: Seq<Seq<u8>>) -> Seq<u64>
    decreases v.len(),
{
    if v.len() == 0 {
        Seq::empty()
    } else {
        list_cells(v.drop_last()) + bytes_cells(v.last())
    }
}

/// The bytes of each particle of a list.
pub open spec fn particles_view(v: Seq<Particle>) -> Seq<Seq<u8>> {
    v.map_values(|p: Particle| p@)
}

impl Cells for Vec<Particle> {
    open spec fn cells(&self) -> Seq<u64> {
        u64_cells(self@.len() as u64) + list_cells(particles_view(self@))
    }

    fn push_cells(&self, out: &mut Vec<u64>) {
        let ghost start = out@;
        push_u64(out, self.len() as u64);
        let mut i: usize = 0;
        while i < self.len()
            invariant
                i <= self@.len(),
                out@ == start + u64_cells(self@.len() as u64) + list_cells(particles_view(self@.take(i as int))),
            decreases self@.len() - i,
        {
            push_bytes(out, &self[i]);
            assert(particles_view(self@.take(i + 1)).drop_last() =~= particles_view(self@.take(i as int)));
            assert(particles_view(self@.take(i + 1)).last() == self@[i as int]@);
            i = i + 1;
        }
        assert(self@.take(i as int) =~= self@);
    }
}

/// The dimension key of a stored key: as it is for the keyed dimensions, and
/// for the numeric ones, whose stored keys are big-endian heights, the height
/// little-endian followed by zeros.
pub open spec fn dim_key(numeric: bool, k: Seq<u8>) -> Seq<u8> {
    if numeric {
        k.reverse() + Seq::new(24, |i: int| 0u8)
    } else {
        k
    }
}

/// Whether a stored key has the width of its dimension's keys.
pub open spec fn key_fits(numeric: bool, k: Seq<u8>) -> bool {
    if numeric {
        k.len() == 8
    } else {
        k.len() == 32
    }
}

/// The entries of a dimension, in stored key order: every stored entry whose
/// key has its dimension's width, as its dimension key and its cells.
pub open spec fn rows_of<V: Cells>(entries: Seq<(Seq<u8>, V)>, numeric: bool) -> Seq<(Seq<u8>, Seq<u64>)>
    decreases entries.len(),
{
    if entries.len() == 0 {
        Seq::empty()
    } else {
        let rest = rows_of(entries.drop_last(), numeric);
        let (k, v) = entries.last();
        if key_fits(numeric, k) {
            rest.push((dim_key(numeric, k), v.cells()))
        } else {
            rest
        }
    }
}

/// The stored key a row comes from: its key, or for a numeric dimension the
/// big-endian height that its first eight bytes hold little-endian.
pub open spec fn row_source(numeric: bool, row: (Seq<u8>, Seq<u64>)) -> Seq<u8> {
    if numeric {
        row.0.take(8).reverse()
    } else {
        row.0
    }
}

/// `row` is made from the `j`-th stored entry, whose key fits.
pub open spec fn comes_from<V: Cells>(entries: Seq<(Seq<u8>, V)>, numeric: bool, row: (Seq<u8>, Seq<u64>), j: int) -> bool {
    0 <= j < entries.len() && key_fits(numeric, entries[j].0) && entries[j].0 == row_source(numeric, row) && row.1
        == entries[j].1.cells()
}

/// `row` is made from some stored entry whose key fits.
pub open spec fn has_source<V: Cells>(entries: Seq<(Seq<u8>, V)>, numeric: bool, row: (Seq<u8>, Seq<u64>)) -> bool {
    exists|j: int| #[trigger] comes_from(entries, numeric, row, j)
}

/// Every row comes from a stored entry whose key fits, with that entry's
/// cells; rows of ascending entries ascend by the keys they come from; and a
/// numeric row's key is zero past its eighth byte.
pub proof fn lemma_rows_of<V: Cells>(entries: Seq<(Seq<u8>, V)>, numeric: bool)
    ensures
        forall|i: int|
            0 <= i < rows_of(entries, numeric).len() ==> has_source(entries, numeric, #[trigger] rows_of(entries, numeric)[i]),
        crate::ordered::sorted(entries) ==> forall|i: int, j: int|
            0 <= i < j < rows_of(entries, numeric).len() ==> crate::bytes::lex_lt(
                row_source(numeric, #[trigger] rows_of(entries, numeric)[i]),
                row_source(numeric, #[trigger] rows_of(entries, numeric)[j]),
            ),
        forall|i: int|
            0 <= i < rows_of(entries, numeric).len() ==> (#[trigger] rows_of(entries, numeric)[i]).0.len() == 32,
        numeric ==> forall|i: int, t: int|
            0 <= i < rows_of(entries, numeric).len() && 8 <= t < 32 ==> #[trigger] rows_of(entries, numeric)[i].0[t]
                == 0,
    decreases entries.len(),
{
    if entries.len() > 0 {
        let init = entries.drop_last();
        lemma_rows_of(init, numeric);
        let rest = rows_of(init, numeric);
        let rows = rows_of(entries, numeric);
        let (k, v) = entries.last();
        let last = entries.len() - 1;
        if numeric && key_fits(numeric, k) {
            assert((k.reverse() + Seq::new(24, |i: int| 0u8)).take(8) =~= k.reverse());
            assert(k.reverse().reverse() =~= k);
        }
        assert forall|i: int| 0 <= i < rows_of(entries, numeric).len() implies has_source(
            entries,
            numeric,
            #[trigger] rows_of(entries, numeric)[i],
        ) by {
            if i < rest.len() {
                assert(rows[i] == rest[i]);
                assert(has_source(init, numeric, rest[i]));
                let j = choose|j: int| #[trigger] comes_from(init, numeric, rest[i], j);
                assert(entries[j] == init[j]);
                assert(comes_from(entries, numeric, rows[i], j));
            } else {
                assert(entries[last] == (k, v));
                if numeric {
                    assert(row_source(numeric, rows[i]) =~= k);
                }
                assert(comes_from(entries, numeric, rows[i], last));
            }
        }
        if crate::ordered::sorted(entries) {
            assert(crate::ordered::sorted(init)) by {
                assert forall|a: int, b: int| 0 <= a < b < init.len() implies crate::bytes::lex_lt(
                    #[trigger] init[a].0,
                    #[trigger] init[b].0,
                ) by {
                    assert(init[a] == entries[a] && init[b] == entries[b]);
                }
            }
            assert forall|a: int, b: int| 0 <= a < b < rows.len() implies crate::bytes::lex_lt(
                row_source(numeric, #[trigger] rows[a]),
                row_source(numeric, #[trigger] rows[b]),
            ) by {
                if b < rest.len() {
                    assert(rows[a] == rest[a] && rows[b] == rest[b]);
                } else {
                    assert(rows[a] == rest[a]);
                    assert(has_source(init, numeric, rest[a]));
                    let j = choose|j: int| #[trigger] comes_from(init, numeric, rest[a], j);
                    assert(entries[j] == init[j]);
                    assert(lex_lt_pair(entries, j, last));
                    if numeric {
                        assert(row_source(numeric, rows[b]) =~= k);
                    }
                }
            }
        }
    } else {
        assert(rows_of(entries, numeric) =~= Seq::<(Seq<u8>, Seq<u64>)>::empty());
    }
}


/// Every stored entry whose key fits has a row.
pub proof fn lemma_rows_cover<V: Cells>(entries: Seq<(Seq<u8>, V)>, numeric: bool, j: int)
    requires
        0 <= j < entries.len(),
        key_fits(numeric, entries[j].0),
    ensures
        exists|i: int|
            0 <= i < rows_of(entries, numeric).len() && row_source(numeric, #[trigger] rows_of(entries, numeric)[i])
                == entries[j].0,
    decreases entries.len(),
{
    let init = entries.drop_last();
    let rest = rows_of(init, numeric);
    let rows = rows_of(entries, numeric);
    let (k, v) = entries.last();
    if numeric && key_fits(numeric, k) {
        assert((k.reverse() + Seq::new(24, |i: int| 0u8)).take(8) =~= k.reverse());
        assert(k.reverse().reverse() =~= k);
    }
    if j < entries.len() - 1 {
        assert(init[j] == entries[j]);
        lemma_rows_cover(init, numeric, j);
        let i = choose|i: int| 0 <= i < rest.len() && row_source(numeric, #[trigger] rest[i]) == init[j].0;
        assert(rows[i] == rest[i]);
    } else {
        let i = rest.len() as int;
        assert(row_source(numeric, rows[i]) == k);
    }
}

/// The rows of a dimension: each made of a stored entry whose key fits, as
/// its dimension key and the cells `m` gives for it; in ascending order of
/// the stored keys they come from; one for every such key of `m`. A numeric
/// dimension's keys are zero past their eighth byte.
pub open spec fn rows_match(rows: Seq<(Seq<u8>, Seq<u64>)>, numeric: bool, m: Map<Seq<u8>, Seq<u64>>) -> bool {
    &&& forall|i: int|
        0 <= i < rows.len() ==> (#[trigger] rows[i]).0.len() == 32 && key_fits(numeric, row_source(numeric, rows[i]))
            && rows[i].0 == dim_key(numeric, row_source(numeric, rows[i])) && m.dom().contains(
            row_source(numeric, rows[i]),
        ) && rows[i].1 == m[row_source(numeric, rows[i])]
    &&& forall|i: int, j: int|
        0 <= i < j < rows.len() ==> crate::bytes::lex_lt(
            row_source(numeric, #[trigger] rows[i]),
            row_source(numeric, #[trigger] rows[j]),
        )
    &&& forall|k: Seq<u8>|
        #[trigger] m.dom().contains(k) && key_fits(numeric, k) ==> exists|i: int|
            0 <= i < rows.len() && row_source(numeric, #[trigger] rows[i]) == k
}

/// The rows of ascending entries match the map they denote, by cells.
pub proof fn lemma_rows_match<V: Cells>(entries: Seq<(Seq<u8>, V)>, numeric: bool)
    requires
        crate::ordered::sorted(entries),
    ensures
        rows_match(rows_of(entries, numeric), numeric, crate::ordered::map_of(entries).map_values(|v: V| v.cells())),
{
    let rows = rows_of(entries, numeric);
    let m = crate::ordered::map_of(entries).map_values(|v: V| v.cells());
    lemma_rows_of(entries, numeric);
    crate::ordered::lemma_sorted_unique(entries);
    assert forall|i: int| 0 <= i < rows.len() implies (#[trigger] rows[i]).0.len() == 32 && key_fits(
        numeric,
        row_source(numeric, rows[i]),
    ) && rows[i].0 == dim_key(numeric, row_source(numeric, rows[i])) && m.dom().contains(row_source(numeric, rows[i]))
        && rows[i].1 == m[row_source(numeric, rows[i])] by {
        assert(has_source(entries, numeric, rows[i]));
        let j = choose|j: int| #[trigger] comes_from(entries, numeric, rows[i], j);
        crate::ordered::lemma_map_of_index(entries, j);
        lemma_row_key(entries, numeric, i);
    }
    assert forall|k: Seq<u8>| #[trigger] m.dom().contains(k) && key_fits(numeric, k) implies exists|i: int|
        0 <= i < rows.len() && row_source(numeric, #[trigger] rows[i]) == k by {
        crate::ordered::lemma_map_of_has_key(entries, k);
        let j = choose|j: int| 0 <= j < entries.len() && #[trigger] entries[j].0 == k;
        lemma_rows_cover(entries, numeric, j);
    }
}

/// A row's key is the dimension key of the stored key it comes from.
proof fn lemma_row_key<V: Cells>(entries: Seq<(Seq<u8>, V)>, numeric: bool, i: int)
    requires
        0 <= i < rows_of(entries, numeric).len(),
    ensures
        rows_of(entries, numeric)[i].0 == dim_key(numeric, row_source(numeric, rows_of(entries, numeric)[i])),
    decreases entries.len(),
{
    let init = entries.drop_last();
    let rest = rows_of(init, numeric);
    let (k, v) = entries.last();
    if i < rest.len() {
        lemma_row_key(init, numeric, i);
        assert(rows_of(entries, numeric)[i] == rest[i]);
    } else if numeric {
        assert((k.reverse() + Seq::new(24, |t: int| 0u8)).take(8) =~= k.reverse());
        assert(k.reverse().reverse() =~= k);
    }
}

/// Strictly ascending entries at two positions.
spec fn lex_lt_pair<V>(entries: Seq<(Seq<u8>, V)>, a: int, b: int) -> bool {
    crate::bytes::lex_lt(entries[a].0, entries[b].0)
}

/// The rows as bytes and cells.
pub open spec fn rows_view(r: Seq<([u8; 32], Vec<u64>)>) -> Seq<(Seq<u8>, Seq<u64>)> {
    r.map_values(|e: ([u8; 32], Vec<u64>)| (e.0@, e.1@))
}

fn rows<V: Cells>(m: &OrderedMap<V>, numeric: bool) -> (r: Vec<([u8; 32], Vec<u64>)>)
    ensures
        rows_view(r@) == rows_of(m.entries(), numeric),
{
    let mut out: Vec<([u8; 32], Vec<u64>)> = Vec::new();
    let mut i: usize = 0;
    let n = m.len();
    while i < n
        invariant
            n == m.entries().len(),
            i <= n,
            rows_view(out@) == rows_of(m.entries().take(i as int), numeric),
        decreases n - i,
    {
        let (k, v) = m.entry(i);
        proof {
            assert(m.entries().take(i + 1).drop_last() =~= m.entries().take(i as int));
            assert(m.entries().take(i + 1).last() == m.entries()[i as int]);
        }
        let fits = if numeric { k.len() == 8 } else { k.len() == 32 };
        if fits {
            let mut key = [0u8; 32];
            if numeric {
                let mut j: usize = 0;
                while j < 8
                    invariant
                        j <= 8,
                        k@.len() == 8,
                        forall|t: int| 0 <= t < j ==> key@[t] == k@[7 - t],
                        forall|t: int| 8 <= t < 32 ==> key@[t] == 0,
                    decreases 8 - j,
                {
                    key.set(j, k[7 - j]);
                    j = j + 1;
                }
                assert(key@ =~= dim_key(numeric, k@));
            } else {
                let mut j: usize = 0;
                while j < 32
                    invariant
                        j <= 32,
                        k@.len() == 32,
                        forall|t: int| 0 <= t < j ==> key@[t] == k@[t],
                    decreases 32 - j,
                {
                    key.set(j, k[j]);
                    j = j + 1;
                }
                assert(key@ =~= dim_key(numeric, k@));
            }
            let mut cells: Vec<u64> = Vec::new();
            v.push_cells(&mut cells);
            assert(cells@ =~= v.cells());
            let ghost before = out@;
            out.push((key, cells));
            assert(rows_view(out@) =~= rows_view(before).push((key@, cells@)));
        }
        i = i + 1;
    }
    proof {
        assert(m.entries().take(n as int) =~= m.entries());
    }
    out
}

impl BbgState {
    /// The committed entries of dimension `d`; see [`rows_of`].
    pub closed spec fn dim_rows(&self, d: Dim) -> Seq<(Seq<u8>, Seq<u64>)> {
        match d {
            Dim::Particles => rows_of(self.particles.entries(), false),
            Dim::AxonsOut => rows_of(self.axons_out.entries(), false),
            Dim::AxonsIn => rows_of(self.axons_in.entries(), false),
            Dim::Neurons => rows_of(self.neurons.entries(), false),
            Dim::Locations => rows_of(self.locations.entries(), false),
            Dim::Coins => rows_of(self.coins.entries(), false),
            Dim::Cards => rows_of(self.cards.entries(), false),
            Dim::Files => rows_of(self.files.entries(), false),
            Dim::Time => rows_of(self.time.entries(), true),
            Dim::Signals => rows_of(self.signals.entries(), true),
            Dim::Balances => rows_of(self.balances.entries(), false),
        }
    }

    /// The entries of dimension `d` in committed order, each its key and its
    /// value cells.
    pub fn dim_entries(&self, d: Dim) -> (r: Vec<([u8; 32], Vec<u64>)>)
        ensures
            rows_view(r@) == self.dim_rows(d),
            forall|i: int, j: int|
                0 <= i < j < r@.len() ==> crate::bytes::lex_lt(
                    row_source(numeric_dim(d), #[trigger] rows_view(r@)[i]),
                    row_source(numeric_dim(d), #[trigger] rows_view(r@)[j]),
                ),
            numeric_dim(d) ==> forall|i: int, t: int| 0 <= i < r@.len() && 8 <= t < 32 ==> #[trigger] r@[i].0@[t] == 0,
            rows_match(rows_view(r@), numeric_dim(d), dim_cells(*self, d)),
    {
        proof {
            use_type_invariant(&self.particles);
            use_type_invariant(&self.axons_out);
            use_type_invariant(&self.axons_in);
            use_type_invariant(&self.neurons);
            use_type_invariant(&self.locations);
            use_type_invariant(&self.coins);
            use_type_invariant(&self.cards);
            use_type_invariant(&self.files);
            use_type_invariant(&self.time);
            use_type_invariant(&self.signals);
            use_type_invariant(&self.balances);
            lemma_rows_of(self.particles.entries(), false);
            lemma_rows_of(self.axons_out.entries(), false);
            lemma_rows_of(self.axons_in.entries(), false);
            lemma_rows_of(self.neurons.entries(), false);
            lemma_rows_of(self.locations.entries(), false);
            lemma_rows_of(self.coins.entries(), false);
            lemma_rows_of(self.cards.entries(), false);
            lemma_rows_of(self.files.entries(), false);
            lemma_rows_of(self.time.entries(), true);
            lemma_rows_of(self.signals.entries(), true);
            lemma_rows_of(self.balances.entries(), false);
            lemma_rows_match(self.particles.entries(), false);
            lemma_rows_match(self.axons_out.entries(), false);
            lemma_rows_match(self.axons_in.entries(), false);
            lemma_rows_match(self.neurons.entries(), false);
            lemma_rows_match(self.locations.entries(), false);
            lemma_rows_match(self.coins.entries(), false);
            lemma_rows_match(self.cards.entries(), false);
            lemma_rows_match(self.files.entries(), false);
            lemma_rows_match(self.time.entries(), true);
            lemma_rows_match(self.signals.entries(), true);
            lemma_rows_match(self.balances.entries(), false);
            assert(dim_cells(*self, Dim::AxonsOut) =~= self.axons_out@.map_values(|v: Vec<Particle>| v.cells()));
            assert(dim_cells(*self, Dim::AxonsIn) =~= self.axons_in@.map_values(|v: Vec<Particle>| v.cells()));
            assert(dim_cells(*self, Dim::Time) =~= self.time@.map_values(|v: Particle| v.cells()));
            assert(dim_cells(*self, Dim::Particles) =~= self.particles@.map_values(|v: ParticleRecord| v.cells()));
            assert(dim_cells(*self, Dim::Neurons) =~= self.neurons@.map_values(|v: NeuronRecord| v.cells()));
            assert(dim_cells(*self, Dim::Balances) =~= self.balances@.map_values(|v: u64| v.cells()));
        }
        let r = match d {
            Dim::Particles => rows(&self.particles, false),
            Dim::AxonsOut => rows(&self.axons_out, false),
            Dim::AxonsIn => rows(&self.axons_in, false),
            Dim::Neurons => rows(&self.neurons, false),
            Dim::Locations => rows(&self.locations, false),
            Dim::Coins => rows(&self.coins, false),
            Dim::Cards => rows(&self.cards, false),
            Dim::Files => rows(&self.files, false),
            Dim::Time => rows(&self.time, true),
            Dim::Signals => rows(&self.signals, true),
            Dim::Balances => rows(&self.balances, false),
        };
        proof {
            assert forall|i: int, t: int| numeric_dim(d) && 0 <= i < r@.len() && 8 <= t < 32 implies #[trigger] r@[i].0@[t]
                == 0 by {
                assert(rows_view(r@)[i].0 == r@[i].0@);
            }
        }
        r
    }
}

/// The value cells of each stored entry of dimension `d`, by stored key.
pub open spec fn dim_cells(s: BbgState, d: Dim) -> Map<Seq<u8>, Seq<u64>> {
    match d {
        Dim::Particles => s.graph().particles.map_values(|v: ParticleRecord| v.cells()),
        Dim::AxonsOut => s.graph().axons_out.map_values(
            |v: Seq<Seq<u8>>| u64_cells(v.len() as u64) + list_cells(v),
        ),
        Dim::AxonsIn => s.graph().axons_in.map_values(|v: Seq<Seq<u8>>| u64_cells(v.len() as u64) + list_cells(v)),
        Dim::Neurons => s.graph().neurons.map_values(|v: NeuronRecord| v.cells()),
        Dim::Locations => s.locations_view().map_values(|v: LocationRecord| v.cells()),
        Dim::Coins => s.coins_view().map_values(|v: CoinRecord| v.cells()),
        Dim::Cards => s.cards_view().map_values(|v: CardRecord| v.cells()),
        Dim::Files => s.files_view().map_values(|v: FileRecord| v.cells()),
        Dim::Time => s.time_view().map_values(|p: Seq<u8>| bytes_cells(p)),
        Dim::Signals => s.signals_view().map_values(|v: SignalRecord| v.cells()),
        Dim::Balances => s.graph().balances.map_values(|v: u64| u64_cells(v)),
    }
}

/// Whether a dimension is keyed by a height.
pub open spec fn numeric_dim(d: Dim) -> bool {
    d == Dim::Time || d == Dim::Signals
}


proof fn lemma_list_cells_len(v: Seq<Seq<u8>>)
    ensures
        list_cells(v).len() == 8 * v.len(),
    decreases v.len(),
{
    if v.len() > 0 {
        lemma_list_cells_len(v.drop_last());
    }
}

/// A disclosed table reads each entry's value with exactly the cells the
/// state stores for it: for a stored entry of any dimension but the signals,
/// the value width at the entry's values is the entry's cell count (two for
/// a balance, the low and high halves of its amount). An axon list's width
/// is read from its first two cells, which hold the list's length.
pub proof fn law_value_width_is_stored_cell_count(s: BbgState, d: Dim, k: Seq<u8>, f: Seq<u64>, start: int)
    requires
        dim_cells(s, d).dom().contains(k),
        d != Dim::Signals,
        d == Dim::AxonsOut || d == Dim::AxonsIn ==> {
            &&& 0 <= start
            &&& start + 2 <= f.len()
            &&& f.subrange(start, start + 2) == dim_cells(s, d)[k].take(2)
            &&& dim_cells(s, d)[k].len() <= usize::MAX
        },
    ensures
        value_width(f, d, start) == Some(dim_cells(s, d)[k].len() as int),
{
    let c = dim_cells(s, d)[k];
    match d {
        Dim::AxonsOut | Dim::AxonsIn => {
            let l = if d == Dim::AxonsOut {
                s.graph().axons_out[k]
            } else {
                s.graph().axons_in[k]
            };
            assert(c == u64_cells(l.len() as u64) + list_cells(l));
            lemma_list_cells_len(l);
            let n = l.len() as u64;
            assert(l.len() <= u64::MAX);
            assert(c.len() >= 2);
            assert(f.subrange(start, start + 2)[0] == f[start] && c.take(2)[0] == c[0]);
            assert(f.subrange(start, start + 2)[1] == f[start + 1] && c.take(2)[1] == c[1]);
            assert(f[start] == c[0] && f[start + 1] == c[1]);
            assert(c[0] == n % 0x1_0000_0000 && c[1] == n / 0x1_0000_0000);
            assert((n % 0x1_0000_0000) + (n / 0x1_0000_0000) * 0x1_0000_0000 == n) by (nonlinear_arith);
            assert(n / 0x1_0000_0000 <= u32::MAX) by (nonlinear_arith);
        },
        _ => {},
    }
}

} // verus!
