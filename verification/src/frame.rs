//! Tade frames of the store log. The log is a concatenation of frames, each a
//! marker, a sigil, a render byte, a LEB128 length and a payload; a signal
//! travels under `!`, an intent under `^`, and a block boundary under `.`.
//! Payloads are little-endian and fixed-width but for the counted lists of a
//! signal.
use crate::bytes::{
    append_bytes, le32, le64, lemma_le32, lemma_le64, push_le32, push_le64, read_array32, read_le32, read_le64,
};
use crate::signal::{Cyberlink, Signal, UtxoMove};
use crate::types::IntentRecord;
use vstd::bytes::{spec_u32_from_le_bytes, spec_u64_from_le_bytes};
use vstd::prelude::*;

verus! {

/// The sigil of a signal frame (tade `ZAP`).
pub const SIGIL_SIGNAL: u8 = 0x21;

/// The sigil of an intent frame (tade `KET`).
pub const SIGIL_INTENT: u8 = 0x5e;

/// The sigil of a block-boundary frame (tade `DOT`).
pub const SIGIL_FINALIZE: u8 = 0x2e;

/// The render byte of every store-log frame (tade binary).
pub const RENDER_BIN: u8 = 0x62;

/// Bytes of one link record: from, to, token, amount, valence.
pub const LINK_BYTES: usize = 105;

/// Bytes of the shortest move record: a nullifier and a zero tag.
pub const MOVE_MIN_BYTES: usize = 33;

/// A link as bytes and numbers.
pub type LinkView = (Seq<u8>, Seq<u8>, Seq<u8>, u64, i8);

/// A move as bytes and numbers.
pub type MoveView = (Seq<u8>, Option<(Seq<u8>, u64)>);

/// A signal as bytes and numbers: neuron, height, links, moves.
pub type SignalView = (Seq<u8>, u64, Seq<LinkView>, Seq<MoveView>);

pub open spec fn link_view(l: Cyberlink) -> LinkView {
    (l.from@, l.to@, l.token@, l.amount, l.valence)
}

pub open spec fn move_view(m: UtxoMove) -> MoveView {
    (
        m.nullifier@,
        match m.commitment {
            Some((p, v)) => Some((p@, v)),
            None => None,
        },
    )
}

pub open spec fn signal_view(s: Signal) -> SignalView {
    (s.neuron@, s.height, s.links@.map_values(|l: Cyberlink| link_view(l)), s.utxo_moves@.map_values(|m: UtxoMove| move_view(m)))
}

/// A link record.
pub open spec fn link_bytes(l: LinkView) -> Seq<u8> {
    l.0 + l.1 + l.2 + le64(l.3) + seq![l.4 as u8]
}

/// Link records one after another.
pub open spec fn links_bytes(ls: Seq<LinkView>) -> Seq<u8>
    decreases ls.len(),
{
    if ls.len() == 0 {
        Seq::empty()
    } else {
        links_bytes(ls.drop_last()) + link_bytes(ls.last())
    }
}

/// A move record: the nullifier, then a tag `1` with the new commitment and
/// value, or a tag `0`.
pub open spec fn move_bytes(m: MoveView) -> Seq<u8> {
    m.0 + match m.1 {
        Some((p, v)) => seq![1u8] + p + le64(v),
        None => seq![0u8],
    }
}

/// Move records one after another.
pub open spec fn moves_bytes(ms: Seq<MoveView>) -> Seq<u8>
    decreases ms.len(),
{
    if ms.len() == 0 {
        Seq::empty()
    } else {
        moves_bytes(ms.drop_last()) + move_bytes(ms.last())
    }
}

/// A signal payload: neuron, height, the link count and links, the move count
/// and moves. Counts are written as 32-bit integers.
pub open spec fn signal_bytes(s: SignalView) -> Seq<u8> {
    s.0 + le64(s.1) + le32(s.2.len() as u32) + links_bytes(s.2) + le32(s.3.len() as u32) + moves_bytes(s.3)
}

/// An intent payload: neuron, starting height, scope hash, signature.
pub open spec fn intent_bytes(i: IntentRecord) -> Seq<u8> {
    i.neuron@ + le64(i.h0) + i.scope_hash@ + i.signature@
}

/// The link record at `p`.
pub open spec fn link_at(buf: Seq<u8>, p: int) -> LinkView {
    (
        buf.subrange(p, p + 32),
        buf.subrange(p + 32, p + 64),
        buf.subrange(p + 64, p + 96),
        spec_u64_from_le_bytes(buf.subrange(p + 96, p + 104)),
        buf[p + 104] as i8,
    )
}

/// Read `n` link records from `p`: the links and the position after them.
pub open spec fn parse_links(buf: Seq<u8>, p: int, n: nat) -> Option<(Seq<LinkView>, int)>
    decreases n,
{
    if n == 0 {
        Some((Seq::empty(), p))
    } else {
        match parse_links(buf, p, (n - 1) as nat) {
            None => None,
            Some((ls, q)) => if q + 105 <= buf.len() {
                Some((ls.push(link_at(buf, q)), q + 105))
            } else {
                None
            },
        }
    }
}

/// Read the move record at `p`: a tag `1` brings a commitment and value, any
/// other tag none.
pub open spec fn parse_move(buf: Seq<u8>, p: int) -> Option<(MoveView, int)> {
    if p + 33 > buf.len() {
        None
    } else if buf[p + 32] == 1 {
        if p + 73 > buf.len() {
            None
        } else {
            Some(
                (
                    (buf.subrange(p, p + 32), Some((buf.subrange(p + 33, p + 65), spec_u64_from_le_bytes(buf.subrange(p + 65, p + 73))))),
                    p + 73,
                ),
            )
        }
    } else {
        Some(((buf.subrange(p, p + 32), None), p + 33))
    }
}

/// Read `n` move records from `p`.
pub open spec fn parse_moves(buf: Seq<u8>, p: int, n: nat) -> Option<(Seq<MoveView>, int)>
    decreases n,
{
    if n == 0 {
        Some((Seq::empty(), p))
    } else {
        match parse_moves(buf, p, (n - 1) as nat) {
            None => None,
            Some((ms, q)) => match parse_move(buf, q) {
                None => None,
                Some((m, r)) => Some((ms.push(m), r)),
            },
        }
    }
}

/// What a signal payload holds. A count that the remaining bytes cannot hold
/// at the smallest record size is refused before any record is read; bytes
/// after the last move are ignored.
pub open spec fn parse_signal(buf: Seq<u8>) -> Option<SignalView> {
    if buf.len() < 44 {
        None
    } else {
        let n_links = spec_u32_from_le_bytes(buf.subrange(40, 44));
        if n_links > (buf.len() - 44) / 105 {
            None
        } else {
            match parse_links(buf, 44, n_links as nat) {
                None => None,
                Some((ls, q)) => if q + 4 > buf.len() {
                    None
                } else {
                    let n_moves = spec_u32_from_le_bytes(buf.subrange(q, q + 4));
                    if n_moves > (buf.len() - (q + 4)) / 33 {
                        None
                    } else {
                        match parse_moves(buf, q + 4, n_moves as nat) {
                            None => None,
                            Some((ms, _)) => Some((buf.subrange(0, 32), spec_u64_from_le_bytes(buf.subrange(32, 40)), ls, ms)),
                        }
                    }
                },
            }
        }
    }
}

/// What an intent payload holds; bytes after the signature are ignored.
pub open spec fn parse_intent(buf: Seq<u8>) -> Option<(Seq<u8>, u64, Seq<u8>, Seq<u8>)> {
    if buf.len() < 136 {
        None
    } else {
        Some((buf.subrange(0, 32), spec_u64_from_le_bytes(buf.subrange(32, 40)), buf.subrange(40, 72), buf.subrange(72, 136)))
    }
}

pub open spec fn intent_view(i: IntentRecord) -> (Seq<u8>, u64, Seq<u8>, Seq<u8>) {
    (i.neuron@, i.h0, i.scope_hash@, i.signature@)
}

/// The payload of a signal frame.
pub fn serialize_signal(s: &Signal) -> (b: Vec<u8>)
    ensures
        b@ == signal_bytes(signal_view(*s)),
{
    let ghost v = signal_view(*s);
    let mut b: Vec<u8> = Vec::new();
    append_bytes(&mut b, &s.neuron);
    push_le64(&mut b, s.height);
    push_le32(&mut b, s.links.len() as u32);
    let ghost start = b@;
    let mut i: usize = 0;
    while i < s.links.len()
        invariant
            i <= s.links@.len(),
            v == signal_view(*s),
            b@ == start + links_bytes(v.2.take(i as int)),
        decreases s.links@.len() - i,
    {
        let l = &s.links[i];
        append_bytes(&mut b, &l.from);
        append_bytes(&mut b, &l.to);
        append_bytes(&mut b, &l.token);
        push_le64(&mut b, l.amount);
        b.push(l.valence as u8);
        proof {
            let t = v.2.take(i + 1);
            assert(t.drop_last() =~= v.2.take(i as int));
            assert(t.last() == link_view(*l));
            assert(b@ =~= start + links_bytes(t));
        }
        i = i + 1;
    }
    assert(v.2.take(i as int) =~= v.2);
    push_le32(&mut b, s.utxo_moves.len() as u32);
    let ghost middle = b@;
    let mut j: usize = 0;
    while j < s.utxo_moves.len()
        invariant
            j <= s.utxo_moves@.len(),
            v == signal_view(*s),
            b@ == middle + moves_bytes(v.3.take(j as int)),
        decreases s.utxo_moves@.len() - j,
    {
        let m = &s.utxo_moves[j];
        append_bytes(&mut b, &m.nullifier);
        match &m.commitment {
            Some((point, value)) => {
                b.push(1u8);
                append_bytes(&mut b, point);
                push_le64(&mut b, *value);
            },
            None => {
                b.push(0u8);
            },
        }
        proof {
            let t = v.3.take(j + 1);
            assert(t.drop_last() =~= v.3.take(j as int));
            assert(t.last() == move_view(*m));
            assert(b@ =~= middle + moves_bytes(t));
        }
        j = j + 1;
    }
    assert(v.3.take(j as int) =~= v.3);
    assert(b@ =~= signal_bytes(v));
    b
}

/// The payload of an intent frame.
pub fn serialize_intent(i: &IntentRecord) -> (b: Vec<u8>)
    ensures
        b@ == intent_bytes(*i),
{
    let mut b: Vec<u8> = Vec::new();
    append_bytes(&mut b, &i.neuron);
    push_le64(&mut b, i.h0);
    append_bytes(&mut b, &i.scope_hash);
    append_bytes(&mut b, &i.signature);
    assert(b@ =~= intent_bytes(*i));
    b
}


/// Reading fewer records cannot succeed where reading more failed.
proof fn lemma_links_none(buf: Seq<u8>, p: int, n: nat, m: nat)
    requires
        parse_links(buf, p, n) is None,
        n <= m,
    ensures
        parse_links(buf, p, m) is None,
    decreases m,
{
    if m > n {
        lemma_links_none(buf, p, n, (m - 1) as nat);
    }
}

proof fn lemma_moves_none(buf: Seq<u8>, p: int, n: nat, m: nat)
    requires
        parse_moves(buf, p, n) is None,
        n <= m,
    ensures
        parse_moves(buf, p, m) is None,
    decreases m,
{
    if m > n {
        lemma_moves_none(buf, p, n, (m - 1) as nat);
    }
}

/// The signal that a payload holds, if any; see [`parse_signal`].
#[verifier::loop_isolation(false)]
pub fn deserialize_signal(buf: &[u8]) -> (r: Option<Signal>)
    ensures
        match parse_signal(buf@) {
            None => r is None,
            Some(v) => r matches Some(s) && signal_view(s) == v,
        },
{
    if buf.len() < 44 {
        return None;
    }
    let neuron = read_array32(buf, 0);
    let height = read_le64(buf, 32);
    let n_links = read_le32(buf, 40) as usize;
    if n_links > (buf.len() - 44) / LINK_BYTES {
        return None;
    }
    let ghost b = buf@;
    let mut links: Vec<Cyberlink> = Vec::new();
    let mut p: usize = 44;
    let mut i: usize = 0;
    while i < n_links
        invariant
            i <= n_links,
            b == buf@,
            parse_links(b, 44, i as nat) == Some((links@.map_values(|l: Cyberlink| link_view(l)), p as int)),
            p <= b.len(),
        decreases n_links - i,
    {
        if buf.len() - p < 105 {
            proof {
                lemma_links_none(b, 44, (i + 1) as nat, n_links as nat);
            }
            return None;
        }
        let l = Cyberlink {
            from: read_array32(buf, p),
            to: read_array32(buf, p + 32),
            token: read_array32(buf, p + 64),
            amount: read_le64(buf, p + 96),
            valence: buf[p + 104] as i8,
        };
        let ghost before = links@;
        links.push(l);
        proof {
            assert(link_view(l) == link_at(b, p as int));
            assert(links@.map_values(|l: Cyberlink| link_view(l)) =~= before.map_values(|l: Cyberlink| link_view(l)).push(link_at(b, p as int)));
        }
        p = p + 105;
        i = i + 1;
    }
    if buf.len() - p < 4 {
        return None;
    }
    let n_moves = read_le32(buf, p) as usize;
    let start = p + 4;
    if n_moves > (buf.len() - start) / MOVE_MIN_BYTES {
        return None;
    }
    let mut moves: Vec<UtxoMove> = Vec::new();
    let mut q: usize = start;
    let mut j: usize = 0;
    while j < n_moves
        invariant
            j <= n_moves,
            b == buf@,
            start <= b.len(),
            parse_moves(b, start as int, j as nat) == Some((moves@.map_values(|m: UtxoMove| move_view(m)), q as int)),
            q <= b.len(),
        decreases n_moves - j,
    {
        if buf.len() - q < 33 {
            proof {
                lemma_moves_none(b, start as int, (j + 1) as nat, n_moves as nat);
            }
            return None;
        }
        let nullifier = read_array32(buf, q);
        let commitment = if buf[q + 32] == 1 {
            if buf.len() - q < 73 {
                proof {
                    lemma_moves_none(b, start as int, (j + 1) as nat, n_moves as nat);
                }
                return None;
            }
            let point = read_array32(buf, q + 33);
            let value = read_le64(buf, q + 65);
            Some((point, value))
        } else {
            None
        };
        let m = UtxoMove { nullifier, commitment };
        let ghost before = moves@;
        let ghost next = parse_move(b, q as int);
        moves.push(m);
        proof {
            assert(next == Some((move_view(m), if b[q + 32] == 1 { q + 73 } else { q + 33 })));
            assert(moves@.map_values(|m: UtxoMove| move_view(m)) =~= before.map_values(|m: UtxoMove| move_view(m)).push(move_view(m)));
        }
        q = if buf[q + 32] == 1 { q + 73 } else { q + 33 };
        j = j + 1;
    }
    let s = Signal { neuron, links, utxo_moves: moves, height };
    Some(s)
}

/// The intent that a payload holds, if any; see [`parse_intent`].
pub fn deserialize_intent(buf: &[u8]) -> (r: Option<IntentRecord>)
    ensures
        match parse_intent(buf@) {
            None => r is None,
            Some(v) => r matches Some(i) && intent_view(i) == v,
        },
{
    if buf.len() < 136 {
        return None;
    }
    let neuron = read_array32(buf, 0);
    let h0 = read_le64(buf, 32);
    let scope_hash = read_array32(buf, 40);
    let mut signature = [0u8; 64];
    let mut k: usize = 0;
    while k < 64
        invariant
            k <= 64,
            buf@.len() >= 136,
            forall|x: int| 0 <= x < k ==> signature@[x] == buf@[72 + x],
        decreases 64 - k,
    {
        signature.set(k, buf[72 + k]);
        k = k + 1;
    }
    assert(signature@ =~= buf@.subrange(72, 136));
    Some(IntentRecord { neuron, h0, scope_hash, signature })
}


/// A link whose byte fields are 32 bytes long.
pub open spec fn link_sized(l: LinkView) -> bool {
    l.0.len() == 32 && l.1.len() == 32 && l.2.len() == 32
}

/// A move whose nullifier and commitment are 32 bytes long.
pub open spec fn move_sized(m: MoveView) -> bool {
    &&& m.0.len() == 32
    &&& m.1 matches Some((p, _)) ==> p.len() == 32
}

proof fn lemma_link_record(buf: Seq<u8>, q: int, l: LinkView)
    requires
        link_sized(l),
        0 <= q,
        q + 105 <= buf.len(),
        buf.subrange(q, q + 105) == link_bytes(l),
    ensures
        link_at(buf, q) == l,
{
    lemma_le64(l.3);
    let r = link_bytes(l);
    assert(buf.subrange(q, q + 32) =~= r.subrange(0, 32));
    assert(r.subrange(0, 32) =~= l.0);
    assert(buf.subrange(q + 32, q + 64) =~= r.subrange(32, 64));
    assert(r.subrange(32, 64) =~= l.1);
    assert(buf.subrange(q + 64, q + 96) =~= r.subrange(64, 96));
    assert(r.subrange(64, 96) =~= l.2);
    assert(buf.subrange(q + 96, q + 104) =~= r.subrange(96, 104));
    assert(r.subrange(96, 104) =~= le64(l.3));
    assert(buf[q + 104] == r[104]);
    let v = l.4;
    assert((v as u8) as i8 == v) by (bit_vector);
}

proof fn lemma_links_len(ls: Seq<LinkView>)
    requires
        forall|i: int| 0 <= i < ls.len() ==> link_sized(#[trigger] ls[i]),
    ensures
        links_bytes(ls).len() == 105 * ls.len(),
    decreases ls.len(),
{
    if ls.len() > 0 {
        assert forall|i: int| 0 <= i < ls.drop_last().len() implies link_sized(#[trigger] ls.drop_last()[i]) by {
            assert(ls.drop_last()[i] == ls[i]);
        }
        lemma_links_len(ls.drop_last());
        lemma_le64(ls.last().3);
        assert(link_sized(ls[ls.len() - 1]));
    }
}

/// Link records read back as the links they were written from.
proof fn lemma_parse_links(buf: Seq<u8>, p: int, ls: Seq<LinkView>)
    requires
        forall|i: int| 0 <= i < ls.len() ==> link_sized(#[trigger] ls[i]),
        0 <= p,
        p + links_bytes(ls).len() <= buf.len(),
        buf.subrange(p, p + links_bytes(ls).len()) == links_bytes(ls),
    ensures
        parse_links(buf, p, ls.len()) == Some((ls, p + links_bytes(ls).len())),
    decreases ls.len(),
{
    if ls.len() == 0 {
        assert(ls =~= Seq::<LinkView>::empty());
    } else {
        let init = ls.drop_last();
        let last = ls.last();
        assert forall|i: int| 0 <= i < init.len() implies link_sized(#[trigger] init[i]) by {
            assert(init[i] == ls[i]);
        }
        assert(link_sized(ls[ls.len() - 1]));
        lemma_links_len(init);
        lemma_le64(last.3);
        let n0 = links_bytes(init).len() as int;
        let whole = links_bytes(ls);
        assert(whole == links_bytes(init) + link_bytes(last));
        assert(buf.subrange(p, p + n0) =~= whole.subrange(0, n0));
        assert(whole.subrange(0, n0) =~= links_bytes(init));
        lemma_parse_links(buf, p, init);
        assert(buf.subrange(p + n0, p + n0 + 105) =~= whole.subrange(n0, n0 + 105));
        assert(whole.subrange(n0, n0 + 105) =~= link_bytes(last));
        lemma_link_record(buf, p + n0, last);
        assert(init.push(last) =~= ls);
    }
}

proof fn lemma_move_len(m: MoveView)
    requires
        move_sized(m),
    ensures
        move_bytes(m).len() == if m.1 is Some { 73int } else { 33int },
{
    match m.1 {
        Some((p, v)) => {
            lemma_le64(v);
        },
        None => {},
    }
}

proof fn lemma_move_record(buf: Seq<u8>, q: int, m: MoveView)
    requires
        move_sized(m),
        0 <= q,
        q + move_bytes(m).len() <= buf.len(),
        buf.subrange(q, q + move_bytes(m).len()) == move_bytes(m),
    ensures
        parse_move(buf, q) == Some((m, q + move_bytes(m).len())),
{
    lemma_move_len(m);
    let r = move_bytes(m);
    assert(buf.subrange(q, q + 32) =~= r.subrange(0, 32));
    assert(r.subrange(0, 32) =~= m.0);
    assert(buf[q + 32] == r[32]);
    match m.1 {
        Some((p, v)) => {
            lemma_le64(v);
            assert(buf.subrange(q + 33, q + 65) =~= r.subrange(33, 65));
            assert(r.subrange(33, 65) =~= p);
            assert(buf.subrange(q + 65, q + 73) =~= r.subrange(65, 73));
            assert(r.subrange(65, 73) =~= le64(v));
        },
        None => {},
    }
}

proof fn lemma_moves_len(ms: Seq<MoveView>)
    requires
        forall|i: int| 0 <= i < ms.len() ==> move_sized(#[trigger] ms[i]),
    ensures
        moves_bytes(ms).len() >= 33 * ms.len(),
    decreases ms.len(),
{
    if ms.len() > 0 {
        assert forall|i: int| 0 <= i < ms.drop_last().len() implies move_sized(#[trigger] ms.drop_last()[i]) by {
            assert(ms.drop_last()[i] == ms[i]);
        }
        lemma_moves_len(ms.drop_last());
        assert(move_sized(ms[ms.len() - 1]));
        lemma_move_len(ms.last());
    }
}

/// Move records read back as the moves they were written from.
proof fn lemma_parse_moves(buf: Seq<u8>, p: int, ms: Seq<MoveView>)
    requires
        forall|i: int| 0 <= i < ms.len() ==> move_sized(#[trigger] ms[i]),
        0 <= p,
        p + moves_bytes(ms).len() <= buf.len(),
        buf.subrange(p, p + moves_bytes(ms).len()) == moves_bytes(ms),
    ensures
        parse_moves(buf, p, ms.len()) == Some((ms, p + moves_bytes(ms).len())),
    decreases ms.len(),
{
    if ms.len() == 0 {
        assert(ms =~= Seq::<MoveView>::empty());
    } else {
        let init = ms.drop_last();
        let last = ms.last();
        assert forall|i: int| 0 <= i < init.len() implies move_sized(#[trigger] init[i]) by {
            assert(init[i] == ms[i]);
        }
        assert(move_sized(ms[ms.len() - 1]));
        let n0 = moves_bytes(init).len() as int;
        let whole = moves_bytes(ms);
        let k = move_bytes(last).len() as int;
        assert(whole == moves_bytes(init) + move_bytes(last));
        assert(buf.subrange(p, p + n0) =~= whole.subrange(0, n0));
        assert(whole.subrange(0, n0) =~= moves_bytes(init));
        lemma_parse_moves(buf, p, init);
        assert(buf.subrange(p + n0, p + n0 + k) =~= whole.subrange(n0, n0 + k));
        assert(whole.subrange(n0, n0 + k) =~= move_bytes(last));
        lemma_move_record(buf, p + n0, last);
        assert(init.push(last) =~= ms);
    }
}

/// A signal's payload reads back as the signal, when its counts fit the
/// 32-bit fields they are written in.
pub proof fn law_signal_roundtrip(s: Signal)
    requires
        s.links@.len() <= u32::MAX,
        s.utxo_moves@.len() <= u32::MAX,
    ensures
        parse_signal(signal_bytes(signal_view(s))) == Some(signal_view(s)),
{
    broadcast use vstd::array::group_array_axioms;

    let v = signal_view(s);
    let ls = v.2;
    let ms = v.3;
    assert forall|i: int| 0 <= i < ls.len() implies link_sized(#[trigger] ls[i]) by {
        assert(ls[i] == link_view(s.links@[i]));
    }
    assert forall|i: int| 0 <= i < ms.len() implies move_sized(#[trigger] ms[i]) by {
        assert(ms[i] == move_view(s.utxo_moves@[i]));
    }
    let buf = signal_bytes(v);
    lemma_le64(v.1);
    lemma_le32(ls.len() as u32);
    lemma_le32(ms.len() as u32);
    lemma_links_len(ls);
    lemma_moves_len(ms);
    let nl = links_bytes(ls).len() as int;
    let nm = moves_bytes(ms).len() as int;
    assert(buf.len() == 48 + nl + nm);
    assert(buf.subrange(40, 44) =~= le32(ls.len() as u32));
    assert((buf.len() - 44) / 105 >= ls.len()) by (nonlinear_arith)
        requires
            buf.len() - 44 >= 105 * ls.len(),
    ;
    assert(buf.subrange(44, 44 + nl) =~= links_bytes(ls));
    lemma_parse_links(buf, 44, ls);
    let q = 44 + nl;
    assert(buf.subrange(q, q + 4) =~= le32(ms.len() as u32));
    assert((buf.len() - (q + 4)) / 33 >= ms.len()) by (nonlinear_arith)
        requires
            buf.len() - (q + 4) >= 33 * ms.len(),
    ;
    assert(buf.subrange(q + 4, q + 4 + nm) =~= moves_bytes(ms));
    lemma_parse_moves(buf, q + 4, ms);
    assert(buf.subrange(0, 32) =~= v.0);
    assert(buf.subrange(32, 40) =~= le64(v.1));
}

/// An intent's payload reads back as the intent.
pub proof fn law_intent_roundtrip(i: IntentRecord)
    ensures
        parse_intent(intent_bytes(i)) == Some(intent_view(i)),
{
    broadcast use vstd::array::group_array_axioms;

    lemma_le64(i.h0);
    let b = intent_bytes(i);
    assert(b.subrange(0, 32) =~= i.neuron@);
    assert(b.subrange(32, 40) =~= le64(i.h0));
    assert(b.subrange(40, 72) =~= i.scope_hash@);
    assert(b.subrange(72, 136) =~= i.signature@);
}


/// LEB128: seven bits at a time, low bits first, the high bit set on every
/// byte but the last.
pub open spec fn leb128(n: nat) -> Seq<u8>
    decreases n,
{
    if n < 128 {
        seq![n as u8]
    } else {
        seq![(n % 128 + 128) as u8] + leb128(n / 128)
    }
}

/// A tade frame: the marker `0x1f`, the sigil, the render byte, the payload's
/// length in LEB128, and the payload.
pub open spec fn frame_bytes(sigil: u8, render: u8, payload: Seq<u8>) -> Seq<u8> {
    seq![0x1fu8, sigil, render] + leb128(payload.len()) + payload
}

/// Frames one after another.
pub open spec fn frames_bytes(fs: Seq<(u8, u8, Seq<u8>)>) -> Seq<u8>
    decreases fs.len(),
{
    if fs.len() == 0 {
        Seq::empty()
    } else {
        frames_bytes(fs.drop_last()) + frame_bytes(fs.last().0, fs.last().1, fs.last().2)
    }
}

/// The frames, as sigil, render byte and payload, that tade's reader finds
/// in a byte stream, in order.
pub uninterp spec fn tade_chunks(bytes: Seq<u8>) -> Seq<(u8, u8, Seq<u8>)>;

pub open spec fn chunks_view(v: Seq<(u8, u8, Vec<u8>)>) -> Seq<(u8, u8, Seq<u8>)> {
    v.map_values(|c: (u8, u8, Vec<u8>)| (c.0, c.1, c.2@))
}

/// Encode one frame with `tade::Chunk::encode`, which writes the marker, the
/// sigil, the render byte, the payload length as LEB128, and the payload.
#[verifier::external_body]
fn tade_frame(sigil: u8, render: u8, payload: &[u8]) -> (out: Vec<u8>)
    ensures
        out@ == frame_bytes(sigil, render, payload@),
{
    tade::Chunk::new(sigil, render, payload.to_vec().into()).encode()
}

/// The weight of the `k`-th seven-bit digit of a length.
pub open spec fn digit_weight(k: nat) -> int
    decreases k,
{
    if k == 0 {
        1
    } else {
        128 * digit_weight((k - 1) as nat)
    }
}

/// The length declared by the LEB128 digits at `p + k` onwards, as a frame
/// reader takes it, with where its payload starts; `None` where the digits run
/// past the end or past ten. Of a tenth digit only the bit that still fits in
/// 64 counts.
pub open spec fn varint_from(b: Seq<u8>, p: int, k: nat) -> Option<(int, int)>
    decreases 10 - k,
{
    if k >= 10 || p < 0 || p + k >= b.len() {
        None
    } else {
        let byte = b[p + k];
        let part = if k == 9 {
            (byte % 2) * digit_weight(9)
        } else {
            (byte % 128) * digit_weight(k)
        };
        if byte < 128 {
            Some((part, p + k + 1))
        } else if k == 9 {
            None
        } else {
            match varint_from(b, p, k + 1) {
                None => None,
                Some((v, n)) => Some((part + v, n)),
            }
        }
    }
}

pub proof fn lemma_varint_next(b: Seq<u8>, p: int, k: nat)
    ensures
        varint_from(b, p, k) matches Some((v, n)) ==> n > p + k && v >= 0,
    decreases 10 - k,
{
    if k < 10 && p >= 0 && p + k < b.len() && b[p + k] >= 128 && k != 9 {
        lemma_varint_next(b, p, k + 1);
    }
    if k < 10 {
        lemma_digit_weight(k);
    }
}

pub proof fn lemma_digit_weight(k: nat)
    requires
        k <= 10,
    ensures
        digit_weight(k) >= 1,
        k <= 9 ==> digit_weight(k) <= 0x8000_0000_0000_0000,
        k <= 8 ==> digit_weight(k) <= 0x100_0000_0000_0000,
        k == 9 ==> digit_weight(k) == 0x8000_0000_0000_0000,
    decreases k,
{
    reveal_with_fuel(digit_weight, 11);
}

/// Whether every frame header that a reader meets, walking the stream from
/// `pos`, declares a payload whose end is an address: the reader skips bytes up
/// to a marker, reads the sigil, the render byte and the length, and jumps past
/// the payload; it stops at a header or payload that runs past the end.
pub open spec fn frames_fit_from(b: Seq<u8>, pos: int) -> bool
    decreases b.len() - pos,
{
    if pos < 0 || pos >= b.len() {
        true
    } else if b[pos] != 0x1f {
        frames_fit_from(b, pos + 1)
    } else if b.len() - pos < 4 {
        true
    } else {
        match varint_from(b, pos + 3, 0) {
            None => true,
            Some((v, start)) => {
                proof {
                    lemma_varint_next(b, pos + 3, 0);
                }
                if start + v > usize::MAX {
                    false
                } else if start + v > b.len() {
                    true
                } else {
                    frames_fit_from(b, start + v)
                }
            },
        }
    }
}

/// The length whose digits start at `p`, with where its payload starts.
fn varint_at(bytes: &[u8], p: usize) -> (r: Option<(u64, usize)>)
    ensures
        match varint_from(bytes@, p as int, 0) {
            None => r is None,
            Some((v, n)) => r matches Some((x, m)) && x == v && m == n,
        },
{
    let mut value: u64 = 0;
    let mut weight: u64 = 1;
    let mut k: usize = 0;
    proof {
        reveal_with_fuel(digit_weight, 2);
    }
    loop
        invariant
            k <= 9,
            weight == digit_weight(k as nat),
            value < weight,
            weight <= 0x100_0000_0000_0000 || k == 9,
            k == 9 ==> weight == 0x8000_0000_0000_0000,
            varint_from(bytes@, p as int, 0) == match varint_from(bytes@, p as int, k as nat) {
                None => None,
                Some((v, n)) => Some((value + v, n)),
            },
        decreases 9 - k,
    {
        proof {
            lemma_digit_weight(k as nat);
            lemma_digit_weight((k + 1) as nat);
        }
        if p >= bytes.len() || k >= bytes.len() - p {
            return None;
        }
        let byte = bytes[p + k];
        let part: u64 = if k == 9 {
            ((byte % 2) as u64) * weight
        } else {
            assert((byte % 128) * weight <= 127 * weight) by (nonlinear_arith)
                requires
                    byte % 128 <= 127,
                    weight >= 1,
            ;
            ((byte % 128) as u64) * weight
        };
        if byte < 128 {
            return Some((value + part, p + k + 1));
        }
        if k == 9 {
            return None;
        }
        value = value + part;
        weight = weight * 128;
        k = k + 1;
    }
}

/// Whether a reader walking `bytes` meets only frame headers whose payloads
/// end at an address, so that reading the stream cannot overflow.
pub fn frame_lengths_fit(bytes: &[u8]) -> (r: bool)
    ensures
        r == frames_fit_from(bytes@, 0),
{
    let mut pos: usize = 0;
    while pos < bytes.len()
        invariant
            pos <= bytes@.len(),
            frames_fit_from(bytes@, 0) == frames_fit_from(bytes@, pos as int),
        decreases bytes@.len() - pos,
    {
        if bytes[pos] != 0x1f {
            pos = pos + 1;
        } else if bytes.len() - pos < 4 {
            return true;
        } else {
            match varint_at(bytes, pos + 3) {
                None => {
                    return true;
                },
                Some((v, start)) => {
                    proof {
                        lemma_varint_next(bytes@, pos + 3, 0);
                    }
                    if v > (usize::MAX - start) as u64 {
                        return false;
                    }
                    let end = start + v as usize;
                    if end > bytes.len() {
                        return true;
                    }
                    pos = end;
                },
            }
        }
    }
    true
}

/// Read every frame of a stream with `tade::decode_nested`, which feeds one
/// `tade::Reader` and collects chunks until it reports no complete frame. The
/// result is named `tade_chunks`; a stream that is exactly a run of frames
/// reads back as those frames. The reader adds each header's declared length
/// to where its payload starts, and panics where that sum overflows, so the
/// stream must pass `frames_fit_from`, which walks the headers as the reader
/// does.
#[verifier::external_body]
fn tade_read(bytes: &[u8]) -> (out: Vec<(u8, u8, Vec<u8>)>)
    requires
        frames_fit_from(bytes@, 0),
    ensures
        chunks_view(out@) == tade_chunks(bytes@),
        forall|fs: Seq<(u8, u8, Seq<u8>)>| bytes@ == frames_bytes(fs) ==> chunks_view(out@) == fs,
{
    tade::decode_nested(bytes).into_iter().map(|c| (c.sigil, c.render, c.payload.to_vec())).collect()
}

/// One replayable event of the log, in wire order.
#[derive(Debug, Clone, PartialEq, Eq)]
pub enum Event {
    Signal(Signal),
    Intent(IntentRecord),
    Finalize,
}

/// An event as bytes and numbers.
pub enum EventView {
    Signal(SignalView),
    Intent((Seq<u8>, u64, Seq<u8>, Seq<u8>)),
    Finalize,
}

pub open spec fn event_view(e: Event) -> EventView {
    match e {
        Event::Signal(s) => EventView::Signal(signal_view(s)),
        Event::Intent(i) => EventView::Intent(intent_view(i)),
        Event::Finalize => EventView::Finalize,
    }
}

/// The events that frames carry: a signal or intent frame whose payload reads
/// back, and every block boundary. Other frames are skipped.
pub open spec fn events_of(chunks: Seq<(u8, u8, Seq<u8>)>) -> Seq<EventView>
    decreases chunks.len(),
{
    if chunks.len() == 0 {
        Seq::empty()
    } else {
        let rest = events_of(chunks.drop_last());
        let c = chunks.last();
        if c.0 == SIGIL_SIGNAL {
            match parse_signal(c.2) {
                Some(v) => rest.push(EventView::Signal(v)),
                None => rest,
            }
        } else if c.0 == SIGIL_INTENT {
            match parse_intent(c.2) {
                Some(v) => rest.push(EventView::Intent(v)),
                None => rest,
            }
        } else if c.0 == SIGIL_FINALIZE {
            rest.push(EventView::Finalize)
        } else {
            rest
        }
    }
}

/// The frame of a signal.
pub fn encode_signal(s: &Signal) -> (b: Vec<u8>)
    ensures
        b@ == frame_bytes(SIGIL_SIGNAL, RENDER_BIN, signal_bytes(signal_view(*s))),
{
    let payload = serialize_signal(s);
    tade_frame(SIGIL_SIGNAL, RENDER_BIN, payload.as_slice())
}

/// The frame of an intent.
pub fn encode_intent(i: &IntentRecord) -> (b: Vec<u8>)
    ensures
        b@ == frame_bytes(SIGIL_INTENT, RENDER_BIN, intent_bytes(*i)),
{
    let payload = serialize_intent(i);
    tade_frame(SIGIL_INTENT, RENDER_BIN, payload.as_slice())
}

/// The frame of a block boundary: an empty payload.
pub fn encode_finalize() -> (b: Vec<u8>)
    ensures
        b@ == frame_bytes(SIGIL_FINALIZE, RENDER_BIN, Seq::empty()),
{
    let payload: Vec<u8> = Vec::new();
    tade_frame(SIGIL_FINALIZE, RENDER_BIN, payload.as_slice())
}

/// The events that read frames carry; see [`events_of`].
pub fn events_from_chunks(chunks: &[(u8, u8, Vec<u8>)]) -> (r: Vec<Event>)
    ensures
        r@.map_values(|e: Event| event_view(e)) == events_of(chunks_view(chunks@)),
{
    let mut out: Vec<Event> = Vec::new();
    let mut i: usize = 0;
    while i < chunks.len()
        invariant
            i <= chunks@.len(),
            out@.map_values(|e: Event| event_view(e)) == events_of(chunks_view(chunks@.take(i as int))),
        decreases chunks@.len() - i,
    {
        let (sigil, _, payload) = &chunks[i];
        let ghost before = out@;
        proof {
            let t = chunks_view(chunks@.take(i + 1));
            assert(t.drop_last() =~= chunks_view(chunks@.take(i as int)));
            assert(t.last() == (*sigil, chunks@[i as int].1, payload@));
        }
        if *sigil == SIGIL_SIGNAL {
            match deserialize_signal(payload.as_slice()) {
                Some(s) => {
                    out.push(Event::Signal(s));
                },
                None => {},
            }
        } else if *sigil == SIGIL_INTENT {
            match deserialize_intent(payload.as_slice()) {
                Some(r) => {
                    out.push(Event::Intent(r));
                },
                None => {},
            }
        } else if *sigil == SIGIL_FINALIZE {
            out.push(Event::Finalize);
        }
        proof {
            let t = chunks_view(chunks@.take(i + 1));
            assert(out@.map_values(|e: Event| event_view(e)) =~= events_of(t));
        }
        i = i + 1;
    }
    assert(chunks@.take(i as int) =~= chunks@);
    out
}

/// Walk a concatenated log and return every event in order. Frames with
/// unknown sigils, and payloads that do not read back, are skipped. A log with
/// a header whose declared length overflows an address cannot be read: test it
/// with `frame_lengths_fit` first.
pub fn decode_events(bytes: &[u8]) -> (r: Vec<Event>)
    requires
        frames_fit_from(bytes@, 0),
    ensures
        r@.map_values(|e: Event| event_view(e)) == events_of(tade_chunks(bytes@)),
        forall|fs: Seq<(u8, u8, Seq<u8>)>| bytes@ == frames_bytes(fs) ==> r@.map_values(|e: Event| event_view(e)) == events_of(fs),
{
    let chunks = tade_read(bytes);
    events_from_chunks(chunks.as_slice())
}


/// The frame that carries an event.
pub open spec fn event_frame(e: Event) -> (u8, u8, Seq<u8>) {
    match e {
        Event::Signal(s) => (SIGIL_SIGNAL, RENDER_BIN, signal_bytes(signal_view(s))),
        Event::Intent(i) => (SIGIL_INTENT, RENDER_BIN, intent_bytes(i)),
        Event::Finalize => (SIGIL_FINALIZE, RENDER_BIN, Seq::empty()),
    }
}

/// A signal's counts fit the 32-bit fields they are written in.
pub open spec fn event_fits(e: Event) -> bool {
    e matches Event::Signal(s) ==> s.links@.len() <= u32::MAX && s.utxo_moves@.len() <= u32::MAX
}

/// A log written event by event reads back as those events, in order.
pub proof fn law_log_roundtrip(es: Seq<Event>)
    requires
        forall|i: int| 0 <= i < es.len() ==> event_fits(#[trigger] es[i]),
    ensures
        events_of(es.map_values(|e: Event| event_frame(e))) == es.map_values(|e: Event| event_view(e)),
    decreases es.len(),
{
    if es.len() > 0 {
        let init = es.drop_last();
        assert forall|i: int| 0 <= i < init.len() implies event_fits(#[trigger] init[i]) by {
            assert(init[i] == es[i]);
        }
        law_log_roundtrip(init);
        let frames = es.map_values(|e: Event| event_frame(e));
        assert(frames.drop_last() =~= init.map_values(|e: Event| event_frame(e)));
        let last = es.last();
        assert(event_fits(es[es.len() - 1]));
        match last {
            Event::Signal(s) => {
                law_signal_roundtrip(s);
            },
            Event::Intent(i) => {
                law_intent_roundtrip(i);
            },
            Event::Finalize => {},
        }
        assert(es.map_values(|e: Event| event_view(e)) =~= init.map_values(|e: Event| event_view(e)).push(
            event_view(last),
        ));
    }
}

} // verus!
