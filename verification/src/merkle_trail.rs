//! Canonical byte layout of settlement audit events. These bytes are what
//! an audit trail hashes and signs.
use vstd::prelude::*;
use vstd::bytes::{
    lemma_auto_spec_u128_to_from_le_bytes, lemma_auto_spec_u64_to_from_le_bytes, spec_u128_from_le_bytes,
    spec_u128_to_le_bytes, spec_u64_from_le_bytes, spec_u64_to_le_bytes,
};

use crate::hash::push_u64_le;

verus! {

/// Category of settlement event.
#[non_exhaustive]
#[derive(Debug, Clone, Copy, PartialEq, Eq, Hash, Structural)]
pub enum SettlementEventKind {
    /// A new trade booked for settlement.
    TradeBooked,
    /// Bilateral novation to a `CCP`.
    Novation,
    /// Multilateral netting cycle result.
    Netting,
    /// Cash / securities settlement.
    Settlement,
    /// Collateral posted or returned.
    CollateralMovement,
    /// Default management event (e.g. auction).
    DefaultAuction,
}

/// Byte tag of an event kind: 1 to 6 in declaration order.
pub open spec fn spec_tag(kind: SettlementEventKind) -> u8 {
    match kind {
        SettlementEventKind::TradeBooked => 1,
        SettlementEventKind::Novation => 2,
        SettlementEventKind::Netting => 3,
        SettlementEventKind::Settlement => 4,
        SettlementEventKind::CollateralMovement => 5,
        SettlementEventKind::DefaultAuction => 6,
    }
}

impl SettlementEventKind {
    /// Byte tag used inside canonical byte layouts.
    pub fn tag(self) -> (t: u8)
        ensures
            t == spec_tag(self),
    {
        match self {
            Self::TradeBooked => 1,
            Self::Novation => 2,
            Self::Netting => 3,
            Self::Settlement => 4,
            Self::CollateralMovement => 5,
            Self::DefaultAuction => 6,
        }
    }
}

/// A byte string preceded by its length as a little-endian 64-bit word.
pub open spec fn length_prefixed(bytes: Seq<u8>) -> Seq<u8> {
    spec_u64_to_le_bytes(bytes.len() as u64) + bytes
}

/// Canonical bytes of an event: sequence, kind tag, length-prefixed UTF-8
/// trade id, length-prefixed UTF-8 counterparty id, notional as 16
/// little-endian bytes, timestamp.
pub open spec fn canonical_layout(
    sequence: u64,
    kind: SettlementEventKind,
    trade_id: Seq<char>,
    counterparty_id: Seq<char>,
    notional_micros: i128,
    timestamp_unix: u64,
) -> Seq<u8> {
    spec_u64_to_le_bytes(sequence) + seq![spec_tag(kind)] + length_prefixed(
        vstd::utf8::encode_utf8(trade_id),
    ) + length_prefixed(vstd::utf8::encode_utf8(counterparty_id)) + spec_u128_to_le_bytes(
        notional_micros as u128,
    ) + spec_u64_to_le_bytes(timestamp_unix)
}

fn push_bytes(buf: &mut Vec<u8>, bytes: &[u8])
    ensures
        final(buf)@ == old(buf)@ + bytes@,
{
    let n = bytes.len();
    let mut i: usize = 0;
    let ghost start = buf@;
    while i < n
        invariant
            n == bytes@.len(),
            i <= n,
            buf@ == start + bytes@.take(i as int),
        decreases n - i,
    {
        buf.push(bytes[i]);
        assert(buf@ =~= start + bytes@.take(i + 1));
        i = i + 1;
    }
    assert(bytes@.take(n as int) =~= bytes@);
}

/// Append `bytes` preceded by its length.
fn push_len(buf: &mut Vec<u8>, bytes: &[u8])
    ensures
        final(buf)@ == old(buf)@ + length_prefixed(bytes@),
{
    push_u64_le(buf, bytes.len() as u64);
    push_bytes(buf, bytes);
    assert(old(buf)@ + spec_u64_to_le_bytes(bytes@.len() as u64) + bytes@ =~= old(buf)@ + length_prefixed(
        bytes@,
    ));
}

/// Canonical byte serialisation of a settlement event, used for hashing and
/// signing.
pub fn canonical_event_bytes(
    sequence: u64,
    kind: SettlementEventKind,
    trade_id: &str,
    counterparty_id: &str,
    notional_micros: i128,
    timestamp_unix: u64,
) -> (buf: Vec<u8>)
    ensures
        buf@ == canonical_layout(
            sequence,
            kind,
            trade_id@,
            counterparty_id@,
            notional_micros,
            timestamp_unix,
        ),
{
    let mut buf: Vec<u8> = Vec::with_capacity(128);
    push_u64_le(&mut buf, sequence);
    buf.push(kind.tag());
    push_len(&mut buf, trade_id.as_bytes());
    push_len(&mut buf, counterparty_id.as_bytes());
    let mut notional = vstd::bytes::u128_to_le_bytes(notional_micros as u128);
    buf.append(&mut notional);
    push_u64_le(&mut buf, timestamp_unix);
    assert(buf@ =~= canonical_layout(
        sequence,
        kind,
        trade_id@,
        counterparty_id@,
        notional_micros,
        timestamp_unix,
    ));
    buf
}

// ── Laws ──────────────────────────────────────────────────────────────

/// Different kinds have different tags.
proof fn lemma_tag_injective(a: SettlementEventKind, b: SettlementEventKind)
    requires
        spec_tag(a) == spec_tag(b),
    ensures
        a == b,
{
    match a {
        SettlementEventKind::TradeBooked => assert(b is TradeBooked),
        SettlementEventKind::Novation => assert(b is Novation),
        SettlementEventKind::Netting => assert(b is Netting),
        SettlementEventKind::Settlement => assert(b is Settlement),
        SettlementEventKind::CollateralMovement => assert(b is CollateralMovement),
        SettlementEventKind::DefaultAuction => assert(b is DefaultAuction),
    }
}

/// The canonical layout determines the event: two events whose canonical
/// bytes are equal agree in every field, so changing any field (kind,
/// notional, an id, the sequence or the timestamp) changes the bytes that
/// are hashed and signed.
pub proof fn law_canonical_layout_injective(
    sequence1: u64,
    kind1: SettlementEventKind,
    trade_id1: Seq<char>,
    counterparty_id1: Seq<char>,
    notional1: i128,
    timestamp1: u64,
    sequence2: u64,
    kind2: SettlementEventKind,
    trade_id2: Seq<char>,
    counterparty_id2: Seq<char>,
    notional2: i128,
    timestamp2: u64,
)
    requires
        vstd::utf8::encode_utf8(trade_id1).len() <= u64::MAX,
        vstd::utf8::encode_utf8(counterparty_id1).len() <= u64::MAX,
        vstd::utf8::encode_utf8(trade_id2).len() <= u64::MAX,
        vstd::utf8::encode_utf8(counterparty_id2).len() <= u64::MAX,
        canonical_layout(sequence1, kind1, trade_id1, counterparty_id1, notional1, timestamp1)
            == canonical_layout(sequence2, kind2, trade_id2, counterparty_id2, notional2, timestamp2),
    ensures
        sequence1 == sequence2,
        kind1 == kind2,
        trade_id1 == trade_id2,
        counterparty_id1 == counterparty_id2,
        notional1 == notional2,
        timestamp1 == timestamp2,
{
    broadcast use vstd::utf8::encode_utf8_decode_utf8;

    lemma_auto_spec_u64_to_from_le_bytes();
    lemma_auto_spec_u128_to_from_le_bytes();
    let ta1 = vstd::utf8::encode_utf8(trade_id1);
    let ca1 = vstd::utf8::encode_utf8(counterparty_id1);
    let ta2 = vstd::utf8::encode_utf8(trade_id2);
    let ca2 = vstd::utf8::encode_utf8(counterparty_id2);
    let q1 = spec_u64_to_le_bytes(sequence1) + seq![spec_tag(kind1)] + length_prefixed(ta1)
        + length_prefixed(ca1);
    let q2 = spec_u64_to_le_bytes(sequence2) + seq![spec_tag(kind2)] + length_prefixed(ta2)
        + length_prefixed(ca2);
    let n1 = spec_u128_to_le_bytes(notional1 as u128);
    let n2 = spec_u128_to_le_bytes(notional2 as u128);
    let s1 = spec_u64_to_le_bytes(timestamp1);
    let s2 = spec_u64_to_le_bytes(timestamp2);
    let l = canonical_layout(sequence1, kind1, trade_id1, counterparty_id1, notional1, timestamp1);
    assert(l =~= q1 + n1 + s1);
    assert(l =~= q2 + n2 + s2);
    let k: int = l.len() as int;
    // timestamp: the last 8 bytes
    assert(l.subrange(k - 8, k) =~= s1);
    assert(l.subrange(k - 8, k) =~= s2);
    assert(timestamp1 == spec_u64_from_le_bytes(s1));
    // notional: the 16 bytes before it
    assert(l.subrange(k - 24, k - 8) =~= n1);
    assert(l.subrange(k - 24, k - 8) =~= n2);
    assert(notional1 as u128 == spec_u128_from_le_bytes(n1));
    assert(notional1 as u128 == notional2 as u128);
    assert(notional1 == notional2) by (bit_vector)
        requires
            notional1 as u128 == notional2 as u128,
    ;
    // everything before the notional
    assert(l.subrange(0, k - 24) =~= q1);
    assert(l.subrange(0, k - 24) =~= q2);
    assert(q1.subrange(0, 8) =~= spec_u64_to_le_bytes(sequence1));
    assert(q2.subrange(0, 8) =~= spec_u64_to_le_bytes(sequence2));
    assert(sequence1 == spec_u64_from_le_bytes(spec_u64_to_le_bytes(sequence1)));
    assert(q1[8] == spec_tag(kind1));
    assert(q2[8] == spec_tag(kind2));
    lemma_tag_injective(kind1, kind2);
    assert(q1.subrange(9, 17) =~= spec_u64_to_le_bytes(ta1.len() as u64));
    assert(q2.subrange(9, 17) =~= spec_u64_to_le_bytes(ta2.len() as u64));
    assert(ta1.len() as u64 == spec_u64_from_le_bytes(spec_u64_to_le_bytes(ta1.len() as u64)));
    assert(ta1.len() == ta2.len());
    let m: int = 17 + ta1.len() as int;
    assert(q1.subrange(17, m) =~= ta1);
    assert(q2.subrange(17, m) =~= ta2);
    assert(trade_id1 == vstd::utf8::decode_utf8(ta1));
    assert(q1.subrange(m, m + 8) =~= spec_u64_to_le_bytes(ca1.len() as u64));
    assert(q2.subrange(m, m + 8) =~= spec_u64_to_le_bytes(ca2.len() as u64));
    assert(ca1.len() as u64 == spec_u64_from_le_bytes(spec_u64_to_le_bytes(ca1.len() as u64)));
    assert(ca1.len() == ca2.len());
    assert(q1.subrange(m + 8, q1.len() as int) =~= ca1);
    assert(q2.subrange(m + 8, q2.len() as int) =~= ca2);
    assert(counterparty_id1 == vstd::utf8::decode_utf8(ca1));
}

} // verus!
