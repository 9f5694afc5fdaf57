//! Bilateral netting of trades per (symbol, counterparty pair) and
//! multilateral reduction of the resulting obligations.
//!
//! The accumulators are kept in a `Vec` of entries with distinct keys, in
//! the order their keys were first seen, rather than in a hash map: the
//! order in which a hash map is walked is left open, and `compute_net`
//! lists its obligations in that walk order, so a `Vec` lets its contract
//! state the exact result. For the same reason `multilateral_net` groups
//! obligations by symbol in order of first appearance rather than through a
//! hash map keyed by symbol.
use vstd::prelude::*;

use crate::cycles::{group_settled, settle_group};
use crate::trade::Trade;

verus! {

/// Net obligation between two counterparties for a single symbol.
#[derive(Debug, Clone, Copy, PartialEq, Eq, Structural)]
pub struct NetObligation {
    /// Symbol hash.
    pub symbol_hash: u64,
    /// Account that owes delivery (net seller).
    pub deliverer_id: u64,
    /// Account that receives delivery (net buyer).
    pub receiver_id: u64,
    /// Net quantity to deliver.
    pub net_quantity: u64,
    /// Net payment amount (price * quantity sum).
    pub net_payment: i64,
    /// Number of original trades netted into this obligation.
    pub trade_count: u32,
}

/// Netting key of a bilateral flow: (symbol, lower account id, higher account id).
pub type NetKey = (u64, u64, u64);

/// Accumulated sums of a bilateral flow: (signed quantity, signed payment,
/// number of trades). Positive amounts mean that the lower id is the net buyer.
pub type NetSums = (int, int, nat);

/// Key for grouping bilateral trade flows per symbol.
/// Always stored as (min_id, max_id) to unify both directions.
#[derive(Debug, Clone, Copy, PartialEq, Eq, Structural)]
struct NettingKey {
    symbol_hash: u64,
    lo_id: u64,
    hi_id: u64,
}

/// Per-key accumulator tracking net position.
#[derive(Debug, Clone, Copy)]
struct NettingAccumulator {
    /// Signed quantity: positive means lo_id is net buyer from hi_id.
    net_quantity_signed: i128,
    /// Net payment signed (positive means lo_id pays hi_id).
    net_payment_signed: i128,
    trade_count: u32,
}

/// One netting key together with its accumulator.
#[derive(Debug, Clone, Copy)]
struct NettingEntry {
    key: NettingKey,
    acc: NettingAccumulator,
}

impl NettingEntry {
    spec fn spec_view(self) -> (NetKey, NetSums) {
        (
            (self.key.symbol_hash, self.key.lo_id, self.key.hi_id),
            (
                self.acc.net_quantity_signed as int,
                self.acc.net_payment_signed as int,
                self.acc.trade_count as nat,
            ),
        )
    }
}

// ── Specification of bilateral netting ─────────────────────────────────

/// Canonical (lo, hi) ordering of a counterparty pair.
pub open spec fn spec_canonical_pair(a: u64, b: u64) -> (u64, u64) {
    if a <= b {
        (a, b)
    } else {
        (b, a)
    }
}

/// The netting key a trade is accumulated under.
pub open spec fn trade_key(t: Trade) -> NetKey {
    (t.symbol_hash, spec_canonical_pair(t.buyer_id, t.seller_id).0, spec_canonical_pair(
        t.buyer_id,
        t.seller_id,
    ).1)
}

/// True when the lower id of the pair is the buyer.
pub open spec fn lo_is_buyer(t: Trade) -> bool {
    t.buyer_id <= t.seller_id
}

/// Signed quantity contributed by a trade.
pub open spec fn quantity_delta(t: Trade) -> int {
    if lo_is_buyer(t) {
        t.quantity as int
    } else {
        -(t.quantity as int)
    }
}

/// Signed payment (price times quantity) contributed by a trade.
pub open spec fn payment_delta(t: Trade) -> int {
    if lo_is_buyer(t) {
        t.price * t.quantity
    } else {
        -(t.price * t.quantity)
    }
}

/// Clamp into the `i128` range.
pub open spec fn clamp_i128(v: int) -> int {
    if v < i128::MIN {
        i128::MIN as int
    } else if v > i128::MAX {
        i128::MAX as int
    } else {
        v
    }
}

/// Sums after one more trade: each accumulator saturates, the signed sums at
/// the `i128` bounds and the trade count at `u32::MAX`.
pub open spec fn sums_plus(s: NetSums, t: Trade) -> NetSums {
    (
        clamp_i128(s.0 + quantity_delta(t)),
        clamp_i128(s.1 + payment_delta(t)),
        if s.2 + 1 > u32::MAX {
            u32::MAX as nat
        } else {
            s.2 + 1
        },
    )
}

/// Sums of an empty flow.
pub open spec fn zero_sums() -> NetSums {
    (0, 0, 0)
}

/// Whether `key` has an entry.
pub open spec fn has_key(s: Seq<(NetKey, NetSums)>, key: NetKey) -> bool {
    exists|i: int| 0 <= i < s.len() && s[i].0 == key
}

/// Position of `key` (meaningful when `has_key`).
pub open spec fn key_index(s: Seq<(NetKey, NetSums)>, key: NetKey) -> int {
    choose|i: int| 0 <= i < s.len() && s[i].0 == key
}

/// Sums recorded for `key`, zero when it has no entry.
pub open spec fn lookup(s: Seq<(NetKey, NetSums)>, key: NetKey) -> NetSums {
    if has_key(s, key) {
        s[key_index(s, key)].1
    } else {
        zero_sums()
    }
}

/// No key occurs twice.
pub open spec fn keys_distinct(s: Seq<(NetKey, NetSums)>) -> bool {
    forall|i: int, j: int| 0 <= i < j < s.len() ==> s[i].0 != s[j].0
}

/// Netting state after accumulating one trade: its key's sums are updated in
/// place, or a new entry is appended when the key is new.
pub open spec fn spec_add_trade(s: Seq<(NetKey, NetSums)>, t: Trade) -> Seq<(NetKey, NetSums)> {
    let key = trade_key(t);
    if has_key(s, key) {
        s.update(key_index(s, key), (key, sums_plus(s[key_index(s, key)].1, t)))
    } else {
        s.push((key, sums_plus(zero_sums(), t)))
    }
}

/// Netting state after accumulating a sequence of trades in order.
pub open spec fn spec_add_all(s: Seq<(NetKey, NetSums)>, ts: Seq<Trade>) -> Seq<(NetKey, NetSums)>
    decreases ts.len(),
{
    if ts.len() == 0 {
        s
    } else {
        spec_add_trade(spec_add_all(s, ts.drop_last()), ts.last())
    }
}

/// Sum of the contributions of the trades in `ts` whose key is `key`.
pub open spec fn flow_total(ts: Seq<Trade>, key: NetKey) -> NetSums
    decreases ts.len(),
{
    if ts.len() == 0 {
        zero_sums()
    } else if trade_key(ts.last()) == key {
        sums_plus(flow_total(ts.drop_last(), key), ts.last())
    } else {
        flow_total(ts.drop_last(), key)
    }
}

/// Clamp into the `i64` range.
pub open spec fn clamp_i64(v: int) -> i64 {
    if v < i64::MIN {
        i64::MIN
    } else if v > i64::MAX {
        i64::MAX
    } else {
        v as i64
    }
}

/// Obligation of one accumulated flow: the net buyer receives, the other side
/// delivers; the quantity is the magnitude of the signed quantity (negated
/// with saturation at `i128::MAX`), truncated to 64 bits, and the payment its
/// matching signed payment, clamped to `i64`.
pub open spec fn obligation_of(e: (NetKey, NetSums)) -> NetObligation {
    let (key, sums) = e;
    if sums.0 > 0 {
        NetObligation {
            symbol_hash: key.0,
            deliverer_id: key.2,
            receiver_id: key.1,
            net_quantity: sums.0 as u64,
            net_payment: clamp_i64(sums.1),
            trade_count: sums.2 as u32,
        }
    } else {
        NetObligation {
            symbol_hash: key.0,
            deliverer_id: key.1,
            receiver_id: key.2,
            net_quantity: clamp_i128(-sums.0) as u64,
            net_payment: clamp_i64(-sums.1),
            trade_count: sums.2 as u32,
        }
    }
}

/// Obligations of all flows with a non-zero signed quantity, in entry order.
pub open spec fn net_obligations(s: Seq<(NetKey, NetSums)>) -> Seq<NetObligation>
    decreases s.len(),
{
    if s.len() == 0 {
        Seq::empty()
    } else if s.last().1.0 != 0 {
        net_obligations(s.drop_last()).push(obligation_of(s.last()))
    } else {
        net_obligations(s.drop_last())
    }
}

/// `a + b` clamped to the `i128` range.
fn saturating_add_i128(a: i128, b: i128) -> (r: i128)
    ensures
        r == clamp_i128(a + b),
{
    match a.checked_add(b) {
        Some(v) => v,
        None => if b > 0 {
            i128::MAX
        } else {
            i128::MIN
        },
    }
}

/// `a - b` clamped to the `i128` range.
fn saturating_sub_i128(a: i128, b: i128) -> (r: i128)
    ensures
        r == clamp_i128(a - b),
{
    match a.checked_sub(b) {
        Some(v) => v,
        None => if b > 0 {
            i128::MIN
        } else {
            i128::MAX
        },
    }
}

/// `c + 1`, staying at `u32::MAX`.
fn saturating_inc_u32(c: u32) -> (r: u32)
    ensures
        r == if c + 1 > u32::MAX {
            u32::MAX as int
        } else {
            c + 1
        },
{
    if c == u32::MAX {
        c
    } else {
        c + 1
    }
}

/// Bilateral netting engine.
///
/// Accumulates trades within a netting cycle, then computes net obligations
/// across all counterparty pairs. Supports multi-symbol and multi-party netting.
pub struct NettingEngine {
    accumulators: Vec<NettingEntry>,
}

impl View for NettingEngine {
    type V = Seq<(NetKey, NetSums)>;

    closed spec fn view(&self) -> Seq<(NetKey, NetSums)> {
        self.accumulators@.map_values(|e: NettingEntry| e.spec_view())
    }
}

impl NettingEngine {
    /// Internal invariant: keys are distinct.
    pub closed spec fn wf(&self) -> bool {
        keys_distinct(self@)
    }

    /// Create a new, empty netting engine.
    pub fn new() -> (e: Self)
        ensures
            e.wf(),
            e@ == Seq::<(NetKey, NetSums)>::empty(),
    {
        let e = NettingEngine { accumulators: Vec::new() };
        assert(e@ =~= Seq::<(NetKey, NetSums)>::empty());
        e
    }

    /// Accumulate a trade into the netting state.
    ///
    /// For the canonical (lo_id, hi_id) pair, a trade where lo_id is buyer
    /// adds to the signed quantity; a trade where lo_id is seller subtracts.
    /// The accumulators saturate instead of overflowing.
    pub fn add_trade(&mut self, trade: &Trade)
        requires
            old(self).wf(),
        ensures
            final(self).wf(),
            final(self)@ == spec_add_trade(old(self)@, *trade),
    {
        let (lo_id, hi_id) = canonical_pair(trade.buyer_id, trade.seller_id);
        let key = NettingKey { symbol_hash: trade.symbol_hash, lo_id, hi_id };
        let ghost k: NetKey = trade_key(*trade);
        let qty = trade.quantity as i128;
        assert(-0x8000_0000_0000_0000_0000_0000_0000_0000 <= (trade.price as int) * (qty as int)
            <= 0x7fff_ffff_ffff_ffff_ffff_ffff_ffff_ffff) by (nonlinear_arith)
            requires
                -0x8000_0000_0000_0000 <= trade.price <= 0x7fff_ffff_ffff_ffff,
                0 <= qty <= 0xffff_ffff_ffff_ffff,
        ;
        let payment = (trade.price as i128) * qty;
        let n = self.accumulators.len();
        let i = self.position_of(key);
        let ghost old_view = self@;
        if i < n {
            let mut e = self.accumulators[i];
            assert(old_view[i as int] == e.spec_view());
            e.acc.trade_count = saturating_inc_u32(e.acc.trade_count);
            if trade.buyer_id == lo_id {
                e.acc.net_quantity_signed = saturating_add_i128(e.acc.net_quantity_signed, qty);
                e.acc.net_payment_signed = saturating_add_i128(e.acc.net_payment_signed, payment);
            } else {
                e.acc.net_quantity_signed = saturating_sub_i128(e.acc.net_quantity_signed, qty);
                e.acc.net_payment_signed = saturating_sub_i128(e.acc.net_payment_signed, payment);
            }
            self.accumulators[i] = e;
            assert(self@ =~= spec_add_trade(old_view, *trade));
        } else {
            let (q, p) = if trade.buyer_id == lo_id {
                (saturating_add_i128(0, qty), saturating_add_i128(0, payment))
            } else {
                (saturating_sub_i128(0, qty), saturating_sub_i128(0, payment))
            };
            let e = NettingEntry {
                key,
                acc: NettingAccumulator { net_quantity_signed: q, net_payment_signed: p, trade_count: 1 },
            };
            self.accumulators.push(e);
            assert(self@ =~= spec_add_trade(old_view, *trade));
        }
    }

    /// Index of the entry for `key`, or the number of entries when there is none.
    fn position_of(&self, key: NettingKey) -> (i: usize)
        requires
            self.wf(),
        ensures
            i <= self@.len(),
            i < self@.len() <==> has_key(self@, (key.symbol_hash, key.lo_id, key.hi_id)),
            i < self@.len() ==> i == key_index(self@, (key.symbol_hash, key.lo_id, key.hi_id)),
            i < self@.len() ==> self.accumulators@[i as int].key == key,
    {
        let ghost k: NetKey = (key.symbol_hash, key.lo_id, key.hi_id);
        let n = self.accumulators.len();
        let mut i: usize = 0;
        while i < n
            invariant
                n == self.accumulators@.len(),
                i <= n,
                forall|j: int| 0 <= j < i ==> #[trigger] self.accumulators@[j].key != key,
            ensures
                i <= n,
                forall|j: int| 0 <= j < i ==> #[trigger] self.accumulators@[j].key != key,
                i < n ==> self.accumulators@[i as int].key == key,
            decreases n - i,
        {
            if self.accumulators[i].key == key {
                break;
            }
            i = i + 1;
        }
        let ghost v = self@;
        assert forall|j: int| 0 <= j < i implies #[trigger] v[j].0 != k by {
            assert(v[j] == self.accumulators@[j].spec_view());
        }
        if i < n {
            assert(v[i as int] == self.accumulators@[i as int].spec_view());
            assert(has_key(v, k));
            let ghost idx = key_index(v, k);
            assert(idx == i) by {
                if idx != i {
                    if idx < i {
                        assert(v[idx].0 != k);
                    } else {
                        assert(v[i as int].0 != v[idx].0);
                    }
                }
            }
        }
        i
    }

    /// Compute all bilateral net obligations from accumulated trades.
    ///
    /// Returns one `NetObligation` per (symbol, counterparty-pair) where the
    /// net quantity is non-zero. Pairs with perfectly offsetting trades produce
    /// no obligation. Negating a sum saturates, so no input makes it panic.
    pub fn compute_net(&self) -> (obligations: Vec<NetObligation>)
        requires
            self.wf(),
        ensures
            obligations@ == net_obligations(self@),
    {
        let n = self.accumulators.len();
        let mut obligations: Vec<NetObligation> = Vec::with_capacity(n);
        let mut i: usize = 0;
        while i < n
            invariant
                n == self.accumulators@.len(),
                i <= n,
                self.wf(),
                obligations@ == net_obligations(self@.take(i as int)),
            decreases n - i,
        {
            assert(self@.take(i + 1).drop_last() =~= self@.take(i as int));
            let e = self.accumulators[i];
            assert(self@[i as int] == e.spec_view());
            let q = e.acc.net_quantity_signed;
            if q != 0 {
                let ob = if q > 0 {
                    NetObligation {
                        symbol_hash: e.key.symbol_hash,
                        deliverer_id: e.key.hi_id,
                        receiver_id: e.key.lo_id,
                        net_quantity: q as u64,
                        net_payment: saturating_i128_to_i64(e.acc.net_payment_signed),
                        trade_count: e.acc.trade_count,
                    }
                } else {
                    NetObligation {
                        symbol_hash: e.key.symbol_hash,
                        deliverer_id: e.key.lo_id,
                        receiver_id: e.key.hi_id,
                        net_quantity: saturating_sub_i128(0, q) as u64,
                        net_payment: saturating_i128_to_i64(saturating_sub_i128(0, e.acc.net_payment_signed)),
                        trade_count: e.acc.trade_count,
                    }
                };
                obligations.push(ob);
            }
            i = i + 1;
        }
        assert(self@.take(n as int) =~= self@);
        obligations
    }

    /// Reset the engine for the next netting cycle.
    pub fn clear(&mut self)
        ensures
            final(self).wf(),
            final(self)@ == Seq::<(NetKey, NetSums)>::empty(),
    {
        self.accumulators.clear();
        assert(self@ =~= Seq::<(NetKey, NetSums)>::empty());
    }

    /// Compute bilateral obligations, then reduce them via multilateral
    /// cycle cancellation.
    ///
    /// The resulting obligations are a strict subset of the bilateral net,
    /// with reduced gross exposure where circular flows exist.
    pub fn compute_multilateral(&self) -> (obligations: Vec<NetObligation>)
        requires
            self.wf(),
        ensures
            multilateral_outcome(net_obligations(self@), obligations@),
    {
        multilateral_net(self.compute_net())
    }
}

// ── Multilateral Netting ───────────────────────────────────────────────

/// Distinct symbols in order of first appearance.
pub open spec fn symbols_in_order(obs: Seq<NetObligation>) -> Seq<u64>
    decreases obs.len(),
{
    if obs.len() == 0 {
        Seq::empty()
    } else {
        let prev = symbols_in_order(obs.drop_last());
        if prev.contains(obs.last().symbol_hash) {
            prev
        } else {
            prev.push(obs.last().symbol_hash)
        }
    }
}

/// The obligations of one symbol, in order.
pub open spec fn of_symbol(obs: Seq<NetObligation>, symbol: u64) -> Seq<NetObligation>
    decreases obs.len(),
{
    if obs.len() == 0 {
        Seq::empty()
    } else if obs.last().symbol_hash == symbol {
        of_symbol(obs.drop_last(), symbol).push(obs.last())
    } else {
        of_symbol(obs.drop_last(), symbol)
    }
}

/// Concatenation of the parts in order.
pub open spec fn concat_all(parts: Seq<Seq<NetObligation>>) -> Seq<NetObligation>
    decreases parts.len(),
{
    if parts.len() == 0 {
        Seq::empty()
    } else {
        concat_all(parts.drop_last()) + parts.last()
    }
}

/// `output` is a result of multilateral netting of `input`: the obligations
/// are grouped by symbol (groups in order of first appearance), each group is
/// settled by cycle cancellation (see `group_settled`), and the settled groups
/// are concatenated.
pub open spec fn multilateral_outcome(input: Seq<NetObligation>, output: Seq<NetObligation>) -> bool {
    exists|parts: Seq<Seq<NetObligation>>|
        #![trigger concat_all(parts)]
        parts.len() == symbols_in_order(input).len() && (forall|j: int|
            0 <= j < parts.len() ==> group_settled(
                of_symbol(input, symbols_in_order(input)[j]),
                #[trigger] parts[j],
            )) && output == concat_all(parts)
}

/// Reduce bilateral obligations via cycle cancellation.
///
/// Given obligations A→B, B→C, C→A (a cycle within a single symbol),
/// the minimum edge weight is subtracted from all edges in the cycle,
/// reducing total gross exposure while preserving settlement correctness.
///
/// Obligations are grouped by `symbol_hash`; cycles are only cancelled
/// within the same symbol.
pub fn multilateral_net(obligations: Vec<NetObligation>) -> (result: Vec<NetObligation>)
    ensures
        multilateral_outcome(obligations@, result@),
{
    let ghost input = obligations@;
    let n = obligations.len();
    let mut symbols: Vec<u64> = Vec::new();
    let mut i: usize = 0;
    while i < n
        invariant
            n == input.len(),
            obligations@ == input,
            i <= n,
            symbols@ == symbols_in_order(input.take(i as int)),
        decreases n - i,
    {
        assert(input.take(i + 1).drop_last() =~= input.take(i as int));
        let sym = obligations[i].symbol_hash;
        if !contains_symbol(&symbols, sym) {
            symbols.push(sym);
        }
        i = i + 1;
    }
    assert(input.take(n as int) =~= input);
    let m = symbols.len();
    let mut result: Vec<NetObligation> = Vec::new();
    let ghost mut parts: Seq<Seq<NetObligation>> = Seq::empty();
    let mut j: usize = 0;
    while j < m
        invariant
            n == input.len(),
            obligations@ == input,
            m == symbols@.len(),
            symbols@ == symbols_in_order(input),
            j <= m,
            parts.len() == j,
            forall|jj: int|
                0 <= jj < j ==> group_settled(of_symbol(input, symbols@[jj]), #[trigger] parts[jj]),
            result@ == concat_all(parts),
        decreases m - j,
    {
        let sym = symbols[j];
        let mut group: Vec<NetObligation> = Vec::new();
        let mut i: usize = 0;
        while i < n
            invariant
                n == input.len(),
                obligations@ == input,
                i <= n,
                group@ == of_symbol(input.take(i as int), sym),
            decreases n - i,
        {
            assert(input.take(i + 1).drop_last() =~= input.take(i as int));
            if obligations[i].symbol_hash == sym {
                group.push(obligations[i]);
            }
            i = i + 1;
        }
        assert(input.take(n as int) =~= input);
        let mut settled = settle_group(group);
        let ghost part = settled@;
        result.append(&mut settled);
        proof {
            let next = parts.push(part);
            assert(next.drop_last() =~= parts);
            assert forall|jj: int| 0 <= jj < j + 1 implies group_settled(
                of_symbol(input, symbols@[jj]),
                #[trigger] next[jj],
            ) by {
                if jj < j {
                    assert(next[jj] == parts[jj]);
                }
            }
            parts = next;
        }
        j = j + 1;
    }
    assert(parts.len() == symbols_in_order(input).len() && (forall|jj: int|
        0 <= jj < parts.len() ==> group_settled(
            of_symbol(input, symbols_in_order(input)[jj]),
            #[trigger] parts[jj],
        )) && result@ == concat_all(parts));
    result
}

fn contains_symbol(v: &Vec<u64>, x: u64) -> (r: bool)
    ensures
        r == v@.contains(x),
{
    let mut i: usize = 0;
    while i < v.len()
        invariant
            i <= v@.len(),
            forall|j: int| 0 <= j < i ==> v@[j] != x,
        decreases v@.len() - i,
    {
        if v[i] == x {
            return true;
        }
        i = i + 1;
    }
    false
}

impl Default for NettingEngine {
    fn default() -> (e: Self)
        ensures
            e.wf(),
            e@ == Seq::<(NetKey, NetSums)>::empty(),
    {
        Self::new()
    }
}

/// Return the canonical (lo, hi) ordering of a counterparty pair.
pub fn canonical_pair(a: u64, b: u64) -> (r: (u64, u64))
    ensures
        r == spec_canonical_pair(a, b),
{
    if a <= b {
        (a, b)
    } else {
        (b, a)
    }
}

/// Clamp an i128 value into i64 range.
pub fn saturating_i128_to_i64(v: i128) -> (r: i64)
    ensures
        r == clamp_i64(v as int),
{
    if v < i64::MIN as i128 {
        i64::MIN
    } else if v > i64::MAX as i128 {
        i64::MAX
    } else {
        v as i64
    }
}


// ── Laws of bilateral netting ─────────────────────────────────────────

proof fn lemma_add_trade_lookup(s: Seq<(NetKey, NetSums)>, t: Trade, key: NetKey)
    requires
        keys_distinct(s),
    ensures
        keys_distinct(spec_add_trade(s, t)),
        lookup(spec_add_trade(s, t), key) == if trade_key(t) == key {
            sums_plus(lookup(s, key), t)
        } else {
            lookup(s, key)
        },
        has_key(spec_add_trade(s, t), key) == (has_key(s, key) || trade_key(t) == key),
{
    let k = trade_key(t);
    let r = spec_add_trade(s, t);
    if has_key(s, k) {
        let i = key_index(s, k);
        assert forall|a: int, b: int| 0 <= a < b < r.len() implies r[a].0 != r[b].0 by {
            assert(r[a].0 == s[a].0 && r[b].0 == s[b].0);
        }
        if has_key(s, key) {
            let j = key_index(s, key);
            assert(r[j].0 == key);
        }
        if has_key(r, key) {
            let j = key_index(r, key);
            assert(s[j].0 == r[j].0);
            assert(key_index(r, key) == key_index(s, key)) by {
                let j2 = key_index(s, key);
                if j != j2 {
                    assert(s[j].0 == s[j2].0);
                }
            }
        }
    } else {
        assert forall|a: int, b: int| 0 <= a < b < r.len() implies r[a].0 != r[b].0 by {
            if b == s.len() {
                assert(s[a].0 != k);
            } else {
                assert(r[a].0 == s[a].0 && r[b].0 == s[b].0);
            }
        }
        assert(r[s.len() as int].0 == k);
        if has_key(s, key) {
            let j = key_index(s, key);
            assert(r[j].0 == key);
        }
        if has_key(r, key) {
            let j = key_index(r, key);
            if j < s.len() {
                assert(s[j].0 == key);
                assert(key_index(r, key) == key_index(s, key)) by {
                    let j2 = key_index(s, key);
                    if j != j2 {
                        assert(s[j].0 == s[j2].0);
                    }
                }
            } else {
                assert(key == k);
            }
        }
    }
}

proof fn lemma_add_all_lookup(ts: Seq<Trade>, key: NetKey)
    ensures
        keys_distinct(spec_add_all(Seq::empty(), ts)),
        lookup(spec_add_all(Seq::empty(), ts), key) == flow_total(ts, key),
    decreases ts.len(),
{
    if ts.len() > 0 {
        lemma_add_all_lookup(ts.drop_last(), key);
        lemma_add_trade_lookup(spec_add_all(Seq::empty(), ts.drop_last()), ts.last(), key);
    }
}

proof fn lemma_net_obligations_entries(s: Seq<(NetKey, NetSums)>)
    ensures
        forall|k: int|
            0 <= k < net_obligations(s).len() ==> exists|i: int|
                0 <= i < s.len() && s[i].1.0 != 0 && #[trigger] net_obligations(s)[k] == obligation_of(
                    s[i],
                ),
        forall|i: int|
            0 <= i < s.len() && #[trigger] s[i].1.0 != 0 ==> exists|k: int|
                0 <= k < net_obligations(s).len() && net_obligations(s)[k] == obligation_of(s[i]),
    decreases s.len(),
{
    if s.len() > 0 {
        let d = s.drop_last();
        lemma_net_obligations_entries(d);
        let prev = net_obligations(d);
        let cur = net_obligations(s);
        assert forall|k: int| 0 <= k < cur.len() implies exists|i: int|
            0 <= i < s.len() && s[i].1.0 != 0 && #[trigger] cur[k] == obligation_of(s[i]) by {
            if k < prev.len() {
                assert(cur[k] == prev[k]);
                let i = choose|i: int| 0 <= i < d.len() && d[i].1.0 != 0 && #[trigger] prev[k] == obligation_of(d[i]);
                assert(s[i] == d[i]);
            } else {
                assert(cur[k] == obligation_of(s[s.len() - 1]));
            }
        }
        assert forall|i: int| 0 <= i < s.len() && #[trigger] s[i].1.0 != 0 implies exists|k: int|
            0 <= k < cur.len() && cur[k] == obligation_of(s[i]) by {
            if i < s.len() - 1 {
                assert(d[i] == s[i]);
                assert(d[i].1.0 != 0);
                let k = choose|k: int| 0 <= k < prev.len() && prev[k] == obligation_of(d[i]);
                assert(cur[k] == prev[k]);
            } else {
                assert(cur[prev.len() as int] == obligation_of(s[i]));
            }
        }
    }
}

/// Netting sums each bilateral flow: after accumulating the trades `ts` in an
/// empty engine, the sums recorded for every (symbol, pair) key are the sums
/// of the signed quantities, signed payments and count of the trades with
/// that key.
pub proof fn law_netting_sums_trades(ts: Seq<Trade>, key: NetKey)
    ensures
        lookup(spec_add_all(Seq::empty(), ts), key) == flow_total(ts, key),
{
    lemma_add_all_lookup(ts, key);
}

/// `compute_net` yields exactly one obligation per (symbol, pair) key whose
/// trades do not offset: every obligation is the obligation of some key with
/// a non-zero signed quantity total, and every such key has its obligation.
/// Perfectly offsetting trades produce no obligation.
pub proof fn law_net_obligations_from_trades(ts: Seq<Trade>)
    ensures
        forall|k: int|
            0 <= k < net_obligations(spec_add_all(Seq::empty(), ts)).len() ==> exists|key: NetKey|
                flow_total(ts, key).0 != 0 && #[trigger] net_obligations(
                    spec_add_all(Seq::empty(), ts),
                )[k] == obligation_of((key, flow_total(ts, key))),
        forall|key: NetKey|
            #[trigger] flow_total(ts, key).0 != 0 ==> exists|k: int|
                0 <= k < net_obligations(spec_add_all(Seq::empty(), ts)).len() && net_obligations(
                    spec_add_all(Seq::empty(), ts),
                )[k] == obligation_of((key, flow_total(ts, key))),
{
    let s = spec_add_all(Seq::empty(), ts);
    lemma_net_obligations_entries(s);
    assert forall|k: int| 0 <= k < net_obligations(s).len() implies exists|key: NetKey|
        flow_total(ts, key).0 != 0 && #[trigger] net_obligations(s)[k] == obligation_of(
            (key, flow_total(ts, key)),
        ) by {
        let i = choose|i: int| 0 <= i < s.len() && s[i].1.0 != 0 && #[trigger] net_obligations(s)[k] == obligation_of(s[i]);
        let key = s[i].0;
        lemma_add_all_lookup(ts, key);
        assert(has_key(s, key));
        let j = key_index(s, key);
        if j != i {
            assert(s[j].0 == s[i].0);
        }
        assert(s[i] == (key, flow_total(ts, key)));
    }
    assert forall|key: NetKey| #[trigger] flow_total(ts, key).0 != 0 implies exists|k: int|
        0 <= k < net_obligations(s).len() && net_obligations(s)[k] == obligation_of(
            (key, flow_total(ts, key)),
        ) by {
        lemma_add_all_lookup(ts, key);
        assert(has_key(s, key));
        let i = key_index(s, key);
        assert(s[i].1.0 != 0);
        assert(s[i] == (key, flow_total(ts, key)));
    }
}


// ── Order of the trades ───────────────────────────────────────────────

/// One step of the exact (unsaturated) totals of `key`: signed quantity,
/// signed payment and trade count.
pub open spec fn exact_step(key: NetKey) -> spec_fn((int, int, int), Trade) -> (int, int, int) {
    |acc: (int, int, int), t: Trade|
        if trade_key(t) == key {
            (acc.0 + quantity_delta(t), acc.1 + payment_delta(t), acc.2 + 1)
        } else {
            acc
        }
}

/// Exact totals of the trades of `key` in `ts`.
pub open spec fn exact_totals(ts: Seq<Trade>, key: NetKey) -> (int, int, int) {
    ts.fold_left((0int, 0int, 0int), exact_step(key))
}

/// No accumulator saturates when the trades `ts` are accumulated in this
/// order: for every key, the exact running totals after every prefix stay
/// within `i128` (quantity and payment) and `u32` (count).
pub open spec fn never_saturates(ts: Seq<Trade>) -> bool {
    forall|key: NetKey, n: int|
        #![trigger exact_totals(ts.take(n), key)]
        0 <= n <= ts.len() ==> {
            let e = exact_totals(ts.take(n), key);
            &&& i128::MIN <= e.0 <= i128::MAX
            &&& i128::MIN <= e.1 <= i128::MAX
            &&& e.2 <= u32::MAX
        }
}

/// Without saturation, the accumulated sums are the exact totals.
proof fn lemma_exact_totals(ts: Seq<Trade>, key: NetKey)
    requires
        never_saturates(ts),
    ensures
        exact_totals(ts, key).2 >= 0,
        flow_total(ts, key) == (exact_totals(ts, key).0, exact_totals(ts, key).1, exact_totals(ts, key).2 as nat),
    decreases ts.len(),
{
    if ts.len() > 0 {
        let d = ts.drop_last();
        assert forall|k: NetKey, n: int| 0 <= n <= d.len() implies {
            let e = #[trigger] exact_totals(d.take(n), k);
            &&& i128::MIN <= e.0 <= i128::MAX
            &&& i128::MIN <= e.1 <= i128::MAX
            &&& e.2 <= u32::MAX
        } by {
            assert(d.take(n) =~= ts.take(n));
            assert(exact_totals(ts.take(n), k) == exact_totals(ts.take(n), k));
        }
        lemma_exact_totals(d, key);
        assert(ts.take(ts.len() as int) =~= ts);
        assert(exact_totals(ts.take(ts.len() as int), key) == exact_totals(ts.take(ts.len() as int), key));
    }
}

proof fn lemma_exact_commutative(key: NetKey)
    ensures
        vstd::seq_lib::commutative_foldl(exact_step(key)),
{
}

proof fn lemma_add_all_canonical(ts: Seq<Trade>)
    ensures
        forall|i: int|
            0 <= i < spec_add_all(Seq::empty(), ts).len() ==> #[trigger] spec_add_all(Seq::empty(), ts)[i].0.1
                <= spec_add_all(Seq::empty(), ts)[i].0.2,
    decreases ts.len(),
{
    if ts.len() > 0 {
        lemma_add_all_canonical(ts.drop_last());
        let s = spec_add_all(Seq::empty(), ts.drop_last());
        let r = spec_add_all(Seq::empty(), ts);
        let t = ts.last();
        assert forall|i: int| 0 <= i < r.len() implies #[trigger] r[i].0.1 <= r[i].0.2 by {
            if has_key(s, trade_key(t)) {
                let j = key_index(s, trade_key(t));
                if i != j {
                    assert(r[i] == s[i]);
                }
            } else if i < s.len() {
                assert(r[i] == s[i]);
            }
        }
    }
}

/// Obligations of different canonical keys differ.
proof fn lemma_obligation_key(a: (NetKey, NetSums), b: (NetKey, NetSums))
    requires
        a.0.1 <= a.0.2,
        b.0.1 <= b.0.2,
        obligation_of(a) == obligation_of(b),
    ensures
        a.0 == b.0,
{
}

proof fn lemma_net_obligations_no_dup(s: Seq<(NetKey, NetSums)>)
    requires
        keys_distinct(s),
        forall|i: int| 0 <= i < s.len() ==> #[trigger] s[i].0.1 <= s[i].0.2,
    ensures
        net_obligations(s).no_duplicates(),
    decreases s.len(),
{
    if s.len() > 0 {
        let d = s.drop_last();
        assert forall|i: int| 0 <= i < d.len() implies #[trigger] d[i].0.1 <= d[i].0.2 by {
            assert(d[i] == s[i]);
        }
        assert(keys_distinct(d)) by {
            assert forall|i: int, j: int| 0 <= i < j < d.len() implies d[i].0 != d[j].0 by {
                assert(d[i] == s[i] && d[j] == s[j]);
            }
        }
        lemma_net_obligations_no_dup(d);
        lemma_net_obligations_entries(d);
        let prev = net_obligations(d);
        if s.last().1.0 != 0 {
            let o = obligation_of(s.last());
            assert forall|k: int| 0 <= k < prev.len() implies prev[k] != o by {
                let i = choose|i: int| 0 <= i < d.len() && d[i].1.0 != 0 && #[trigger] prev[k] == obligation_of(d[i]);
                assert(d[i] == s[i]);
                assert(s[i].0 != s[s.len() - 1].0);
                if prev[k] == o {
                    lemma_obligation_key(d[i], s.last());
                }
            }
            let cur = net_obligations(s);
            assert forall|a: int, b: int| 0 <= a < cur.len() && 0 <= b < cur.len() && a != b implies cur[a]
                != cur[b] by {
                if a < prev.len() && b < prev.len() {
                    assert(cur[a] == prev[a] && cur[b] == prev[b]);
                } else if a < prev.len() {
                    assert(cur[a] == prev[a]);
                } else {
                    assert(cur[b] == prev[b]);
                }
            }
        }
    }
}

proof fn lemma_flow_total_permutation(ts1: Seq<Trade>, ts2: Seq<Trade>, key: NetKey)
    requires
        ts1.to_multiset() == ts2.to_multiset(),
        never_saturates(ts1),
        never_saturates(ts2),
    ensures
        flow_total(ts1, key) == flow_total(ts2, key),
{
    lemma_exact_commutative(key);
    vstd::seq_lib::lemma_fold_left_permutation(ts1, ts2, exact_step(key), (0int, 0int, 0int));
    assert(exact_totals(ts1, key) == exact_totals(ts2, key));
    lemma_exact_totals(ts1, key);
    lemma_exact_totals(ts2, key);
}

/// Obligations of `ts1` are obligations of `ts2` when every flow total agrees.
proof fn lemma_net_contains(ts1: Seq<Trade>, ts2: Seq<Trade>, o: NetObligation)
    requires
        forall|key: NetKey| #[trigger] flow_total(ts1, key) == flow_total(ts2, key),
        net_obligations(spec_add_all(Seq::empty(), ts1)).contains(o),
    ensures
        net_obligations(spec_add_all(Seq::empty(), ts2)).contains(o),
{
    let a = net_obligations(spec_add_all(Seq::empty(), ts1));
    let b = net_obligations(spec_add_all(Seq::empty(), ts2));
    law_net_obligations_from_trades(ts1);
    law_net_obligations_from_trades(ts2);
    let k = choose|k: int| 0 <= k < a.len() && a[k] == o;
    let key = choose|key: NetKey|
        flow_total(ts1, key).0 != 0 && #[trigger] a[k] == obligation_of((key, flow_total(ts1, key)));
    assert(flow_total(ts1, key) == flow_total(ts2, key));
    assert(flow_total(ts2, key).0 != 0);
    let k2 = choose|k2: int| 0 <= k2 < b.len() && b[k2] == obligation_of((key, flow_total(ts2, key)));
    assert(b[k2] == o);
}

proof fn lemma_same_elements_multiset(a: Seq<NetObligation>, b: Seq<NetObligation>)
    requires
        a.no_duplicates(),
        b.no_duplicates(),
        forall|o: NetObligation| a.contains(o) <==> b.contains(o),
    ensures
        a.to_multiset() == b.to_multiset(),
{
    broadcast use vstd::seq_lib::group_to_multiset_ensures;

    a.lemma_multiset_has_no_duplicates();
    b.lemma_multiset_has_no_duplicates();
    assert forall|o: NetObligation| a.to_multiset().count(o) == b.to_multiset().count(o) by {
        if a.contains(o) {
            assert(b.contains(o));
        } else {
            assert(!b.contains(o));
        }
    }
    assert(a.to_multiset() =~= b.to_multiset());
}

/// Netting does not depend on the order of the trades: accumulating the
/// same trades in two orders gives the same obligations (as a multiset),
/// provided no accumulator saturates in either order.
pub proof fn law_netting_order_independent(ts1: Seq<Trade>, ts2: Seq<Trade>)
    requires
        ts1.to_multiset() == ts2.to_multiset(),
        never_saturates(ts1),
        never_saturates(ts2),
    ensures
        net_obligations(spec_add_all(Seq::empty(), ts1)).to_multiset() == net_obligations(
            spec_add_all(Seq::empty(), ts2),
        ).to_multiset(),
{
    assert forall|key: NetKey| #[trigger] flow_total(ts1, key) == flow_total(ts2, key) by {
        lemma_flow_total_permutation(ts1, ts2, key);
    }
    let s1 = spec_add_all(Seq::empty(), ts1);
    let s2 = spec_add_all(Seq::empty(), ts2);
    lemma_add_all_lookup(ts1, (0, 0, 0));
    lemma_add_all_lookup(ts2, (0, 0, 0));
    lemma_add_all_canonical(ts1);
    lemma_add_all_canonical(ts2);
    lemma_net_obligations_no_dup(s1);
    lemma_net_obligations_no_dup(s2);
    assert forall|o: NetObligation|
        net_obligations(s1).contains(o) <==> net_obligations(s2).contains(o) by {
        if net_obligations(s1).contains(o) {
            lemma_net_contains(ts1, ts2, o);
        }
        if net_obligations(s2).contains(o) {
            lemma_net_contains(ts2, ts1, o);
        }
    }
    lemma_same_elements_multiset(net_obligations(s1), net_obligations(s2));
}

// ── What each net obligation carries ──────────────────────────────────

/// `t` is a trade in the symbol of `o` between its two parties, in either
/// direction.
pub open spec fn between(t: Trade, o: NetObligation) -> bool {
    &&& t.symbol_hash == o.symbol_hash
    &&& ((t.buyer_id == o.receiver_id && t.seller_id == o.deliverer_id) || (t.buyer_id == o.deliverer_id
        && t.seller_id == o.receiver_id))
}

/// Number of trades of `ts` between the parties of `o`.
pub open spec fn trades_between(ts: Seq<Trade>, o: NetObligation) -> nat
    decreases ts.len(),
{
    if ts.len() == 0 {
        0
    } else {
        trades_between(ts.drop_last(), o) + if between(ts.last(), o) {
            1nat
        } else {
            0nat
        }
    }
}

/// Over the trades between the parties of `o`: the quantity its receiver
/// bought from its deliverer minus the quantity it sold to it.
pub open spec fn received_quantity(ts: Seq<Trade>, o: NetObligation) -> int
    decreases ts.len(),
{
    if ts.len() == 0 {
        0
    } else {
        let t = ts.last();
        received_quantity(ts.drop_last(), o) + if !between(t, o) {
            0
        } else if t.buyer_id == o.receiver_id {
            t.quantity as int
        } else {
            -(t.quantity as int)
        }
    }
}

/// Over the trades between the parties of `o`: what its receiver paid its
/// deliverer (price times quantity) minus what it was paid by it.
pub open spec fn received_payment(ts: Seq<Trade>, o: NetObligation) -> int
    decreases ts.len(),
{
    if ts.len() == 0 {
        0
    } else {
        let t = ts.last();
        received_payment(ts.drop_last(), o) + if !between(t, o) {
            0
        } else if t.buyer_id == o.receiver_id {
            t.price * t.quantity
        } else {
            -(t.price * t.quantity)
        }
    }
}

proof fn lemma_flow_untouched(ts: Seq<Trade>, key: NetKey)
    requires
        forall|i: int| 0 <= i < ts.len() ==> trade_key(#[trigger] ts[i]) != key,
    ensures
        flow_total(ts, key) == zero_sums(),
        exact_totals(ts, key) == (0int, 0int, 0int),
    decreases ts.len(),
{
    if ts.len() > 0 {
        let d = ts.drop_last();
        assert forall|i: int| 0 <= i < d.len() implies trade_key(#[trigger] d[i]) != key by {
            assert(d[i] == ts[i]);
        }
        lemma_flow_untouched(d, key);
        assert(trade_key(ts[ts.len() - 1]) != key);
    }
}

/// The trades counted for an obligation of `key` are exactly those of `key`,
/// and its receiver's totals are the key's totals seen from its side.
proof fn lemma_obligation_totals(ts: Seq<Trade>, key: NetKey, o: NetObligation)
    requires
        key.1 <= key.2,
        o.symbol_hash == key.0,
        (o.receiver_id == key.1 && o.deliverer_id == key.2) || (o.receiver_id == key.2 && o.deliverer_id
            == key.1),
    ensures
        flow_total(ts, key).2 == if trades_between(ts, o) > u32::MAX {
            u32::MAX as int
        } else {
            trades_between(ts, o) as int
        },
        received_quantity(ts, o) == if o.receiver_id == key.1 {
            exact_totals(ts, key).0
        } else {
            -exact_totals(ts, key).0
        },
        received_payment(ts, o) == if o.receiver_id == key.1 {
            exact_totals(ts, key).1
        } else {
            -exact_totals(ts, key).1
        },
        key.1 == key.2 ==> exact_totals(ts, key).0 >= 0,
    decreases ts.len(),
{
    if ts.len() > 0 {
        let t = ts.last();
        lemma_obligation_totals(ts.drop_last(), key, o);
        assert(between(t, o) <==> trade_key(t) == key);
    }
}

proof fn lemma_flow_range(ts: Seq<Trade>, key: NetKey)
    ensures
        i128::MIN <= flow_total(ts, key).0 <= i128::MAX,
        i128::MIN <= flow_total(ts, key).1 <= i128::MAX,
        flow_total(ts, key).2 <= u32::MAX,
    decreases ts.len(),
{
    if ts.len() > 0 {
        lemma_flow_range(ts.drop_last(), key);
    }
}

/// Every obligation netted from the trades `ts` counts the trades between
/// its two parties in its symbol (saturating at `u32::MAX`), whichever side
/// is the net buyer. When no accumulator saturates, its receiver is the
/// party that bought more than it sold over those trades, its quantity is
/// that surplus (at most `i128::MAX`, truncated to 64 bits), and its payment
/// what the receiver paid net (clamped to `i64`).
pub proof fn law_net_obligation_sums_its_trades(ts: Seq<Trade>)
    ensures
        forall|k: int|
            0 <= k < net_obligations(spec_add_all(Seq::empty(), ts)).len() ==> {
                let o = #[trigger] net_obligations(spec_add_all(Seq::empty(), ts))[k];
                &&& o.trade_count == if trades_between(ts, o) > u32::MAX {
                    u32::MAX as int
                } else {
                    trades_between(ts, o) as int
                }
                &&& never_saturates(ts) ==> {
                    &&& received_quantity(ts, o) > 0
                    &&& o.net_quantity == clamp_i128(received_quantity(ts, o)) as u64
                    &&& o.net_payment == clamp_i64(received_payment(ts, o))
                }
            },
{
    let s = spec_add_all(Seq::empty(), ts);
    law_net_obligations_from_trades(ts);
    assert forall|k: int| 0 <= k < net_obligations(s).len() implies {
        let o = #[trigger] net_obligations(s)[k];
        &&& o.trade_count == if trades_between(ts, o) > u32::MAX {
            u32::MAX as int
        } else {
            trades_between(ts, o) as int
        }
        &&& never_saturates(ts) ==> {
            &&& received_quantity(ts, o) > 0
            &&& o.net_quantity == clamp_i128(received_quantity(ts, o)) as u64
            &&& o.net_payment == clamp_i64(received_payment(ts, o))
        }
    } by {
        let o = net_obligations(s)[k];
        let key = choose|key: NetKey|
            flow_total(ts, key).0 != 0 && #[trigger] net_obligations(s)[k] == obligation_of(
                (key, flow_total(ts, key)),
            );
        if forall|i: int| 0 <= i < ts.len() ==> trade_key(#[trigger] ts[i]) != key {
            lemma_flow_untouched(ts, key);
        }
        let i = choose|i: int| 0 <= i < ts.len() && trade_key(#[trigger] ts[i]) == key;
        assert(key.1 <= key.2);
        let f = flow_total(ts, key);
        assert(o == obligation_of((key, f)));
        lemma_obligation_totals(ts, key, o);
        lemma_flow_range(ts, key);
        assert(f.2 <= u32::MAX);
        assert(o.trade_count == f.2);
        if never_saturates(ts) {
            lemma_exact_totals(ts, key);
            let e = exact_totals(ts, key);
            assert(f.0 == e.0 && f.1 == e.1);
            if f.0 > 0 {
                assert(o.receiver_id == key.1);
                assert(received_quantity(ts, o) == f.0);
                assert(received_payment(ts, o) == f.1);
            } else {
                assert(o.receiver_id == key.2 && o.deliverer_id == key.1);
                if key.1 == key.2 {
                    assert(e.0 >= 0);
                }
                assert(o.receiver_id != key.1);
                assert(received_quantity(ts, o) == -f.0);
                assert(received_payment(ts, o) == -f.1);
            }
        }
    }
}

} // verus!
