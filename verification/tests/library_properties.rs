use alice_settlement::clearing::{ClearingError, ClearingHouse};
use alice_settlement::collateral::{CollateralAccount, CollateralType, HaircutConfig};
use alice_settlement::cycles::{cancel_cycle, find_cycle, settle_group};
use alice_settlement::hash::{fnv1a, hash_pair, FNV_OFFSET_BASIS};
use alice_settlement::journal::{JournalEvent, SettlementJournal};
use alice_settlement::margin::{
    combine_margin, hash_requirement, obligation_notional, portfolio_exposure, worst_shock_loss,
};
use alice_settlement::merkle_trail::{canonical_event_bytes, SettlementEventKind};
use alice_settlement::netting::{multilateral_net, NetObligation, NettingEngine};
use alice_settlement::replay::ReplayVerifier;
use alice_settlement::trade::{status_from_u8, SettlementStatus, Trade};
use alice_settlement::waterfall::{DefaultWaterfall, WaterfallConfig};

fn reference_fnv(data: &[u8]) -> u64 {
    let mut h: u64 = 0xcbf29ce484222325;
    for &b in data {
        h ^= b as u64;
        h = h.wrapping_mul(0x100000001b3);
    }
    h
}

fn trade(id: u64, sym: u64, buyer: u64, seller: u64, price: i64, qty: u64) -> Trade {
    Trade {
        trade_id: id,
        symbol_hash: sym,
        buyer_id: buyer,
        seller_id: seller,
        price,
        quantity: qty,
        timestamp_ns: 0,
        status: SettlementStatus::Pending,
    }
}

fn ob(sym: u64, d: u64, r: u64, q: u64, p: i64) -> NetObligation {
    NetObligation {
        symbol_hash: sym,
        deliverer_id: d,
        receiver_id: r,
        net_quantity: q,
        net_payment: p,
        trade_count: 1,
    }
}

fn position(obs: &[NetObligation], sym: u64, account: u64) -> i128 {
    let mut p: i128 = 0;
    for o in obs {
        if o.symbol_hash != sym {
            continue;
        }
        if o.receiver_id == account {
            p += o.net_quantity as i128;
        }
        if o.deliverer_id == account {
            p -= o.net_quantity as i128;
        }
    }
    p
}

// ── hashing ─────────────────────────────────────────────────────────

#[test]
fn fnv1a_known_values() {
    assert_eq!(fnv1a(&[]), FNV_OFFSET_BASIS);
    assert_eq!(fnv1a(b"a"), 0xaf63dc4c8601ec8c);
    assert_eq!(fnv1a(b"foobar"), 0x85944171f73967e8);
}

#[test]
fn hash_pair_is_fnv_of_le_words() {
    let mut data = Vec::new();
    data.extend_from_slice(&7u64.to_le_bytes());
    data.extend_from_slice(&(-3i64 as u64).to_le_bytes());
    assert_eq!(hash_pair(7, -3i64 as u64), reference_fnv(&data));
}

// ── trade ───────────────────────────────────────────────────────────

#[test]
fn status_codes_decode() {
    assert_eq!(status_from_u8(0), SettlementStatus::Pending);
    assert_eq!(status_from_u8(1), SettlementStatus::Netted);
    assert_eq!(status_from_u8(2), SettlementStatus::Cleared);
    assert_eq!(status_from_u8(3), SettlementStatus::Settled);
    assert_eq!(status_from_u8(4), SettlementStatus::Failed);
    assert_eq!(status_from_u8(255), SettlementStatus::Failed);
}

// ── netting ─────────────────────────────────────────────────────────

#[test]
fn netting_is_independent_of_trade_order() {
    let trades = [
        trade(1, 0xA, 1, 2, 100, 10),
        trade(2, 0xA, 2, 1, 110, 4),
        trade(3, 0xB, 3, 1, 50, 7),
        trade(4, 0xA, 1, 2, 90, 1),
    ];
    let mut forward = NettingEngine::new();
    for t in &trades {
        forward.add_trade(t);
    }
    let mut backward = NettingEngine::new();
    for t in trades.iter().rev() {
        backward.add_trade(t);
    }
    let mut a = forward.compute_net();
    let mut b = backward.compute_net();
    a.sort_by_key(|o| (o.symbol_hash, o.deliverer_id, o.receiver_id));
    b.sort_by_key(|o| (o.symbol_hash, o.deliverer_id, o.receiver_id));
    assert_eq!(a, b);
    let ab = a.iter().find(|o| o.symbol_hash == 0xA).unwrap();
    assert_eq!(ab.receiver_id, 1);
    assert_eq!(ab.deliverer_id, 2);
    assert_eq!(ab.net_quantity, 7);
    assert_eq!(ab.net_payment, 1000 - 440 + 90);
    assert_eq!(ab.trade_count, 3);
}

#[test]
fn self_trade_nets_with_positive_direction() {
    let mut engine = NettingEngine::new();
    engine.add_trade(&trade(1, 0xC, 5, 5, 10, 3));
    let obs = engine.compute_net();
    assert_eq!(obs.len(), 1);
    assert_eq!(obs[0].deliverer_id, 5);
    assert_eq!(obs[0].receiver_id, 5);
    assert_eq!(obs[0].net_quantity, 3);
    assert_eq!(obs[0].net_payment, 30);
}

#[test]
fn netting_payment_saturates_to_i64() {
    let mut engine = NettingEngine::new();
    engine.add_trade(&trade(1, 0xD, 1, 2, i64::MAX, 4));
    let obs = engine.compute_net();
    assert_eq!(obs[0].net_quantity, 4);
    assert_eq!(obs[0].net_payment, i64::MAX);
}

#[test]
fn netting_order_independent_near_the_bounds() {
    // each payment is about 2^127: the running sum stays within i128 in both
    // orders below, though the magnitudes add up to far more
    let up1 = trade(1, 0xC, 1, 2, i64::MAX, u64::MAX);
    let down = trade(2, 0xC, 2, 1, i64::MAX, u64::MAX);
    let up2 = trade(3, 0xC, 1, 2, i64::MAX, u64::MAX);
    let mut first = NettingEngine::new();
    for t in [&up1, &down, &up2] {
        first.add_trade(t);
    }
    let mut second = NettingEngine::new();
    for t in [&down, &up1, &up2] {
        second.add_trade(t);
    }
    let a = first.compute_net();
    let b = second.compute_net();
    assert_eq!(a, b);
    assert_eq!(a[0].net_quantity, u64::MAX);
    assert_eq!(a[0].net_payment, i64::MAX);
    assert_eq!(a[0].trade_count, 3);
}

#[test]
fn compute_net_negates_with_saturation() {
    // the payment sum falls to i128::MIN and the net seller is the lower id:
    // negating it saturates instead of overflowing
    let mut engine = NettingEngine::new();
    let sell = trade(1, 0xD, 2, 1, i64::MAX, u64::MAX);
    engine.add_trade(&sell);
    engine.add_trade(&sell);
    let obs = engine.compute_net();
    assert_eq!(obs.len(), 1);
    assert_eq!(obs[0].deliverer_id, 1);
    assert_eq!(obs[0].receiver_id, 2);
    assert_eq!(obs[0].net_payment, i64::MAX);
    assert_eq!(obs[0].net_quantity, (2u128 * u64::MAX as u128) as u64);
}

#[test]
fn netting_accumulators_saturate() {
    let mut engine = NettingEngine::new();
    let big = trade(1, 0xE, 1, 2, i64::MAX, u64::MAX);
    // (2^63 - 1) * (2^64 - 1) per trade: the second one passes i128::MAX
    engine.add_trade(&big);
    engine.add_trade(&big);
    engine.add_trade(&big);
    let obs = engine.compute_net();
    assert_eq!(obs.len(), 1);
    assert_eq!(obs[0].trade_count, 3);
    assert_eq!(obs[0].net_payment, i64::MAX);
    // quantity 3 * (2^64 - 1) truncated to 64 bits
    assert_eq!(obs[0].net_quantity, (3u128 * u64::MAX as u128) as u64);
    // one trade back: the payment sum is now clamped, not exact
    let opposite = trade(2, 0xE, 2, 1, i64::MAX, u64::MAX);
    engine.add_trade(&opposite);
    let obs = engine.compute_net();
    assert_eq!(obs[0].trade_count, 4);
    assert_eq!(obs[0].net_quantity, (2u128 * u64::MAX as u128) as u64);
}

#[test]
fn find_cycle_finds_self_loop_and_triangle() {
    let self_loop = vec![ob(1, 4, 4, 3, 30)];
    assert_eq!(find_cycle(&self_loop), Some(vec![0]));

    let triangle = vec![ob(1, 1, 2, 5, 50), ob(1, 2, 3, 6, 60), ob(1, 3, 1, 7, 70)];
    let c = find_cycle(&triangle).unwrap();
    assert_eq!(c.len(), 3);
    let chain = vec![ob(1, 1, 2, 5, 50), ob(1, 2, 3, 6, 60)];
    assert_eq!(find_cycle(&chain), None);
    let dead = vec![ob(1, 1, 2, 0, 0), ob(1, 2, 1, 4, 40)];
    assert_eq!(find_cycle(&dead), None);
}

#[test]
fn cancel_cycle_reduces_proportionally() {
    let mut obs = vec![ob(1, 1, 2, 10, 1_000), ob(1, 2, 1, 4, -401)];
    cancel_cycle(&mut obs, &vec![0, 1]);
    assert_eq!(obs[0].net_quantity, 6);
    assert_eq!(obs[0].net_payment, 1_000 - 400);
    assert_eq!(obs[1].net_quantity, 0);
    // -401 * 4 / 4 = -401 (toward zero)
    assert_eq!(obs[1].net_payment, 0);
}

#[test]
fn cancel_cycle_accepts_any_distinct_indices() {
    let before = vec![ob(1, 1, 2, 10, 1_000), ob(1, 3, 4, 0, 50), ob(1, 5, 6, 4, 40)];
    // a zero quantity among the listed edges: nothing changes
    let mut obs = before.clone();
    cancel_cycle(&mut obs, &vec![0, 1]);
    assert_eq!(obs, before);
    // an empty list: nothing changes
    let mut obs = before.clone();
    cancel_cycle(&mut obs, &vec![]);
    assert_eq!(obs, before);
    // edges that form no cycle are still reduced by their minimum
    let mut obs = before.clone();
    cancel_cycle(&mut obs, &vec![2, 0]);
    assert_eq!(obs[0].net_quantity, 6);
    assert_eq!(obs[0].net_payment, 600);
    assert_eq!(obs[2].net_quantity, 0);
    assert_eq!(obs[2].net_payment, 0);
    assert_eq!(obs[1], before[1]);
}

#[test]
fn cancel_cycle_rounds_toward_zero() {
    let mut obs = vec![ob(1, 1, 2, 3, -10), ob(1, 2, 1, 1, 7)];
    cancel_cycle(&mut obs, &vec![0, 1]);
    // -10 * 1 / 3 = -3 (toward zero), -10 - (-3) = -7
    assert_eq!(obs[0].net_payment, -7);
    assert_eq!(obs[0].net_quantity, 2);
}

#[test]
fn settle_group_leaves_no_cycle() {
    let group = vec![
        ob(1, 1, 2, 10, 0),
        ob(1, 2, 3, 8, 0),
        ob(1, 3, 1, 6, 0),
        ob(1, 3, 4, 2, 0),
        ob(1, 4, 2, 5, 0),
    ];
    let out = settle_group(group.clone());
    assert!(out.iter().all(|o| o.net_quantity > 0));
    assert_eq!(find_cycle(&out), None);
    for a in 1..=4 {
        assert_eq!(position(&out, 1, a), position(&group, 1, a));
    }
}

#[test]
fn multilateral_keeps_positions_and_lowers_gross() {
    let input = vec![
        ob(1, 1, 2, 100, 10_000),
        ob(1, 2, 3, 80, 8_000),
        ob(1, 3, 1, 60, 6_000),
        ob(2, 1, 2, 9, 900),
        ob(2, 2, 1, 4, 400),
        ob(1, 3, 4, 5, 500),
    ];
    let out = multilateral_net(input.clone());
    for sym in [1u64, 2, 3] {
        for a in 1..=4 {
            assert_eq!(position(&out, sym, a), position(&input, sym, a));
        }
        let before: u64 = input.iter().filter(|o| o.symbol_hash == sym).map(|o| o.net_quantity).sum();
        let after: u64 = out.iter().filter(|o| o.symbol_hash == sym).map(|o| o.net_quantity).sum();
        assert!(after <= before);
    }
    assert!(out.iter().all(|o| o.net_quantity > 0));
    // symbols come out in order of first appearance
    let first_two = out.iter().position(|o| o.symbol_hash == 2).unwrap();
    assert!(out[..first_two].iter().all(|o| o.symbol_hash == 1));
}

#[test]
fn multilateral_leaves_no_cycle_and_lowers_total_gross() {
    let input = vec![
        ob(1, 1, 2, 10, 1_000),
        ob(2, 5, 6, 3, 30),
        ob(1, 2, 3, 8, 800),
        ob(2, 6, 5, 7, 70),
        ob(1, 3, 1, 6, 600),
        ob(1, 3, 4, 2, 200),
        ob(1, 4, 2, 5, 500),
    ];
    let out = multilateral_net(input.clone());
    for sym in [1u64, 2] {
        let group: Vec<NetObligation> = out.iter().copied().filter(|o| o.symbol_hash == sym).collect();
        assert_eq!(find_cycle(&group), None);
    }
    let before: u64 = input.iter().map(|o| o.net_quantity).sum();
    let after: u64 = out.iter().map(|o| o.net_quantity).sum();
    assert!(after < before);
    // a second pass finds nothing left to cancel
    assert_eq!(multilateral_net(out.clone()), out);
    // every result is what is left of an input obligation
    for o in &out {
        assert!(input.iter().any(|i| i.symbol_hash == o.symbol_hash
            && i.deliverer_id == o.deliverer_id
            && i.receiver_id == o.receiver_id
            && i.trade_count == o.trade_count
            && o.net_quantity <= i.net_quantity));
    }
}

#[test]
fn multilateral_acyclic_input_is_unchanged() {
    let input = vec![ob(7, 1, 2, 10, 100), ob(7, 2, 3, 5, 50), ob(7, 1, 3, 0, 0)];
    let out = multilateral_net(input.clone());
    assert_eq!(out, vec![input[0], input[1]]);
}

// ── clearing ────────────────────────────────────────────────────────

#[test]
fn clearing_conserves_total_balance() {
    let mut ch = ClearingHouse::new();
    ch.register_account(1, 10_000);
    ch.register_account(2, 3_000);
    ch.register_account(3, 0);
    let before: i64 = [1, 2, 3].iter().map(|&i| ch.get_account(i).unwrap().balance).sum();
    let obs = [ob(1, 1, 2, 1, 4_000), ob(1, 2, 3, 1, 6_500), ob(1, 3, 1, 1, 100), ob(1, 1, 3, 1, -50)];
    let results = ch.clear_all(&obs);
    assert!(results[0].success);
    assert!(results[1].success);
    assert!(results[2].success);
    assert!(results[3].success);
    let after: i64 = [1, 2, 3].iter().map(|&i| ch.get_account(i).unwrap().balance).sum();
    assert_eq!(before, after);
    assert_eq!(ch.get_account(1).unwrap().balance, 10_000 - 4_000 + 100 + 50);
}

#[test]
fn clearing_refusals_and_self_transfer() {
    let mut ch = ClearingHouse::new();
    ch.register_account(1, 100);
    let self_transfer = ob(1, 1, 1, 1, 60);
    assert_eq!(ch.clear_obligation(&self_transfer), Ok(()));
    assert_eq!(ch.get_account(1).unwrap().balance, 100);
    let missing = ob(1, 9, 8, 1, 1);
    assert_eq!(ch.clear_obligation(&missing), Err(ClearingError::AccountNotFound(9)));
    let too_much = ob(1, 1, 1, 1, 101);
    assert_eq!(
        ch.clear_obligation(&too_much),
        Err(ClearingError::InsufficientBalance { account_id: 1, required: 101, available: 100 })
    );
    assert_eq!(ch.get_account(1).unwrap().balance, 100);
}

#[test]
fn can_clear_detects_overflow() {
    let mut ch = ClearingHouse::new();
    ch.register_account(1, 5);
    ch.register_account(2, i64::MAX);
    // crediting the receiver would pass i64::MAX
    assert!(!ch.can_clear(&ob(1, 1, 2, 1, 1)));
    // debiting the deliverer by i64::MIN would pass i64::MAX
    assert!(!ch.can_clear(&ob(1, 1, 2, 1, i64::MIN)));
    assert!(ch.can_clear(&ob(1, 2, 1, 1, 5)));
    assert!(ch.can_clear(&ob(1, 3, 1, 1, 5)));
}

// ── waterfall ───────────────────────────────────────────────────────

#[test]
fn waterfall_absorbed_plus_shortfall_is_loss() {
    let wf = DefaultWaterfall::new(WaterfallConfig {
        defaulter_margin: 100,
        defaulter_fund: 50,
        ccp_first_loss: 30,
        members_fund: 200,
        ccp_capital: 500,
    });
    for loss in [0i64, 1, 99, 100, 150, 179, 180, 379, 380, 879, 880, 881, 10_000] {
        let r = wf.absorb_loss(loss);
        assert_eq!(r.total_absorbed + r.shortfall, loss);
        assert_eq!(r.fully_covered, loss <= wf.total_capacity());
        assert_eq!(r.shortfall, (loss - 880).max(0));
        for k in 0..4 {
            if r.layers[k + 1].absorbed > 0 {
                assert_eq!(r.layers[k].absorbed, r.layers[k].capacity);
            }
        }
    }
}

#[test]
fn waterfall_content_hash_formula() {
    let wf = DefaultWaterfall::new(WaterfallConfig::default());
    let r = wf.absorb_loss(5_000);
    let mut data = Vec::new();
    data.extend_from_slice(&5_000i64.to_le_bytes());
    data.extend_from_slice(&5_000i64.to_le_bytes());
    assert_eq!(r.content_hash, reference_fnv(&data));
    let z = wf.absorb_loss(-7);
    let mut zd = Vec::new();
    zd.extend_from_slice(&(-7i64).to_le_bytes());
    zd.extend_from_slice(&0i64.to_le_bytes());
    assert_eq!(z.content_hash, reference_fnv(&zd));
    assert_eq!(z.layers[0].capacity, 10_000);
    assert_eq!(z.layers[0].remaining_after, 0);
}

#[test]
fn waterfall_total_capacity_saturates() {
    let wf = DefaultWaterfall::new(WaterfallConfig {
        defaulter_margin: i64::MAX,
        defaulter_fund: 1,
        ccp_first_loss: 0,
        members_fund: 0,
        ccp_capital: -5,
    });
    assert_eq!(wf.total_capacity(), i64::MAX - 5);
}

#[test]
fn can_absorb_detects_overflow() {
    let wf = DefaultWaterfall::new(WaterfallConfig {
        defaulter_margin: i64::MIN,
        defaulter_fund: 0,
        ccp_first_loss: 0,
        members_fund: 0,
        ccp_capital: 0,
    });
    assert!(!wf.can_absorb(10));
    assert!(wf.can_absorb(0));
    assert!(DefaultWaterfall::new(WaterfallConfig::default()).can_absorb(i64::MAX));
}

// ── journal and replay ──────────────────────────────────────────────

#[test]
fn replay_counts_and_length_discrepancy() {
    let mut j1 = SettlementJournal::new();
    let mut j2 = SettlementJournal::new();
    for i in 0..4u64 {
        j1.record(i, JournalEvent::TradeReceived { trade_id: i });
    }
    for i in 0..2u64 {
        j2.record(i, JournalEvent::TradeReceived { trade_id: i * 10 });
    }
    let l1 = ReplayVerifier::build_replay_log(&j1);
    let l2 = ReplayVerifier::build_replay_log(&j2);
    let r = ReplayVerifier::verify(&l1, &l2);
    // common length 2: step 1 matches (id 0), step 2 differs
    assert_eq!(r.steps_verified, 1);
    assert_eq!(r.discrepancies.len(), 2);
    assert_eq!(r.discrepancies[0].sequence, 2);
    assert_eq!(r.discrepancies[1].sequence, 3);
    assert_eq!(r.discrepancies[1].expected_hash, 4);
    assert_eq!(r.discrepancies[1].actual_hash, 2);
    let mut data = Vec::new();
    data.extend_from_slice(&1u64.to_le_bytes());
    data.extend_from_slice(&2u64.to_le_bytes());
    assert_eq!(r.content_hash, reference_fnv(&data));
}

#[test]
fn replay_step_hash_formula() {
    let mut j = SettlementJournal::new();
    j.record(
        77,
        JournalEvent::ClearingAttempted { obligation_count: 5, success_count: 4, fail_count: 1 },
    );
    j.record(78, JournalEvent::SettlementFailed { trade_id: 9, reason: "no".to_string() });
    let log = ReplayVerifier::build_replay_log(&j);
    let payload0: u64 = (5u64 << 32) | (4u64 << 16) | 1;
    let mut d0 = Vec::new();
    d0.extend_from_slice(&1u64.to_le_bytes());
    d0.extend_from_slice(&77u64.to_le_bytes());
    d0.push(2);
    d0.extend_from_slice(&payload0.to_le_bytes());
    assert_eq!(log[0].content_hash, reference_fnv(&d0));
    let payload1: u64 = 9 ^ reference_fnv(b"no");
    let mut d1 = Vec::new();
    d1.extend_from_slice(&2u64.to_le_bytes());
    d1.extend_from_slice(&78u64.to_le_bytes());
    d1.push(4);
    d1.extend_from_slice(&payload1.to_le_bytes());
    assert_eq!(log[1].content_hash, reference_fnv(&d1));
    let mut chain = Vec::new();
    chain.extend_from_slice(&FNV_OFFSET_BASIS.to_le_bytes());
    chain.extend_from_slice(&log[0].content_hash.to_le_bytes());
    let h1 = reference_fnv(&chain);
    let mut chain2 = Vec::new();
    chain2.extend_from_slice(&h1.to_le_bytes());
    chain2.extend_from_slice(&log[1].content_hash.to_le_bytes());
    assert_eq!(ReplayVerifier::compute_journal_hash(&j), reference_fnv(&chain2));
}

#[test]
fn journal_is_append_only() {
    let mut j = SettlementJournal::default();
    j.record(5, JournalEvent::SettlementCompleted { trade_count: 3 });
    let first = j.entries()[0].clone();
    j.record(6, JournalEvent::NettingCompleted { obligation_count: 1 });
    assert_eq!(j.entries()[0].sequence, first.sequence);
    assert_eq!(j.entries()[0].timestamp_ns, first.timestamp_ns);
    assert_eq!(j.last_entry().unwrap().sequence, 2);
    assert!(!j.is_empty());
}

#[test]
fn journal_is_hash_chained() {
    let mut j = SettlementJournal::new();
    j.record(5, JournalEvent::TradeReceived { trade_id: 9 });
    j.record(6, JournalEvent::NettingCompleted { obligation_count: 1 });
    j.record(7, JournalEvent::SettlementFailed { trade_id: 9, reason: "late".to_string() });
    let log = ReplayVerifier::build_replay_log(&j);
    let e = j.entries();
    assert_eq!(e[0].prev_hash, FNV_OFFSET_BASIS);
    for i in 1..e.len() {
        assert_eq!(e[i].prev_hash, hash_pair(e[i - 1].prev_hash, log[i - 1].content_hash));
    }
    assert_eq!(
        ReplayVerifier::compute_journal_hash(&j),
        hash_pair(e[2].prev_hash, log[2].content_hash)
    );
}

// ── collateral ──────────────────────────────────────────────────────

#[test]
fn withdraw_undoes_deposit() {
    let mut acc = CollateralAccount::new(3, HaircutConfig::default());
    acc.deposit(CollateralType::CorporateBond, 1_234);
    let before = acc.content_hash();
    acc.deposit(CollateralType::CorporateBond, 766);
    assert!(acc.withdraw(CollateralType::CorporateBond, 766));
    assert_eq!(acc.content_hash(), before);
    assert_eq!(acc.face_value(CollateralType::CorporateBond), 1_234);
}

#[test]
fn haircut_stays_within_value_and_rounds_toward_zero() {
    let cfg = HaircutConfig::default();
    for v in [0i64, 1, 33, 9_999, 1_000_001] {
        let a = cfg.apply_haircut(CollateralType::Equity, v);
        assert!(0 <= a && a <= v);
    }
    assert_eq!(cfg.apply_haircut(CollateralType::GovernmentBond, 33), 32); // 33 * 9700 / 10000 = 32.01
    assert_eq!(cfg.apply_haircut(CollateralType::GovernmentBond, -33), -32);
}

#[test]
fn collateral_content_hash_formula() {
    let mut acc = CollateralAccount::new(42, HaircutConfig::default());
    acc.deposit(CollateralType::Equity, 500);
    let mut data = Vec::new();
    data.extend_from_slice(&42u64.to_le_bytes());
    for v in [0i64, 0, 0, 500] {
        data.extend_from_slice(&v.to_le_bytes());
    }
    assert_eq!(acc.content_hash(), reference_fnv(&data));
    let h = acc.holdings();
    assert_eq!(h.len(), 1);
    assert_eq!(h[0].collateral_type, CollateralType::Equity);
    assert_eq!(h[0].face_value, 500);
}

// ── margin ──────────────────────────────────────────────────────────

#[test]
fn margin_integer_parts() {
    assert_eq!(obligation_notional(-3_000), 3_000);
    assert_eq!(obligation_notional(i64::MIN), i64::MIN);
    let obs = [ob(1, 100, 200, 5, 4_000), ob(1, 300, 100, 3, 3_000), ob(1, 7, 8, 1, 99)];
    assert_eq!(portfolio_exposure(100, &obs), (7_000, -1_000));
    assert_eq!(portfolio_exposure(9, &obs), (0, 0));
    assert_eq!(worst_shock_loss(10_000, &[7_000, 9_500, 10_500, 13_000]), 3_000);
    assert_eq!(worst_shock_loss(10_000, &[]), 0);
    assert_eq!(combine_margin(250, 5_000, 750, 100), 5_250);
    assert_eq!(combine_margin(0, 0, 0, 500), 500);
    assert_eq!(combine_margin(i64::MAX, 1, 0, 0), i64::MAX);
    let mut data = Vec::new();
    data.extend_from_slice(&100u64.to_le_bytes());
    data.extend_from_slice(&5_250i64.to_le_bytes());
    assert_eq!(hash_requirement(100, 5_250), reference_fnv(&data));
}

// ── audit event layout ──────────────────────────────────────────────

#[test]
fn canonical_event_layout() {
    let bytes = canonical_event_bytes(7, SettlementEventKind::Netting, "T-1", "CP", -2, 99);
    let mut expected = Vec::new();
    expected.extend_from_slice(&7u64.to_le_bytes());
    expected.push(3);
    expected.extend_from_slice(&3u64.to_le_bytes());
    expected.extend_from_slice(b"T-1");
    expected.extend_from_slice(&2u64.to_le_bytes());
    expected.extend_from_slice(b"CP");
    expected.extend_from_slice(&(-2i128).to_le_bytes());
    expected.extend_from_slice(&99u64.to_le_bytes());
    assert_eq!(bytes, expected);
}

#[test]
fn canonical_bytes_change_with_every_field() {
    let base = canonical_event_bytes(1, SettlementEventKind::TradeBooked, "T-1", "CP-A", 1_000_000, 10);
    let variants = [
        canonical_event_bytes(2, SettlementEventKind::TradeBooked, "T-1", "CP-A", 1_000_000, 10),
        canonical_event_bytes(1, SettlementEventKind::Settlement, "T-1", "CP-A", 1_000_000, 10),
        canonical_event_bytes(1, SettlementEventKind::TradeBooked, "T-2", "CP-A", 1_000_000, 10),
        canonical_event_bytes(1, SettlementEventKind::TradeBooked, "T-1", "CP-B", 1_000_000, 10),
        canonical_event_bytes(1, SettlementEventKind::TradeBooked, "T-1", "CP-A", 2_000_000, 10),
        canonical_event_bytes(1, SettlementEventKind::TradeBooked, "T-1", "CP-A", 1_000_000, 11),
        // moving a character across the two ids is caught by the length prefixes
        canonical_event_bytes(1, SettlementEventKind::TradeBooked, "T-1C", "P-A", 1_000_000, 10),
    ];
    for v in &variants {
        assert_ne!(&base, v);
    }
}
