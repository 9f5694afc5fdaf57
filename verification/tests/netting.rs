use alice_settlement::netting::{
    canonical_pair, multilateral_net, saturating_i128_to_i64, NetObligation, NettingEngine,
};
use alice_settlement::trade::{SettlementStatus, Trade};

fn make_trade(
    trade_id: u64,
    symbol_hash: u64,
    buyer_id: u64,
    seller_id: u64,
    price: i64,
    quantity: u64,
) -> Trade {
    Trade {
        trade_id,
        symbol_hash,
        buyer_id,
        seller_id,
        price,
        quantity,
        timestamp_ns: 0,
        status: SettlementStatus::Pending,
    }
}

#[test]
fn test_empty_netting() {
    let engine = NettingEngine::new();
    let obligations = engine.compute_net();
    assert!(obligations.is_empty());
}

#[test]
fn test_single_trade_netting() {
    let mut engine = NettingEngine::new();
    let trade = make_trade(1, 0xABCD, 100, 200, 500, 10);
    engine.add_trade(&trade);

    let obligations = engine.compute_net();
    assert_eq!(obligations.len(), 1);

    let ob = &obligations[0];
    assert_eq!(ob.symbol_hash, 0xABCD);
    // Buyer 100 receives, Seller 200 delivers
    assert_eq!(ob.receiver_id, 100);
    assert_eq!(ob.deliverer_id, 200);
    assert_eq!(ob.net_quantity, 10);
    assert_eq!(ob.net_payment, 5_000); // 500 * 10
    assert_eq!(ob.trade_count, 1);
}

#[test]
fn test_bilateral_netting() {
    // A (100) buys 100 from B (200), then B (200) buys 30 from A (100).
    // Net: A buys 70 from B.
    let mut engine = NettingEngine::new();

    let t1 = make_trade(1, 0xABCD, 100, 200, 100, 100); // A buys 100 @ 100
    let t2 = make_trade(2, 0xABCD, 200, 100, 120, 30); // B buys 30 @ 120

    engine.add_trade(&t1);
    engine.add_trade(&t2);

    let obligations = engine.compute_net();
    assert_eq!(obligations.len(), 1);

    let ob = &obligations[0];
    assert_eq!(ob.symbol_hash, 0xABCD);
    // Net: A (100) is net buyer of 70, B (200) is net deliverer
    assert_eq!(ob.receiver_id, 100);
    assert_eq!(ob.deliverer_id, 200);
    assert_eq!(ob.net_quantity, 70);
    // net_payment = 100*100 - 120*30 = 10000 - 3600 = 6400
    assert_eq!(ob.net_payment, 6_400);
    assert_eq!(ob.trade_count, 2);
}

#[test]
fn test_multi_symbol_netting() {
    // Same counterparties, different symbols produce separate obligations.
    let mut engine = NettingEngine::new();

    let t1 = make_trade(1, 0x0001, 100, 200, 100, 5);
    let t2 = make_trade(2, 0x0002, 100, 200, 200, 3);

    engine.add_trade(&t1);
    engine.add_trade(&t2);

    let obligations = engine.compute_net();
    assert_eq!(obligations.len(), 2);

    // Both obligations: A (100) buys from B (200)
    for ob in &obligations {
        assert_eq!(ob.receiver_id, 100);
        assert_eq!(ob.deliverer_id, 200);
    }

    let sym1 = obligations
        .iter()
        .find(|o| o.symbol_hash == 0x0001)
        .unwrap();
    assert_eq!(sym1.net_quantity, 5);
    assert_eq!(sym1.net_payment, 500);

    let sym2 = obligations
        .iter()
        .find(|o| o.symbol_hash == 0x0002)
        .unwrap();
    assert_eq!(sym2.net_quantity, 3);
    assert_eq!(sym2.net_payment, 600);
}

#[test]
fn test_three_party_netting() {
    // A(100)↔B(200), B(200)↔C(300), A(100)↔C(300) — 3 separate obligations.
    let mut engine = NettingEngine::new();

    let t1 = make_trade(1, 0xFFFF, 100, 200, 50, 10); // A buys 10 from B
    let t2 = make_trade(2, 0xFFFF, 200, 300, 60, 20); // B buys 20 from C
    let t3 = make_trade(3, 0xFFFF, 100, 300, 55, 15); // A buys 15 from C

    engine.add_trade(&t1);
    engine.add_trade(&t2);
    engine.add_trade(&t3);

    let obligations = engine.compute_net();
    assert_eq!(obligations.len(), 3);

    // A↔B: A buys 10 from B
    let ab = obligations
        .iter()
        .find(|o| {
            (o.receiver_id == 100 && o.deliverer_id == 200)
                || (o.receiver_id == 200 && o.deliverer_id == 100)
        })
        .unwrap();
    assert_eq!(ab.receiver_id, 100);
    assert_eq!(ab.deliverer_id, 200);
    assert_eq!(ab.net_quantity, 10);

    // B↔C: B buys 20 from C
    let bc = obligations
        .iter()
        .find(|o| {
            (o.receiver_id == 200 && o.deliverer_id == 300)
                || (o.receiver_id == 300 && o.deliverer_id == 200)
        })
        .unwrap();
    assert_eq!(bc.receiver_id, 200);
    assert_eq!(bc.deliverer_id, 300);
    assert_eq!(bc.net_quantity, 20);

    // A↔C: A buys 15 from C
    let ac = obligations
        .iter()
        .find(|o| {
            (o.receiver_id == 100 && o.deliverer_id == 300)
                || (o.receiver_id == 300 && o.deliverer_id == 100)
        })
        .unwrap();
    assert_eq!(ac.receiver_id, 100);
    assert_eq!(ac.deliverer_id, 300);
    assert_eq!(ac.net_quantity, 15);
}

// ── Multilateral Netting Tests ────────────────────────────────────

#[test]
fn test_multilateral_no_cycle() {
    // A→B, B→C — no cycle, obligations unchanged
    let obs = vec![
        NetObligation {
            symbol_hash: 0x1,
            deliverer_id: 100,
            receiver_id: 200,
            net_quantity: 10,
            net_payment: 1_000,
            trade_count: 1,
        },
        NetObligation {
            symbol_hash: 0x1,
            deliverer_id: 200,
            receiver_id: 300,
            net_quantity: 5,
            net_payment: 500,
            trade_count: 1,
        },
    ];
    let result = multilateral_net(obs.clone());
    assert_eq!(result.len(), 2);
    // Quantities unchanged (no cycle to cancel)
    let total_qty: u64 = result.iter().map(|o| o.net_quantity).sum();
    assert_eq!(total_qty, 15);
}

#[test]
fn test_multilateral_triangle_cycle() {
    // A→B: 10, B→C: 10, C→A: 10 — perfect triangle cancels entirely
    let obs = vec![
        NetObligation {
            symbol_hash: 0x1,
            deliverer_id: 100,
            receiver_id: 200,
            net_quantity: 10,
            net_payment: 1_000,
            trade_count: 1,
        },
        NetObligation {
            symbol_hash: 0x1,
            deliverer_id: 200,
            receiver_id: 300,
            net_quantity: 10,
            net_payment: 1_200,
            trade_count: 1,
        },
        NetObligation {
            symbol_hash: 0x1,
            deliverer_id: 300,
            receiver_id: 100,
            net_quantity: 10,
            net_payment: 900,
            trade_count: 1,
        },
    ];
    let result = multilateral_net(obs);
    // All edges cancelled: empty result
    assert!(
        result.is_empty(),
        "perfect triangle should cancel: {:?}",
        result
    );
}

#[test]
fn test_multilateral_partial_cancellation() {
    // A→B: 10, B→C: 8, C→A: 6 — cycle min=6, reduce by 6
    let obs = vec![
        NetObligation {
            symbol_hash: 0x1,
            deliverer_id: 100,
            receiver_id: 200,
            net_quantity: 10,
            net_payment: 1_000,
            trade_count: 2,
        },
        NetObligation {
            symbol_hash: 0x1,
            deliverer_id: 200,
            receiver_id: 300,
            net_quantity: 8,
            net_payment: 800,
            trade_count: 1,
        },
        NetObligation {
            symbol_hash: 0x1,
            deliverer_id: 300,
            receiver_id: 100,
            net_quantity: 6,
            net_payment: 600,
            trade_count: 1,
        },
    ];

    let result = multilateral_net(obs);
    // C→A: 6 fully cancelled, remaining: A→B: 4, B→C: 2
    let total_qty: u64 = result.iter().map(|o| o.net_quantity).sum();
    assert_eq!(total_qty, 6, "should reduce from 24 to 6");
    assert_eq!(result.len(), 2, "C→A should be fully cancelled");
}

#[test]
fn test_multilateral_preserves_bilateral() {
    // Same test as bilateral: no cycle → identical result
    let mut engine = NettingEngine::new();
    let t1 = make_trade(1, 0xABCD, 100, 200, 100, 50);
    let t2 = make_trade(2, 0xABCD, 200, 100, 120, 20);
    engine.add_trade(&t1);
    engine.add_trade(&t2);

    let bilateral = engine.compute_net();
    let multilateral = engine.compute_multilateral();

    // A↔B only, no cycle → same result
    assert_eq!(bilateral.len(), multilateral.len());
    assert_eq!(bilateral[0].net_quantity, multilateral[0].net_quantity);
}

#[test]
fn test_multilateral_multi_symbol_independent() {
    // Cycle in symbol 0x1 (A→B→C→A), no cycle in symbol 0x2 (A→B)
    let obs = vec![
        // Symbol 0x1 cycle
        NetObligation {
            symbol_hash: 0x1,
            deliverer_id: 100,
            receiver_id: 200,
            net_quantity: 5,
            net_payment: 500,
            trade_count: 1,
        },
        NetObligation {
            symbol_hash: 0x1,
            deliverer_id: 200,
            receiver_id: 300,
            net_quantity: 5,
            net_payment: 500,
            trade_count: 1,
        },
        NetObligation {
            symbol_hash: 0x1,
            deliverer_id: 300,
            receiver_id: 100,
            net_quantity: 5,
            net_payment: 500,
            trade_count: 1,
        },
        // Symbol 0x2 — no cycle
        NetObligation {
            symbol_hash: 0x2,
            deliverer_id: 100,
            receiver_id: 200,
            net_quantity: 20,
            net_payment: 2_000,
            trade_count: 1,
        },
    ];
    let result = multilateral_net(obs);

    // Symbol 0x1: fully cancelled (triangle)
    let sym1: Vec<&NetObligation> = result.iter().filter(|o| o.symbol_hash == 0x1).collect();
    assert!(sym1.is_empty());

    // Symbol 0x2: unchanged
    let sym2: Vec<&NetObligation> = result.iter().filter(|o| o.symbol_hash == 0x2).collect();
    assert_eq!(sym2.len(), 1);
    assert_eq!(sym2[0].net_quantity, 20);
}

#[test]
fn test_multilateral_empty_input() {
    let result = multilateral_net(vec![]);
    assert!(result.is_empty());
}

#[test]
fn test_multilateral_gross_exposure_reduction() {
    // A→B: 100, B→C: 80, C→A: 60
    // Gross before: 100+80+60 = 240
    // After cycle cancel (min=60): A→B: 40, B→C: 20 → gross = 60
    let obs = vec![
        NetObligation {
            symbol_hash: 0x1,
            deliverer_id: 1,
            receiver_id: 2,
            net_quantity: 100,
            net_payment: 10_000,
            trade_count: 3,
        },
        NetObligation {
            symbol_hash: 0x1,
            deliverer_id: 2,
            receiver_id: 3,
            net_quantity: 80,
            net_payment: 8_000,
            trade_count: 2,
        },
        NetObligation {
            symbol_hash: 0x1,
            deliverer_id: 3,
            receiver_id: 1,
            net_quantity: 60,
            net_payment: 6_000,
            trade_count: 1,
        },
    ];
    let gross_before: u64 = obs.iter().map(|o| o.net_quantity).sum();
    assert_eq!(gross_before, 240);

    let result = multilateral_net(obs);
    let gross_after: u64 = result.iter().map(|o| o.net_quantity).sum();
    assert_eq!(gross_after, 60);
}

#[test]
fn test_netting_engine_clear_resets_state() {
    let mut engine = NettingEngine::new();
    let t = make_trade(1, 0xABCD, 100, 200, 100, 10);
    engine.add_trade(&t);
    assert!(!engine.compute_net().is_empty());

    engine.clear();
    assert!(engine.compute_net().is_empty());
}

#[test]
fn test_netting_engine_default_is_empty() {
    let engine = NettingEngine::default();
    assert!(engine.compute_net().is_empty());
}

#[test]
fn test_perfectly_offsetting_trades_produce_no_obligation() {
    // Same counterparties, same symbol, same quantity in opposite directions.
    let mut engine = NettingEngine::new();
    let t1 = make_trade(1, 0xABCD, 100, 200, 100, 50); // A buys 50
    let t2 = make_trade(2, 0xABCD, 200, 100, 100, 50); // B buys 50 (= A sells 50)
    engine.add_trade(&t1);
    engine.add_trade(&t2);
    let obs = engine.compute_net();
    assert!(obs.is_empty(), "perfect offset should cancel: {:?}", obs);
}

#[test]
fn test_canonical_pair_ordering() {
    // canonical_pair(a, b) == canonical_pair(b, a)
    let (lo1, hi1) = canonical_pair(300, 100);
    let (lo2, hi2) = canonical_pair(100, 300);
    assert_eq!(lo1, lo2);
    assert_eq!(hi1, hi2);
    assert!(lo1 <= hi1);
}

#[test]
fn test_canonical_pair_equal_ids() {
    let (lo, hi) = canonical_pair(42, 42);
    assert_eq!(lo, hi);
    assert_eq!(lo, 42);
}

#[test]
fn test_saturating_i128_to_i64_clamps() {
    let too_big: i128 = (i64::MAX as i128) + 1;
    let too_small: i128 = (i64::MIN as i128) - 1;
    assert_eq!(saturating_i128_to_i64(too_big), i64::MAX);
    assert_eq!(saturating_i128_to_i64(too_small), i64::MIN);
    assert_eq!(saturating_i128_to_i64(42), 42i64);
}

#[test]
fn test_multilateral_single_obligation_no_cycle() {
    let obs = vec![NetObligation {
        symbol_hash: 0x1,
        deliverer_id: 1,
        receiver_id: 2,
        net_quantity: 10,
        net_payment: 1_000,
        trade_count: 1,
    }];
    let result = multilateral_net(obs);
    assert_eq!(result.len(), 1);
    assert_eq!(result[0].net_quantity, 10);
}

#[test]
fn test_net_obligation_equality() {
    let ob1 = NetObligation {
        symbol_hash: 0xAB,
        deliverer_id: 1,
        receiver_id: 2,
        net_quantity: 5,
        net_payment: 500,
        trade_count: 1,
    };
    let ob2 = ob1.clone();
    assert_eq!(ob1, ob2);
}

#[test]
fn test_netting_accumulates_trade_count() {
    let mut engine = NettingEngine::new();
    let t1 = make_trade(1, 0xABCD, 100, 200, 100, 10);
    let t2 = make_trade(2, 0xABCD, 100, 200, 110, 5);
    let t3 = make_trade(3, 0xABCD, 100, 200, 90, 3);
    engine.add_trade(&t1);
    engine.add_trade(&t2);
    engine.add_trade(&t3);
    let obs = engine.compute_net();
    assert_eq!(obs.len(), 1);
    assert_eq!(obs[0].trade_count, 3);
    // All three trades: A (100) buys from B (200)
    assert_eq!(obs[0].net_quantity, 18); // 10 + 5 + 3
}
