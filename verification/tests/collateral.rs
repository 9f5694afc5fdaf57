use alice_settlement::collateral::{
    check_concentration, CollateralAccount, CollateralType, ConcentrationBreach,
    ConcentrationLimits, HaircutConfig,
};

#[test]
fn haircut_default_values() {
    let cfg = HaircutConfig::default();
    assert_eq!(cfg.cash_bps, 0);
    assert_eq!(cfg.gov_bond_bps, 300);
    assert_eq!(cfg.corp_bond_bps, 1000);
    assert_eq!(cfg.equity_bps, 2500);
}

#[test]
fn haircut_apply_cash() {
    let cfg = HaircutConfig::default();
    // Cash: 0% haircut → 10000 → 10000
    assert_eq!(cfg.apply_haircut(CollateralType::Cash, 10_000), 10_000);
}

#[test]
fn haircut_apply_gov_bond() {
    let cfg = HaircutConfig::default();
    // GovBond: 3% haircut → 10000 * 9700/10000 = 9700
    assert_eq!(
        cfg.apply_haircut(CollateralType::GovernmentBond, 10_000),
        9_700
    );
}

#[test]
fn haircut_apply_corp_bond() {
    let cfg = HaircutConfig::default();
    // CorpBond: 10% haircut → 10000 * 9000/10000 = 9000
    assert_eq!(
        cfg.apply_haircut(CollateralType::CorporateBond, 10_000),
        9_000
    );
}

#[test]
fn haircut_apply_equity() {
    let cfg = HaircutConfig::default();
    // Equity: 25% haircut → 10000 * 7500/10000 = 7500
    assert_eq!(cfg.apply_haircut(CollateralType::Equity, 10_000), 7_500);
}

#[test]
fn haircut_apply_zero_value() {
    let cfg = HaircutConfig::default();
    assert_eq!(cfg.apply_haircut(CollateralType::Equity, 0), 0);
}

#[test]
fn account_deposit_and_face_value() {
    let mut acc = CollateralAccount::new(1, HaircutConfig::default());
    acc.deposit(CollateralType::Cash, 5_000);
    acc.deposit(CollateralType::GovernmentBond, 3_000);
    assert_eq!(acc.face_value(CollateralType::Cash), 5_000);
    assert_eq!(acc.face_value(CollateralType::GovernmentBond), 3_000);
    assert_eq!(acc.face_value(CollateralType::CorporateBond), 0);
}

#[test]
fn account_total_face_value() {
    let mut acc = CollateralAccount::new(1, HaircutConfig::default());
    acc.deposit(CollateralType::Cash, 5_000);
    acc.deposit(CollateralType::Equity, 2_000);
    assert_eq!(acc.total_face_value(), 7_000);
}

#[test]
fn account_adjusted_value() {
    let mut acc = CollateralAccount::new(1, HaircutConfig::default());
    acc.deposit(CollateralType::Cash, 10_000);
    acc.deposit(CollateralType::Equity, 10_000);
    // Cash: 10000, Equity: 10000 * 0.75 = 7500
    assert_eq!(acc.adjusted_value(CollateralType::Cash), 10_000);
    assert_eq!(acc.adjusted_value(CollateralType::Equity), 7_500);
    assert_eq!(acc.total_adjusted_value(), 17_500);
}

#[test]
fn account_withdraw_success() {
    let mut acc = CollateralAccount::new(1, HaircutConfig::default());
    acc.deposit(CollateralType::Cash, 5_000);
    assert!(acc.withdraw(CollateralType::Cash, 3_000));
    assert_eq!(acc.face_value(CollateralType::Cash), 2_000);
}

#[test]
fn account_withdraw_insufficient() {
    let mut acc = CollateralAccount::new(1, HaircutConfig::default());
    acc.deposit(CollateralType::Cash, 1_000);
    assert!(!acc.withdraw(CollateralType::Cash, 2_000));
    assert_eq!(acc.face_value(CollateralType::Cash), 1_000); // 変化なし
}

#[test]
fn account_withdraw_zero() {
    let mut acc = CollateralAccount::new(1, HaircutConfig::default());
    assert!(acc.withdraw(CollateralType::Cash, 0));
}

#[test]
fn account_deposit_negative_ignored() {
    let mut acc = CollateralAccount::new(1, HaircutConfig::default());
    acc.deposit(CollateralType::Cash, -100);
    assert_eq!(acc.face_value(CollateralType::Cash), 0);
}

#[test]
fn account_holdings_non_empty() {
    let mut acc = CollateralAccount::new(1, HaircutConfig::default());
    acc.deposit(CollateralType::Cash, 1_000);
    acc.deposit(CollateralType::Equity, 2_000);
    let holdings = acc.holdings();
    assert_eq!(holdings.len(), 2);
}

#[test]
fn account_holdings_empty() {
    let acc = CollateralAccount::new(1, HaircutConfig::default());
    assert!(acc.holdings().is_empty());
}

#[test]
fn account_id_accessor() {
    let acc = CollateralAccount::new(42, HaircutConfig::default());
    assert_eq!(acc.account_id(), 42);
}

#[test]
fn collateral_content_hash_deterministic() {
    let mut a = CollateralAccount::new(1, HaircutConfig::default());
    let mut b = CollateralAccount::new(1, HaircutConfig::default());
    a.deposit(CollateralType::Cash, 100);
    b.deposit(CollateralType::Cash, 100);
    assert_eq!(a.content_hash(), b.content_hash());
    assert_ne!(a.content_hash(), 0);
}

#[test]
fn content_hash_varies() {
    let mut a = CollateralAccount::new(1, HaircutConfig::default());
    let mut b = CollateralAccount::new(1, HaircutConfig::default());
    a.deposit(CollateralType::Cash, 100);
    b.deposit(CollateralType::Cash, 200);
    assert_ne!(a.content_hash(), b.content_hash());
}

// ── Concentration Limits ───────────────────────────────────────

#[test]
fn concentration_no_breach() {
    let mut acc = CollateralAccount::new(1, HaircutConfig::default());
    acc.deposit(CollateralType::Cash, 10_000);
    let breaches = check_concentration(&acc, &ConcentrationLimits::default());
    assert!(breaches.is_empty());
}

#[test]
fn concentration_equity_breach() {
    let mut acc = CollateralAccount::new(1, HaircutConfig::default());
    // 株式のみ → 集中率 100% > 上限 30%
    acc.deposit(CollateralType::Equity, 10_000);
    let breaches = check_concentration(&acc, &ConcentrationLimits::default());
    assert_eq!(breaches.len(), 1);
    assert_eq!(breaches[0].collateral_type, CollateralType::Equity);
    assert!(breaches[0].current_bps > 3_000);
    assert_eq!(breaches[0].limit_bps, 3_000);
}

#[test]
fn concentration_corp_bond_breach() {
    let mut acc = CollateralAccount::new(1, HaircutConfig::default());
    // 社債のみ → 集中率 100% > 上限 50%
    acc.deposit(CollateralType::CorporateBond, 10_000);
    let breaches = check_concentration(&acc, &ConcentrationLimits::default());
    assert_eq!(breaches.len(), 1);
    assert_eq!(breaches[0].collateral_type, CollateralType::CorporateBond);
}

#[test]
fn concentration_mixed_no_breach() {
    let mut acc = CollateralAccount::new(1, HaircutConfig::default());
    // Cash 70%, Equity 30% (ヘアカット後)
    acc.deposit(CollateralType::Cash, 70_000);
    acc.deposit(CollateralType::Equity, 13_334); // 13334 * 0.75 = 10000 → 10000/80000 = 12.5%
    let breaches = check_concentration(&acc, &ConcentrationLimits::default());
    assert!(breaches.is_empty());
}

#[test]
fn concentration_empty_account_no_breach() {
    let acc = CollateralAccount::new(1, HaircutConfig::default());
    let breaches = check_concentration(&acc, &ConcentrationLimits::default());
    assert!(breaches.is_empty());
}

#[test]
fn concentration_limits_default() {
    let limits = ConcentrationLimits::default();
    assert_eq!(limits.cash_max_bps, 10_000);
    assert_eq!(limits.gov_bond_max_bps, 10_000);
    assert_eq!(limits.corp_bond_max_bps, 5_000);
    assert_eq!(limits.equity_max_bps, 3_000);
}

#[test]
fn concentration_breach_equality() {
    let b1 = ConcentrationBreach {
        collateral_type: CollateralType::Equity,
        current_bps: 5000,
        limit_bps: 3000,
    };
    let b2 = b1.clone();
    assert_eq!(b1, b2);
}

#[test]
fn collateral_type_ordering() {
    assert!(CollateralType::Cash < CollateralType::GovernmentBond);
    assert!(CollateralType::GovernmentBond < CollateralType::CorporateBond);
    assert!(CollateralType::CorporateBond < CollateralType::Equity);
}

#[test]
fn collateral_type_repr() {
    assert_eq!(CollateralType::Cash as u8, 0);
    assert_eq!(CollateralType::GovernmentBond as u8, 1);
    assert_eq!(CollateralType::CorporateBond as u8, 2);
    assert_eq!(CollateralType::Equity as u8, 3);
}

#[test]
fn multiple_deposits_accumulate() {
    let mut acc = CollateralAccount::new(1, HaircutConfig::default());
    acc.deposit(CollateralType::Cash, 1_000);
    acc.deposit(CollateralType::Cash, 2_000);
    acc.deposit(CollateralType::Cash, 3_000);
    assert_eq!(acc.face_value(CollateralType::Cash), 6_000);
}

#[test]
fn withdraw_exact_balance() {
    let mut acc = CollateralAccount::new(1, HaircutConfig::default());
    acc.deposit(CollateralType::GovernmentBond, 5_000);
    assert!(acc.withdraw(CollateralType::GovernmentBond, 5_000));
    assert_eq!(acc.face_value(CollateralType::GovernmentBond), 0);
}

#[test]
fn custom_haircut_config() {
    let cfg = HaircutConfig {
        cash_bps: 100,
        gov_bond_bps: 500,
        corp_bond_bps: 2000,
        equity_bps: 5000,
    };
    // Cash 1%: 10000 * 9900/10000 = 9900
    assert_eq!(cfg.apply_haircut(CollateralType::Cash, 10_000), 9_900);
    // Equity 50%: 10000 * 5000/10000 = 5000
    assert_eq!(cfg.apply_haircut(CollateralType::Equity, 10_000), 5_000);
}
