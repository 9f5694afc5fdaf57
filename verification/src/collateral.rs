use vstd::prelude::*;
use vstd::bytes::spec_u64_to_le_bytes;

use crate::hash::{fnv1a, push_u64_le, spec_fnv1a};

verus! {

// ── Collateral Types ───────────────────────────────────────────────────

/// Collateral quality tier (lower is better quality).
#[derive(Debug, Clone, Copy, PartialEq, Eq, PartialOrd, Ord, Structural)]
pub enum CollateralType {
    /// Cash (highest quality, 0% haircut).
    Cash,
    /// Government bonds (high quality).
    GovernmentBond,
    /// Corporate bonds (medium quality).
    CorporateBond,
    /// Equities (low quality, high haircut).
    Equity,
}

/// Position of a collateral type in the holdings array (0 to 3).
pub open spec fn type_index(ct: CollateralType) -> int {
    match ct {
        CollateralType::Cash => 0,
        CollateralType::GovernmentBond => 1,
        CollateralType::CorporateBond => 2,
        CollateralType::Equity => 3,
    }
}

/// Collateral type stored at position `k` (0 to 3).
pub open spec fn type_at(k: int) -> CollateralType {
    if k == 0 {
        CollateralType::Cash
    } else if k == 1 {
        CollateralType::GovernmentBond
    } else if k == 2 {
        CollateralType::CorporateBond
    } else {
        CollateralType::Equity
    }
}

fn index_of(ct: CollateralType) -> (i: usize)
    ensures
        i == type_index(ct),
{
    match ct {
        CollateralType::Cash => 0,
        CollateralType::GovernmentBond => 1,
        CollateralType::CorporateBond => 2,
        CollateralType::Equity => 3,
    }
}

fn type_of(k: usize) -> (ct: CollateralType)
    requires
        k < 4,
    ensures
        ct == type_at(k as int),
        type_index(ct) == k,
{
    match k {
        0 => CollateralType::Cash,
        1 => CollateralType::GovernmentBond,
        2 => CollateralType::CorporateBond,
        _ => CollateralType::Equity,
    }
}

/// Haircut settings per collateral type.
///
/// Haircuts are basis points from 0 to 10000; 10000 bps = 100% = the
/// collateral counts for nothing.
#[derive(Debug, Clone, Copy, PartialEq, Eq, Structural)]
pub struct HaircutConfig {
    /// Cash haircut (bps), normally 0.
    pub cash_bps: u32,
    /// Government bond haircut (bps), normally 200 to 500.
    pub gov_bond_bps: u32,
    /// Corporate bond haircut (bps), normally 500 to 1500.
    pub corp_bond_bps: u32,
    /// Equity haircut (bps), normally 1500 to 3000.
    pub equity_bps: u32,
}

impl Default for HaircutConfig {
    fn default() -> (cfg: Self)
        ensures
            cfg == (HaircutConfig { cash_bps: 0, gov_bond_bps: 300, corp_bond_bps: 1000, equity_bps: 2500 }),
    {
        Self { cash_bps: 0, gov_bond_bps: 300, corp_bond_bps: 1000, equity_bps: 2500 }
    }
}

/// Haircut (bps) configured for a collateral type.
pub open spec fn spec_haircut_bps(cfg: HaircutConfig, ct: CollateralType) -> u32 {
    match ct {
        CollateralType::Cash => cfg.cash_bps,
        CollateralType::GovernmentBond => cfg.gov_bond_bps,
        CollateralType::CorporateBond => cfg.corp_bond_bps,
        CollateralType::Equity => cfg.equity_bps,
    }
}

/// Division truncating toward zero, as integer division does on `i64`.
pub open spec fn div_toward_zero(a: int, b: int) -> int {
    if a >= 0 {
        a / b
    } else {
        -((-a) / b)
    }
}

/// Value after haircut: `value * (10000 - bps) / 10000`, rounded toward zero.
pub open spec fn spec_apply_haircut(cfg: HaircutConfig, ct: CollateralType, value: i64) -> int {
    div_toward_zero(value * (10_000 - spec_haircut_bps(cfg, ct)), 10_000)
}

/// Whether the haircut product `value * (10000 - bps)` fits in `i64`.
pub open spec fn haircut_fits(cfg: HaircutConfig, ct: CollateralType, value: i64) -> bool {
    i64::MIN <= value * (10_000 - spec_haircut_bps(cfg, ct)) <= i64::MAX
}

impl HaircutConfig {
    /// Haircut (bps) for a collateral type.
    pub fn haircut_bps(&self, collateral_type: CollateralType) -> (b: u32)
        ensures
            b == spec_haircut_bps(*self, collateral_type),
    {
        match collateral_type {
            CollateralType::Cash => self.cash_bps,
            CollateralType::GovernmentBond => self.gov_bond_bps,
            CollateralType::CorporateBond => self.corp_bond_bps,
            CollateralType::Equity => self.equity_bps,
        }
    }

    /// Value after haircut.
    ///
    /// `value * (10000 - haircut_bps) / 10000`
    pub fn apply_haircut(&self, collateral_type: CollateralType, value: i64) -> (r: i64)
        requires
            haircut_fits(*self, collateral_type, value),
        ensures
            r == spec_apply_haircut(*self, collateral_type, value),
    {
        let bps = self.haircut_bps(collateral_type) as i64;
        let product = value * (10_000 - bps);
        product / 10_000
    }
}

// ── Collateral Holding ─────────────────────────────────────────────────

/// Holding of a single collateral type.
#[derive(Debug, Clone, Copy, PartialEq, Eq, Structural)]
pub struct CollateralHolding {
    /// Collateral type.
    pub collateral_type: CollateralType,
    /// Face value in ticks.
    pub face_value: i64,
}

// ── Collateral Account ─────────────────────────────────────────────────

/// Collateral account holding several collateral types.
pub struct CollateralAccount {
    /// Account id.
    account_id: u64,
    /// Face value held per type (`Cash`, `GovBond`, `CorpBond`, `Equity`).
    holdings: [i64; 4],
    /// Haircut settings.
    haircut: HaircutConfig,
}

/// Holdings after a deposit: a positive amount is added, any other amount is
/// ignored.
pub open spec fn deposit_spec(h: Seq<i64>, k: int, amount: i64) -> Seq<i64> {
    if amount > 0 {
        h.update(k, (h[k] + amount) as i64)
    } else {
        h
    }
}

/// Outcome of a withdrawal: a non-positive amount succeeds without change; a
/// positive amount succeeds and is taken off when the holding covers it, and
/// fails without change otherwise.
pub open spec fn withdraw_spec(h: Seq<i64>, k: int, amount: i64) -> (Seq<i64>, bool) {
    if amount <= 0 {
        (h, true)
    } else if h[k] < amount {
        (h, false)
    } else {
        (h.update(k, (h[k] - amount) as i64), true)
    }
}

/// Holdings with a positive face value, in type order.
pub open spec fn positive_holdings(h: Seq<i64>, k: nat) -> Seq<CollateralHolding>
    decreases k,
{
    if k == 0 {
        Seq::empty()
    } else {
        let prev = positive_holdings(h, (k - 1) as nat);
        if h[k - 1] > 0 {
            prev.push(CollateralHolding { collateral_type: type_at(k - 1), face_value: h[k - 1] })
        } else {
            prev
        }
    }
}

/// The 40 bytes hashed for an account: id, then the four holdings, each
/// little-endian.
pub open spec fn account_bytes(id: u64, h: Seq<i64>) -> Seq<u8> {
    spec_u64_to_le_bytes(id) + spec_u64_to_le_bytes(h[0] as u64) + spec_u64_to_le_bytes(h[1] as u64)
        + spec_u64_to_le_bytes(h[2] as u64) + spec_u64_to_le_bytes(h[3] as u64)
}

impl CollateralAccount {
    /// Account id.
    pub closed spec fn spec_account_id(&self) -> u64 {
        self.account_id
    }

    /// Face value held per type, indexed by `type_index`.
    pub closed spec fn spec_holdings(&self) -> Seq<i64> {
        self.holdings@
    }

    /// Haircut settings.
    pub closed spec fn spec_haircut(&self) -> HaircutConfig {
        self.haircut
    }

    /// Invariant: four holdings, none negative.
    pub open spec fn wf(&self) -> bool {
        &&& self.spec_holdings().len() == 4
        &&& forall|k: int| 0 <= k < 4 ==> #[trigger] self.spec_holdings()[k] >= 0
    }

    /// Adjusted value of type `ct` after haircut.
    pub open spec fn spec_adjusted(&self, ct: CollateralType) -> int {
        spec_apply_haircut(self.spec_haircut(), ct, self.spec_holdings()[type_index(ct)])
    }

    /// Whether the haircut of every holding fits in `i64`.
    pub open spec fn adjusted_fits(&self) -> bool {
        forall|k: int| 0 <= k < 4 ==> haircut_fits(self.spec_haircut(), type_at(k), #[trigger] self.spec_holdings()[k])
    }

    /// Sum of the adjusted values of all four types.
    pub open spec fn spec_total_adjusted(&self) -> int {
        self.spec_adjusted(CollateralType::Cash) + self.spec_adjusted(CollateralType::GovernmentBond)
            + self.spec_adjusted(CollateralType::CorporateBond) + self.spec_adjusted(CollateralType::Equity)
    }

    /// Whether the running sums of the adjusted values fit in `i64`.
    pub open spec fn total_adjusted_fits(&self) -> bool {
        let a0 = self.spec_adjusted(CollateralType::Cash);
        let a1 = self.spec_adjusted(CollateralType::GovernmentBond);
        let a2 = self.spec_adjusted(CollateralType::CorporateBond);
        let a3 = self.spec_adjusted(CollateralType::Equity);
        &&& self.adjusted_fits()
        &&& i64::MIN <= a0 + a1 <= i64::MAX
        &&& i64::MIN <= a0 + a1 + a2 <= i64::MAX
        &&& i64::MIN <= a0 + a1 + a2 + a3 <= i64::MAX
    }

    /// Create a new account with no holdings.
    pub fn new(account_id: u64, haircut: HaircutConfig) -> (acc: Self)
        ensures
            acc.wf(),
            acc.spec_account_id() == account_id,
            acc.spec_holdings() == seq![0i64, 0i64, 0i64, 0i64],
            acc.spec_haircut() == haircut,
    {
        let acc = Self { account_id, holdings: [0; 4], haircut };
        assert(acc.holdings@ =~= seq![0i64, 0i64, 0i64, 0i64]);
        acc
    }

    /// Account id.
    pub fn account_id(&self) -> (id: u64)
        ensures
            id == self.spec_account_id(),
    {
        self.account_id
    }

    /// Deposit collateral; amounts that are not positive are ignored.
    pub fn deposit(&mut self, collateral_type: CollateralType, amount: i64)
        requires
            old(self).wf(),
            amount > 0 ==> old(self).spec_holdings()[type_index(collateral_type)] + amount <= i64::MAX,
        ensures
            final(self).wf(),
            final(self).spec_holdings() == deposit_spec(old(self).spec_holdings(), type_index(collateral_type), amount),
            final(self).spec_account_id() == old(self).spec_account_id(),
            final(self).spec_haircut() == old(self).spec_haircut(),
    {
        if amount > 0 {
            let idx = index_of(collateral_type);
            let v = self.holdings[idx] + amount;
            self.holdings[idx] = v;
        }
    }

    /// Withdraw collateral. Returns `false` when the holding is insufficient.
    pub fn withdraw(&mut self, collateral_type: CollateralType, amount: i64) -> (ok: bool)
        requires
            old(self).wf(),
        ensures
            final(self).wf(),
            (final(self).spec_holdings(), ok) == withdraw_spec(old(self).spec_holdings(), type_index(collateral_type), amount),
            final(self).spec_account_id() == old(self).spec_account_id(),
            final(self).spec_haircut() == old(self).spec_haircut(),
    {
        if amount <= 0 {
            return true;
        }
        let idx = index_of(collateral_type);
        if self.holdings[idx] < amount {
            return false;
        }
        let v = self.holdings[idx] - amount;
        self.holdings[idx] = v;
        true
    }

    /// Face value held of a type.
    pub fn face_value(&self, collateral_type: CollateralType) -> (v: i64)
        requires
            self.wf(),
        ensures
            v == self.spec_holdings()[type_index(collateral_type)],
    {
        self.holdings[index_of(collateral_type)]
    }

    /// Value of a type after haircut.
    pub fn adjusted_value(&self, collateral_type: CollateralType) -> (v: i64)
        requires
            self.wf(),
            haircut_fits(self.spec_haircut(), collateral_type, self.spec_holdings()[type_index(collateral_type)]),
        ensures
            v == self.spec_adjusted(collateral_type),
    {
        self.haircut.apply_haircut(collateral_type, self.holdings[index_of(collateral_type)])
    }

    /// Total face value over all types.
    pub fn total_face_value(&self) -> (v: i64)
        requires
            self.wf(),
            self.spec_holdings()[0] + self.spec_holdings()[1] + self.spec_holdings()[2] + self.spec_holdings()[3]
                <= i64::MAX,
        ensures
            v == self.spec_holdings()[0] + self.spec_holdings()[1] + self.spec_holdings()[2] + self.spec_holdings()[3],
    {
        assert(self.holdings@[0] >= 0 && self.holdings@[1] >= 0 && self.holdings@[2] >= 0 && self.holdings@[3] >= 0) by {
            assert(self.spec_holdings()[0] >= 0);
            assert(self.spec_holdings()[1] >= 0);
            assert(self.spec_holdings()[2] >= 0);
            assert(self.spec_holdings()[3] >= 0);
        }
        self.holdings[0] + self.holdings[1] + self.holdings[2] + self.holdings[3]
    }

    /// Total value after haircut over all types.
    pub fn total_adjusted_value(&self) -> (v: i64)
        requires
            self.wf(),
            self.total_adjusted_fits(),
        ensures
            v == self.spec_total_adjusted(),
    {
        assert(haircut_fits(self.spec_haircut(), type_at(0), self.spec_holdings()[0]));
        assert(haircut_fits(self.spec_haircut(), type_at(1), self.spec_holdings()[1]));
        assert(haircut_fits(self.spec_haircut(), type_at(2), self.spec_holdings()[2]));
        assert(haircut_fits(self.spec_haircut(), type_at(3), self.spec_holdings()[3]));
        let a0 = self.adjusted_value(CollateralType::Cash);
        let a1 = self.adjusted_value(CollateralType::GovernmentBond);
        let a2 = self.adjusted_value(CollateralType::CorporateBond);
        let a3 = self.adjusted_value(CollateralType::Equity);
        a0 + a1 + a2 + a3
    }

    /// Details of every positive holding, in type order.
    pub fn holdings(&self) -> (v: Vec<CollateralHolding>)
        requires
            self.wf(),
        ensures
            v@ == positive_holdings(self.spec_holdings(), 4),
    {
        let mut out: Vec<CollateralHolding> = Vec::new();
        let mut k: usize = 0;
        while k < 4
            invariant
                self.wf(),
                k <= 4,
                out@ == positive_holdings(self.spec_holdings(), k as nat),
            decreases 4 - k,
        {
            let face = self.holdings[k];
            if face > 0 {
                out.push(CollateralHolding { collateral_type: type_of(k), face_value: face });
            }
            k = k + 1;
        }
        out
    }

    /// Content hash: FNV-1a over the account id and the four holdings.
    pub fn content_hash(&self) -> (h: u64)
        requires
            self.wf(),
        ensures
            h == spec_fnv1a(account_bytes(self.spec_account_id(), self.spec_holdings())),
    {
        let mut data: Vec<u8> = Vec::with_capacity(40);
        push_u64_le(&mut data, self.account_id);
        push_u64_le(&mut data, self.holdings[0] as u64);
        push_u64_le(&mut data, self.holdings[1] as u64);
        push_u64_le(&mut data, self.holdings[2] as u64);
        push_u64_le(&mut data, self.holdings[3] as u64);
        assert(data@ =~= account_bytes(self.spec_account_id(), self.spec_holdings()));
        fnv1a(data.as_slice())
    }
}

// ── Concentration Limits ───────────────────────────────────────────────

/// Concentration limits: the largest share (bps, 10000 = 100%) that each
/// collateral type may have of the total value after haircut.
#[derive(Debug, Clone, Copy, PartialEq, Eq, Structural)]
pub struct ConcentrationLimits {
    /// Cash limit (bps), normally 10000 = unlimited.
    pub cash_max_bps: u32,
    /// Government bond limit (bps).
    pub gov_bond_max_bps: u32,
    /// Corporate bond limit (bps).
    pub corp_bond_max_bps: u32,
    /// Equity limit (bps).
    pub equity_max_bps: u32,
}

impl Default for ConcentrationLimits {
    fn default() -> (l: Self)
        ensures
            l == (ConcentrationLimits {
                cash_max_bps: 10_000,
                gov_bond_max_bps: 10_000,
                corp_bond_max_bps: 5_000,
                equity_max_bps: 3_000,
            }),
    {
        Self { cash_max_bps: 10_000, gov_bond_max_bps: 10_000, corp_bond_max_bps: 5_000, equity_max_bps: 3_000 }
    }
}

/// A concentration limit breach.
#[derive(Debug, Clone, Copy, PartialEq, Eq, Structural)]
pub struct ConcentrationBreach {
    /// Collateral type in breach.
    pub collateral_type: CollateralType,
    /// Current share (bps).
    pub current_bps: u32,
    /// Limit (bps).
    pub limit_bps: u32,
}

/// Limit (bps) configured for a collateral type.
pub open spec fn limit_of(limits: ConcentrationLimits, ct: CollateralType) -> u32 {
    match ct {
        CollateralType::Cash => limits.cash_max_bps,
        CollateralType::GovernmentBond => limits.gov_bond_max_bps,
        CollateralType::CorporateBond => limits.corp_bond_max_bps,
        CollateralType::Equity => limits.equity_max_bps,
    }
}

/// Share in bps of an adjusted value in the total, truncated to `u32`.
pub open spec fn share_bps(adjusted: int, total: int) -> u32 {
    (adjusted * 10_000 / total) as u32
}

/// Breaches among the first `k` types: each type with a positive adjusted
/// value whose share exceeds its limit, in type order.
pub open spec fn breaches_upto(acc: &CollateralAccount, limits: ConcentrationLimits, k: nat) -> Seq<ConcentrationBreach>
    decreases k,
{
    if k == 0 {
        Seq::empty()
    } else {
        let prev = breaches_upto(acc, limits, (k - 1) as nat);
        let ct = type_at(k - 1);
        let adjusted = acc.spec_adjusted(ct);
        let share = share_bps(adjusted, acc.spec_total_adjusted());
        if adjusted > 0 && share > limit_of(limits, ct) {
            prev.push(ConcentrationBreach { collateral_type: ct, current_bps: share, limit_bps: limit_of(limits, ct) })
        } else {
            prev
        }
    }
}

/// Check an account's concentration limits.
///
/// Returns every breach; no breach is reported when the total value after
/// haircut is not positive.
pub fn check_concentration(account: &CollateralAccount, limits: &ConcentrationLimits) -> (breaches: Vec<
    ConcentrationBreach,
>)
    requires
        account.wf(),
        account.total_adjusted_fits(),
    ensures
        breaches@ == if account.spec_total_adjusted() <= 0 {
            Seq::empty()
        } else {
            breaches_upto(account, *limits, 4)
        },
{
    let total = account.total_adjusted_value();
    if total <= 0 {
        return Vec::new();
    }
    let mut breaches: Vec<ConcentrationBreach> = Vec::new();
    let mut k: usize = 0;
    while k < 4
        invariant
            account.wf(),
            account.total_adjusted_fits(),
            total == account.spec_total_adjusted(),
            total > 0,
            k <= 4,
            breaches@ == breaches_upto(account, *limits, k as nat),
        decreases 4 - k,
    {
        let ct = type_of(k);
        let limit_bps = match ct {
            CollateralType::Cash => limits.cash_max_bps,
            CollateralType::GovernmentBond => limits.gov_bond_max_bps,
            CollateralType::CorporateBond => limits.corp_bond_max_bps,
            CollateralType::Equity => limits.equity_max_bps,
        };
        assert(haircut_fits(account.spec_haircut(), type_at(k as int), account.spec_holdings()[k as int]));
        let adjusted = account.adjusted_value(ct);
        if adjusted > 0 {
            proof {
                let h = account.spec_holdings()[k as int];
                let p = h * (10_000 - spec_haircut_bps(account.spec_haircut(), type_at(k as int)));
                assert(p <= i64::MAX);
                if p >= 0 {
                    assert((p / 10_000) * 10_000 <= p) by (nonlinear_arith)
                        requires
                            p >= 0,
                    ;
                } else {
                    assert((-p) / 10_000 >= 0) by (nonlinear_arith)
                        requires
                            p < 0,
                    ;
                }
            }
            let current_bps = (adjusted * 10_000 / total) as u32;
            if current_bps > limit_bps {
                breaches.push(ConcentrationBreach { collateral_type: ct, current_bps, limit_bps });
            }
        }
        k = k + 1;
    }
    breaches
}


// ── Laws ──────────────────────────────────────────────────────────────

/// Withdrawing what was just deposited succeeds and restores the holdings,
/// provided a positive deposit went into a non-negative holding (amounts
/// that are not positive are ignored by both).
pub proof fn law_withdraw_undoes_deposit(h: Seq<i64>, k: int, amount: i64)
    requires
        0 <= k < h.len(),
        amount > 0 ==> h[k] >= 0,
        amount > 0 ==> h[k] + amount <= i64::MAX,
    ensures
        withdraw_spec(deposit_spec(h, k, amount), k, amount) == (h, true),
{
    if amount > 0 {
        let d = deposit_spec(h, k, amount);
        assert(d.update(k, (d[k] - amount) as i64) =~= h);
    }
}

/// A haircut between 0 and 10000 bps never raises a non-negative value nor
/// makes it negative.
pub proof fn law_haircut_within_value(cfg: HaircutConfig, ct: CollateralType, value: i64)
    requires
        value >= 0,
        spec_haircut_bps(cfg, ct) <= 10_000,
    ensures
        0 <= spec_apply_haircut(cfg, ct, value) <= value,
{
    let f = 10_000 - spec_haircut_bps(cfg, ct);
    assert(0 <= value * f <= value * 10_000) by (nonlinear_arith)
        requires
            value >= 0,
            0 <= f <= 10_000,
    ;
    assert((value * f) / 10_000 <= (value * 10_000) / 10_000) by (nonlinear_arith)
        requires
            0 <= value * f <= value * 10_000,
    ;
    assert((value * 10_000) / 10_000 == value) by (nonlinear_arith);
}

// ── Concentration breaches ────────────────────────────────────────────

/// Whether type `ct` is over its limit: its adjusted value is positive and
/// its share in bps of the total, `adjusted * 10000 / total` truncated to
/// `u32`, exceeds the type's limit.
#[verifier::opaque]
pub open spec fn over_limit(acc: &CollateralAccount, limits: ConcentrationLimits, ct: CollateralType) -> bool {
    let adjusted = acc.spec_adjusted(ct);
    adjusted > 0 && (adjusted * 10_000 / acc.spec_total_adjusted()) as u32 > limit_of(limits, ct)
}

/// The breach reported for type `ct`: its share in bps of the total,
/// `adjusted * 10000 / total` truncated to `u32`, and its limit.
#[verifier::opaque]
pub open spec fn breach_for(acc: &CollateralAccount, limits: ConcentrationLimits, ct: CollateralType) -> ConcentrationBreach {
    ConcentrationBreach {
        collateral_type: ct,
        current_bps: (acc.spec_adjusted(ct) * 10_000 / acc.spec_total_adjusted()) as u32,
        limit_bps: limit_of(limits, ct),
    }
}

proof fn lemma_breach_for_type(acc: &CollateralAccount, limits: ConcentrationLimits, ct: CollateralType)
    ensures
        breach_for(acc, limits, ct).collateral_type == ct,
{
    reveal(breach_for);
}

proof fn lemma_breaches_step(acc: &CollateralAccount, limits: ConcentrationLimits, m: nat)
    requires
        0 < m <= 4,
    ensures
        breaches_upto(acc, limits, m) == if over_limit(acc, limits, type_at(m - 1)) {
            breaches_upto(acc, limits, (m - 1) as nat).push(breach_for(acc, limits, type_at(m - 1)))
        } else {
            breaches_upto(acc, limits, (m - 1) as nat)
        },
{
    reveal(over_limit);
    reveal(breach_for);
}

proof fn lemma_breaches_upto(acc: &CollateralAccount, limits: ConcentrationLimits, m: nat)
    requires
        m <= 4,
    ensures
        forall|j: int|
            0 <= j < breaches_upto(acc, limits, m).len() ==> {
                let b = #[trigger] breaches_upto(acc, limits, m)[j];
                &&& b == breach_for(acc, limits, b.collateral_type)
                &&& over_limit(acc, limits, b.collateral_type)
                &&& type_index(b.collateral_type) < m
            },
        forall|k: int|
            0 <= k < m && over_limit(acc, limits, #[trigger] type_at(k)) ==> exists|j: int|
                0 <= j < breaches_upto(acc, limits, m).len() && breaches_upto(acc, limits, m)[j].collateral_type
                    == type_at(k),
        forall|i: int, j: int|
            0 <= i < j < breaches_upto(acc, limits, m).len() ==> breaches_upto(acc, limits, m)[i].collateral_type
                != breaches_upto(acc, limits, m)[j].collateral_type,
    decreases m,
{
    if m > 0 {
        let pm = (m - 1) as nat;
        lemma_breaches_upto(acc, limits, pm);
        lemma_breaches_step(acc, limits, m);
        let prev = breaches_upto(acc, limits, pm);
        let cur = breaches_upto(acc, limits, m);
        let ct = type_at(pm as int);
        lemma_breach_for_type(acc, limits, ct);
        assert(type_index(ct) == pm);
        assert forall|j: int| 0 <= j < cur.len() implies {
            let b = #[trigger] cur[j];
            &&& b == breach_for(acc, limits, b.collateral_type)
            &&& over_limit(acc, limits, b.collateral_type)
            &&& type_index(b.collateral_type) < m
        } by {
            if j < prev.len() {
                assert(cur[j] == prev[j]);
            }
        }
        assert forall|k: int| 0 <= k < m && over_limit(acc, limits, #[trigger] type_at(k)) implies exists|j: int|
            0 <= j < cur.len() && cur[j].collateral_type == type_at(k) by {
            if k < pm {
                let j = choose|j: int| 0 <= j < prev.len() && prev[j].collateral_type == type_at(k);
                assert(cur[j] == prev[j]);
            } else {
                assert(cur[prev.len() as int].collateral_type == type_at(k));
            }
        }
        assert forall|i: int, j: int| 0 <= i < j < cur.len() implies cur[i].collateral_type
            != cur[j].collateral_type by {
            assert(cur[i] == prev[i]);
            assert(type_index(prev[i].collateral_type) < pm);
            if j < prev.len() {
                assert(cur[j] == prev[j]);
            }
        }
    }
}

/// Every over-limit type is reported, and only those: the breaches name each
/// type whose adjusted value is positive and whose share of the total,
/// `adjusted * 10000 / total`, exceeds its limit, each type once and with
/// that share and limit, however many other types breach too.
pub proof fn law_concentration_reports_every_breach(acc: &CollateralAccount, limits: ConcentrationLimits)
    ensures
        forall|k: int|
            0 <= k < 4 ==> ((exists|j: int|
                0 <= j < breaches_upto(acc, limits, 4).len() && breaches_upto(acc, limits, 4)[j].collateral_type
                    == type_at(k)) <==> over_limit(acc, limits, #[trigger] type_at(k))),
        forall|j: int|
            0 <= j < breaches_upto(acc, limits, 4).len() ==> #[trigger] breaches_upto(acc, limits, 4)[j]
                == breach_for(acc, limits, breaches_upto(acc, limits, 4)[j].collateral_type),
        forall|i: int, j: int|
            0 <= i < j < breaches_upto(acc, limits, 4).len() ==> breaches_upto(acc, limits, 4)[i].collateral_type
                != breaches_upto(acc, limits, 4)[j].collateral_type,
{
    lemma_breaches_upto(acc, limits, 4);
    let b = breaches_upto(acc, limits, 4);
    assert forall|k: int| 0 <= k < 4 implies ((exists|j: int|
        0 <= j < b.len() && b[j].collateral_type == type_at(k)) <==> over_limit(acc, limits, #[trigger] type_at(k))) by {
        if exists|j: int| 0 <= j < b.len() && b[j].collateral_type == type_at(k) {
            let j = choose|j: int| 0 <= j < b.len() && b[j].collateral_type == type_at(k);
            assert(over_limit(acc, limits, b[j].collateral_type));
        }
    }
}

} // verus!
