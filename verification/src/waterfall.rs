use vstd::prelude::*;

use crate::hash::{hash_pair, pair_bytes, spec_fnv1a};

verus! {

// ── Types ──────────────────────────────────────────────────────────────

/// The five layers of the default waterfall, applied in order.
#[derive(Debug, Clone, Copy, PartialEq, Eq, Structural)]
pub enum WaterfallLayer {
    /// Layer 1: Defaulter's own margin deposit.
    DefaulterMargin,
    /// Layer 2: Defaulter's contribution to the default fund.
    DefaulterFund,
    /// Layer 3: CCP's first-loss capital (skin-in-the-game).
    CcpFirstLoss,
    /// Layer 4: Non-defaulting members' default fund contributions.
    MembersFund,
    /// Layer 5: CCP's remaining capital.
    CcpCapital,
}

/// Per-layer absorption result.
#[derive(Debug, Clone, Copy, PartialEq, Eq, Structural)]
pub struct LayerAbsorption {
    /// Which waterfall layer.
    pub layer: WaterfallLayer,
    /// Total capacity of this layer.
    pub capacity: i64,
    /// Amount absorbed by this layer.
    pub absorbed: i64,
    /// Loss remaining after this layer.
    pub remaining_after: i64,
}

/// Configuration for the default waterfall.
///
/// Each field represents the capacity (in ticks) available at that layer.
#[derive(Debug, Clone, Copy, PartialEq, Eq, Structural)]
pub struct WaterfallConfig {
    pub defaulter_margin: i64,
    pub defaulter_fund: i64,
    pub ccp_first_loss: i64,
    pub members_fund: i64,
    pub ccp_capital: i64,
}

impl Default for WaterfallConfig {
    fn default() -> (cfg: Self)
        ensures
            cfg == (WaterfallConfig {
                defaulter_margin: 10_000,
                defaulter_fund: 5_000,
                ccp_first_loss: 2_000,
                members_fund: 20_000,
                ccp_capital: 50_000,
            }),
    {
        Self {
            defaulter_margin: 10_000,
            defaulter_fund: 5_000,
            ccp_first_loss: 2_000,
            members_fund: 20_000,
            ccp_capital: 50_000,
        }
    }
}

/// Result of running a loss through the waterfall.
#[derive(Debug, Clone)]
pub struct WaterfallResult {
    /// Total loss presented to the waterfall.
    pub total_loss: i64,
    /// Total amount absorbed across all layers.
    pub total_absorbed: i64,
    /// Per-layer absorption details (always 5 entries).
    pub layers: Vec<LayerAbsorption>,
    /// True if the entire loss was covered.
    pub fully_covered: bool,
    /// Unabsorbed loss (zero if fully covered).
    pub shortfall: i64,
    /// Deterministic content hash.
    pub content_hash: u64,
}

// ── Specification ──────────────────────────────────────────────────────

/// Layer number `k` (0 to 4) of the cascade.
pub open spec fn spec_layer(k: int) -> WaterfallLayer {
    if k == 0 {
        WaterfallLayer::DefaulterMargin
    } else if k == 1 {
        WaterfallLayer::DefaulterFund
    } else if k == 2 {
        WaterfallLayer::CcpFirstLoss
    } else if k == 3 {
        WaterfallLayer::MembersFund
    } else {
        WaterfallLayer::CcpCapital
    }
}

/// Capacity of layer number `k`.
pub open spec fn spec_capacity(cfg: WaterfallConfig, k: int) -> i64 {
    if k == 0 {
        cfg.defaulter_margin
    } else if k == 1 {
        cfg.defaulter_fund
    } else if k == 2 {
        cfg.ccp_first_loss
    } else if k == 3 {
        cfg.members_fund
    } else {
        cfg.ccp_capital
    }
}

/// What a layer with capacity `cap` takes of the loss still `remaining`.
pub open spec fn absorbed_by(remaining: int, cap: int) -> int {
    if remaining <= cap {
        remaining
    } else {
        cap
    }
}

/// Loss still unabsorbed after the first `k` layers.
pub open spec fn remaining_after(cfg: WaterfallConfig, loss: int, k: nat) -> int
    decreases k,
{
    if k == 0 {
        loss
    } else {
        let before = remaining_after(cfg, loss, (k - 1) as nat);
        before - absorbed_by(before, spec_capacity(cfg, k - 1) as int)
    }
}

/// Per-layer details of a positive loss.
pub open spec fn spec_layers(cfg: WaterfallConfig, loss: int) -> Seq<LayerAbsorption> {
    Seq::new(
        5,
        |k: int|
            LayerAbsorption {
                layer: spec_layer(k),
                capacity: spec_capacity(cfg, k),
                absorbed: absorbed_by(remaining_after(cfg, loss, k as nat), spec_capacity(cfg, k) as int) as i64,
                remaining_after: remaining_after(cfg, loss, (k + 1) as nat) as i64,
            },
    )
}

/// Per-layer details of a loss that is not positive: nothing is absorbed.
pub open spec fn spec_zero_layers(cfg: WaterfallConfig) -> Seq<LayerAbsorption> {
    Seq::new(
        5,
        |k: int|
            LayerAbsorption {
                layer: spec_layer(k),
                capacity: spec_capacity(cfg, k),
                absorbed: 0,
                remaining_after: 0,
            },
    )
}

/// Whether running a positive loss through the layers stays within `i64`.
pub open spec fn absorb_fits(cfg: WaterfallConfig, loss: i64) -> bool {
    loss > 0 ==> {
        &&& forall|k: nat| k <= 5 ==> i64::MIN <= #[trigger] remaining_after(cfg, loss as int, k) <= i64::MAX
        &&& i64::MIN <= loss - remaining_after(cfg, loss as int, 5) <= i64::MAX
    }
}

/// `r` is the result of running `loss` through the waterfall `cfg`: a loss
/// that is not positive is fully covered with nothing absorbed; otherwise each
/// layer in turn absorbs as much of the remaining loss as its capacity allows,
/// and the loss left after the last layer is the shortfall. The content hash
/// is FNV-1a over the loss and the absorbed total.
pub open spec fn absorb_spec(cfg: WaterfallConfig, loss: i64, r: WaterfallResult) -> bool {
    let rem = remaining_after(cfg, loss as int, 5);
    let absorbed: i64 = if loss <= 0 {
        0
    } else {
        (loss - rem) as i64
    };
    &&& r.total_loss == loss
    &&& r.total_absorbed == absorbed
    &&& r.layers@ == if loss <= 0 {
        spec_zero_layers(cfg)
    } else {
        spec_layers(cfg, loss as int)
    }
    &&& r.fully_covered == (loss <= 0 || rem == 0)
    &&& r.shortfall == if loss <= 0 {
        0
    } else {
        rem
    }
    &&& r.content_hash == spec_fnv1a(pair_bytes(loss as u64, absorbed as u64))
}

/// Layer capacities added with saturation at the `i64` bounds, in layer order.
pub open spec fn spec_total_capacity(cfg: WaterfallConfig) -> i64 {
    sat_add(sat_add(sat_add(sat_add(cfg.defaulter_margin, cfg.defaulter_fund), cfg.ccp_first_loss), cfg.members_fund), cfg.ccp_capital)
}

/// Addition clamped to the `i64` range.
pub open spec fn sat_add(a: i64, b: i64) -> i64 {
    if a + b > i64::MAX {
        i64::MAX
    } else if a + b < i64::MIN {
        i64::MIN
    } else {
        (a + b) as i64
    }
}

/// `a + b` clamped to the `i64` range.
pub(crate) fn saturating_add(a: i64, b: i64) -> (r: i64)
    ensures
        r == sat_add(a, b),
{
    let s = (a as i128) + (b as i128);
    if s > i64::MAX as i128 {
        i64::MAX
    } else if s < i64::MIN as i128 {
        i64::MIN
    } else {
        s as i64
    }
}

// ── Default Waterfall ──────────────────────────────────────────────────

/// Five-layer default waterfall for loss absorption.
///
/// When a clearing member defaults, losses are absorbed sequentially
/// through five layers of capital, each exhausted before the next is
/// tapped.  This follows the standard CCP loss waterfall structure.
pub struct DefaultWaterfall {
    config: WaterfallConfig,
}

impl View for DefaultWaterfall {
    type V = WaterfallConfig;

    closed spec fn view(&self) -> WaterfallConfig {
        self.config
    }
}

impl DefaultWaterfall {
    /// Create a new waterfall with the given layer capacities.
    pub fn new(config: WaterfallConfig) -> (wf: Self)
        ensures
            wf@ == config,
    {
        Self { config }
    }

    fn layer_at(k: usize) -> (l: WaterfallLayer)
        requires
            k < 5,
        ensures
            l == spec_layer(k as int),
    {
        match k {
            0 => WaterfallLayer::DefaulterMargin,
            1 => WaterfallLayer::DefaulterFund,
            2 => WaterfallLayer::CcpFirstLoss,
            3 => WaterfallLayer::MembersFund,
            _ => WaterfallLayer::CcpCapital,
        }
    }

    fn capacity_at(&self, k: usize) -> (c: i64)
        requires
            k < 5,
        ensures
            c == spec_capacity(self@, k as int),
    {
        match k {
            0 => self.config.defaulter_margin,
            1 => self.config.defaulter_fund,
            2 => self.config.ccp_first_loss,
            3 => self.config.members_fund,
            _ => self.config.ccp_capital,
        }
    }

    /// Absorb a loss through the waterfall layers in order.
    ///
    /// Returns a detailed result showing how much each layer absorbed.
    pub fn absorb_loss(&self, loss: i64) -> (r: WaterfallResult)
        requires
            absorb_fits(self@, loss),
        ensures
            absorb_spec(self@, loss, r),
            r.layers@.len() == 5,
    {
        if loss <= 0 {
            return self.zero_result(loss);
        }
        let ghost cfg = self@;
        let mut remaining = loss;
        let mut layers: Vec<LayerAbsorption> = Vec::with_capacity(5);
        let mut k: usize = 0;
        while k < 5
            invariant
                cfg == self@,
                loss > 0,
                absorb_fits(cfg, loss),
                k <= 5,
                remaining as int == remaining_after(cfg, loss as int, k as nat),
                layers@ == spec_layers(cfg, loss as int).take(k as int),
            decreases 5 - k,
        {
            let capacity = self.capacity_at(k);
            let absorbed = if remaining <= capacity {
                remaining
            } else {
                capacity
            };
            assert(i64::MIN <= remaining_after(cfg, loss as int, (k + 1) as nat) <= i64::MAX);
            remaining = remaining - absorbed;
            layers.push(
                LayerAbsorption { layer: Self::layer_at(k), capacity, absorbed, remaining_after: remaining },
            );
            assert(layers@ =~= spec_layers(cfg, loss as int).take(k + 1));
            k = k + 1;
        }
        assert(spec_layers(cfg, loss as int).take(5) =~= spec_layers(cfg, loss as int));
        let total_absorbed = loss - remaining;
        let fully_covered = remaining == 0;
        WaterfallResult {
            total_loss: loss,
            total_absorbed,
            layers,
            fully_covered,
            shortfall: remaining,
            content_hash: Self::compute_hash(loss, total_absorbed),
        }
    }

    /// Whether `absorb_loss` can run `loss` through the layers within `i64`.
    pub fn can_absorb(&self, loss: i64) -> (ok: bool)
        ensures
            ok == absorb_fits(self@, loss),
    {
        if loss <= 0 {
            return true;
        }
        let ghost cfg = self@;
        let mut remaining: i128 = loss as i128;
        let mut k: usize = 0;
        while k < 5
            invariant
                cfg == self@,
                loss > 0,
                k <= 5,
                remaining as int == remaining_after(cfg, loss as int, k as nat),
                forall|j: nat| j <= k ==> i64::MIN <= #[trigger] remaining_after(cfg, loss as int, j) <= i64::MAX,
            decreases 5 - k,
        {
            let capacity = self.capacity_at(k) as i128;
            let absorbed = if remaining <= capacity {
                remaining
            } else {
                capacity
            };
            remaining = remaining - absorbed;
            if remaining < i64::MIN as i128 || remaining > i64::MAX as i128 {
                assert(!(i64::MIN <= remaining_after(cfg, loss as int, (k + 1) as nat) <= i64::MAX));
                return false;
            }
            assert forall|j: nat| j <= k + 1 implies i64::MIN <= #[trigger] remaining_after(cfg, loss as int, j) <= i64::MAX by {
                if j <= k {
                }
            }
            k = k + 1;
        }
        let total = (loss as i128) - remaining;
        total >= i64::MIN as i128 && total <= i64::MAX as i128
    }

    /// Absorb multiple independent losses, returning individual results.
    pub fn absorb_losses(&self, losses: &[i64]) -> (results: Vec<WaterfallResult>)
        requires
            forall|i: int| 0 <= i < losses@.len() ==> absorb_fits(self@, #[trigger] losses@[i]),
        ensures
            results@.len() == losses@.len(),
            forall|i: int| 0 <= i < losses@.len() ==> absorb_spec(self@, losses@[i], #[trigger] results@[i]),
    {
        let n = losses.len();
        let mut results: Vec<WaterfallResult> = Vec::with_capacity(n);
        let mut i: usize = 0;
        while i < n
            invariant
                n == losses@.len(),
                i <= n,
                forall|j: int| 0 <= j < losses@.len() ==> absorb_fits(self@, #[trigger] losses@[j]),
                results@.len() == i,
                forall|j: int| 0 <= j < i ==> absorb_spec(self@, losses@[j], #[trigger] results@[j]),
            decreases n - i,
        {
            let r = self.absorb_loss(losses[i]);
            results.push(r);
            i = i + 1;
        }
        results
    }

    /// Total capacity across all waterfall layers.
    pub fn total_capacity(&self) -> (t: i64)
        ensures
            t == spec_total_capacity(self@),
    {
        let c = &self.config;
        saturating_add(
            saturating_add(
                saturating_add(saturating_add(c.defaulter_margin, c.defaulter_fund), c.ccp_first_loss),
                c.members_fund,
            ),
            c.ccp_capital,
        )
    }

    /// Access the current configuration.
    pub fn config(&self) -> (c: &WaterfallConfig)
        ensures
            *c == self@,
    {
        &self.config
    }

    fn zero_result(&self, loss: i64) -> (r: WaterfallResult)
        requires
            loss <= 0,
        ensures
            absorb_spec(self@, loss, r),
            r.layers@.len() == 5,
    {
        let mut layers: Vec<LayerAbsorption> = Vec::with_capacity(5);
        let mut k: usize = 0;
        while k < 5
            invariant
                k <= 5,
                layers@ == spec_zero_layers(self@).take(k as int),
            decreases 5 - k,
        {
            layers.push(
                LayerAbsorption {
                    layer: Self::layer_at(k),
                    capacity: self.capacity_at(k),
                    absorbed: 0,
                    remaining_after: 0,
                },
            );
            assert(layers@ =~= spec_zero_layers(self@).take(k + 1));
            k = k + 1;
        }
        assert(spec_zero_layers(self@).take(5) =~= spec_zero_layers(self@));
        WaterfallResult {
            total_loss: loss,
            total_absorbed: 0,
            layers,
            fully_covered: true,
            shortfall: 0,
            content_hash: Self::compute_hash(loss, 0),
        }
    }

    fn compute_hash(loss: i64, absorbed: i64) -> (h: u64)
        ensures
            h == spec_fnv1a(pair_bytes(loss as u64, absorbed as u64)),
    {
        hash_pair(loss as u64, absorbed as u64)
    }
}


// ── Laws ──────────────────────────────────────────────────────────────

/// Sum of the five layer capacities.
pub open spec fn capacity_sum(cfg: WaterfallConfig) -> int {
    cfg.defaulter_margin + cfg.defaulter_fund + cfg.ccp_first_loss + cfg.members_fund + cfg.ccp_capital
}

proof fn lemma_remaining(cfg: WaterfallConfig, loss: int)
    requires
        loss > 0,
        forall|k: int| 0 <= k < 5 ==> spec_capacity(cfg, k) >= 0,
    ensures
        forall|k: nat| k < 5 ==> 0 <= #[trigger] remaining_after(cfg, loss, k + 1) <= remaining_after(cfg, loss, k),
        remaining_after(cfg, loss, 0) == loss,
        remaining_after(cfg, loss, 5) == if loss <= capacity_sum(cfg) {
            0
        } else {
            loss - capacity_sum(cfg)
        },
{
    reveal_with_fuel(remaining_after, 6);
    assert(spec_capacity(cfg, 0) >= 0);
    assert(spec_capacity(cfg, 1) >= 0);
    assert(spec_capacity(cfg, 2) >= 0);
    assert(spec_capacity(cfg, 3) >= 0);
    assert(spec_capacity(cfg, 4) >= 0);
    assert(remaining_after(cfg, loss, 1) == remaining_after(cfg, loss, 0) - absorbed_by(loss, cfg.defaulter_margin as int));
}

proof fn lemma_total_capacity(cfg: WaterfallConfig)
    requires
        forall|k: int| 0 <= k < 5 ==> spec_capacity(cfg, k) >= 0,
    ensures
        spec_total_capacity(cfg) == if capacity_sum(cfg) > i64::MAX {
            i64::MAX as int
        } else {
            capacity_sum(cfg)
        },
{
    assert(spec_capacity(cfg, 0) >= 0);
    assert(spec_capacity(cfg, 1) >= 0);
    assert(spec_capacity(cfg, 2) >= 0);
    assert(spec_capacity(cfg, 3) >= 0);
    assert(spec_capacity(cfg, 4) >= 0);
    let s1 = sat_add(cfg.defaulter_margin, cfg.defaulter_fund);
    let s2 = sat_add(s1, cfg.ccp_first_loss);
    let s3 = sat_add(s2, cfg.members_fund);
    let p1 = cfg.defaulter_margin + cfg.defaulter_fund;
    let p2 = p1 + cfg.ccp_first_loss;
    let p3 = p2 + cfg.members_fund;
    assert(s1 == if p1 > i64::MAX { i64::MAX as int } else { p1 });
    assert(s2 == if p2 > i64::MAX { i64::MAX as int } else { p2 });
    assert(s3 == if p3 > i64::MAX { i64::MAX as int } else { p3 });
}

/// The waterfall accounts for every tick of a non-negative loss when all
/// layer capacities are non-negative: what the layers absorb plus the shortfall is
/// the loss; each layer absorbs between zero and its capacity; the remaining
/// loss never grows from one layer to the next; a layer is only tapped once
/// the layer before it is exhausted; and the loss is fully covered exactly
/// when it does not exceed the total capacity, the shortfall being the
/// excess.
pub proof fn law_waterfall_accounting(cfg: WaterfallConfig, loss: i64, r: WaterfallResult)
    requires
        loss >= 0,
        forall|k: int| 0 <= k < 5 ==> spec_capacity(cfg, k) >= 0,
        absorb_fits(cfg, loss),
        absorb_spec(cfg, loss, r),
    ensures
        r.total_absorbed + r.shortfall == loss,
        r.shortfall == if loss <= capacity_sum(cfg) {
            0
        } else {
            loss - capacity_sum(cfg)
        },
        r.fully_covered <==> loss <= spec_total_capacity(cfg),
        r.layers@.len() == 5,
        forall|k: int| 0 <= k < 5 ==> 0 <= #[trigger] r.layers@[k].absorbed <= r.layers@[k].capacity,
        forall|k: int| 0 <= k < 4 ==> #[trigger] r.layers@[k + 1].remaining_after <= r.layers@[k].remaining_after,
        r.layers@[0].remaining_after <= loss,
        forall|k: int| 0 <= k < 4 && #[trigger] r.layers@[k + 1].absorbed > 0 ==> r.layers@[k].absorbed == r.layers@[k].capacity,
{
    lemma_total_capacity(cfg);
    if loss == 0 {
        let z = spec_zero_layers(cfg);
        assert(spec_capacity(cfg, 0) >= 0);
        assert(spec_capacity(cfg, 1) >= 0);
        assert(spec_capacity(cfg, 2) >= 0);
        assert(spec_capacity(cfg, 3) >= 0);
        assert(spec_capacity(cfg, 4) >= 0);
        assert forall|k: int| 0 <= k < 5 implies 0 <= #[trigger] r.layers@[k].absorbed <= r.layers@[k].capacity by {
            assert(r.layers@[k] == z[k]);
        }
        assert forall|k: int| 0 <= k < 4 implies #[trigger] r.layers@[k + 1].remaining_after <= r.layers@[k].remaining_after by {
            assert(r.layers@[k] == z[k]);
            assert(r.layers@[k + 1] == z[k + 1]);
        }
        assert(r.layers@[0] == z[0]);
        assert forall|k: int| 0 <= k < 4 && #[trigger] r.layers@[k + 1].absorbed > 0 implies r.layers@[k].absorbed == r.layers@[k].capacity by {
            assert(r.layers@[k + 1] == z[k + 1]);
        }
    } else {
        lemma_remaining(cfg, loss as int);
        let l = spec_layers(cfg, loss as int);
        assert forall|k: int| 0 <= k < 5 implies 0 <= #[trigger] r.layers@[k].absorbed <= r.layers@[k].capacity by {
            assert(r.layers@[k] == l[k]);
            assert(remaining_after(cfg, loss as int, (k + 1) as nat) <= remaining_after(cfg, loss as int, k as nat));
            assert(0 <= remaining_after(cfg, loss as int, k as nat));
            assert(i64::MIN <= remaining_after(cfg, loss as int, k as nat) <= i64::MAX);
        }
        assert forall|k: int| 0 <= k < 4 implies #[trigger] r.layers@[k + 1].remaining_after <= r.layers@[k].remaining_after by {
            assert(r.layers@[k] == l[k]);
            assert(r.layers@[k + 1] == l[k + 1]);
            assert(remaining_after(cfg, loss as int, (k + 2) as nat) <= remaining_after(cfg, loss as int, (k + 1) as nat));
            assert(i64::MIN <= remaining_after(cfg, loss as int, (k + 1) as nat) <= i64::MAX);
            assert(i64::MIN <= remaining_after(cfg, loss as int, (k + 2) as nat) <= i64::MAX);
        }
        assert(r.layers@[0] == l[0]);
        assert(remaining_after(cfg, loss as int, 1) <= remaining_after(cfg, loss as int, 0));
        assert(0 <= remaining_after(cfg, loss as int, 1));
        assert forall|k: int| 0 <= k < 4 && #[trigger] r.layers@[k + 1].absorbed > 0 implies r.layers@[k].absorbed == r.layers@[k].capacity by {
            assert(r.layers@[k] == l[k]);
            assert(r.layers@[k + 1] == l[k + 1]);
            let before = remaining_after(cfg, loss as int, k as nat);
            let cap = spec_capacity(cfg, k) as int;
            assert(remaining_after(cfg, loss as int, (k + 1) as nat) == before - absorbed_by(before, cap));
            assert(i64::MIN <= before <= i64::MAX);
            assert(0 <= remaining_after(cfg, loss as int, (k + 1) as nat));
            assert(i64::MIN <= remaining_after(cfg, loss as int, (k + 1) as nat) <= i64::MAX);
            if before <= cap {
                assert(remaining_after(cfg, loss as int, (k + 1) as nat) == 0);
                assert(absorbed_by(0, spec_capacity(cfg, k + 1) as int) == 0);
            }
        }
    }
}

} // verus!
