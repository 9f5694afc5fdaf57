//! Integer parts of SPAN-style margin: exposure aggregation, worst stress
//! loss, the combined requirement and its fingerprint. The rate and shock
//! multiplications are floating point and are done by the caller.
use vstd::prelude::*;

use crate::hash::{hash_pair, pair_bytes, spec_fnv1a};
use crate::netting::NetObligation;
use crate::waterfall::{sat_add, saturating_add};

verus! {

/// Computed margin requirement for an account.
#[derive(Debug, Clone, Copy, PartialEq, Eq, Structural)]
pub struct MarginRequirement {
    /// Account for which margin was computed.
    pub account_id: u64,
    /// Initial margin component (notional × rate).
    pub initial_margin: i64,
    /// Variation margin component (mark-to-market exposure × rate).
    pub variation_margin: i64,
    /// Worst-case stress margin across all configured scenarios.
    pub stress_margin: i64,
    /// Total required margin: max(initial + variation, stress, floor).
    pub total_margin: i64,
    /// Deterministic content hash.
    pub content_hash: u64,
}

/// Subtraction clamped to the `i64` range.
pub open spec fn sat_sub(a: i64, b: i64) -> i64 {
    if a - b > i64::MAX {
        i64::MAX
    } else if a - b < i64::MIN {
        i64::MIN
    } else {
        (a - b) as i64
    }
}

/// Magnitude of a payment.
pub open spec fn abs_i64(v: i64) -> int {
    if v < 0 {
        -v
    } else {
        v as int
    }
}

/// Notional of a single obligation: the magnitude of its payment as `i64`
/// (the magnitude of `i64::MIN` wraps back to `i64::MIN`).
pub open spec fn spec_obligation_notional(payment: i64) -> i64 {
    if payment == i64::MIN {
        i64::MIN
    } else {
        abs_i64(payment) as i64
    }
}

/// Exposure of `account` over the obligations: (total notional, net
/// exposure). A delivered obligation adds its payment's magnitude to the
/// notional and subtracts the payment from the exposure; a received one adds
/// both; others are ignored. Every step saturates at the `i64` bounds.
pub open spec fn spec_exposure(account: u64, obs: Seq<NetObligation>) -> (i64, i64)
    decreases obs.len(),
{
    if obs.len() == 0 {
        (0, 0)
    } else {
        let (notional, net) = spec_exposure(account, obs.drop_last());
        let ob = obs.last();
        if ob.deliverer_id == account {
            (sat_add(notional, abs_i64(ob.net_payment) as i64), sat_sub(net, ob.net_payment))
        } else if ob.receiver_id == account {
            (sat_add(notional, abs_i64(ob.net_payment) as i64), sat_add(net, ob.net_payment))
        } else {
            (notional, net)
        }
    }
}

/// Whether no obligation of the account has the payment `i64::MIN`, whose
/// magnitude does not fit in `i64`.
pub open spec fn exposure_fits(account: u64, obs: Seq<NetObligation>) -> bool {
    forall|i: int|
        0 <= i < obs.len() && (obs[i].deliverer_id == account || obs[i].receiver_id == account)
            ==> #[trigger] obs[i].net_payment != i64::MIN
}

/// Largest loss `|shocked - notional|` over the shocked notionals, and 0 when
/// there are none.
pub open spec fn spec_worst_loss(notional: i64, shocked: Seq<i64>) -> int
    decreases shocked.len(),
{
    if shocked.len() == 0 {
        0
    } else {
        let w = spec_worst_loss(notional, shocked.drop_last());
        let loss = abs_int(shocked.last() - notional);
        if loss > w {
            loss
        } else {
            w
        }
    }
}

/// Magnitude of an integer.
pub open spec fn abs_int(v: int) -> int {
    if v < 0 {
        -v
    } else {
        v
    }
}

/// Whether every `|shocked - notional|` fits in `i64`.
pub open spec fn losses_fit(notional: i64, shocked: Seq<i64>) -> bool {
    forall|i: int| 0 <= i < shocked.len() ==> abs_int(#[trigger] shocked[i] - notional) <= i64::MAX
}

/// Total required margin: the larger of initial plus variation (saturating),
/// the stress margin and the floor.
pub open spec fn spec_total_margin(initial: i64, variation: i64, stress: i64, floor: i64) -> i64 {
    let base = sat_add(initial, variation);
    let m = if base >= stress {
        base
    } else {
        stress
    };
    if m >= floor {
        m
    } else {
        floor
    }
}

/// Notional of a single obligation.
pub fn obligation_notional(payment: i64) -> (n: i64)
    ensures
        n == spec_obligation_notional(payment),
{
    if payment == i64::MIN {
        i64::MIN
    } else if payment < 0 {
        -payment
    } else {
        payment
    }
}

fn saturating_sub(a: i64, b: i64) -> (r: i64)
    ensures
        r == sat_sub(a, b),
{
    let s = (a as i128) - (b as i128);
    if s > i64::MAX as i128 {
        i64::MAX
    } else if s < i64::MIN as i128 {
        i64::MIN
    } else {
        s as i64
    }
}

/// Aggregate the exposure of `account_id` over `obligations`: obligations
/// where the account is deliverer contribute short exposure; obligations where
/// the account is receiver contribute long exposure.
pub fn portfolio_exposure(account_id: u64, obligations: &[NetObligation]) -> (r: (i64, i64))
    requires
        exposure_fits(account_id, obligations@),
    ensures
        r == spec_exposure(account_id, obligations@),
{
    let mut total_notional: i64 = 0;
    let mut net_exposure: i64 = 0;
    let n = obligations.len();
    let mut i: usize = 0;
    while i < n
        invariant
            n == obligations@.len(),
            i <= n,
            exposure_fits(account_id, obligations@),
            (total_notional, net_exposure) == spec_exposure(account_id, obligations@.take(i as int)),
        decreases n - i,
    {
        assert(obligations@.take(i + 1).drop_last() =~= obligations@.take(i as int));
        let ob = obligations[i];
        if ob.deliverer_id == account_id {
            assert(obligations@[i as int].net_payment != i64::MIN);
            let mag = if ob.net_payment < 0 {
                -ob.net_payment
            } else {
                ob.net_payment
            };
            total_notional = saturating_add(total_notional, mag);
            net_exposure = saturating_sub(net_exposure, ob.net_payment);
        } else if ob.receiver_id == account_id {
            assert(obligations@[i as int].net_payment != i64::MIN);
            let mag = if ob.net_payment < 0 {
                -ob.net_payment
            } else {
                ob.net_payment
            };
            total_notional = saturating_add(total_notional, mag);
            net_exposure = saturating_add(net_exposure, ob.net_payment);
        }
        i = i + 1;
    }
    assert(obligations@.take(n as int) =~= obligations@);
    (total_notional, net_exposure)
}

/// Worst-case stress loss: the largest `|shocked - notional|` over the
/// notional shocked by each scenario, or 0 without scenarios.
pub fn worst_shock_loss(notional: i64, shocked: &[i64]) -> (w: i64)
    requires
        losses_fit(notional, shocked@),
    ensures
        w == spec_worst_loss(notional, shocked@),
        w >= 0,
{
    let mut worst: i64 = 0;
    let n = shocked.len();
    let mut i: usize = 0;
    while i < n
        invariant
            n == shocked@.len(),
            i <= n,
            losses_fit(notional, shocked@),
            worst == spec_worst_loss(notional, shocked@.take(i as int)),
            worst >= 0,
        decreases n - i,
    {
        assert(shocked@.take(i + 1).drop_last() =~= shocked@.take(i as int));
        assert(abs_int(shocked@[i as int] - notional) <= i64::MAX);
        let diff = (shocked[i] as i128) - (notional as i128);
        let loss = if diff < 0 {
            (-diff) as i64
        } else {
            diff as i64
        };
        if loss > worst {
            worst = loss;
        }
        i = i + 1;
    }
    assert(shocked@.take(n as int) =~= shocked@);
    worst
}

/// Total required margin: max(initial + variation, stress, floor).
pub fn combine_margin(initial: i64, variation: i64, stress: i64, floor: i64) -> (t: i64)
    ensures
        t == spec_total_margin(initial, variation, stress, floor),
{
    let base = saturating_add(initial, variation);
    let m = if base >= stress {
        base
    } else {
        stress
    };
    if m >= floor {
        m
    } else {
        floor
    }
}

/// Fingerprint of a requirement: FNV-1a over the account id and the total,
/// both little-endian.
pub fn hash_requirement(account_id: u64, total: i64) -> (h: u64)
    ensures
        h == spec_fnv1a(pair_bytes(account_id, total as u64)),
{
    hash_pair(account_id, total as u64)
}

/// The margin required is never below the floor, the stress margin or the
/// (saturating) sum of initial and variation margin, and it equals one of them.
pub proof fn law_total_margin_dominates(initial: i64, variation: i64, stress: i64, floor: i64)
    ensures
        spec_total_margin(initial, variation, stress, floor) >= floor,
        spec_total_margin(initial, variation, stress, floor) >= stress,
        spec_total_margin(initial, variation, stress, floor) >= sat_add(initial, variation),
        spec_total_margin(initial, variation, stress, floor) == floor || spec_total_margin(
            initial,
            variation,
            stress,
            floor,
        ) == stress || spec_total_margin(initial, variation, stress, floor) == sat_add(
            initial,
            variation,
        ),
{
}


/// The notional of a payment is its magnitude: never negative, and equal to
/// the payment or to its negation (`i64::MIN`, whose magnitude does not fit,
/// wraps to itself).
pub proof fn law_notional_is_magnitude(payment: i64)
    ensures
        payment != i64::MIN ==> spec_obligation_notional(payment) >= 0,
        payment != i64::MIN ==> (spec_obligation_notional(payment) == payment
            || spec_obligation_notional(payment) == -payment),
        payment == i64::MIN ==> spec_obligation_notional(payment) == i64::MIN,
{
}

/// The total notional of an account's exposure is never negative, and an
/// obligation in which the account takes no part leaves its exposure as it is.
pub proof fn law_exposure_notional_non_negative(account: u64, obs: Seq<NetObligation>, ob: NetObligation)
    requires
        exposure_fits(account, obs),
    ensures
        spec_exposure(account, obs).0 >= 0,
        ob.deliverer_id != account && ob.receiver_id != account ==> spec_exposure(account, obs.push(ob))
            == spec_exposure(account, obs),
    decreases obs.len(),
{
    if obs.len() > 0 {
        let d = obs.drop_last();
        assert forall|i: int|
            0 <= i < d.len() && (d[i].deliverer_id == account || d[i].receiver_id == account) implies #[trigger] d[i].net_payment
            != i64::MIN by {
            assert(d[i] == obs[i]);
        }
        law_exposure_notional_non_negative(account, d, ob);
        assert(obs[obs.len() - 1] == obs.last());
    }
    assert(obs.push(ob).drop_last() =~= obs);
}

/// The worst stress loss is at least the loss of every scenario and is the
/// loss of one of them (0 without scenarios).
pub proof fn law_worst_loss_is_maximum(notional: i64, shocked: Seq<i64>)
    ensures
        spec_worst_loss(notional, shocked) >= 0,
        forall|i: int| 0 <= i < shocked.len() ==> spec_worst_loss(notional, shocked) >= abs_int(#[trigger] shocked[i] - notional),
        shocked.len() == 0 ==> spec_worst_loss(notional, shocked) == 0,
        shocked.len() > 0 ==> exists|i: int| 0 <= i < shocked.len() && spec_worst_loss(notional, shocked) == abs_int(#[trigger] shocked[i] - notional),
    decreases shocked.len(),
{
    if shocked.len() > 0 {
        let d = shocked.drop_last();
        law_worst_loss_is_maximum(notional, d);
        assert forall|i: int| 0 <= i < shocked.len() implies spec_worst_loss(notional, shocked) >= abs_int(#[trigger] shocked[i] - notional) by {
            if i < d.len() {
                assert(shocked[i] == d[i]);
            }
        }
        let l = abs_int(shocked.last() - notional);
        if l > spec_worst_loss(notional, d) {
            assert(shocked[shocked.len() - 1] == shocked.last());
        } else if d.len() > 0 {
            let i = choose|i: int| 0 <= i < d.len() && spec_worst_loss(notional, d) == abs_int(#[trigger] d[i] - notional);
            assert(shocked[i] == d[i]);
        } else {
            assert(shocked[0] == shocked.last());
        }
    }
}

} // verus!
