use vstd::prelude::*;

verus! {

/// Settlement lifecycle state for a trade.
#[derive(Debug, Clone, Copy, PartialEq, Eq, Structural)]
pub enum SettlementStatus {
    /// Trade confirmed, awaiting settlement.
    Pending,
    /// Netting applied, awaiting clearing.
    Netted,
    /// Clearing house has accepted.
    Cleared,
    /// Final settlement complete.
    Settled,
    /// Settlement failed (insufficient funds, etc.).
    Failed,
}

/// A confirmed trade between two counterparties, derived from matching fills.
#[derive(Debug, Clone, PartialEq, Eq, Structural)]
pub struct Trade {
    /// Unique trade identifier.
    pub trade_id: u64,
    /// Symbol hash (FNV-derived).
    pub symbol_hash: u64,
    /// Buyer account identifier.
    pub buyer_id: u64,
    /// Seller account identifier.
    pub seller_id: u64,
    /// Execution price in ticks.
    pub price: i64,
    /// Trade quantity in lots.
    pub quantity: u64,
    /// Execution timestamp (nanoseconds since Unix epoch).
    pub timestamp_ns: u64,
    /// Settlement status.
    pub status: SettlementStatus,
}

/// The status encoded by a numeric code: 0 to 3 name the first four states
/// in lifecycle order, every other code means `Failed`.
pub open spec fn status_of_code(v: u8) -> SettlementStatus {
    if v == 0 {
        SettlementStatus::Pending
    } else if v == 1 {
        SettlementStatus::Netted
    } else if v == 2 {
        SettlementStatus::Cleared
    } else if v == 3 {
        SettlementStatus::Settled
    } else {
        SettlementStatus::Failed
    }
}

/// Decode a numeric status code, as used at the C boundary.
pub fn status_from_u8(v: u8) -> (s: SettlementStatus)
    ensures
        s == status_of_code(v),
{
    match v {
        0 => SettlementStatus::Pending,
        1 => SettlementStatus::Netted,
        2 => SettlementStatus::Cleared,
        3 => SettlementStatus::Settled,
        _ => SettlementStatus::Failed,
    }
}

} // verus!
