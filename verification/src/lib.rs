//! Post-trade settlement, netting and clearing engine.
//!
//! | Module | Contents |
//! |--------|----------|
//! | `trade` | `Trade` and its `SettlementStatus` lifecycle |
//! | `netting` | bilateral netting and multilateral cycle cancellation |
//! | `cycles` | cycle search and cancellation in an obligation graph |
//! | `positions` | net positions and gross exposure kept by multilateral netting |
//! | `clearing` | `ClearingHouse` account balances and obligation transfer |
//! | `margin` | integer parts of SPAN-style margin (exposure, totals, fingerprint) |
//! | `waterfall` | five-layer default waterfall |
//! | `journal` | append-only settlement journal |
//! | `replay` | replay logs built from a journal and their comparison |
//! | `collateral` | collateral accounts, haircuts and concentration limits |
//! | `merkle_trail` | canonical byte layout of settlement audit events |
//! | `hash` | FNV-1a content hashing and little-endian encoding |

pub mod hash;
pub mod trade;
pub mod netting;
pub mod cycles;
pub mod positions;
pub mod clearing;
pub mod waterfall;
pub mod journal;
pub mod replay;
pub mod collateral;
pub mod margin;
pub mod merkle_trail;

pub use clearing::{ClearingAccount, ClearingError, ClearingHouse, ClearingResult};
pub use collateral::{
    check_concentration, CollateralAccount, CollateralHolding, CollateralType, ConcentrationBreach,
    ConcentrationLimits, HaircutConfig,
};
pub use journal::{JournalEntry, JournalEvent, SettlementJournal};
pub use margin::MarginRequirement;
pub use merkle_trail::SettlementEventKind;
pub use netting::{multilateral_net, NetObligation, NettingEngine};
pub use replay::{ReplayDiscrepancy, ReplayResult, ReplayStep, ReplayVerifier};
pub use trade::{SettlementStatus, Trade};
pub use waterfall::{
    DefaultWaterfall, LayerAbsorption, WaterfallConfig, WaterfallLayer, WaterfallResult,
};
