//! Decision core of an on-chain market-making and liquidation agent.
//!
//! The library keeps the agent's view of the chain (pool reserves, position
//! health, activity), decides on each clock tick which refreshes are due,
//! finds profitable opportunities, sizes a gas bid against a fixed budget and
//! guards the submission channel against duplicate or stale submissions.
//! Everything that talks to a node, signs or sends is left to the caller.

pub mod activity;
pub mod budget;
pub mod evaluator;
pub mod gate;
pub mod pool_cache;
pub mod pool_utils;
pub mod positions;
pub mod safe_erc20;
pub mod schedule;
pub mod strategy;
pub mod table;
pub mod uint256;

pub use activity::{ActivityEntry, ActivityLedger};
pub use budget::{priority_fee_per_gas, size_bid, BudgetError, BudgetLedger, Reservation};
pub use evaluator::{evaluate, Opportunity};
pub use gate::{AdmissionToken, GateError, InFlight, Outcome, SubmissionGate};
pub use pool_cache::{CalcKind, PoolReading, PoolRecord, PoolStateCache, ReadError, RefreshKind};
pub use pool_utils::{
    decode_uint256_return, reading_from_words, DecodeError, IGNORE_CALC_AVAILABLECall, IGNORE_CALC_AVAILABLEReturn,
    IGNORE_CALC_LOANCall, IGNORE_CALC_LOANReturn, MINIMUM_LIQUIDITYCall, MINIMUM_LIQUIDITYReturn, PoolUtilsCalls,
};
pub use positions::{PositionError, PositionInput, PositionRecord, PositionTracker};
pub use safe_erc20::{SafeERC20Errors, SafeERC20FailedDecreaseAllowance, SafeERC20FailedOperation};
pub use schedule::Timer;
pub use strategy::{Config, ConfigError, MmStrategy, Submission, TickPlan};
pub use table::KeyTable;
pub use uint256::Uint256;
