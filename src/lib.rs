//! A discrete-event simulator of payments routed over a balance-constrained
//! payment-channel network.
//!
//! The verified core holds the time-ordered event queue, the invoice
//! registry, the payment and shard model, the attempt/split state machine
//! of the simulation engine and the projections of its results.
use vstd::prelude::*;

pub mod event;
pub mod graph;
pub mod invoices;
pub mod io;
pub mod sim;
pub mod stats;
pub mod payment;

verus! {

/// Identifier of a node of the network.
pub type ID = String;

/// Identifier of a payment, unique within one run.
pub type PaymentId = usize;

/// Simulated seconds between two consecutive scheduled payments.
pub const SIM_DELAY_IN_SECS: u64 = 120;

/// Smallest amount a shard of a split payment may carry.
pub const MIN_SHARD_AMT: usize = 10;

/// What the pathfinding service optimises routes for.
#[derive(Debug, Clone, Copy, PartialEq, Eq, Structural)]
pub enum RoutingMetric {
    MinFee,
    MaxProb,
}

/// Whether a payment is sent whole, or may be split into shards.
#[derive(Debug, Clone, Copy, PartialEq, Eq, Structural)]
pub enum PaymentParts {
    Single,
    Split,
}

/// A routing metric together with a payment-parts mode: one scenario.
#[derive(Debug, Clone, Copy, PartialEq, Eq, Structural)]
pub enum WeightPartsCombi {
    MinFeeSingle,
    MinFeeMulti,
    MaxProbSingle,
    MaxProbMulti,
}

} // verus!
