//! What the payment gateway reports for a batch, and the running totals of a run.

use crate::address::Address;
use vstd::prelude::*;

verus! {

/// How many batches in a row may fail to have their transfer verified before a run gives up.
pub const MAX_SEQUENTIAL_PAYMENT_FAILS: usize = 3;

/// Why the payment for a batch failed.
#[derive(Clone, Debug, PartialEq, Eq)]
pub enum PaymentError {
    /// The wallet holds `available` but the batch costs `required`.
    NotEnoughBalance { available: u64, required: u64 },
    /// The network could not confirm the transfer. No funds were spent; the batch can be
    /// paid for again.
    CouldNotVerifyTransfer,
    /// Any other failure of the wallet or the network, with its description.
    Other(String),
}

/// What the payment gateway answers for a batch that was paid for.
#[derive(Clone, Debug, PartialEq, Eq)]
pub struct PaymentReceipt {
    /// What storing the batch cost.
    pub storage_cost: u64,
    /// The royalties paid on top.
    pub royalties: u64,
    /// What the wallet holds after the payment.
    pub new_balance: u64,
    /// The chunks of the batch that the network already holds. They were not charged.
    pub skipped: Vec<Address>,
}

/// The sums of a run so far.
#[derive(Clone, Copy, Debug, PartialEq, Eq)]
pub struct Totals {
    /// The storage cost paid.
    pub cost: u64,
    /// The royalties paid.
    pub royalties: u64,
    /// What the wallet held after the last payment.
    pub balance: u64,
    /// How many chunks the network reported as already stored.
    pub existing_chunks: usize,
}

} // verus!
