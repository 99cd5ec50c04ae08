//! Why an upload stops before its end.

use crate::decimal::{decimal, decimal_text};
use vstd::prelude::*;
use vstd::string::StringExecFns;

verus! {

/// A failure that ends an upload.
#[derive(Clone, Debug, PartialEq, Eq)]
pub enum UploadError {
    /// The wallet holds nothing, so no chunk can be paid for.
    WalletEmpty,
    /// The wallet holds `available` but a batch costs `required`.
    NotEnoughBalance { available: u64, required: u64 },
    /// The transfers of `fails` batches in a row could not be verified.
    TooManyPaymentFails { fails: usize },
    /// The payment gateway failed in another way; its description.
    Payment(String),
    /// The total storage cost no longer fits its counter.
    CostOverflow,
    /// The total of royalties no longer fits its counter.
    RoyaltiesOverflow,
    /// An upload worker ended without a result.
    WorkerCrashed,
    /// The scheduler was handed an event that answers no request of its own.
    UnexpectedEvent,
}

impl UploadError {
    /// The sentence that tells a user of the failure.
    pub open spec fn text(self) -> Seq<char> {
        match self {
            UploadError::WalletEmpty =>
                "The wallet is empty. Cannot upload any files! Please transfer some funds into the wallet"@,
            UploadError::NotEnoughBalance { available, required } =>
                "Not enough balance in wallet to pay for chunk. We have "@ + decimal(available as nat)
                    + " but need "@ + decimal(required as nat) + " to pay for the chunk"@,
            UploadError::TooManyPaymentFails { fails } => "Too many sequential payment failures ("@
                + decimal(fails as nat) + "). Aborting upload process."@,
            UploadError::Payment(reason) => "Failed to upload chunk batch: "@ + reason@,
            UploadError::CostOverflow => "Unable to add cost to total cost"@,
            UploadError::RoyaltiesOverflow => "Unable to add cost to total royalties fees"@,
            UploadError::WorkerCrashed => "An upload worker ended without a result"@,
            UploadError::UnexpectedEvent => "The scheduler was handed an event it did not ask for"@,
        }
    }

    /// Writes the sentence that tells a user of the failure.
    pub fn message(&self) -> (message: String)
        ensures
            message@ == self.text(),
    {
        match self {
            UploadError::WalletEmpty => String::from_str(
                "The wallet is empty. Cannot upload any files! Please transfer some funds into the wallet",
            ),
            UploadError::NotEnoughBalance { available, required } => {
                let mut message = String::from_str(
                    "Not enough balance in wallet to pay for chunk. We have ",
                );
                message.append(decimal_text(*available).as_str());
                message.append(" but need ");
                message.append(decimal_text(*required).as_str());
                message.append(" to pay for the chunk");
                message
            },
            UploadError::TooManyPaymentFails { fails } => {
                let mut message = String::from_str("Too many sequential payment failures (");
                message.append(decimal_text(*fails as u64).as_str());
                message.append("). Aborting upload process.");
                message
            },
            UploadError::Payment(reason) => {
                let mut message = String::from_str("Failed to upload chunk batch: ");
                message.append(reason.as_str());
                message
            },
            UploadError::CostOverflow => String::from_str("Unable to add cost to total cost"),
            UploadError::RoyaltiesOverflow => String::from_str(
                "Unable to add cost to total royalties fees",
            ),
            UploadError::WorkerCrashed => String::from_str("An upload worker ended without a result"),
            UploadError::UnexpectedEvent => String::from_str(
                "The scheduler was handed an event it did not ask for",
            ),
        }
    }
}

} // verus!
