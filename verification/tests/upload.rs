use sn_cli::address::{Address, AddressError};
use sn_cli::chunks::ChunkRef;
use sn_cli::commands::{
    default_download_batch_size, download_request, CommandError, DownloadRequest, FilesCmds,
    DEFAULT_MAX_RETRIES,
};
use sn_cli::error::UploadError;
use sn_cli::scheduler::WorkerOutcome;
use sn_cli::upload::check_wallet;
use sn_cli::worker::{after_put, after_read, AfterRead, WorkerReport};
use std::path::PathBuf;

fn chunk() -> ChunkRef {
    ChunkRef { address: Address([3; 32]), path: PathBuf::from("/store/chunks/03") }
}

#[test]
fn empty_wallet_is_refused() {
    assert_eq!(check_wallet(0), Err(UploadError::WalletEmpty));
    assert_eq!(check_wallet(1), Ok(()));
    assert_eq!(check_wallet(u64::MAX), Ok(()));
    assert_eq!(
        UploadError::WalletEmpty.message(),
        "The wallet is empty. Cannot upload any files! Please transfer some funds into the wallet"
    );
}

#[test]
fn chunk_missing_on_disk_counts_as_stored() {
    assert_eq!(
        after_read(&chunk(), false),
        AfterRead::Finish(WorkerReport {
            outcome: WorkerOutcome::Stored(Address([3; 32])),
            progress: 0,
            missing: true
        })
    );
    assert_eq!(after_read(&chunk(), true), AfterRead::Submit);
}

#[test]
fn worker_reports_what_the_network_said() {
    assert_eq!(
        after_put(&chunk(), true),
        WorkerReport { outcome: WorkerOutcome::Stored(Address([3; 32])), progress: 1, missing: false }
    );
    assert_eq!(
        after_put(&chunk(), false),
        WorkerReport { outcome: WorkerOutcome::Failed(Address([3; 32])), progress: 0, missing: false }
    );
}

#[test]
fn download_without_arguments_fetches_all() {
    assert_eq!(download_request(None, None), Ok(DownloadRequest::All));
}

#[test]
fn download_with_both_arguments_fetches_one() {
    let hex = "0a".repeat(32);
    assert_eq!(
        download_request(Some("a.txt".to_string()), Some(hex)),
        Ok(DownloadRequest::One { name: "a.txt".to_string(), address: Address([10; 32]) })
    );
}

#[test]
fn download_with_one_argument_is_refused() {
    assert_eq!(
        download_request(Some("a.txt".to_string()), None),
        Err(CommandError::NameWithoutAddress)
    );
    assert_eq!(download_request(None, Some("0a".repeat(32))), Err(CommandError::NameWithoutAddress));
}

#[test]
fn download_with_a_bad_address_is_refused() {
    assert_eq!(
        download_request(Some("a".to_string()), Some("xyz".to_string())),
        Err(CommandError::BadAddress(AddressError::NotHex))
    );
    assert_eq!(
        download_request(Some("a".to_string()), Some("0a0b".to_string())),
        Err(CommandError::BadAddress(AddressError::WrongLength { bytes: 2 }))
    );
}

#[test]
fn defaults() {
    assert_eq!(DEFAULT_MAX_RETRIES, 3);
    assert_eq!(default_download_batch_size(64), 16);
    assert_eq!(default_download_batch_size(3), 0);
    let upload = FilesCmds::Upload {
        path: PathBuf::from("/tmp/x.bin"),
        batch_size: 4,
        show_holders: false,
        max_retries: DEFAULT_MAX_RETRIES,
    };
    assert_eq!(upload.clone(), upload);
}

#[test]
fn messages() {
    assert_eq!(
        UploadError::NotEnoughBalance { available: 12, required: 3400 }.message(),
        "Not enough balance in wallet to pay for chunk. We have 12 but need 3400 to pay for the chunk"
    );
    assert_eq!(
        UploadError::Payment("no route".to_string()).message(),
        "Failed to upload chunk batch: no route"
    );
    assert_eq!(UploadError::CostOverflow.message(), "Unable to add cost to total cost");
    assert_eq!(UploadError::WorkerCrashed.message(), "An upload worker ended without a result");
    assert_eq!(
        UploadError::UnexpectedEvent.message(),
        "The scheduler was handed an event it did not ask for"
    );
    assert_eq!(
        UploadError::RoyaltiesOverflow.message(),
        "Unable to add cost to total royalties fees"
    );
    assert_eq!(
        UploadError::TooManyPaymentFails { fails: 18446744073709551615 }.message(),
        "Too many sequential payment failures (18446744073709551615). Aborting upload process."
    );
}
