//! The commands on files and what they ask for.

use crate::address::{parsed_address, Address, AddressError};
use std::path::PathBuf;
use vstd::prelude::*;

verus! {

/// How many retry passes an upload makes unless told otherwise.
pub const DEFAULT_MAX_RETRIES: usize = 3;

/// The batch size of a download unless told otherwise: a quarter of that of an upload.
pub fn default_download_batch_size(upload_batch_size: usize) -> (batch_size: usize)
    ensures
        batch_size == upload_batch_size / 4,
{
    upload_batch_size / 4
}

/// A command on files.
#[derive(Clone, Debug, PartialEq, Eq)]
pub enum FilesCmds {
    Upload {
        /// The file or directory to upload.
        path: PathBuf,
        /// How many chunks are paid for at once, and how many workers run at once.
        batch_size: usize,
        /// Whether to show who holds the chunks.
        show_holders: bool,
        /// How many passes are made over the chunks that failed.
        max_retries: usize,
    },
    Download {
        /// The name for the downloaded file. Given together with the address, or not at all.
        file_name: Option<String>,
        /// The address of the file in hex. Given together with the name, or not at all.
        file_addr: Option<String>,
        /// Whether to show who holds the chunks.
        show_holders: bool,
        /// How many chunks are fetched at once.
        batch_size: usize,
    },
}

/// What a download is asked to fetch.
#[derive(Clone, Debug, PartialEq, Eq)]
pub enum DownloadRequest {
    /// Every file of the manifest.
    All,
    /// The file at `address`, to be saved as `name`.
    One { name: String, address: Address },
}

/// Why a command cannot be carried out.
#[derive(Clone, Copy, Debug, PartialEq, Eq)]
pub enum CommandError {
    /// Of the name and the address of a download only one was given.
    NameWithoutAddress,
    /// The address of a download is not an address.
    BadAddress(AddressError),
}

/// Reads what a download is asked to fetch from its two optional arguments: with neither,
/// all files; with both, the one file; with one alone, nothing.
pub fn download_request(file_name: Option<String>, file_addr: Option<String>) -> (request: Result<
    DownloadRequest,
    CommandError,
>)
    ensures
        match (file_name, file_addr) {
            (None, None) => request matches Ok(DownloadRequest::All),
            (Some(name), Some(text)) => match parsed_address(vstd::utf8::encode_utf8(text@)) {
                Ok(address) => request matches Ok(DownloadRequest::One { name: n, address: a }) && n
                    == name && a == address,
                Err(error) => request == Err::<DownloadRequest, CommandError>(
                    CommandError::BadAddress(error),
                ),
            },
            _ => request == Err::<DownloadRequest, CommandError>(CommandError::NameWithoutAddress),
        },
{
    match (file_name, file_addr) {
        (None, None) => Ok(DownloadRequest::All),
        (Some(name), Some(text)) => match Address::from_hex(text.as_str().as_bytes()) {
            Ok(address) => Ok(DownloadRequest::One { name, address }),
            Err(error) => Err(CommandError::BadAddress(error)),
        },
        _ => Err(CommandError::NameWithoutAddress),
    }
}

} // verus!
