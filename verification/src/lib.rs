//! The deciding half of a client that uploads files to a content-addressed storage network
//! in which every chunk is paid for.
//!
//! A file is split into chunks, each named by its address. The chunks are paid for and
//! stored batch by batch, with a bounded number of uploads under way at once; what fails
//! is tried again, and what an earlier run has stored is checked and not stored twice. A
//! manifest records under which address each uploaded file can be fetched.
//!
//! This library holds what such a client decides. It reads no file and speaks to no
//! network: whoever uses it does that, and hands over what was read or answered.
//!
//! - [`address`]: the addresses, their order and their hex form.
//! - [`chunks`]: the chunk manager, which knows the chunks of each file and which of them
//!   are stored.
//! - [`store`]: what is kept on disk between runs.
//! - [`upload`]: what an upload decides before the first payment.
//! - [`scheduler`]: the state machine that runs an upload, and [`trace`]: what holds of
//!   all its runs.
//! - [`worker`]: what a single upload decides.
//! - [`manifest`] and [`lines`]: the manifest of uploaded files.
//! - [`commands`], [`elapsed`], [`decimal`], [`error`], [`payment`]: the commands, the
//!   texts shown to the user, and the values that pass between the parts.

pub mod address;
pub mod chunks;
pub mod commands;
pub mod decimal;
pub mod elapsed;
pub mod error;
pub mod lines;
pub mod manifest;
pub mod payment;
pub mod scheduler;
pub mod store;
pub mod trace;
pub mod upload;
pub mod worker;
