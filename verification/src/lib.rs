//! A local mail-capture store: captured messages live in per-recipient
//! mailboxes on a modelled directory tree, and every stored message is
//! announced to observers.

use vstd::prelude::*;

pub mod api;
pub mod bus;
pub mod clock;
pub mod disk;
pub mod error;
pub mod ingest;
pub mod laws;
pub mod mail;
pub mod mime;
pub mod text;

verus! {

/// The announcement of one message to the observers: its summary and the
/// mailbox that received it.
#[derive(Debug, Clone)]
pub struct QueueItem {
    pub obj: api::MailboxItem,
    pub receiver: String,
}

/// The settings of the service.
#[derive(Debug, Clone)]
pub struct Args {
    /// The address on which mail is accepted.
    pub listen_mail: String,
    /// The address on which the viewer is served.
    pub listen_http: String,
    /// The directory of the mailboxes.
    pub mailboxes: String,
    /// The directory of the viewer's files.
    pub files: String,
}

} // verus!
