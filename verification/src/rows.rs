//! The rows of the tables, in the texts and numbers under which they are stored.

use crate::ledger::{LoggedTransfer, StoredBalance};
use vstd::prelude::*;

verus! {

/// A row of the event log, as it is stored.
#[derive(Debug)]
pub struct TransferRow {
    pub block_number: u64,
    pub from_addr: String,
    pub to_addr: String,
    pub value: String,
}

impl View for TransferRow {
    type V = LoggedTransfer;

    open spec fn view(&self) -> LoggedTransfer {
        LoggedTransfer {
            block: self.block_number,
            from: self.from_addr@,
            to: self.to_addr@,
            value: self.value@,
        }
    }
}

impl TransferRow {
    /// Whether a rollback to `fork_block` keeps the row.
    pub fn survives(&self, fork_block: u64) -> (kept: bool)
        ensures
            kept == (self@.block <= fork_block),
    {
        self.block_number <= fork_block
    }
}

/// The log that rows make.
pub open spec fn log_of(rows: Seq<TransferRow>) -> Seq<LoggedTransfer> {
    rows.map_values(|row: TransferRow| row@)
}

/// A row of the balance table, as it is stored.
#[derive(Debug)]
pub struct BalanceRow {
    pub address: String,
    pub balance: String,
    pub last_updated_block: u64,
}

impl BalanceRow {
    /// What the row holds beside its address.
    pub open spec fn stored(self) -> StoredBalance {
        StoredBalance { amount: self.balance@, block: self.last_updated_block }
    }
}

} // verus!
