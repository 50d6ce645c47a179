//! A verified index of USDC transfers and balances.
//!
//! The index has three tables: an append-only log of transfer events, the balances that follow
//! from it, and the highest processed block. It follows the canonical chain of an Ethereum node:
//! committed blocks patch the balances forward, and a reorganization rolls the tables back to the
//! fork and rebuilds the balances from the events that remain.
//!
//! * [`types`] decodes `Transfer` events.
//! * [`db`] keeps the tables.
//! * [`exex`] turns the notifications of the node into operations on the tables.
//! * [`ledger`] is the model in which the contracts speak.
//! * [`laws`] states what holds of the index as a whole, [`promises`] what the operations on the
//!   tables do, [`chains`] what is read from events, blocks and notifications, and [`numerals`] what
//!   the stored texts write.

pub mod chains;
pub mod db;
pub mod exex;
pub mod laws;
pub mod ledger;
pub mod numerals;
pub mod primitives;
pub mod promises;
pub mod rows;
pub mod table;
pub mod text;
mod total;
mod totals;
pub mod types;
pub mod values;

pub use db::{Database, TransferRecord};
pub use exex::UsdcIndexer;
