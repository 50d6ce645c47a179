//! The model of the index: an event log, the balances that follow from it, and the highest
//! processed block.

use crate::primitives::{saturated_difference, saturated_sum};
use crate::text::{address_text, amount_limit, amount_of, decimal, logged_value};
use vstd::prelude::*;

verus! {

/// A transfer of tokens, as it happened on chain.
#[verifier::ext_equal]
pub struct Transfer {
    pub block: u64,
    pub from: Seq<u8>,
    pub to: Seq<u8>,
    pub value: nat,
}

/// A row of the event log: a transfer in the texts under which it is stored.
#[verifier::ext_equal]
pub struct LoggedTransfer {
    pub block: u64,
    pub from: Seq<char>,
    pub to: Seq<char>,
    pub value: Seq<char>,
}

/// What the balance table holds for an address: the balance, as a text, and the block of the last
/// change.
#[verifier::ext_equal]
pub struct StoredBalance {
    pub amount: Seq<char>,
    pub block: u64,
}

/// The balance table, by the text of the address.
pub type Balances = Map<Seq<char>, StoredBalance>;

/// The three tables of the index.
#[verifier::ext_equal]
pub struct Tables {
    pub transfers: Seq<LoggedTransfer>,
    pub balances: Balances,
    pub last_block: Option<u64>,
}

/// The row that the log holds for a transfer.
pub open spec fn logged(t: Transfer) -> LoggedTransfer {
    LoggedTransfer {
        block: t.block,
        from: address_text(t.from),
        to: address_text(t.to),
        value: decimal(t.value),
    }
}

/// The rows that the log holds for some transfers.
pub open spec fn logged_all(ts: Seq<Transfer>) -> Seq<LoggedTransfer> {
    ts.map_values(|t: Transfer| logged(t))
}

/// The balance of the address with text `key`: zero where the table has no row for it, or one
/// that cannot be read.
pub open spec fn balance(balances: Balances, key: Seq<char>) -> nat {
    if balances.contains_key(key) {
        amount_of(balances[key].amount)
    } else {
        0
    }
}

/// The table with the balance of `key` set.
pub open spec fn with_balance(balances: Balances, key: Seq<char>, amount: nat, block: u64) -> Balances {
    balances.insert(key, StoredBalance { amount: decimal(amount), block })
}

/// The table after one transfer: its value is taken from the sender, then given to the receiver.
/// A balance goes neither below zero nor above the largest amount.
pub open spec fn moved(balances: Balances, t: Transfer) -> Balances {
    let from = address_text(t.from);
    let to = address_text(t.to);
    let debited = with_balance(
        balances,
        from,
        saturated_difference(balance(balances, from), t.value),
        t.block,
    );
    with_balance(debited, to, saturated_sum(balance(debited, to), t.value), t.block)
}

/// The table after some transfers, in order.
pub open spec fn patched(balances: Balances, ts: Seq<Transfer>) -> Balances
    decreases ts.len(),
{
    if ts.len() == 0 {
        balances
    } else {
        moved(patched(balances, ts.drop_last()), ts.last())
    }
}

/// What one row of the log gives to `key`, less what it takes from it.
pub open spec fn flow(r: LoggedTransfer, key: Seq<char>) -> int {
    let given = if r.to == key {
        logged_value(r.value)
    } else {
        0
    };
    let taken = if r.from == key {
        logged_value(r.value)
    } else {
        0
    };
    given - taken
}

/// What `log` leaves to `key`, with no bound in either direction.
pub open spec fn net(log: Seq<LoggedTransfer>, key: Seq<char>) -> int
    decreases log.len(),
{
    if log.len() == 0 {
        0
    } else {
        net(log.drop_last(), key) + flow(log.last(), key)
    }
}

/// The highest block in which `log` moves anything from or to `key`; 0 where it moves nothing.
pub open spec fn latest(log: Seq<LoggedTransfer>, key: Seq<char>) -> u64
    decreases log.len(),
{
    if log.len() == 0 {
        0
    } else {
        let before = latest(log.drop_last(), key);
        let r = log.last();
        if (r.from == key || r.to == key) && r.block > before {
            r.block
        } else {
            before
        }
    }
}

/// The balance table that `log` leaves: a row for each address to which it gives more than
/// it takes.
pub open spec fn rebuilt(log: Seq<LoggedTransfer>) -> Balances {
    Map::new(
        |key: Seq<char>| net(log, key) > 0,
        |key: Seq<char>|
            StoredBalance { amount: decimal(net(log, key) as nat), block: latest(log, key) },
    )
}

/// Whether `log` leaves some address more than the largest amount.
pub open spec fn overflows(log: Seq<LoggedTransfer>) -> bool {
    exists|key: Seq<char>| #[trigger] net(log, key) >= amount_limit()
}

/// The rows of `log` that a rollback to `fork_block` keeps: those of no later block.
pub open spec fn survivors(log: Seq<LoggedTransfer>, fork_block: u64) -> Seq<LoggedTransfer> {
    log.filter(|r: LoggedTransfer| r.block <= fork_block)
}

/// The tables after transfers were appended.
pub open spec fn appended(tables: Tables, ts: Seq<Transfer>) -> Tables {
    Tables {
        transfers: tables.transfers + logged_all(ts),
        balances: patched(tables.balances, ts),
        last_block: tables.last_block,
    }
}

/// The tables after a rollback to `fork_block`.
pub open spec fn rolled_back(tables: Tables, fork_block: u64) -> Tables {
    Tables {
        transfers: survivors(tables.transfers, fork_block),
        balances: rebuilt(survivors(tables.transfers, fork_block)),
        last_block: tables.last_block,
    }
}

} // verus!
