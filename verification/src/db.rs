//! The tables of the index, and the operations that keep them.
//!
//! The event log is append-only between rollbacks and is the source of truth. The balance table is
//! derived from it: appended transfers patch it forward, a rollback rebuilds it from the rows of
//! the log that remain.

use crate::ledger::{
    appended, balance, logged, logged_all, overflows, patched, rebuilt, rolled_back, survivors,
    Balances, LoggedTransfer, Tables, Transfer,
};
use crate::primitives::{amount_or_zero, Address, U256};
use crate::rows::{log_of, BalanceRow, TransferRow};
use crate::table::{table_of, BalanceTable};
use crate::text::{address_text, parsed};
use crate::totals::Totals;
use vstd::prelude::*;

verus! {

/// Why the database could not answer or act.
#[derive(Clone, Copy, Debug, PartialEq, Eq, Structural)]
pub enum DbError {
    /// The stored balance is no number.
    InvalidBalance,
    /// A balance would be larger than the largest amount.
    BalanceOverflow,
}

/// A single ERC-20 transfer, to be appended to the event log.
#[derive(Clone, Copy, Debug)]
pub struct TransferRecord {
    pub block_number: u64,
    pub from_addr: Address,
    pub to_addr: Address,
    pub value: U256,
}

impl View for TransferRecord {
    type V = Transfer;

    open spec fn view(&self) -> Transfer {
        Transfer {
            block: self.block_number,
            from: self.from_addr.bytes@,
            to: self.to_addr.bytes@,
            value: self.value.value(),
        }
    }
}

/// The transfers that records tell of.
pub open spec fn transfers_of(records: Seq<TransferRecord>) -> Seq<Transfer> {
    records.map_values(|r: TransferRecord| r@)
}

/// The event log, the balance table and the highest fully processed block.
pub struct Database {
    transfers: Vec<TransferRow>,
    balances: BalanceTable,
    last_block: Option<u64>,
}

impl View for Database {
    type V = Tables;

    closed spec fn view(&self) -> Tables {
        Tables {
            transfers: log_of(self.transfers@),
            balances: self.balances@,
            last_block: self.last_block,
        }
    }
}

/// What the balance table answers for an address: nothing, a balance and the block of its last
/// change, or an error where the stored balance is no number.
pub open spec fn answer(balances: Balances, key: Seq<char>) -> Result<Option<(nat, u64)>, DbError> {
    if !balances.contains_key(key) {
        Ok(None)
    } else {
        match parsed(balances[key].amount) {
            Some(amount) => Ok(Some((amount, balances[key].block))),
            None => Err(DbError::InvalidBalance),
        }
    }
}

/// The text under which the balance table holds an address.
pub fn balance_key(address: &Address) -> (key: String)
    ensures
        key@ == address_text(address.bytes@),
{
    address.to_text()
}

impl TransferRecord {
    /// The row that the event log holds for the record.
    fn to_row(&self) -> (row: TransferRow)
        ensures
            row@ == logged(self@),
    {
        TransferRow {
            block_number: self.block_number,
            from_addr: self.from_addr.to_text(),
            to_addr: self.to_addr.to_text(),
            value: self.value.to_text(),
        }
    }
}

impl Database {
    /// The balance table has at most one row for each address.
    pub closed spec fn valid(&self) -> bool {
        self.balances.valid()
    }

    /// A database with empty tables.
    pub fn new() -> (db: Database)
        ensures
            db.valid(),
            db@ == (Tables {
                transfers: Seq::empty(),
                balances: Map::empty(),
                last_block: None,
            }),
    {
        let db = Database { transfers: Vec::new(), balances: BalanceTable::new(), last_block: None };
        assert(db@.transfers =~= Seq::empty());
        db
    }

    /// A database with the given rows.
    pub fn from_rows(
        transfers: Vec<TransferRow>,
        balances: Vec<BalanceRow>,
        last_block: Option<u64>,
    ) -> (db: Database)
        ensures
            db.valid(),
            db@ == (Tables {
                transfers: log_of(transfers@),
                balances: table_of(balances@),
                last_block,
            }),
    {
        Database { transfers, balances: BalanceTable::from_rows(balances), last_block }
    }

    /// Appends transfers to the event log and patches the balance table.
    pub fn append_transfers(&mut self, records: &[TransferRecord]) -> (r: Result<(), DbError>)
        requires
            old(self).valid(),
        ensures
            r is Ok,
            final(self).valid(),
            final(self)@ == appended(old(self)@, transfers_of(records@)),
    {
        if records.is_empty() {
            assert(logged_all(transfers_of(records@)) =~= Seq::empty());
            assert(self@.transfers + logged_all(transfers_of(records@)) =~= self@.transfers);
            return Ok(());
        }
        let ghost log = log_of(self.transfers@);
        let ghost added = logged_all(transfers_of(records@));
        for i in 0..records.len()
            invariant
                added == logged_all(transfers_of(records@)),
                log_of(self.transfers@) == log + added.take(i as int),
                self.balances == old(self).balances,
                self.last_block == old(self).last_block,
        {
            let ghost rows = self.transfers@;
            self.transfers.push(records[i].to_row());
            assert(log_of(self.transfers@) =~= log_of(rows).push(logged(records@[i as int]@)));
            assert(added.take(i + 1) =~= added.take(i as int).push(logged(records@[i as int]@)));
            assert(log_of(self.transfers@) =~= log + added.take(i + 1));
        }
        assert(added.take(records@.len() as int) =~= added);
        Self::patch_balances(&mut self.balances, records);
        Ok(())
    }

    /// Applies the balance deltas of transfers, in order.
    fn patch_balances(balances: &mut BalanceTable, records: &[TransferRecord])
        requires
            old(balances).valid(),
        ensures
            final(balances).valid(),
            final(balances)@ == patched(old(balances)@, transfers_of(records@)),
    {
        let ghost ts = transfers_of(records@);
        for i in 0..records.len()
            invariant
                ts == transfers_of(records@),
                balances.valid(),
                balances@ == patched(old(balances)@, ts.take(i as int)),
        {
            let record = &records[i];
            proof {
                assert(ts.take(i + 1).drop_last() =~= ts.take(i as int));
                assert(ts.take(i + 1).last() == record@);
            }

            let sender = record.from_addr.to_text();
            let sender_balance = Self::current_balance(balances, sender.as_str());
            balances.upsert(
                sender,
                sender_balance.saturating_sub(record.value).to_text(),
                record.block_number,
            );

            let receiver = record.to_addr.to_text();
            let receiver_balance = Self::current_balance(balances, receiver.as_str());
            balances.upsert(
                receiver,
                receiver_balance.saturating_add(record.value).to_text(),
                record.block_number,
            );
        }
        assert(ts.take(records@.len() as int) =~= ts);
    }

    /// The balance under a key: zero where there is no row for it, or one that cannot be read.
    fn current_balance(balances: &BalanceTable, key: &str) -> (amount: U256)
        requires
            balances.valid(),
        ensures
            amount.value() == balance(balances@, key@),
    {
        match balances.get(key) {
            Some(row) => amount_or_zero(row.balance.as_str()),
            None => U256::zero(),
        }
    }

    /// Rolls back to `fork_block`, which is kept: drops the events of later blocks, and rebuilds
    /// the balance table from the events that remain. Where that would give some address more than
    /// the largest amount, nothing changes.
    pub fn rollback_to_block(&mut self, fork_block: u64) -> (r: Result<(), DbError>)
        requires
            old(self).valid(),
        ensures
            final(self).valid(),
            match r {
                Ok(()) => {
                    &&& !overflows(survivors(old(self)@.transfers, fork_block))
                    &&& final(self)@ == rolled_back(old(self)@, fork_block)
                },
                Err(error) => {
                    &&& error == DbError::BalanceOverflow
                    &&& overflows(survivors(old(self)@.transfers, fork_block))
                    &&& final(self)@ == old(self)@
                },
            },
    {
        match Self::rebuild_balances(&self.transfers, fork_block) {
            Err(error) => Err(error),
            Ok(balances) => {
                let mut rows: Vec<TransferRow> = Vec::new();
                std::mem::swap(&mut rows, &mut self.transfers);
                self.transfers = Self::prune(rows, fork_block);
                self.balances = balances;
                Ok(())
            },
        }
    }

    /// The balance table that the rows of no later block than `fork_block` leave.
    fn rebuild_balances(rows: &Vec<TransferRow>, fork_block: u64) -> (r: Result<
        BalanceTable,
        DbError,
    >)
        ensures
            match r {
                Ok(table) => {
                    &&& !overflows(survivors(log_of(rows@), fork_block))
                    &&& table.valid()
                    &&& table@ == rebuilt(survivors(log_of(rows@), fork_block))
                },
                Err(error) => error == DbError::BalanceOverflow && overflows(
                    survivors(log_of(rows@), fork_block),
                ),
            },
    {
        let ghost log = log_of(rows@);
        let mut totals = Totals::new();
        proof {
            lemma_survivors_of_none(fork_block);
            assert(log.take(0) =~= Seq::empty());
        }
        for i in 0..rows.len()
            invariant
                log == log_of(rows@),
                totals.valid(),
                totals.summarize(survivors(log.take(i as int), fork_block)),
        {
            proof {
                lemma_survivors_step(log, i as int, fork_block);
            }
            if rows[i].survives(fork_block) {
                let ghost kept = survivors(log.take(i as int), fork_block);
                assert(kept.len() < usize::MAX) by {
                    log.take(i as int).lemma_filter_len(|r: LoggedTransfer| r.block <= fork_block);
                }
                totals.add_row(&rows[i], Ghost(kept));
            }
        }
        assert(log.take(rows@.len() as int) =~= log);
        totals.balances(Ghost(survivors(log, fork_block)))
    }

    /// The rows of no later block than `fork_block`, in their order.
    fn prune(rows: Vec<TransferRow>, fork_block: u64) -> (kept: Vec<TransferRow>)
        ensures
            log_of(kept@) == survivors(log_of(rows@), fork_block),
    {
        let ghost log = log_of(rows@);
        let mut kept: Vec<TransferRow> = Vec::new();
        proof {
            lemma_survivors_of_none(fork_block);
            assert(log.take(0) =~= Seq::empty());
            assert(log_of(kept@) =~= Seq::empty());
        }
        for row in it: rows
            invariant
                it.seq() == rows@,
                log == log_of(rows@),
                log_of(kept@) == survivors(log.take(it.index() as int), fork_block),
        {
            proof {
                lemma_survivors_step(log, it.index() as int, fork_block);
            }
            if row.survives(fork_block) {
                let ghost before = kept@;
                kept.push(row);
                assert(log_of(kept@) =~= log_of(before).push(row@));
            }
        }
        assert(log.take(rows@.len() as int) =~= log);
        kept
    }

    /// The current balance of an address, with the block of its last change.
    pub fn get_balance(&self, address: &Address) -> (r: Result<Option<(U256, u64)>, DbError>)
        requires
            self.valid(),
        ensures
            match r {
                Ok(Some((amount, block))) => answer(
                    self@.balances,
                    address_text(address.bytes@),
                ) == Ok::<Option<(nat, u64)>, DbError>(Some((amount.value(), block))),
                Ok(None) => answer(self@.balances, address_text(address.bytes@)) == Ok::<
                    Option<(nat, u64)>,
                    DbError,
                >(None),
                Err(error) => answer(self@.balances, address_text(address.bytes@)) == Err::<
                    Option<(nat, u64)>,
                    DbError,
                >(error),
            },
    {
        let key = address.to_text();
        match self.balances.get(key.as_str()) {
            None => Ok(None),
            Some(row) => match U256::parse(row.balance.as_str()) {
                Ok(amount) => Ok(Some((amount, row.last_updated_block))),
                Err(_) => Err(DbError::InvalidBalance),
            },
        }
    }

    /// Sets the highest fully processed block.
    pub fn set_last_block(&mut self, block_number: u64) -> (r: Result<(), DbError>)
        requires
            old(self).valid(),
        ensures
            r is Ok,
            final(self).valid(),
            final(self)@ == (Tables { last_block: Some(block_number), ..old(self)@ }),
    {
        self.last_block = Some(block_number);
        Ok(())
    }

    /// The highest fully processed block, if any was set.
    pub fn get_last_block(&self) -> (r: Result<Option<u64>, DbError>)
        ensures
            r == Ok::<Option<u64>, DbError>(self@.last_block),
    {
        Ok(self.last_block)
    }

    /// The rows of the event log, in order.
    pub fn transfer_rows(&self) -> (rows: &Vec<TransferRow>)
        ensures
            log_of(rows@) == self@.transfers,
    {
        &self.transfers
    }

    /// The rows of the balance table, one for each address in it.
    pub fn balance_rows(&self) -> (rows: &Vec<BalanceRow>)
        requires
            self.valid(),
        ensures
            forall|i: int, j: int|
                0 <= i < j < rows@.len() ==> (#[trigger] rows@[i]).address@ != (
                #[trigger] rows@[j]).address@,
            table_of(rows@) == self@.balances,
    {
        self.balances.rows()
    }
}

/// Nothing survives of the empty log.
proof fn lemma_survivors_of_none(fork_block: u64)
    ensures
        survivors(Seq::empty(), fork_block) == Seq::<LoggedTransfer>::empty(),
{
    reveal(Seq::filter);
}

/// The survivors of one row more: that row is added to them if it is of no later block.
proof fn lemma_survivors_step(log: Seq<LoggedTransfer>, i: int, fork_block: u64)
    requires
        0 <= i < log.len(),
    ensures
        survivors(log.take(i + 1), fork_block) == if log[i].block <= fork_block {
            survivors(log.take(i), fork_block).push(log[i])
        } else {
            survivors(log.take(i), fork_block)
        },
{
    reveal(Seq::filter);
    assert(log.take(i + 1).drop_last() =~= log.take(i));
    assert(log.take(i + 1).last() == log[i]);
}

} // verus!
