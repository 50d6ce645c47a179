//! What the indexer does with the notifications of the node.

use crate::db::{transfers_of, Database, DbError, TransferRecord};
use crate::ledger::{appended, overflows, rolled_back, survivors, Tables, Transfer};
use crate::primitives::{Address, B256};
use crate::types::{decoded, TransferError, TransferEvent, TRANSFER_SIG, USDC_ADDRESS};
use vstd::prelude::*;

verus! {

/// An event log that a transaction left.
pub struct Log {
    pub address: Address,
    pub topics: Vec<B256>,
    pub data: Vec<u8>,
}

/// The outcome of a transaction.
pub struct Receipt {
    pub success: bool,
    pub logs: Vec<Log>,
}

/// A block with the receipts of its transactions.
pub struct Block {
    pub number: u64,
    pub transaction_count: usize,
    pub receipts: Vec<Receipt>,
}

/// A run of executed blocks, in ascending order.
pub struct Chain {
    pub blocks: Vec<Block>,
}

/// What the node tells of the canonical chain.
pub enum Notification {
    /// New blocks were added at the tip.
    ChainCommitted { new: Chain },
    /// The blocks of `old` were replaced by those of `new`.
    ChainReorged { old: Chain, new: Chain },
    /// The blocks of `old` were taken away.
    ChainReverted { old: Chain },
}

/// Whether a log is a `Transfer` event of the USDC contract: its first topic is the signature of the
/// event.
pub open spec fn is_usdc_event(log: Log) -> bool {
    &&& log.address.bytes@ == USDC_ADDRESS@
    &&& log.topics@.len() > 0
    &&& log.topics@[0].bytes@ == TRANSFER_SIG@
}

/// The USDC transfer that a log tells of, if it is one: a `Transfer` event of the USDC contract that
/// can be decoded.
pub open spec fn usdc_transfer(log: Log, block: u64) -> Option<Transfer> {
    if is_usdc_event(log) {
        match decoded(log.topics@, log.data@, block) {
            Ok(transfer) => Some(transfer),
            Err(_) => None,
        }
    } else {
        None
    }
}

/// Why a log tells of no USDC transfer although it is a `Transfer` event of the USDC contract.
pub open spec fn usdc_error(log: Log, block: u64) -> Option<TransferError> {
    if is_usdc_event(log) {
        match decoded(log.topics@, log.data@, block) {
            Ok(_) => None,
            Err(error) => Some(error),
        }
    } else {
        None
    }
}

/// The USDC transfers that some logs of a block tell of, in order.
pub open spec fn log_transfers(logs: Seq<Log>, block: u64) -> Seq<Transfer>
    decreases logs.len(),
{
    if logs.len() == 0 {
        Seq::empty()
    } else {
        let before = log_transfers(logs.drop_last(), block);
        match usdc_transfer(logs.last(), block) {
            Some(transfer) => before.push(transfer),
            None => before,
        }
    }
}

/// The USDC transfers in some receipts of a block, in order; failed transactions have none.
pub open spec fn receipt_transfers(receipts: Seq<Receipt>, block: u64) -> Seq<Transfer>
    decreases receipts.len(),
{
    if receipts.len() == 0 {
        Seq::empty()
    } else {
        let before = receipt_transfers(receipts.drop_last(), block);
        if receipts.last().success {
            before + log_transfers(receipts.last().logs@, block)
        } else {
            before
        }
    }
}

/// The receipts of a block that belong to one of its transactions.
pub open spec fn paired_receipts(block: Block) -> Seq<Receipt> {
    if block.transaction_count < block.receipts@.len() {
        block.receipts@.take(block.transaction_count as int)
    } else {
        block.receipts@
    }
}

/// The USDC transfers in some blocks, in order.
pub open spec fn block_transfers(blocks: Seq<Block>) -> Seq<Transfer>
    decreases blocks.len(),
{
    if blocks.len() == 0 {
        Seq::empty()
    } else {
        block_transfers(blocks.drop_last()) + receipt_transfers(
            paired_receipts(blocks.last()),
            blocks.last().number,
        )
    }
}

impl Chain {
    /// The USDC transfers in the chain, in order.
    pub open spec fn transfers(&self) -> Seq<Transfer> {
        block_transfers(self.blocks@)
    }

    /// The number of the last block.
    pub open spec fn spec_tip(&self) -> Option<u64> {
        if self.blocks@.len() == 0 {
            None
        } else {
            Some(self.blocks@.last().number)
        }
    }

    /// The block before the first one; block 0 where there is none.
    pub open spec fn spec_fork_block(&self) -> u64 {
        if self.blocks@.len() == 0 || self.blocks@[0].number == 0 {
            0
        } else {
            (self.blocks@[0].number - 1) as u64
        }
    }

    /// The number of the last block, if there is one.
    #[verifier::when_used_as_spec(spec_tip)]
    pub fn tip(&self) -> (number: Option<u64>)
        ensures
            number == self.tip(),
    {
        match self.blocks.last() {
            Some(block) => Some(block.number),
            None => None,
        }
    }

    /// The block on which the chain was built: the one before its first; block 0 where there is
    /// none.
    #[verifier::when_used_as_spec(spec_fork_block)]
    pub fn fork_block(&self) -> (number: u64)
        ensures
            number == self.fork_block(),
    {
        match self.blocks.first() {
            Some(block) => if block.number == 0 {
                0
            } else {
                block.number - 1
            },
            None => 0,
        }
    }
}

/// The tables after a chain was committed.
pub open spec fn committed(tables: Tables, new: Chain) -> Tables {
    Tables {
        last_block: match new.tip() {
            Some(number) => Some(number),
            None => tables.last_block,
        },
        ..appended(tables, new.transfers())
    }
}

/// The tables after `old` was replaced by `new`.
pub open spec fn reorged(tables: Tables, old: Chain, new: Chain) -> Tables {
    committed(rolled_back(tables, old.fork_block()), new)
}

/// The tables after `old` was taken away.
pub open spec fn reverted(tables: Tables, old: Chain) -> Tables {
    Tables { last_block: Some(old.fork_block()), ..rolled_back(tables, old.fork_block()) }
}

impl Notification {
    /// The chains that become canonical have at least one block.
    pub open spec fn has_tip(&self) -> bool {
        match self {
            Notification::ChainCommitted { new } => new.tip() is Some,
            Notification::ChainReorged { old, new } => new.tip() is Some,
            Notification::ChainReverted { old } => true,
        }
    }

    /// The height that is finished once the notification was handled.
    pub open spec fn finished_height(&self) -> u64 {
        match self {
            Notification::ChainCommitted { new } => new.tip()->0,
            Notification::ChainReorged { old, new } => new.tip()->0,
            Notification::ChainReverted { old } => old.fork_block(),
        }
    }

    /// The block to which the notification rolls back, if it does.
    pub open spec fn rollback_target(&self) -> Option<u64> {
        match self {
            Notification::ChainCommitted { new } => None,
            Notification::ChainReorged { old, new } => Some(old.fork_block()),
            Notification::ChainReverted { old } => Some(old.fork_block()),
        }
    }

    /// The tables after the notification was handled without an error.
    pub open spec fn applied(&self, tables: Tables) -> Tables {
        match *self {
            Notification::ChainCommitted { new } => committed(tables, new),
            Notification::ChainReorged { old, new } => reorged(tables, old, new),
            Notification::ChainReverted { old } => reverted(tables, old),
        }
    }

    /// Whether the rollback that the notification asks for fails.
    pub open spec fn fails(&self, tables: Tables) -> bool {
        match self.rollback_target() {
            Some(fork_block) => overflows(survivors(tables.transfers, fork_block)),
            None => false,
        }
    }
}

/// The indexer: a database that follows the canonical chain.
pub struct UsdcIndexer {
    db: Database,
}

impl View for UsdcIndexer {
    type V = Tables;

    closed spec fn view(&self) -> Tables {
        self.db@
    }
}

impl UsdcIndexer {
    /// The database is valid.
    pub closed spec fn valid(&self) -> bool {
        self.db.valid()
    }

    /// An indexer on a database.
    pub fn new(db: Database) -> (indexer: UsdcIndexer)
        requires
            db.valid(),
        ensures
            indexer.valid(),
            indexer@ == db@,
    {
        UsdcIndexer { db }
    }

    /// The database.
    pub fn database(&self) -> (db: &Database)
        requires
            self.valid(),
        ensures
            db.valid(),
            db@ == self@,
    {
        &self.db
    }

    /// Handles one notification of the node, and returns the height that is finished with it.
    pub fn handle_notification(&mut self, notification: &Notification) -> (r: Result<u64, DbError>)
        requires
            old(self).valid(),
            notification.has_tip(),
        ensures
            final(self).valid(),
            match r {
                Ok(height) => {
                    &&& !notification.fails(old(self)@)
                    &&& final(self)@ == notification.applied(old(self)@)
                    &&& height == notification.finished_height()
                    &&& final(self)@.last_block == Some(height)
                },
                Err(error) => {
                    &&& notification.fails(old(self)@)
                    &&& error == DbError::BalanceOverflow
                    &&& final(self)@ == old(self)@
                },
            },
    {
        match notification {
            Notification::ChainCommitted { new } => {
                self.handle_committed(new)?;
                Ok(new.tip().unwrap())
            },
            Notification::ChainReorged { old, new } => {
                self.handle_reorged(old, new)?;
                Ok(new.tip().unwrap())
            },
            Notification::ChainReverted { old } => {
                self.handle_reverted(old)?;
                Ok(old.fork_block())
            },
        }
    }

    /// Appends the transfers of a committed chain.
    pub fn handle_committed(&mut self, chain: &Chain) -> (r: Result<(), DbError>)
        requires
            old(self).valid(),
        ensures
            r is Ok,
            final(self).valid(),
            final(self)@ == committed(old(self)@, *chain),
    {
        let records = Self::extract_records(chain);
        self.db.append_transfers(records.as_slice())?;
        if let Some(number) = chain.tip() {
            self.db.set_last_block(number)?;
        }
        Ok(())
    }

    /// Rolls back to the block before `old_chain`, then appends the transfers of `new_chain`.
    pub fn handle_reorged(&mut self, old_chain: &Chain, new_chain: &Chain) -> (r: Result<
        (),
        DbError,
    >)
        requires
            old(self).valid(),
        ensures
            final(self).valid(),
            match r {
                Ok(()) => {
                    &&& !overflows(survivors(old(self)@.transfers, old_chain.fork_block()))
                    &&& final(self)@ == reorged(old(self)@, *old_chain, *new_chain)
                },
                Err(error) => {
                    &&& error == DbError::BalanceOverflow
                    &&& overflows(survivors(old(self)@.transfers, old_chain.fork_block()))
                    &&& final(self)@ == old(self)@
                },
            },
    {
        self.db.rollback_to_block(old_chain.fork_block())?;
        let records = Self::extract_records(new_chain);
        self.db.append_transfers(records.as_slice())?;
        if let Some(number) = new_chain.tip() {
            self.db.set_last_block(number)?;
        }
        Ok(())
    }

    /// Rolls back to the block before `old_chain`.
    pub fn handle_reverted(&mut self, old_chain: &Chain) -> (r: Result<(), DbError>)
        requires
            old(self).valid(),
        ensures
            final(self).valid(),
            match r {
                Ok(()) => {
                    &&& !overflows(survivors(old(self)@.transfers, old_chain.fork_block()))
                    &&& final(self)@ == reverted(old(self)@, *old_chain)
                },
                Err(error) => {
                    &&& error == DbError::BalanceOverflow
                    &&& overflows(survivors(old(self)@.transfers, old_chain.fork_block()))
                    &&& final(self)@ == old(self)@
                },
            },
    {
        let fork_block: u64 = old_chain.fork_block();
        self.db.rollback_to_block(fork_block)?;
        self.db.set_last_block(fork_block)?;
        Ok(())
    }

    /// The USDC transfers in a chain, as records, in order.
    pub fn extract_records(chain: &Chain) -> (records: Vec<TransferRecord>)
        ensures
            transfers_of(records@) == chain.transfers(),
    {
        let mut records: Vec<TransferRecord> = Vec::new();
        assert(transfers_of(records@) =~= Seq::empty());
        for i in 0..chain.blocks.len()
            invariant
                transfers_of(records@) == block_transfers(chain.blocks@.take(i as int)),
        {
            let block = &chain.blocks[i];
            let ghost before = transfers_of(records@);
            proof {
                let blocks = chain.blocks@.take(i + 1);
                assert(blocks.drop_last() =~= chain.blocks@.take(i as int));
                assert(blocks.last() == *block);
            }
            let paired: usize = if block.transaction_count < block.receipts.len() {
                block.transaction_count
            } else {
                block.receipts.len()
            };
            let ghost receipts = paired_receipts(*block);
            assert(before + receipt_transfers(receipts.take(0), block.number) =~= before);
            for j in 0..paired
                invariant
                    receipts == paired_receipts(*block),
                    receipts.len() == paired,
                    paired <= block.receipts@.len(),
                    receipts == block.receipts@.take(paired as int),
                    transfers_of(records@) == before + receipt_transfers(
                        receipts.take(j as int),
                        block.number,
                    ),
            {
                let receipt = &block.receipts[j];
                proof {
                    assert(receipts.take(j + 1).drop_last() =~= receipts.take(j as int));
                    assert(receipts.take(j + 1).last() == *receipt);
                }
                if receipt.success {
                    Self::extract_logs(&receipt.logs, block.number, &mut records);
                    assert(transfers_of(records@) =~= before + receipt_transfers(
                        receipts.take(j + 1),
                        block.number,
                    ));
                }
            }
            assert(receipts.take(paired as int) =~= receipts);
        }
        assert(chain.blocks@.take(chain.blocks@.len() as int) =~= chain.blocks@);
        records
    }

    /// Adds the USDC transfers that logs of a block tell of to the records.
    fn extract_logs(logs: &Vec<Log>, block_number: u64, records: &mut Vec<TransferRecord>)
        ensures
            transfers_of(final(records)@) == transfers_of(old(records)@) + log_transfers(
                logs@,
                block_number,
            ),
    {
        let ghost before = transfers_of(records@);
        assert(before + log_transfers(logs@.take(0), block_number) =~= before);
        for i in 0..logs.len()
            invariant
                transfers_of(records@) == before + log_transfers(
                    logs@.take(i as int),
                    block_number,
                ),
        {
            let log = &logs[i];
            proof {
                assert(logs@.take(i + 1).drop_last() =~= logs@.take(i as int));
                assert(logs@.take(i + 1).last() == *log);
            }
            if let Some(record) = Self::usdc_record(log, block_number) {
                let ghost kept = records@;
                records.push(record);
                assert(transfers_of(records@) =~= transfers_of(kept).push(record@));
                assert(transfers_of(records@) =~= before + log_transfers(
                    logs@.take(i + 1),
                    block_number,
                ));
            }
        }
        assert(logs@.take(logs@.len() as int) =~= logs@);
    }

    /// Whether a log is a `Transfer` event of the USDC contract.
    fn is_usdc_event(log: &Log) -> (r: bool)
        ensures
            r == is_usdc_event(*log),
    {
        if log.address != (Address { bytes: USDC_ADDRESS }) {
            return false;
        }
        match log.topics.first() {
            Some(topic) => *topic == (B256 { bytes: TRANSFER_SIG }),
            None => false,
        }
    }

    /// Why a `Transfer` event of the USDC contract is skipped, if it is: it cannot be decoded.
    pub fn parse_error(log: &Log, block_number: u64) -> (r: Option<TransferError>)
        ensures
            r == usdc_error(*log, block_number),
    {
        if !Self::is_usdc_event(log) {
            return None;
        }
        match TransferEvent::from_log(log.topics.as_slice(), log.data.as_slice(), block_number) {
            Ok(_) => None,
            Err(error) => Some(error),
        }
    }

    /// The USDC transfer that a log tells of, as a record.
    fn usdc_record(log: &Log, block_number: u64) -> (r: Option<TransferRecord>)
        ensures
            match r {
                Some(record) => usdc_transfer(*log, block_number) == Some(record@),
                None => usdc_transfer(*log, block_number) is None,
            },
    {
        if !Self::is_usdc_event(log) {
            return None;
        }
        match TransferEvent::from_log(log.topics.as_slice(), log.data.as_slice(), block_number) {
            Ok(event) => Some(
                TransferRecord {
                    block_number: event.block_number,
                    from_addr: event.from,
                    to_addr: event.to,
                    value: event.value,
                },
            ),
            Err(_) => None,
        }
    }
}

} // verus!
