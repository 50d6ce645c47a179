//! What the indexer promises of the events, blocks and notifications that it is handed.

use crate::exex::{
    block_transfers, committed, is_usdc_event, log_transfers, paired_receipts, receipt_transfers,
    reorged, reverted, usdc_error, usdc_transfer, Block, Chain, Log, Notification, Receipt,
};
use crate::laws::{ascending, followed, law_extraction_keeps_block_order, proper};
use crate::ledger::{
    appended, logged_all, rolled_back, survivors, LoggedTransfer, Tables, Transfer,
};
use crate::numerals::{byte_numbers, law_numeral_unique, lemma_be_value, numeral};
use crate::primitives::{be_value, B256};
use crate::promises::{law_rollback_fails, received, sent, up_to};
use crate::types::{decoded, TransferError, TRANSFER_SIG, USDC_ADDRESS};
use vstd::arithmetic::power::pow;
use vstd::arithmetic::power2::pow2;
use vstd::prelude::*;

verus! {

/// Thirty-two bytes write a number below 2^256.
proof fn lemma_word_bound()
    ensures
        pow(256, 32) == pow2(256),
{
    vstd::arithmetic::power2::lemma_pow2(8);
    vstd::arithmetic::power2::lemma_pow2(256);
    vstd::arithmetic::power2::lemma2_to64();
    vstd::arithmetic::power::lemma_pow_multiplies(2, 8, 32);
}

/// Decoding undoes encoding. Where the second and the third topic end in the 20 bytes of an address,
/// whatever stands before them, and the data are the 32 big-endian bytes of a number, those are the
/// sender, the receiver and the value.
pub proof fn law_decoding_undoes_encoding(
    topics: Seq<B256>,
    data: Seq<u8>,
    block: u64,
    from: Seq<u8>,
    to: Seq<u8>,
    value: int,
)
    requires
        topics.len() == 3,
        topics[1].bytes@.skip(12) == from,
        topics[2].bytes@.skip(12) == to,
        data.len() == 32,
        numeral(byte_numbers(data), 256, value),
    ensures
        decoded(topics, data, block) == Ok::<Transfer, TransferError>(
            Transfer { block, from, to, value: value as nat },
        ),
        from.len() == 20,
        to.len() == 20,
        0 <= value < pow2(256),
{
    lemma_word_bound();
    lemma_be_value(data);
    law_numeral_unique(byte_numbers(data), 256, be_value(data) as int, value);
    assert(topics[1].bytes@.skip(12) =~= topics[1].bytes@.subrange(12, 32));
    assert(topics[2].bytes@.skip(12) =~= topics[2].bytes@.subrange(12, 32));
}

/// Every topics and data of the right shape are decoded, and those of another shape are refused:
/// other than three topics first, then data of other than 32 bytes.
pub proof fn law_decoding_refuses(topics: Seq<B256>, data: Seq<u8>, block: u64)
    ensures
        decoded(topics, data, block) is Ok <==> topics.len() == 3 && data.len() == 32,
        decoded(topics, data, block) == Err::<Transfer, TransferError>(TransferError::TopicCount)
            <==> topics.len() != 3,
        decoded(topics, data, block) == Err::<Transfer, TransferError>(TransferError::DataLength)
            <==> topics.len() == 3 && data.len() != 32,
{
}

/// Two events that decode to the same transfer have the same data, addresses and block.
pub proof fn law_decoding_tells_apart(
    topics: Seq<B256>,
    data: Seq<u8>,
    block: u64,
    other_topics: Seq<B256>,
    other_data: Seq<u8>,
    other_block: u64,
)
    requires
        decoded(topics, data, block) is Ok,
        decoded(topics, data, block) == decoded(other_topics, other_data, other_block),
    ensures
        data == other_data,
        block == other_block,
        topics[1].bytes@.skip(12) == other_topics[1].bytes@.skip(12),
        topics[2].bytes@.skip(12) == other_topics[2].bytes@.skip(12),
{
    lemma_be_value(data);
    lemma_be_value(other_data);
    let a = byte_numbers(data);
    let b = byte_numbers(other_data);
    assert forall|i: int| 0 <= i < data.len() implies data[i] == other_data[i] by {
        assert(a[i] == data[i] as int);
        assert(b[i] == other_data[i] as int);
    }
    assert(data =~= other_data);
    assert(topics[1].bytes@.skip(12) =~= topics[1].bytes@.subrange(12, 32));
    assert(topics[2].bytes@.skip(12) =~= topics[2].bytes@.subrange(12, 32));
    assert(other_topics[1].bytes@.skip(12) =~= other_topics[1].bytes@.subrange(12, 32));
    assert(other_topics[2].bytes@.skip(12) =~= other_topics[2].bytes@.subrange(12, 32));
}

/// Whether a log is a USDC transfer: an event of the USDC contract with the signature of the event,
/// a sender and a receiver for its topics and one word of data.
pub open spec fn is_transfer_log(log: Log) -> bool {
    &&& log.address.bytes@ == USDC_ADDRESS@
    &&& log.topics@.len() == 3
    &&& log.topics@[0].bytes@ == TRANSFER_SIG@
    &&& log.data@.len() == 32
}

/// Whether `t` is what a USDC transfer log in a block tells of.
pub open spec fn tells(log: Log, block: u64, t: Transfer) -> bool {
    &&& t.block == block
    &&& t.from == log.topics@[1].bytes@.skip(12)
    &&& t.to == log.topics@[2].bytes@.skip(12)
    &&& numeral(byte_numbers(log.data@), 256, t.value as int)
}

/// A log is taken if and only if it is a USDC transfer, for what it tells of. One of the USDC contract
/// with the signature of the event that is skipped has the wrong number of topics or data of the
/// wrong length.
pub proof fn law_log_is_taken(log: Log, block: u64)
    ensures
        usdc_transfer(log, block) is Some <==> is_transfer_log(log),
        is_transfer_log(log) ==> tells(log, block, usdc_transfer(log, block)->0),
        usdc_error(log, block) is Some <==> {
            &&& log.address.bytes@ == USDC_ADDRESS@
            &&& log.topics@.len() > 0
            &&& log.topics@[0].bytes@ == TRANSFER_SIG@
            &&& !is_transfer_log(log)
        },
        usdc_error(log, block) == Some(TransferError::TopicCount) ==> log.topics@.len() != 3,
        usdc_error(log, block) == Some(TransferError::DataLength) ==> log.topics@.len() == 3
            && log.data@.len() != 32,
{
    if is_transfer_log(log) {
        lemma_be_value(log.data@);
        law_decoding_undoes_encoding(
            log.topics@,
            log.data@,
            block,
            log.topics@[1].bytes@.skip(12),
            log.topics@[2].bytes@.skip(12),
            be_value(log.data@) as int,
        );
    }
    assert(is_usdc_event(log) == (log.address.bytes@ == USDC_ADDRESS@ && log.topics@.len() > 0
        && log.topics@[0].bytes@ == TRANSFER_SIG@));
}

/// A place in a chain: the index of a block, of a receipt in it, and of a log in that.
pub struct Place {
    pub block: int,
    pub receipt: int,
    pub log: int,
}

/// Whether a place comes before another.
pub open spec fn precedes(p: Place, q: Place) -> bool {
    ||| p.block < q.block
    ||| p.block == q.block && p.receipt < q.receipt
    ||| p.block == q.block && p.receipt == q.receipt && p.log < q.log
}

/// Whether there is a USDC transfer at a place: a log of the receipt of a successful transaction of
/// the block.
pub open spec fn transfer_at(blocks: Seq<Block>, p: Place) -> bool {
    &&& 0 <= p.block < blocks.len()
    &&& 0 <= p.receipt < blocks[p.block].receipts@.len()
    &&& p.receipt < blocks[p.block].transaction_count
    &&& blocks[p.block].receipts@[p.receipt].success
    &&& 0 <= p.log < blocks[p.block].receipts@[p.receipt].logs@.len()
    &&& is_transfer_log(blocks[p.block].receipts@[p.receipt].logs@[p.log])
}

/// Whether `ts` are the transfers at `places`, which are all places of transfers in the blocks, each
/// once and in order.
pub open spec fn read_at(blocks: Seq<Block>, ts: Seq<Transfer>, places: Seq<Place>) -> bool {
    &&& ts.len() == places.len()
    &&& forall|p: Place| #[trigger] places.contains(p) <==> transfer_at(blocks, p)
    &&& forall|i: int, j: int|
        0 <= i < j < places.len() ==> precedes(#[trigger] places[i], #[trigger] places[j])
    &&& forall|i: int|
        0 <= i < places.len() ==> tells(
            blocks[(#[trigger] places[i]).block].receipts@[places[i].receipt].logs@[places[i].log],
            blocks[places[i].block].number,
            ts[i],
        )
}

proof fn lemma_log_places(logs: Seq<Log>, block: u64) -> (ks: Seq<int>)
    ensures
        ks.len() == log_transfers(logs, block).len(),
        forall|k: int| #[trigger]
            ks.contains(k) <==> 0 <= k < logs.len() && is_transfer_log(logs[k]),
        forall|i: int, j: int| 0 <= i < j < ks.len() ==> #[trigger] ks[i] < #[trigger] ks[j],
        forall|i: int|
            0 <= i < ks.len() ==> tells(
                logs[#[trigger] ks[i]],
                block,
                log_transfers(logs, block)[i],
            ),
    decreases logs.len(),
{
    if logs.len() == 0 {
        Seq::empty()
    } else {
        let front = logs.drop_last();
        let last = logs.len() - 1;
        let ks = lemma_log_places(front, block);
        let ts = log_transfers(front, block);
        law_log_is_taken(logs.last(), block);
        assert forall|i: int| 0 <= i < ks.len() implies 0 <= #[trigger] ks[i] < last
            && is_transfer_log(logs[ks[i]]) && logs[ks[i]] == front[ks[i]] by {
            assert(ks.contains(ks[i]));
        }
        if is_transfer_log(logs.last()) {
            let more = ks.push(last);
            assert forall|k: int| #[trigger]
                more.contains(k) <==> 0 <= k < logs.len() && is_transfer_log(logs[k]) by {
                if more.contains(k) {
                    let i = choose|i: int| 0 <= i < more.len() && more[i] == k;
                    if i < ks.len() {
                        assert(ks[i] == k);
                    }
                }
                if 0 <= k < logs.len() && is_transfer_log(logs[k]) {
                    if k == last {
                        assert(more[ks.len() as int] == k);
                    } else {
                        assert(front[k] == logs[k]);
                        assert(ks.contains(k));
                        let i = choose|i: int| 0 <= i < ks.len() && ks[i] == k;
                        assert(more[i] == k);
                    }
                }
            }
            assert forall|i: int| 0 <= i < more.len() implies tells(
                logs[#[trigger] more[i]],
                block,
                log_transfers(logs, block)[i],
            ) by {
                if i < ks.len() {
                    assert(more[i] == ks[i]);
                    assert(log_transfers(logs, block)[i] == ts[i]);
                }
            }
            more
        } else {
            assert forall|k: int| #[trigger]
                ks.contains(k) <==> 0 <= k < logs.len() && is_transfer_log(logs[k]) by {
                if 0 <= k < last {
                    assert(front[k] == logs[k]);
                }
            }
            ks
        }
    }
}

/// Whether there is a USDC transfer at a place of some receipts.
spec fn transfer_in(receipts: Seq<Receipt>, p: Place) -> bool {
    &&& 0 <= p.receipt < receipts.len()
    &&& receipts[p.receipt].success
    &&& 0 <= p.log < receipts[p.receipt].logs@.len()
    &&& is_transfer_log(receipts[p.receipt].logs@[p.log])
}

proof fn lemma_receipt_places(receipts: Seq<Receipt>, number: u64, b: int) -> (ps: Seq<Place>)
    ensures
        ps.len() == receipt_transfers(receipts, number).len(),
        forall|p: Place| #[trigger]
            ps.contains(p) <==> p.block == b && transfer_in(receipts, p),
        forall|i: int, j: int|
            0 <= i < j < ps.len() ==> precedes(#[trigger] ps[i], #[trigger] ps[j]),
        forall|i: int|
            0 <= i < ps.len() ==> tells(
                receipts[(#[trigger] ps[i]).receipt].logs@[ps[i].log],
                number,
                receipt_transfers(receipts, number)[i],
            ),
    decreases receipts.len(),
{
    if receipts.len() == 0 {
        Seq::empty()
    } else {
        let front = receipts.drop_last();
        let last = receipts.len() - 1;
        let r = receipts.last();
        let ps = lemma_receipt_places(front, number, b);
        let ts = receipt_transfers(front, number);
        let all = receipt_transfers(receipts, number);
        assert forall|i: int| 0 <= i < ps.len() implies (#[trigger] ps[i]).block == b && 0
            <= ps[i].receipt < last && receipts[ps[i].receipt] == front[ps[i].receipt] by {
            assert(ps.contains(ps[i]));
        }
        if r.success {
            let ks = lemma_log_places(r.logs@, number);
            let qs = Seq::new(ks.len(), |i: int| Place { block: b, receipt: last, log: ks[i] });
            let more = ps + qs;
            assert forall|i: int| 0 <= i < qs.len() implies 0 <= ks[i] < r.logs@.len()
                && is_transfer_log(r.logs@[ks[i]]) && #[trigger] more[ps.len() + i] == qs[i] by {
                assert(ks.contains(ks[i]));
            }
            assert forall|p: Place| #[trigger]
                more.contains(p) <==> p.block == b && transfer_in(receipts, p) by {
                if more.contains(p) {
                    let i = choose|i: int| 0 <= i < more.len() && more[i] == p;
                    if i < ps.len() {
                        assert(ps[i] == p);
                        assert(ps.contains(p));
                        assert(transfer_in(front, p));
                    } else {
                        let k = i - ps.len();
                        assert(more[ps.len() + k] == qs[k]);
                    }
                }
                if p.block == b && transfer_in(receipts, p) {
                    if p.receipt == last {
                        assert(ks.contains(p.log));
                        let i = choose|i: int| 0 <= i < ks.len() && ks[i] == p.log;
                        assert(qs[i] == p);
                        assert(more[ps.len() + i] == p);
                    } else {
                        assert(front[p.receipt] == receipts[p.receipt]);
                        assert(transfer_in(front, p));
                        assert(ps.contains(p));
                        let i = choose|i: int| 0 <= i < ps.len() && ps[i] == p;
                        assert(more[i] == p);
                    }
                }
            }
            assert forall|i: int, j: int| 0 <= i < j < more.len() implies precedes(
                #[trigger] more[i],
                #[trigger] more[j],
            ) by {
                if j < ps.len() {
                    assert(more[i] == ps[i] && more[j] == ps[j]);
                } else {
                    assert(more[j] == qs[j - ps.len()]);
                    if i < ps.len() {
                        assert(more[i] == ps[i]);
                    } else {
                        assert(more[i] == qs[i - ps.len()]);
                        assert(ks[i - ps.len()] < ks[j - ps.len()]);
                    }
                }
            }
            assert forall|i: int| 0 <= i < more.len() implies tells(
                receipts[(#[trigger] more[i]).receipt].logs@[more[i].log],
                number,
                all[i],
            ) by {
                if i < ps.len() {
                    assert(more[i] == ps[i]);
                    assert(all[i] == ts[i]);
                } else {
                    let k = i - ps.len();
                    assert(more[i] == qs[k]);
                    assert(all[i] == log_transfers(r.logs@, number)[k]);
                    assert(tells(r.logs@[ks[k]], number, log_transfers(r.logs@, number)[k]));
                }
            }
            more
        } else {
            assert forall|p: Place| #[trigger]
                ps.contains(p) <==> p.block == b && transfer_in(receipts, p) by {
                if 0 <= p.receipt < last {
                    assert(front[p.receipt] == receipts[p.receipt]);
                }
                if ps.contains(p) {
                    assert(transfer_in(front, p));
                }
                if p.block == b && transfer_in(receipts, p) {
                    assert(p.receipt != last);
                    assert(transfer_in(front, p));
                }
            }
            ps
        }
    }
}

proof fn lemma_block_places(blocks: Seq<Block>) -> (places: Seq<Place>)
    ensures
        read_at(blocks, block_transfers(blocks), places),
    decreases blocks.len(),
{
    if blocks.len() == 0 {
        Seq::empty()
    } else {
        let front = blocks.drop_last();
        let last = blocks.len() - 1;
        let block = blocks.last();
        let ps = lemma_block_places(front);
        let receipts = paired_receipts(block);
        let qs = lemma_receipt_places(receipts, block.number, last);
        let ts = block_transfers(front);
        let us = receipt_transfers(receipts, block.number);
        let all = block_transfers(blocks);
        assert(all == ts + us);
        let more = ps + qs;
        assert forall|i: int| 0 <= i < ps.len() implies 0 <= (#[trigger] ps[i]).block < last
            && blocks[ps[i].block] == front[ps[i].block] by {
            assert(ps.contains(ps[i]));
            assert(transfer_at(front, ps[i]));
        }
        assert forall|i: int| 0 <= i < qs.len() implies (#[trigger] qs[i]).block == last
            && transfer_in(receipts, qs[i]) by {
            assert(qs.contains(qs[i]));
        }
        assert forall|p: Place|
            p.block == last implies #[trigger] transfer_in(receipts, p) == transfer_at(
            blocks,
            p,
        ) by {
            if 0 <= p.receipt < receipts.len() {
                assert(receipts[p.receipt] == block.receipts@[p.receipt]);
            }
        }
        assert forall|p: Place| #[trigger] more.contains(p) <==> transfer_at(blocks, p) by {
            if more.contains(p) {
                let i = choose|i: int| 0 <= i < more.len() && more[i] == p;
                if i < ps.len() {
                    assert(ps[i] == p);
                    assert(ps.contains(p));
                    assert(transfer_at(front, p));
                } else {
                    assert(qs[i - ps.len()] == p);
                }
            }
            if transfer_at(blocks, p) {
                if p.block == last {
                    assert(transfer_in(receipts, p));
                    assert(qs.contains(p));
                    let i = choose|i: int| 0 <= i < qs.len() && qs[i] == p;
                    assert(more[ps.len() + i] == p);
                } else {
                    assert(front[p.block] == blocks[p.block]);
                    assert(transfer_at(front, p));
                    assert(ps.contains(p));
                    let i = choose|i: int| 0 <= i < ps.len() && ps[i] == p;
                    assert(more[i] == p);
                }
            }
        }
        assert forall|i: int, j: int| 0 <= i < j < more.len() implies precedes(
            #[trigger] more[i],
            #[trigger] more[j],
        ) by {
            if j < ps.len() {
                assert(more[i] == ps[i] && more[j] == ps[j]);
            } else {
                assert(more[j] == qs[j - ps.len()]);
                if i < ps.len() {
                    assert(more[i] == ps[i]);
                } else {
                    assert(more[i] == qs[i - ps.len()]);
                }
            }
        }
        assert forall|i: int| 0 <= i < more.len() implies tells(
            blocks[(#[trigger] more[i]).block].receipts@[more[i].receipt].logs@[more[i].log],
            blocks[more[i].block].number,
            all[i],
        ) by {
            if i < ps.len() {
                assert(more[i] == ps[i]);
                assert(all[i] == ts[i]);
            } else {
                let k = i - ps.len();
                assert(more[i] == qs[k]);
                assert(all[i] == us[k]);
                assert(receipts[qs[k].receipt] == block.receipts@[qs[k].receipt]);
            }
        }
        more
    }
}

/// Extraction is complete and in order: the transfers of a chain are those at all the places of its
/// successful transactions where there is one, each once, by block, by transaction and by log.
pub proof fn law_extraction_reads_every_event(chain: Chain) -> (places: Seq<Place>)
    ensures
        read_at(chain.blocks@, chain.transfers(), places),
{
    lemma_block_places(chain.blocks@)
}

/// The block before the first of a chain: block 0 where the chain has no blocks or begins there.
pub open spec fn block_before(chain: Chain) -> int {
    if chain.blocks@.len() > 0 && chain.blocks@[0].number > 0 {
        chain.blocks@[0].number - 1
    } else {
        0
    }
}

/// The height that a notification finishes: that of the last block which it adds, or of the block
/// before those which it takes away.
pub open spec fn height_after(notification: Notification) -> int {
    match notification {
        Notification::ChainCommitted { new } => new.blocks@.last().number as int,
        Notification::ChainReorged { old, new } => new.blocks@.last().number as int,
        Notification::ChainReverted { old } => block_before(old),
    }
}

/// Whether what a notification adds has blocks.
pub open spec fn adds_blocks(notification: Notification) -> bool {
    match notification {
        Notification::ChainCommitted { new } => new.blocks@.len() > 0,
        Notification::ChainReorged { old, new } => new.blocks@.len() > 0,
        Notification::ChainReverted { old } => true,
    }
}

/// The tip of a chain is its last block, and it was built on the block before its first.
pub proof fn law_ends_of_a_chain(chain: Chain)
    ensures
        chain.tip() is Some <==> chain.blocks@.len() > 0,
        chain.blocks@.len() > 0 ==> chain.tip() == Some(
            chain.blocks@[chain.blocks@.len() - 1].number,
        ),
        chain.fork_block() == block_before(chain),
{
}

/// The finished height is the number of the last canonical block: of the last block that was added,
/// or of the block before those that were taken away. It is what the database has for the last
/// block, and what the node is told.
pub proof fn law_finished_height(tables: Tables, notification: Notification)
    requires
        adds_blocks(notification),
    ensures
        notification.has_tip(),
        notification.finished_height() == height_after(notification),
        notification.applied(tables).last_block == Some(height_after(notification) as u64),
{
}

/// The finished height after a run of notifications is that of the last one.
pub proof fn law_finished_height_of_run(run: Seq<Notification>)
    requires
        run.len() > 0,
        proper(run),
    ensures
        followed(run).last_block == Some(height_after(run.last()) as u64),
{
}

/// What a notification does to the log and the balances: a rollback to the block before the old
/// chain, where there is one, and the transfers of the new chain, where there is one.
pub proof fn law_notification_does(tables: Tables, old: Chain, new: Chain)
    ensures
        ({
            let commit = Notification::ChainCommitted { new };
            let after = appended(tables, new.transfers());
            &&& commit.applied(tables).transfers == after.transfers
            &&& commit.applied(tables).balances == after.balances
            &&& committed(tables, new) == commit.applied(tables)
            &&& new.blocks@.len() == 0 ==> committed(tables, new) == after
        }),
        ({
            let reorg = Notification::ChainReorged { old, new };
            let back = rolled_back(tables, block_before(old) as u64);
            let after = appended(back, new.transfers());
            &&& reorg.applied(tables).transfers == after.transfers
            &&& reorg.applied(tables).balances == after.balances
            &&& reorged(tables, old, new) == reorg.applied(tables)
            &&& new.blocks@.len() == 0 ==> reorged(tables, old, new) == after
        }),
        ({
            let revert = Notification::ChainReverted { old };
            let back = rolled_back(tables, block_before(old) as u64);
            &&& revert.applied(tables).transfers == back.transfers
            &&& revert.applied(tables).balances == back.balances
            &&& reverted(tables, old) == revert.applied(tables)
        }),
{
    if new.blocks@.len() == 0 {
        assert(committed(tables, new) =~= appended(tables, new.transfers()));
    }
}

/// A notification fails if and only if it takes blocks away and the rows of the log before them
/// leave some address 2^256 or more.
pub proof fn law_notification_fails(tables: Tables, old: Chain, new: Chain)
    ensures
        !(Notification::ChainCommitted { new }).fails(tables),
        (Notification::ChainReverted { old }).fails(tables) <==> exists|key: Seq<char>|
            #[trigger] received(up_to(tables.transfers, block_before(old) as u64), key) - sent(
                up_to(tables.transfers, block_before(old) as u64),
                key,
            ) >= pow2(256),
        (Notification::ChainReorged { old, new }).fails(tables)
            == (Notification::ChainReverted { old }).fails(tables),
{
    law_rollback_fails(tables, block_before(old) as u64);
    law_ends_of_a_chain(old);
}

/// Whether no row of the log is of a later block than the last one that was processed.
pub open spec fn within_height(tables: Tables) -> bool {
    match tables.last_block {
        Some(height) => forall|i: int|
            0 <= i < tables.transfers.len() ==> (#[trigger] tables.transfers[i]).block <= height,
        None => tables.transfers.len() == 0,
    }
}

/// Whether the blocks that a notification adds ascend, from above those that remain.
pub open spec fn follows(tables: Tables, notification: Notification) -> bool {
    match notification {
        Notification::ChainCommitted { new } => {
            &&& ascending(new.blocks@)
            &&& tables.last_block is Some ==> tables.last_block->0 < new.blocks@[0].number
        },
        Notification::ChainReorged { old, new } => {
            &&& ascending(new.blocks@)
            &&& block_before(old) < new.blocks@[0].number
        },
        Notification::ChainReverted { old } => true,
    }
}

/// The rows of chains that follow one another are of no later block than the acknowledged height,
/// which is the height of the highest block: each notification keeps it so.
pub proof fn law_no_row_above_the_height(tables: Tables, notification: Notification)
    requires
        within_height(tables),
        adds_blocks(notification),
        follows(tables, notification),
    ensures
        within_height(notification.applied(tables)),
        notification.applied(tables).last_block is Some,
        match notification {
            Notification::ChainCommitted { new } => forall|b: int|
                0 <= b < new.blocks@.len() ==> (#[trigger] new.blocks@[b]).number
                    <= notification.applied(tables).last_block->0,
            Notification::ChainReorged { old, new } => forall|b: int|
                0 <= b < new.blocks@.len() ==> (#[trigger] new.blocks@[b]).number
                    <= notification.applied(tables).last_block->0,
            Notification::ChainReverted { old } => true,
        },
{
    match notification {
        Notification::ChainCommitted { new } => {
            lemma_rows_within(tables, new, new.blocks@[0].number);
        },
        Notification::ChainReorged { old, new } => {
            let back = rolled_back(tables, old.fork_block());
            lemma_kept_rows(tables.transfers, old.fork_block());
            lemma_rows_within(back, new, new.blocks@[0].number);
        },
        Notification::ChainReverted { old } => {
            lemma_kept_rows(tables.transfers, old.fork_block());
        },
    }
}

proof fn lemma_kept_rows(log: Seq<LoggedTransfer>, fork_block: u64)
    ensures
        forall|i: int|
            0 <= i < survivors(log, fork_block).len() ==> (#[trigger] survivors(
                log,
                fork_block,
            )[i]).block <= fork_block,
    decreases log.len(),
{
    reveal(Seq::filter);
    if log.len() > 0 {
        lemma_kept_rows(log.drop_last(), fork_block);
        let before = survivors(log.drop_last(), fork_block);
        let kept = survivors(log, fork_block);
        assert forall|i: int| 0 <= i < kept.len() implies (#[trigger] kept[i]).block
            <= fork_block by {
            if i < before.len() {
                assert(kept[i] == before[i]);
            }
        }
    }
}

proof fn lemma_rows_within(tables: Tables, new: Chain, first: u64)
    requires
        new.blocks@.len() > 0,
        new.blocks@[0].number == first,
        ascending(new.blocks@),
        forall|i: int|
            0 <= i < tables.transfers.len() ==> (#[trigger] tables.transfers[i]).block <= first,
    ensures
        within_height(committed(tables, new)),
        forall|b: int|
            0 <= b < new.blocks@.len() ==> (#[trigger] new.blocks@[b]).number
                <= new.blocks@.last().number,
{
    let ts = new.transfers();
    let after = committed(tables, new);
    let last = new.blocks@.len() - 1;
    law_extraction_keeps_block_order(new.blocks@);
    assert forall|b: int| 0 <= b < new.blocks@.len() implies (#[trigger] new.blocks@[b]).number
        <= new.blocks@.last().number by {
        assert(new.blocks@[last].number == new.blocks@.last().number);
    }
    assert(new.blocks@[0].number <= new.blocks@.last().number);
    assert forall|i: int| 0 <= i < after.transfers.len() implies (
    #[trigger] after.transfers[i]).block <= new.blocks@.last().number by {
        if i < tables.transfers.len() {
            assert(after.transfers[i] == tables.transfers[i]);
        } else {
            let k = i - tables.transfers.len();
            assert(after.transfers[i] == logged_all(ts)[k]);
            assert(ts[k].block <= new.blocks@.last().number);
        }
    }
}

} // verus!
