use reth_usdc_indexer::db::DbError;
use reth_usdc_indexer::exex::{Block, Chain, Log, Notification, Receipt};
use reth_usdc_indexer::primitives::{Address, B256, U256};
use reth_usdc_indexer::types::{TransferError, TRANSFER_SIG, USDC_ADDRESS};
use reth_usdc_indexer::{Database, UsdcIndexer};

fn addr(n: u8) -> Address {
    let mut bytes = [0u8; 20];
    bytes[19] = n;
    Address { bytes }
}

fn topic(n: u8) -> B256 {
    let mut bytes = [0u8; 32];
    bytes[31] = n;
    B256 { bytes }
}

fn amount(n: u8) -> Vec<u8> {
    let mut data = vec![0u8; 32];
    data[31] = n;
    data
}

fn usdc(from: u8, to: u8, value: u8) -> Log {
    Log {
        address: Address { bytes: USDC_ADDRESS },
        topics: vec![B256 { bytes: TRANSFER_SIG }, topic(from), topic(to)],
        data: amount(value),
    }
}

fn receipt(success: bool, logs: Vec<Log>) -> Receipt {
    Receipt { success, logs }
}

fn block(number: u64, logs: Vec<Log>) -> Block {
    Block { number, transaction_count: 1, receipts: vec![receipt(true, logs)] }
}

fn chain(blocks: Vec<Block>) -> Chain {
    Chain { blocks }
}

fn indexer() -> UsdcIndexer {
    UsdcIndexer::new(Database::new())
}

fn balance(indexer: &UsdcIndexer, n: u8) -> Option<(u64, u64)> {
    indexer
        .database()
        .get_balance(&addr(n))
        .unwrap()
        .map(|(value, block)| (value.limbs[0], block))
}

fn log_blocks(indexer: &UsdcIndexer) -> Vec<u64> {
    indexer.database().transfer_rows().iter().map(|r| r.block_number).collect()
}

#[test]
fn only_usdc_transfers_are_extracted() {
    let mut foreign = usdc(1, 2, 3);
    foreign.address = addr(9);
    let mut approval = usdc(1, 2, 4);
    approval.topics[0] = topic(5);
    let mut bare = usdc(1, 2, 5);
    bare.topics = vec![];
    let mut short = usdc(1, 2, 6);
    short.topics.pop();
    let mut long = usdc(1, 2, 7);
    long.data.push(0);
    let logs = vec![foreign, approval, usdc(1, 2, 8), bare, short, long, usdc(2, 3, 9)];

    let records = UsdcIndexer::extract_records(&chain(vec![block(40, logs)]));
    assert_eq!(records.len(), 2);
    assert_eq!(records[0].block_number, 40);
    assert_eq!(records[0].from_addr, addr(1));
    assert_eq!(records[0].to_addr, addr(2));
    assert_eq!(records[0].value, U256::from(8u64));
    assert_eq!(records[1].from_addr, addr(2));
    assert_eq!(records[1].to_addr, addr(3));
    assert_eq!(records[1].value, U256::from(9u64));
}

#[test]
fn a_skipped_usdc_event_says_why() {
    let mut short = usdc(1, 2, 6);
    short.topics.pop();
    assert_eq!(UsdcIndexer::parse_error(&short, 40), Some(TransferError::TopicCount));
    let mut long = usdc(1, 2, 7);
    long.data.push(0);
    assert_eq!(UsdcIndexer::parse_error(&long, 40), Some(TransferError::DataLength));
    long.address = addr(9);
    assert_eq!(UsdcIndexer::parse_error(&long, 40), None);
    assert_eq!(UsdcIndexer::parse_error(&usdc(1, 2, 8), 40), None);
}

#[test]
fn failed_transactions_and_unpaired_receipts_are_passed_over() {
    let executed = Block {
        number: 12,
        transaction_count: 3,
        receipts: vec![
            receipt(true, vec![usdc(1, 2, 1)]),
            receipt(false, vec![usdc(1, 2, 2)]),
            receipt(true, vec![usdc(1, 2, 3), usdc(1, 2, 4)]),
            receipt(true, vec![usdc(1, 2, 5)]),
        ],
    };
    let more_transactions = Block {
        number: 13,
        transaction_count: 9,
        receipts: vec![receipt(true, vec![usdc(1, 2, 6)])],
    };
    let records = UsdcIndexer::extract_records(&chain(vec![executed, more_transactions]));
    let found: Vec<(u64, u64)> =
        records.iter().map(|r| (r.block_number, r.value.limbs[0])).collect();
    assert_eq!(found, vec![(12, 1), (12, 3), (12, 4), (13, 6)]);
}

#[test]
fn extraction_keeps_block_order() {
    let blocks = vec![
        block(5, vec![usdc(0, 1, 1)]),
        block(6, vec![]),
        block(7, vec![usdc(0, 1, 2), usdc(0, 2, 3)]),
    ];
    let records = UsdcIndexer::extract_records(&chain(blocks));
    let numbers: Vec<u64> = records.iter().map(|r| r.block_number).collect();
    assert_eq!(numbers, vec![5, 7, 7]);
}

#[test]
fn a_chain_knows_its_tip_and_its_fork_block() {
    let run = chain(vec![block(8, vec![]), block(9, vec![])]);
    assert_eq!(run.tip(), Some(9));
    assert_eq!(run.fork_block(), 7);
    let genesis = chain(vec![block(0, vec![])]);
    assert_eq!(genesis.tip(), Some(0));
    assert_eq!(genesis.fork_block(), 0);
    assert_eq!(chain(vec![]).tip(), None);
    assert_eq!(chain(vec![]).fork_block(), 0);
}

#[test]
fn a_committed_chain_is_appended() {
    let mut indexer = indexer();
    let new = chain(vec![block(100, vec![usdc(0, 1, 90)]), block(101, vec![usdc(1, 2, 30)])]);
    let finished = indexer.handle_notification(&Notification::ChainCommitted { new });
    assert_eq!(finished, Ok(101));
    assert_eq!(balance(&indexer, 1), Some((60, 101)));
    assert_eq!(balance(&indexer, 2), Some((30, 101)));
    assert_eq!(indexer.database().get_last_block().unwrap(), Some(101));
}

#[test]
fn a_reorganized_chain_replaces_the_old_one() {
    let mut indexer = indexer();
    let base = chain(vec![block(100, vec![usdc(0, 1, 90)])]);
    indexer.handle_notification(&Notification::ChainCommitted { new: base }).unwrap();
    let old = chain(vec![block(101, vec![usdc(1, 2, 30)]), block(102, vec![usdc(1, 3, 20)])]);
    indexer.handle_committed(&old).unwrap();
    assert_eq!(balance(&indexer, 1), Some((40, 102)));

    let new = chain(vec![block(101, vec![usdc(1, 3, 5)]), block(102, vec![]), block(103, vec![])]);
    let finished = indexer.handle_notification(&Notification::ChainReorged { old, new });
    assert_eq!(finished, Ok(103));
    assert_eq!(balance(&indexer, 1), Some((85, 101)));
    assert_eq!(balance(&indexer, 2), None);
    assert_eq!(balance(&indexer, 3), Some((5, 101)));
    assert_eq!(log_blocks(&indexer), vec![100, 101]);
    assert_eq!(indexer.database().get_last_block().unwrap(), Some(103));
}

#[test]
fn a_reorganization_is_a_reversal_and_a_commit() {
    let old = || chain(vec![block(2, vec![usdc(1, 2, 30)])]);
    let new = || chain(vec![block(2, vec![usdc(1, 3, 7)])]);
    let base = || chain(vec![block(1, vec![usdc(0, 1, 90)])]);
    let mut at_once = indexer();
    let mut in_steps = indexer();
    for indexer in [&mut at_once, &mut in_steps] {
        indexer.handle_committed(&base()).unwrap();
        indexer.handle_committed(&old()).unwrap();
    }
    at_once.handle_reorged(&old(), &new()).unwrap();
    in_steps.handle_reverted(&old()).unwrap();
    assert_eq!(in_steps.database().get_last_block().unwrap(), Some(1));
    in_steps.handle_committed(&new()).unwrap();

    let mut direct = indexer();
    direct.handle_committed(&base()).unwrap();
    direct.handle_committed(&new()).unwrap();
    for n in 1..4 {
        assert_eq!(balance(&at_once, n), balance(&in_steps, n));
        assert_eq!(balance(&at_once, n), balance(&direct, n));
    }
    assert_eq!(log_blocks(&at_once), log_blocks(&direct));
    assert_eq!(balance(&direct, 1), Some((83, 2)));
}

#[test]
fn a_reverted_chain_is_taken_away() {
    let mut indexer = indexer();
    indexer.handle_committed(&chain(vec![block(100, vec![usdc(0, 1, 90)])])).unwrap();
    let old = chain(vec![block(101, vec![usdc(1, 2, 30)]), block(102, vec![])]);
    indexer.handle_committed(&old).unwrap();
    let finished = indexer.handle_notification(&Notification::ChainReverted { old });
    assert_eq!(finished, Ok(100));
    assert_eq!(balance(&indexer, 1), Some((90, 100)));
    assert_eq!(balance(&indexer, 2), None);
    assert_eq!(indexer.database().get_last_block().unwrap(), Some(100));
}

#[test]
fn reverting_no_blocks_goes_back_to_block_zero() {
    let mut indexer = indexer();
    indexer.handle_committed(&chain(vec![block(3, vec![usdc(0, 1, 90)])])).unwrap();
    let finished =
        indexer.handle_notification(&Notification::ChainReverted { old: chain(vec![]) });
    assert_eq!(finished, Ok(0));
    assert_eq!(balance(&indexer, 1), None);
    assert_eq!(indexer.database().get_last_block().unwrap(), Some(0));
}

#[test]
fn committing_no_blocks_changes_nothing() {
    let mut indexer = indexer();
    indexer.handle_committed(&chain(vec![block(3, vec![usdc(0, 1, 90)])])).unwrap();
    indexer.handle_committed(&chain(vec![])).unwrap();
    assert_eq!(indexer.database().get_last_block().unwrap(), Some(3));
    assert_eq!(log_blocks(&indexer), vec![3]);
}

#[test]
fn a_failed_rollback_stops_the_reorganization() {
    let largest = Log {
        address: Address { bytes: USDC_ADDRESS },
        topics: vec![B256 { bytes: TRANSFER_SIG }, topic(0), topic(1)],
        data: vec![0xff; 32],
    };
    let mut indexer = indexer();
    indexer
        .handle_committed(&chain(vec![block(1, vec![largest, usdc(0, 1, 1)])]))
        .unwrap();
    let reorg = Notification::ChainReorged {
        old: chain(vec![block(2, vec![])]),
        new: chain(vec![block(2, vec![usdc(1, 2, 30)])]),
    };
    assert_eq!(indexer.handle_notification(&reorg), Err(DbError::BalanceOverflow));
    assert_eq!(log_blocks(&indexer), vec![1, 1]);
    assert_eq!(balance(&indexer, 2), None);
    assert_eq!(indexer.database().get_last_block().unwrap(), Some(1));
    let revert = Notification::ChainReverted { old: chain(vec![block(2, vec![])]) };
    assert_eq!(indexer.handle_notification(&revert), Err(DbError::BalanceOverflow));
}
