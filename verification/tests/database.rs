use reth_usdc_indexer::db::{balance_key, DbError};
use reth_usdc_indexer::primitives::{Address, U256};
use reth_usdc_indexer::rows::{BalanceRow, TransferRow};
use reth_usdc_indexer::values::logged_amounts;
use reth_usdc_indexer::{Database, TransferRecord};

const MAX: U256 = U256 { limbs: [u64::MAX, u64::MAX, u64::MAX, u64::MAX] };

fn test_db() -> Database {
    Database::new()
}

fn addr(n: u8) -> Address {
    let mut bytes = [0u8; 20];
    bytes[19] = n;
    Address { bytes }
}

fn transfer(from: Address, to: Address, value: u64, block: u64) -> TransferRecord {
    moving(from, to, U256::from(value), block)
}

fn moving(from: Address, to: Address, value: U256, block: u64) -> TransferRecord {
    TransferRecord { block_number: block, from_addr: from, to_addr: to, value }
}

// Mint: from == zero address
fn mint(to: Address, value: u64, block: u64) -> TransferRecord {
    transfer(Address::zero(), to, value, block)
}

fn stored(address: &str, balance: &str, last_updated_block: u64) -> BalanceRow {
    BalanceRow {
        address: address.to_string(),
        balance: balance.to_string(),
        last_updated_block,
    }
}

fn row_texts(db: &Database) -> Vec<(u64, String, String, String)> {
    db.transfer_rows()
        .iter()
        .map(|r| (r.block_number, r.from_addr.clone(), r.to_addr.clone(), r.value.clone()))
        .collect()
}

fn balance_texts(db: &Database) -> Vec<(String, String, u64)> {
    let mut rows: Vec<(String, String, u64)> = db
        .balance_rows()
        .iter()
        .map(|r| (r.address.clone(), r.balance.clone(), r.last_updated_block))
        .collect();
    rows.sort();
    rows
}

#[test]
fn basic_mint_and_transfer() {
    let mut db = test_db();
    let alice = addr(1);
    let bob = addr(2);

    // Block 100: mint 1000 to alice
    db.append_transfers(&[mint(alice, 1000, 100)]).unwrap();
    let (bal, _) = db.get_balance(&alice).unwrap().unwrap();
    assert_eq!(bal, U256::from(1000u64));

    // Block 101: alice sends 400 to bob
    db.append_transfers(&[transfer(alice, bob, 400, 101)]).unwrap();
    let (alice_bal, _) = db.get_balance(&alice).unwrap().unwrap();
    let (bob_bal, _) = db.get_balance(&bob).unwrap().unwrap();
    assert_eq!(alice_bal, U256::from(600u64));
    assert_eq!(bob_bal, U256::from(400u64));
}

#[test]
fn reorg_restores_prior_balance() {
    let mut db = test_db();
    let alice = addr(1);
    let bob = addr(2);

    // Block 100: mint 1000 to alice (pre-fork, survives reorg)
    db.append_transfers(&[mint(alice, 1000, 100)]).unwrap();

    // Block 101: alice sends 400 to bob (will be reorged away)
    db.append_transfers(&[transfer(alice, bob, 400, 101)]).unwrap();

    // Verify state before reorg
    let (alice_bal, _) = db.get_balance(&alice).unwrap().unwrap();
    assert_eq!(alice_bal, U256::from(600u64));

    // Reorg: fork at block 100, discard block 101
    db.rollback_to_block(100).unwrap();

    // Alice should be back to 1000; bob should have no balance
    let (alice_bal, _) = db.get_balance(&alice).unwrap().unwrap();
    assert_eq!(alice_bal, U256::from(1000u64));
    assert!(db.get_balance(&bob).unwrap().is_none());
}

#[test]
fn reorg_of_address_with_pre_fork_and_post_fork_activity() {
    let mut db = test_db();
    let alice = addr(1);
    let bob = addr(2);
    let carol = addr(3);

    // Block 100: mint 1000 to alice
    db.append_transfers(&[mint(alice, 1000, 100)]).unwrap();
    // Block 101: alice -> bob 300  (pre-fork activity for alice AND bob)
    db.append_transfers(&[transfer(alice, bob, 300, 101)]).unwrap();
    // Block 102: alice -> carol 200  (will be reorged away)
    db.append_transfers(&[transfer(alice, carol, 200, 102)]).unwrap();

    // Pre-reorg: alice=500, bob=300, carol=200
    assert_eq!(db.get_balance(&alice).unwrap().unwrap().0, U256::from(500u64));
    assert_eq!(db.get_balance(&carol).unwrap().unwrap().0, U256::from(200u64));

    // Reorg to block 101
    db.rollback_to_block(101).unwrap();

    // alice=700, bob=300, carol=gone
    assert_eq!(db.get_balance(&alice).unwrap().unwrap().0, U256::from(700u64));
    assert_eq!(db.get_balance(&bob).unwrap().unwrap().0, U256::from(300u64));
    assert!(db.get_balance(&carol).unwrap().is_none());
}

#[test]
fn full_reorg_to_genesis_clears_all() {
    let mut db = test_db();
    let alice = addr(1);

    db.append_transfers(&[mint(alice, 500, 50)]).unwrap();
    db.rollback_to_block(0).unwrap();
    assert!(db.get_balance(&alice).unwrap().is_none());
    assert!(db.transfer_rows().is_empty());
    assert!(db.balance_rows().is_empty());
}

#[test]
fn rows_hold_hexadecimal_addresses_and_decimal_values() {
    let mut db = test_db();
    let mut bytes = [0u8; 20];
    bytes[0] = 0xA0;
    bytes[1] = 0x0b;
    bytes[19] = 0xff;
    let account = Address { bytes };
    let zero = "0x0000000000000000000000000000000000000000".to_string();
    let text = "0xa00b0000000000000000000000000000000000ff".to_string();

    db.append_transfers(&[mint(account, 1234567890, 7)]).unwrap();
    assert_eq!(balance_key(&account), text);
    assert_eq!(
        row_texts(&db),
        vec![(7, zero.clone(), text.clone(), "1234567890".to_string())]
    );
    assert_eq!(
        balance_texts(&db),
        vec![(zero, "0".to_string(), 7), (text, "1234567890".to_string(), 7)]
    );
}

#[test]
fn a_balance_is_dated_by_its_last_change() {
    let mut db = test_db();
    let alice = addr(1);
    let bob = addr(2);

    db.append_transfers(&[mint(alice, 1000, 100), transfer(alice, bob, 1, 105)]).unwrap();
    db.append_transfers(&[mint(bob, 5, 109)]).unwrap();
    assert_eq!(db.get_balance(&alice).unwrap(), Some((U256::from(999u64), 105)));
    assert_eq!(db.get_balance(&bob).unwrap(), Some((U256::from(6u64), 109)));

    db.rollback_to_block(108).unwrap();
    assert_eq!(db.get_balance(&alice).unwrap(), Some((U256::from(999u64), 105)));
    assert_eq!(db.get_balance(&bob).unwrap(), Some((U256::from(1u64), 105)));
}

#[test]
fn appending_nothing_changes_nothing() {
    let mut db = test_db();
    db.append_transfers(&[]).unwrap();
    assert!(db.transfer_rows().is_empty());
    assert!(db.balance_rows().is_empty());
    assert_eq!(db.get_last_block().unwrap(), None);
}

#[test]
fn batches_make_no_difference() {
    let records = [
        mint(addr(1), 900, 1),
        transfer(addr(1), addr(2), 300, 2),
        transfer(addr(2), addr(1), 50, 2),
        transfer(addr(1), addr(3), 10, 3),
    ];
    let mut whole = test_db();
    whole.append_transfers(&records).unwrap();
    let mut parts = test_db();
    parts.append_transfers(&records[..1]).unwrap();
    parts.append_transfers(&records[1..3]).unwrap();
    parts.append_transfers(&records[3..]).unwrap();
    assert_eq!(row_texts(&whole), row_texts(&parts));
    assert_eq!(balance_texts(&whole), balance_texts(&parts));
}

#[test]
fn a_debit_stops_at_zero() {
    let mut db = test_db();
    db.append_transfers(&[mint(addr(1), 5, 1), transfer(addr(1), addr(2), 8, 2)]).unwrap();
    assert_eq!(db.get_balance(&addr(1)).unwrap(), Some((U256::from(0u64), 2)));
    assert_eq!(db.get_balance(&addr(2)).unwrap(), Some((U256::from(8u64), 2)));
}

#[test]
fn a_credit_stops_at_the_largest_amount() {
    let mut db = test_db();
    db.append_transfers(&[
        moving(Address::zero(), addr(1), MAX, 1),
        mint(addr(1), 1, 2),
    ])
    .unwrap();
    assert_eq!(db.get_balance(&addr(1)).unwrap(), Some((MAX, 2)));
}

#[test]
fn a_transfer_to_oneself_leaves_the_balance() {
    let mut db = test_db();
    db.append_transfers(&[mint(addr(1), 70, 1), transfer(addr(1), addr(1), 30, 2)]).unwrap();
    assert_eq!(db.get_balance(&addr(1)).unwrap(), Some((U256::from(70u64), 2)));
    db.rollback_to_block(2).unwrap();
    assert_eq!(db.get_balance(&addr(1)).unwrap(), Some((U256::from(70u64), 2)));
}

#[test]
fn other_addresses_keep_their_rows() {
    let mut db = test_db();
    db.append_transfers(&[mint(addr(1), 70, 1), mint(addr(2), 80, 2)]).unwrap();
    db.append_transfers(&[mint(addr(2), 5, 3)]).unwrap();
    assert_eq!(db.get_balance(&addr(1)).unwrap(), Some((U256::from(70u64), 1)));
}

#[test]
fn named_rows_are_all_that_an_append_reads() {
    let records = [transfer(addr(1), addr(2), 40, 9)];
    let one = "0x0000000000000000000000000000000000000001";
    let two = "0x0000000000000000000000000000000000000002";
    let nine = "0x0000000000000000000000000000000000000009";
    let mut full = Database::from_rows(
        Vec::new(),
        vec![stored(nine, "3", 1), stored(one, "100", 2), stored(two, "7", 3)],
        None,
    );
    let mut part = Database::from_rows(
        Vec::new(),
        vec![stored(two, "7", 3), stored(one, "100", 2)],
        None,
    );
    full.append_transfers(&records).unwrap();
    part.append_transfers(&records).unwrap();
    for address in [addr(1), addr(2)] {
        assert_eq!(full.get_balance(&address), part.get_balance(&address));
    }
    assert_eq!(part.get_balance(&addr(1)).unwrap(), Some((U256::from(60u64), 9)));
    assert_eq!(part.get_balance(&addr(2)).unwrap(), Some((U256::from(47u64), 9)));
    assert_eq!(full.get_balance(&addr(9)).unwrap(), Some((U256::from(3u64), 1)));
}

#[test]
fn rollback_drops_rows_without_a_balance() {
    let mut db = test_db();
    db.append_transfers(&[mint(addr(1), 70, 1), transfer(addr(1), addr(2), 70, 2)]).unwrap();
    assert_eq!(db.get_balance(&addr(1)).unwrap(), Some((U256::from(0u64), 2)));
    assert_eq!(db.get_balance(&Address::zero()).unwrap(), Some((U256::from(0u64), 1)));
    db.rollback_to_block(2).unwrap();
    assert_eq!(db.get_balance(&addr(1)).unwrap(), None);
    assert_eq!(db.get_balance(&Address::zero()).unwrap(), None);
    assert_eq!(db.get_balance(&addr(2)).unwrap(), Some((U256::from(70u64), 2)));
}

#[test]
fn rollback_nets_credits_against_debits() {
    // The zero address receives a burn after a larger mint: the replayed balance is not backed.
    let mut db = test_db();
    db.append_transfers(&[mint(addr(1), 100, 1), transfer(addr(1), Address::zero(), 40, 2)])
        .unwrap();
    assert_eq!(db.get_balance(&Address::zero()).unwrap(), Some((U256::from(40u64), 2)));
    db.rollback_to_block(2).unwrap();
    assert_eq!(db.get_balance(&Address::zero()).unwrap(), None);
    assert_eq!(db.get_balance(&addr(1)).unwrap(), Some((U256::from(60u64), 2)));
}

#[test]
fn rollback_keeps_the_order_of_the_log() {
    let mut db = test_db();
    db.append_transfers(&[mint(addr(1), 1, 5), mint(addr(2), 2, 9), mint(addr(3), 3, 4)]).unwrap();
    db.rollback_to_block(5).unwrap();
    let blocks: Vec<u64> = row_texts(&db).into_iter().map(|row| row.0).collect();
    assert_eq!(blocks, vec![5, 4]);
    assert_eq!(db.get_balance(&addr(3)).unwrap(), Some((U256::from(3u64), 4)));
    assert_eq!(db.get_balance(&addr(2)).unwrap(), None);
}

#[test]
fn rollback_takes_the_highest_block_of_an_unordered_log() {
    let mut db = test_db();
    db.append_transfers(&[mint(addr(1), 1, 8), mint(addr(1), 2, 6)]).unwrap();
    assert_eq!(db.get_balance(&addr(1)).unwrap(), Some((U256::from(3u64), 6)));
    db.rollback_to_block(8).unwrap();
    assert_eq!(db.get_balance(&addr(1)).unwrap(), Some((U256::from(3u64), 8)));
}

#[test]
fn two_rollbacks_are_the_further_one() {
    let records = [mint(addr(1), 10, 1), mint(addr(1), 20, 2), mint(addr(2), 30, 3)];
    let mut twice = test_db();
    twice.append_transfers(&records).unwrap();
    twice.rollback_to_block(1).unwrap();
    twice.rollback_to_block(2).unwrap();
    let mut once = test_db();
    once.append_transfers(&records).unwrap();
    once.rollback_to_block(1).unwrap();
    assert_eq!(row_texts(&twice), row_texts(&once));
    assert_eq!(balance_texts(&twice), balance_texts(&once));
    assert_eq!(once.get_balance(&addr(1)).unwrap(), Some((U256::from(10u64), 1)));
}

#[test]
fn rollback_is_exact_beyond_64_bits() {
    let large = U256 { limbs: [7, 0, 3, 1] };
    let mut db = test_db();
    db.append_transfers(&[
        moving(Address::zero(), addr(1), large, 1),
        transfer(addr(1), addr(2), 8, 2),
    ])
    .unwrap();
    db.rollback_to_block(2).unwrap();
    let left = U256 { limbs: [u64::MAX, u64::MAX, 2, 1] };
    assert_eq!(db.get_balance(&addr(1)).unwrap(), Some((left, 2)));
    db.rollback_to_block(1).unwrap();
    assert_eq!(db.get_balance(&addr(1)).unwrap(), Some((large, 1)));
}

#[test]
fn rollback_sums_beyond_the_largest_amount() {
    // 2 * MAX in, 2 * MAX - 9 out again.
    let mut db = test_db();
    let less = U256 { limbs: [u64::MAX - 9, u64::MAX, u64::MAX, u64::MAX] };
    db.append_transfers(&[
        moving(Address::zero(), addr(1), MAX, 1),
        moving(Address::zero(), addr(1), MAX, 2),
        moving(addr(1), addr(2), MAX, 3),
        moving(addr(1), addr(3), less, 4),
    ])
    .unwrap();
    db.rollback_to_block(4).unwrap();
    assert_eq!(db.get_balance(&addr(1)).unwrap(), Some((U256::from(9u64), 4)));
    assert_eq!(db.get_balance(&addr(2)).unwrap(), Some((MAX, 3)));
}

#[test]
fn a_rollback_that_overflows_changes_nothing() {
    let mut db = test_db();
    db.append_transfers(&[
        moving(Address::zero(), addr(1), MAX, 1),
        mint(addr(1), 1, 2),
        mint(addr(2), 5, 3),
    ])
    .unwrap();
    let rows = row_texts(&db);
    let balances = balance_texts(&db);
    assert_eq!(db.rollback_to_block(2), Err(DbError::BalanceOverflow));
    assert_eq!(row_texts(&db), rows);
    assert_eq!(balance_texts(&db), balances);
    assert_eq!(db.rollback_to_block(1), Ok(()));
    assert_eq!(db.get_balance(&addr(1)).unwrap(), Some((MAX, 1)));
}

#[test]
fn a_balance_that_is_no_number_is_an_error() {
    let key = "0x0000000000000000000000000000000000000001";
    let mut db = Database::from_rows(Vec::new(), vec![stored(key, "12 USDC", 4)], None);
    assert_eq!(db.get_balance(&addr(1)), Err(DbError::InvalidBalance));
    assert_eq!(db.get_balance(&addr(2)), Ok(None));

    // The next transfer takes it as zero.
    db.append_transfers(&[mint(addr(1), 6, 5)]).unwrap();
    assert_eq!(db.get_balance(&addr(1)), Ok(Some((U256::from(6u64), 5))));
}

#[test]
fn balances_are_read_in_the_number_grammar() {
    let key = "0x0000000000000000000000000000000000000001";
    let read = |text: &str| {
        Database::from_rows(Vec::new(), vec![stored(key, text, 4)], None).get_balance(&addr(1))
    };
    let amount = |n: u64| Ok(Some((U256::from(n), 4)));
    assert_eq!(read("1_000"), amount(1000));
    assert_eq!(read("0x1fF"), amount(511));
    assert_eq!(read("0o17"), amount(15));
    assert_eq!(read("0b101"), amount(5));
    assert_eq!(read("007"), amount(7));
    assert_eq!(read(""), amount(0));
    assert_eq!(read("-1"), Err(DbError::InvalidBalance));
    assert_eq!(read("0b2"), Err(DbError::InvalidBalance));
    assert_eq!(read("\u{e9}12"), Err(DbError::InvalidBalance));
    assert_eq!(
        read("115792089237316195423570985008687907853269984665640564039457584007913129639935"),
        Ok(Some((MAX, 4)))
    );
    assert_eq!(
        read("115792089237316195423570985008687907853269984665640564039457584007913129639936"),
        Err(DbError::InvalidBalance)
    );
}

/// The balances of the receiver and the sender after a rollback over a log of one row.
fn replayed(value: &str) -> (Option<U256>, Option<U256>) {
    let row = TransferRow {
        block_number: 3,
        from_addr: "0x0000000000000000000000000000000000000001".to_string(),
        to_addr: "0x0000000000000000000000000000000000000002".to_string(),
        value: value.to_string(),
    };
    let mut db = Database::from_rows(vec![row], Vec::new(), None);
    db.rollback_to_block(3).unwrap();
    assert_eq!(db.transfer_rows()[0].value, value);
    let amount = |n: u8| db.get_balance(&addr(n)).unwrap().map(|(amount, _)| amount);
    (amount(2), amount(1))
}

#[test]
fn logged_values_are_read_up_to_their_last_leading_digit() {
    let given = |n: u64| (Some(U256::from(n)), None);
    assert_eq!(replayed("25"), given(25));
    assert_eq!(replayed("0x10"), (None, None));
    assert_eq!(replayed("12abc"), given(12));
    assert_eq!(replayed("1_000"), given(1));
    assert_eq!(replayed("007"), given(7));
    assert_eq!(replayed("3.9"), given(3));
    assert_eq!(replayed("8 9"), given(8));
    assert_eq!(replayed("6\u{e9}"), given(6));
    assert_eq!(replayed(""), (None, None));
    assert_eq!(replayed("   "), (None, None));
    assert_eq!(replayed("abc"), (None, None));
    assert_eq!(replayed("\u{a0}5"), (None, None));
}

#[test]
fn logged_values_may_have_space_and_a_sign() {
    let given = |n: u64| (Some(U256::from(n)), None);
    assert_eq!(replayed(" 7"), given(7));
    assert_eq!(replayed("\t\n\u{b}\u{c}\r 7 "), given(7));
    assert_eq!(replayed("+5"), given(5));
    assert_eq!(replayed(" +5x"), given(5));
    assert_eq!(replayed("+ 5"), (None, None));
    assert_eq!(replayed("+-5"), (None, None));
    assert_eq!(replayed("-"), (None, None));
    assert_eq!(replayed("-0"), (None, None));
    // What is less than nothing goes the other way.
    assert_eq!(replayed("-5"), (None, Some(U256::from(5u64))));
    assert_eq!(replayed(" -12abc"), (None, Some(U256::from(12u64))));
}

#[test]
fn logged_values_that_are_no_amounts_are_held_to_64_bits() {
    let largest =
        "115792089237316195423570985008687907853269984665640564039457584007913129639935";
    let beyond =
        "115792089237316195423570985008687907853269984665640564039457584007913129639936";
    assert_eq!(replayed("9223372036854775808"), (Some(U256::from(1u64 << 63)), None));
    assert_eq!(replayed(largest), (Some(MAX), None));
    assert_eq!(replayed(beyond), (Some(U256::from(i64::MAX as u64)), None));
    assert_eq!(replayed("-9223372036854775808"), (None, Some(U256::from(1u64 << 63))));
    assert_eq!(replayed("-9223372036854775809"), (None, Some(U256::from(1u64 << 63))));
    assert_eq!(replayed(&format!("-{}", beyond)), (None, Some(U256::from(1u64 << 63))));
}

#[test]
fn a_logged_value_is_given_or_taken() {
    let zero = U256::from(0u64);
    assert_eq!(logged_amounts("41"), (U256::from(41u64), zero));
    assert_eq!(logged_amounts("-41"), (zero, U256::from(41u64)));
    assert_eq!(logged_amounts("USDC"), (zero, zero));
}

#[test]
fn odd_logged_values_add_up() {
    let row = |from: u8, to: u8, value: &str, block: u64| TransferRow {
        block_number: block,
        from_addr: balance_key(&addr(from)),
        to_addr: balance_key(&addr(to)),
        value: value.to_string(),
    };
    let log = vec![
        row(1, 2, "100 USDC", 1),
        row(2, 3, "-30", 2),
        row(2, 2, "-7", 3),
        row(2, 3, "0x50", 4),
        row(2, 1, "40", 5),
    ];
    let mut db = Database::from_rows(log, Vec::new(), None);
    db.rollback_to_block(4).unwrap();
    assert_eq!(db.get_balance(&addr(2)), Ok(Some((U256::from(130u64), 4))));
    assert_eq!(db.get_balance(&addr(1)), Ok(None));
    assert_eq!(db.get_balance(&addr(3)), Ok(None));
}

#[test]
fn stored_rows_come_back() {
    let one = "0x0000000000000000000000000000000000000001";
    let two = "0x0000000000000000000000000000000000000002";
    let log = vec![TransferRow {
        block_number: 3,
        from_addr: one.to_string(),
        to_addr: two.to_string(),
        value: "25".to_string(),
    }];
    let balances = vec![stored(two, "1", 1), stored(one, "8", 2), stored(two, "25", 3)];
    let mut db = Database::from_rows(log, balances, Some(11));
    assert_eq!(
        row_texts(&db),
        vec![(3, one.to_string(), two.to_string(), "25".to_string())]
    );
    assert_eq!(
        balance_texts(&db),
        vec![(one.to_string(), "8".to_string(), 2), (two.to_string(), "25".to_string(), 3)]
    );
    assert_eq!(db.get_last_block().unwrap(), Some(11));
    assert!(db.transfer_rows()[0].survives(3));
    assert!(!db.transfer_rows()[0].survives(2));

    db.rollback_to_block(3).unwrap();
    assert_eq!(balance_texts(&db), vec![(two.to_string(), "25".to_string(), 3)]);
}

#[test]
fn the_last_block_is_what_was_set() {
    let mut db = test_db();
    assert_eq!(db.get_last_block().unwrap(), None);
    db.set_last_block(100).unwrap();
    assert_eq!(db.get_last_block().unwrap(), Some(100));
    db.set_last_block(99).unwrap();
    assert_eq!(db.get_last_block().unwrap(), Some(99));
    db.append_transfers(&[mint(addr(1), 1, 500)]).unwrap();
    db.rollback_to_block(3).unwrap();
    assert_eq!(db.get_last_block().unwrap(), Some(99));
}

#[test]
fn blocks_compare_as_unsigned_numbers() {
    let mut db = test_db();
    db.append_transfers(&[mint(addr(1), 1, u64::MAX), mint(addr(2), 2, 1)]).unwrap();
    db.rollback_to_block(1).unwrap();
    assert_eq!(db.get_balance(&addr(1)).unwrap(), None);
    assert_eq!(db.get_balance(&addr(2)).unwrap(), Some((U256::from(2u64), 1)));
}
