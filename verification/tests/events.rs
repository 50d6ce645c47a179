use reth_usdc_indexer::primitives::{Address, B256, U256};
use reth_usdc_indexer::types::{TransferError, TransferEvent, TRANSFER_SIG, USDC_ADDRESS};

fn word(first: u8) -> B256 {
    let mut bytes = [0u8; 32];
    for (i, byte) in bytes.iter_mut().enumerate() {
        *byte = first.wrapping_add(i as u8);
    }
    B256 { bytes }
}

#[test]
fn the_signature_is_the_hash_of_the_event() {
    let hash = alloy_primitives::keccak256("Transfer(address,address,uint256)");
    assert_eq!(TRANSFER_SIG, hash.0);
}

#[test]
fn the_contract_is_usdc_on_mainnet() {
    let usdc: alloy_primitives::Address =
        "0xA0b86991c6218b36c1d19D4a2e9Eb0cE3606eB48".parse().unwrap();
    assert_eq!(USDC_ADDRESS, usdc.into_array());
}

#[test]
fn a_transfer_event_is_decoded() {
    let topics = [B256 { bytes: TRANSFER_SIG }, word(10), word(100)];
    let mut data = [0u8; 32];
    data[31] = 0x02;
    data[30] = 0x01;
    data[0] = 0x80;
    let event = TransferEvent::from_log(&topics, &data, 77).unwrap();

    let mut from = [0u8; 20];
    let mut to = [0u8; 20];
    for i in 0..20u8 {
        from[i as usize] = 10 + 12 + i;
        to[i as usize] = 100 + 12 + i;
    }
    assert_eq!(event.from, Address { bytes: from });
    assert_eq!(event.to, Address { bytes: to });
    assert_eq!(event.value, U256 { limbs: [0x0102, 0, 0, 0x8000_0000_0000_0000] });
    assert_eq!(event.block_number, 77);
}

#[test]
fn a_transfer_event_has_three_topics() {
    let data = [0u8; 32];
    for topics in [vec![], vec![word(1), word(2)], vec![word(1); 4]] {
        let error = TransferEvent::from_log(&topics, &data, 1).unwrap_err();
        assert_eq!(error, TransferError::TopicCount);
        assert_eq!(error.message(), "Transfer event must have 3 topics");
    }
    // The topics are looked at first.
    let error = TransferEvent::from_log(&[], &[], 1).unwrap_err();
    assert_eq!(error, TransferError::TopicCount);
}

#[test]
fn the_data_of_a_transfer_event_are_one_word() {
    let topics = [word(1), word(2), word(3)];
    for length in [0usize, 31, 33, 64] {
        let data = vec![0u8; length];
        let error = TransferEvent::from_log(&topics, &data, 1).unwrap_err();
        assert_eq!(error, TransferError::DataLength);
        assert_eq!(error.message(), "Transfer event data must be 32 bytes");
    }
}

#[test]
fn addresses_words_and_amounts_compare() {
    let mut bytes = [0u8; 20];
    assert_eq!(Address { bytes }, Address::zero());
    bytes[7] = 1;
    assert_ne!(Address { bytes }, Address::zero());
    assert_eq!(word(3), word(3));
    assert_ne!(word(3), word(4));
    assert_eq!(U256::from(5u64), U256 { limbs: [5, 0, 0, 0] });
    assert_ne!(U256::from(5u64), U256 { limbs: [5, 0, 1, 0] });
    assert_eq!(U256::zero(), U256::from(0u64));
}
