//! The USDC contract, the signature of its `Transfer` event, and the decoding of that event.

use crate::ledger::Transfer;
use crate::primitives::{be_value, Address, B256, U256};
use vstd::prelude::*;

verus! {

/// The USDC contract's address on Ethereum Mainnet.
pub const USDC_ADDRESS: [u8; 20] = [
    0xA0, 0xb8, 0x69, 0x91, 0xc6, 0x21, 0x8b, 0x36, 0xc1, 0xd1, 0x9D, 0x4a, 0x2e, 0x9E, 0xb0, 0xcE,
    0x36, 0x06, 0xeB, 0x48,
];

/// `keccak256("Transfer(address,address,uint256)")`.
pub const TRANSFER_SIG: [u8; 32] = [
    0xdd, 0xf2, 0x52, 0xad, 0x1b, 0xe2, 0xc8, 0x9b, 0x69, 0xc2, 0xb0, 0x68, 0xfc, 0x37, 0x8d, 0xaa,
    0x95, 0x2b, 0xa7, 0xf1, 0x63, 0xc4, 0xa1, 0x16, 0x28, 0xf5, 0x5a, 0x4d, 0xf5, 0x23, 0xb3, 0xef,
];

/// Why a log is no `Transfer` event.
#[derive(Clone, Copy, Debug, PartialEq, Eq, Structural)]
pub enum TransferError {
    /// It does not have three topics.
    TopicCount,
    /// Its data are not 32 bytes long.
    DataLength,
}

impl TransferError {
    /// The error in words.
    pub fn message(&self) -> (text: &'static str)
        ensures
            text@ == match *self {
                TransferError::TopicCount => "Transfer event must have 3 topics"@,
                TransferError::DataLength => "Transfer event data must be 32 bytes"@,
            },
    {
        match self {
            TransferError::TopicCount => "Transfer event must have 3 topics",
            TransferError::DataLength => "Transfer event data must be 32 bytes",
        }
    }
}

/// A decoded `Transfer` event.
#[derive(Clone, Copy, Debug)]
pub struct TransferEvent {
    pub from: Address,
    pub to: Address,
    pub value: U256,
    pub block_number: u64,
}

impl View for TransferEvent {
    type V = Transfer;

    open spec fn view(&self) -> Transfer {
        Transfer {
            block: self.block_number,
            from: self.from.bytes@,
            to: self.to.bytes@,
            value: self.value.value(),
        }
    }
}

/// The transfer that topics and data of an event tell of, or why they tell of none: the sender and
/// the receiver are the last 20 bytes of the second and the third topic, the value is the data.
pub open spec fn decoded(topics: Seq<B256>, data: Seq<u8>, block: u64) -> Result<
    Transfer,
    TransferError,
> {
    if topics.len() != 3 {
        Err(TransferError::TopicCount)
    } else if data.len() != 32 {
        Err(TransferError::DataLength)
    } else {
        Ok(
            Transfer {
                block,
                from: topics[1].bytes@.subrange(12, 32),
                to: topics[2].bytes@.subrange(12, 32),
                value: be_value(data),
            },
        )
    }
}

impl TransferEvent {
    /// Decodes a `Transfer` event from the topics and the data of a log. The topics are the
    /// signature, the sender and the receiver; the data are the value as a big-endian word.
    pub fn from_log(topics: &[B256], data: &[u8], block_number: u64) -> (r: Result<
        TransferEvent,
        TransferError,
    >)
        ensures
            match r {
                Ok(event) => decoded(topics@, data@, block_number) == Ok::<Transfer, TransferError>(
                    event@,
                ),
                Err(error) => decoded(topics@, data@, block_number) == Err::<
                    Transfer,
                    TransferError,
                >(error),
            },
    {
        if topics.len() != 3 {
            return Err(TransferError::TopicCount);
        }
        if data.len() != 32 {
            return Err(TransferError::DataLength);
        }
        let from = Address::from_word(topics[1]);
        let to = Address::from_word(topics[2]);
        let value = U256::from_be_slice(data);
        Ok(TransferEvent { from, to, value, block_number })
    }
}

} // verus!
