//! Addresses, words and amounts, and the calls that compute on them.
//!
//! The three types hold plain bytes and limbs. Arithmetic on amounts and the texts of amounts and
//! addresses come from `alloy_primitives`, through the functions marked `external_body` here.

use crate::text::{address_text, amount_limit, amount_of, decimal, parsed};
use vstd::prelude::*;

verus! {

/// The number that `bytes` write, most significant first.
pub open spec fn be_value(bytes: Seq<u8>) -> nat
    decreases bytes.len(),
{
    if bytes.len() == 0 {
        0
    } else {
        be_value(bytes.drop_last()) * 256 + bytes.last() as nat
    }
}

/// The sum of two amounts, or the largest amount where the sum is larger than that.
pub open spec fn saturated_sum(a: nat, b: nat) -> nat {
    if a + b < amount_limit() {
        a + b
    } else {
        (amount_limit() - 1) as nat
    }
}

/// The first amount less the second, or zero where the second is the larger one.
pub open spec fn saturated_difference(a: nat, b: nat) -> nat {
    if a >= b {
        (a - b) as nat
    } else {
        0
    }
}

/// An account or contract address: 20 bytes.
#[derive(Clone, Copy, Debug)]
pub struct Address {
    pub bytes: [u8; 20],
}

/// A 32-byte word, as in the topics of an event.
#[derive(Clone, Copy, Debug)]
pub struct B256 {
    pub bytes: [u8; 32],
}

/// An amount below two to the power of 256, as four 64-bit limbs, least significant first.
#[derive(Clone, Copy, Debug)]
pub struct U256 {
    pub limbs: [u64; 4],
}

/// Whether two byte strings are the same.
fn same_bytes(a: &[u8], b: &[u8]) -> (same: bool)
    ensures
        same == (a@ == b@),
{
    if a.len() != b.len() {
        return false;
    }
    for i in 0..a.len()
        invariant
            a@.len() == b@.len(),
            forall|j: int| 0 <= j < i ==> a@[j] == b@[j],
    {
        if a[i] != b[i] {
            return false;
        }
    }
    assert(a@ =~= b@);
    true
}

impl PartialEq for Address {
    fn eq(&self, other: &Address) -> (r: bool) {
        same_bytes(self.bytes.as_slice(), other.bytes.as_slice())
    }
}

impl vstd::std_specs::cmp::PartialEqSpecImpl for Address {
    open spec fn obeys_eq_spec() -> bool {
        true
    }

    open spec fn eq_spec(&self, other: &Address) -> bool {
        self.bytes@ == other.bytes@
    }
}

impl Eq for Address {

}

impl PartialEq for B256 {
    fn eq(&self, other: &B256) -> (r: bool) {
        same_bytes(self.bytes.as_slice(), other.bytes.as_slice())
    }
}

impl vstd::std_specs::cmp::PartialEqSpecImpl for B256 {
    open spec fn obeys_eq_spec() -> bool {
        true
    }

    open spec fn eq_spec(&self, other: &B256) -> bool {
        self.bytes@ == other.bytes@
    }
}

impl Eq for B256 {

}

impl U256 {
    /// The number that the limbs write.
    pub open spec fn value(self) -> nat {
        (self.limbs@[0] + self.limbs@[1] * 0x1_0000_0000_0000_0000nat + self.limbs@[2]
            * 0x1_0000_0000_0000_0000_0000_0000_0000_0000nat + self.limbs@[3]
            * 0x1_0000_0000_0000_0000_0000_0000_0000_0000_0000_0000_0000_0000nat) as nat
    }

    /// Every amount is below the limit.
    pub proof fn lemma_in_range(self)
        ensures
            self.value() < amount_limit(),
    {
    }

    /// The amount nought.
    pub fn zero() -> (r: U256)
        ensures
            r.value() == 0,
    {
        U256 { limbs: [0, 0, 0, 0] }
    }

    /// `alloy_primitives::U256::saturating_add`: the sum, or the largest amount where the sum
    /// is larger than that.
    #[verifier::external_body]
    pub(crate) fn saturating_add(self, rhs: U256) -> (r: U256)
        ensures
            r.value() == saturated_sum(self.value(), rhs.value()),
    {
        let left = alloy_primitives::U256::from_limbs(self.limbs);
        let right = alloy_primitives::U256::from_limbs(rhs.limbs);
        U256 { limbs: left.saturating_add(right).into_limbs() }
    }

    /// `alloy_primitives::U256::saturating_sub`: the difference, or zero where the amount taken
    /// away is the larger one.
    #[verifier::external_body]
    pub(crate) fn saturating_sub(self, rhs: U256) -> (r: U256)
        ensures
            r.value() == saturated_difference(self.value(), rhs.value()),
    {
        let left = alloy_primitives::U256::from_limbs(self.limbs);
        let right = alloy_primitives::U256::from_limbs(rhs.limbs);
        U256 { limbs: left.saturating_sub(right).into_limbs() }
    }

    /// `alloy_primitives::U256::from_be_slice`: the number that the bytes write, most significant
    /// first. It panics on more than 32 bytes, which the precondition leaves out.
    #[verifier::external_body]
    pub(crate) fn from_be_slice(bytes: &[u8]) -> (r: U256)
        requires
            bytes@.len() <= 32,
        ensures
            r.value() == be_value(bytes@),
    {
        U256 { limbs: alloy_primitives::U256::from_be_slice(bytes).into_limbs() }
    }

    /// `to_string` of `alloy_primitives::U256`: the amount in decimal, without leading zeros.
    #[verifier::external_body]
    pub(crate) fn to_text(self) -> (text: String)
        ensures
            text@ == decimal(self.value()),
    {
        alloy_primitives::U256::from_limbs(self.limbs).to_string()
    }

    /// `str::parse` to `alloy_primitives::U256`: the text is read in base 10, or in the base that
    /// a prefix `0x`, `0o` or `0b` announces; underscores are skipped. Anything else that is no
    /// digit, and a number of more than 256 bits, is refused.
    #[verifier::external_body]
    pub(crate) fn parse(text: &str) -> (r: Result<U256, alloy_primitives::ruint::ParseError>)
        ensures
            match r {
                Ok(amount) => parsed(text@) == Some(amount.value()),
                Err(_) => parsed(text@) is None,
            },
    {
        match text.parse::<alloy_primitives::U256>() {
            Ok(amount) => Ok(U256 { limbs: amount.into_limbs() }),
            Err(error) => Err(error),
        }
    }
}

/// The amount that a stored text is read as, zero where it cannot be read.
pub fn amount_or_zero(text: &str) -> (amount: U256)
    ensures
        amount.value() == amount_of(text@),
{
    match U256::parse(text) {
        Ok(amount) => amount,
        Err(_) => U256::zero(),
    }
}

/// Why `alloy_primitives` refused to read a text as an amount.
#[verifier::external_type_specification]
#[verifier::external_body]
pub struct ExParseError(alloy_primitives::ruint::ParseError);

impl PartialEq for U256 {
    fn eq(&self, other: &U256) -> (r: bool) {
        self.limbs[0] == other.limbs[0] && self.limbs[1] == other.limbs[1] && self.limbs[2]
            == other.limbs[2] && self.limbs[3] == other.limbs[3]
    }
}

impl vstd::std_specs::cmp::PartialEqSpecImpl for U256 {
    open spec fn obeys_eq_spec() -> bool {
        true
    }

    open spec fn eq_spec(&self, other: &U256) -> bool {
        self.value() == other.value()
    }
}

impl Eq for U256 {

}

impl From<u64> for U256 {
    fn from(n: u64) -> (r: U256) {
        U256 { limbs: [n, 0, 0, 0] }
    }
}

impl vstd::std_specs::convert::FromSpecImpl<u64> for U256 {
    open spec fn obeys_from_spec() -> bool {
        true
    }

    open spec fn from_spec(n: u64) -> U256 {
        U256 { limbs: [n, 0, 0, 0] }
    }
}

impl Address {
    /// The zero address, from which tokens are minted.
    pub fn zero() -> (r: Address)
        ensures
            r.bytes@ == Seq::new(20, |i: int| 0u8),
    {
        let r = Address { bytes: [0; 20] };
        assert(r.bytes@ =~= Seq::new(20, |i: int| 0u8));
        r
    }

    /// `alloy_primitives::Address::from_word`: the last 20 bytes of the word.
    #[verifier::external_body]
    pub(crate) fn from_word(word: B256) -> (r: Address)
        ensures
            r.bytes@ == word.bytes@.subrange(12, 32),
    {
        let word = alloy_primitives::B256::from(word.bytes);
        Address { bytes: alloy_primitives::Address::from_word(word).into_array() }
    }

    /// The `{:#x}` format of `alloy_primitives::Address`: `0x` and the bytes in lower-case
    /// hexadecimal.
    #[verifier::external_body]
    pub(crate) fn to_text(&self) -> (text: String)
        ensures
            text@ == address_text(self.bytes@),
    {
        format!("{:#x}", alloy_primitives::Address::from(self.bytes))
    }
}

} // verus!
