//! Reads the values of the event log.

use crate::primitives::U256;
use crate::text::{
    amount_limit, digit_count, has_sign, is_space, leading_number, lemma_plain_digits, logged_value,
    unspaced,
};
use vstd::prelude::*;

verus! {

/// The characters of a text.
fn characters(text: &str) -> (chars: Vec<char>)
    ensures
        chars@ == text@,
{
    let mut chars: Vec<char> = Vec::new();
    for c in it: text.chars()
        invariant
            it.seq() == text@,
            chars@ == text@.take(it.index() as int),
    {
        chars.push(c);
        assert(text@.take(it.index() as int).push(c) =~= text@.take(it.index() + 1));
    }
    assert(text@.take(text@.len() as int) =~= text@);
    chars
}

/// Where the white space at the beginning of a text ends.
fn space_end(chars: &Vec<char>) -> (end: usize)
    ensures
        end <= chars@.len(),
        unspaced(chars@) == chars@.skip(end as int),
{
    let mut end: usize = 0;
    assert(chars@.skip(0) =~= chars@);
    while end < chars.len() && (chars[end] == ' ' || ('\t' <= chars[end] && chars[end] <= '\r'))
        invariant
            end <= chars@.len(),
            unspaced(chars@) == unspaced(chars@.skip(end as int)),
        decreases chars@.len() - end,
    {
        assert(is_space(chars@.skip(end as int)[0]));
        assert(chars@.skip(end as int).skip(1) =~= chars@.skip(end + 1));
        end = end + 1;
    }
    if end < chars.len() {
        assert(!is_space(chars@.skip(end as int)[0]));
    }
    end
}

/// Where the decimal digits from `start` on end.
fn digits_end(chars: &Vec<char>, start: usize) -> (end: usize)
    requires
        start <= chars@.len(),
    ensures
        start <= end <= chars@.len(),
        digit_count(chars@.skip(start as int)) == end - start,
        forall|i: int| start <= i < end ==> '0' <= #[trigger] chars@[i] <= '9',
{
    let mut end: usize = start;
    while end < chars.len() && '0' <= chars[end] && chars[end] <= '9'
        invariant
            start <= end <= chars@.len(),
            digit_count(chars@.skip(start as int)) == (end - start) + digit_count(
                chars@.skip(end as int),
            ),
            forall|i: int| start <= i < end ==> '0' <= #[trigger] chars@[i] <= '9',
        decreases chars@.len() - end,
    {
        assert(chars@.skip(end as int)[0] == chars@[end as int]);
        assert(chars@.skip(end as int).skip(1) =~= chars@.skip(end + 1));
        end = end + 1;
    }
    if end < chars.len() {
        assert(chars@.skip(end as int)[0] == chars@[end as int]);
    }
    end
}

/// The number written by the decimal digits of a text from `start` on; `None` where it is too large
/// for an amount.
fn number_at(text: &str, chars: &Vec<char>, start: usize) -> (r: Option<U256>)
    requires
        chars@ == text@,
        start <= chars@.len(),
    ensures
        match r {
            Some(n) => leading_number(text@.skip(start as int)) == n.value(),
            None => leading_number(text@.skip(start as int)) >= amount_limit(),
        },
{
    let end: usize = digits_end(chars, start);
    let digits = text.substring_char(start, end);
    proof {
        let rest = text@.skip(start as int);
        assert(digits@ =~= rest.take(digit_count(rest) as int));
        assert forall|i: int| 0 <= i < digits@.len() implies '0' <= #[trigger] digits@[i]
            <= '9' by {
            assert(digits@[i] == chars@[start + i]);
        }
        lemma_plain_digits(digits@);
    }
    match U256::parse(digits) {
        Ok(n) => Some(n),
        Err(_) => None,
    }
}

/// What the value of a row of the event log counts for, as an amount given less an amount taken, of
/// which one is nought.
pub fn logged_amounts(text: &str) -> (r: (U256, U256))
    ensures
        r.0.value() - r.1.value() == logged_value(text@),
        r.0.value() == 0 || r.1.value() == 0,
{
    let chars = characters(text);
    let start: usize = space_end(&chars);
    let ghost t = unspaced(text@);
    proof {
        assert(start < chars@.len() ==> t[0] == chars@[start as int]);
        assert(start < chars@.len() ==> t.skip(1) =~= text@.skip(start + 1));
    }
    if start < chars.len() && chars[start] == '-' {
        assert(has_sign(t, '-'));
        let taken = match number_at(text, &chars, start + 1) {
            Some(n) => if n.limbs[1] == 0 && n.limbs[2] == 0 && n.limbs[3] == 0 && n.limbs[0]
                <= 0x8000_0000_0000_0000 {
                n
            } else {
                U256 { limbs: [0x8000_0000_0000_0000, 0, 0, 0] }
            },
            None => U256 { limbs: [0x8000_0000_0000_0000, 0, 0, 0] },
        };
        return (U256::zero(), taken);
    }
    let signed: bool = start < chars.len() && chars[start] == '+';
    assert(signed == has_sign(t, '+'));
    let given = match number_at(text, &chars, if signed { start + 1 } else { start }) {
        Some(n) => n,
        None => U256 { limbs: [0x7fff_ffff_ffff_ffff, 0, 0, 0] },
    };
    proof {
        given.lemma_in_range();
    }
    (given, U256::zero())
}

} // verus!
