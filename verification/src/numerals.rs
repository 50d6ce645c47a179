//! What the texts and words of the index write, digit by digit.

use crate::primitives::{be_value, Address, B256, U256};
use crate::text::{
    address_text, amount_limit, decimal, decimal_digit, digit_count, digit_value, digits_value,
    hex_digits, is_space, logged_value, parsed, radix_of, unspaced,
};
use vstd::arithmetic::power::pow;
use vstd::arithmetic::power2::pow2;
use vstd::prelude::*;

verus! {

/// Whether `digits` are those of `n` in base `base`, most significant first: as many as there are,
/// each the quotient of `n` by its place value, without what the digits before it stand for.
pub open spec fn numeral(digits: Seq<int>, base: int, n: int) -> bool {
    &&& 0 <= n < pow(base, digits.len())
    &&& forall|i: int|
        0 <= i < digits.len() ==> #[trigger] digits[i] == (n / pow(
            base,
            (digits.len() - 1 - i) as nat,
        )) % base
}

/// The numbers that decimal digits stand for.
pub open spec fn digit_numbers(s: Seq<char>) -> Seq<int> {
    s.map_values(|c: char| c as int - '0' as int)
}

/// The numbers that bytes are.
pub open spec fn byte_numbers(bytes: Seq<u8>) -> Seq<int> {
    bytes.map_values(|b: u8| b as int)
}

/// Whether `s` writes `n` in decimal, in digits alone and without a leading zero.
pub open spec fn writes(s: Seq<char>, n: int) -> bool {
    &&& s.len() > 0
    &&& forall|i: int| 0 <= i < s.len() ==> '0' <= #[trigger] s[i] <= '9'
    &&& s.len() > 1 ==> s[0] != '0'
    &&& numeral(digit_numbers(s), 10, n)
}

/// A numeral is one digit more than the numeral of the quotient by its base.
pub(crate) proof fn lemma_numeral_step(digits: Seq<int>, base: int, n: int)
    requires
        base > 1,
        n >= 0,
        digits.len() > 0,
    ensures
        numeral(digits, base, n) <==> numeral(digits.drop_last(), base, n / base) && digits.last()
            == n % base,
{
    reveal(pow);
    let shorter = digits.drop_last();
    let last = digits.len() - 1;
    let whole = pow(base, digits.len());
    let part = pow(base, shorter.len());
    assert(whole == base * part);
    assert(0 <= n < whole <==> 0 <= n / base < part) by (nonlinear_arith)
        requires
            whole == base * part,
            base > 1,
            n >= 0,
    ;
    assert(pow(base, 0) == 1);
    assert forall|i: int| 0 <= i < shorter.len() implies (n / pow(
        base,
        (digits.len() - 1 - i) as nat,
    )) % base == ((n / base) / #[trigger] pow(base, (shorter.len() - 1 - i) as nat)) % base by {
        let e = (shorter.len() - 1 - i) as nat;
        vstd::arithmetic::power::lemma_pow_positive(base, e);
        vstd::arithmetic::div_mod::lemma_div_denominator(n, base, pow(base, e));
        assert(pow(base, (e + 1) as nat) == base * pow(base, e));
    }
    if numeral(digits, base, n) {
        assert forall|i: int| 0 <= i < shorter.len() implies #[trigger] shorter[i] == ((n / base)
            / pow(base, (shorter.len() - 1 - i) as nat)) % base by {
            assert(shorter[i] == digits[i]);
        }
        assert(digits[last] == (n / pow(base, 0)) % base);
    }
    if numeral(shorter, base, n / base) && digits.last() == n % base {
        assert forall|i: int| 0 <= i < digits.len() implies #[trigger] digits[i] == (n / pow(
            base,
            (digits.len() - 1 - i) as nat,
        )) % base by {
            if i < last {
                assert(shorter[i] == digits[i]);
            }
        }
    }
}

/// Two numbers with the same numeral are the same.
pub proof fn law_numeral_unique(digits: Seq<int>, base: int, m: int, n: int)
    requires
        base > 1,
        numeral(digits, base, m),
        numeral(digits, base, n),
    ensures
        m == n,
    decreases digits.len(),
{
    reveal(pow);
    if digits.len() > 0 {
        lemma_numeral_step(digits, base, m);
        lemma_numeral_step(digits, base, n);
        law_numeral_unique(digits.drop_last(), base, m / base, n / base);
        vstd::arithmetic::div_mod::lemma_fundamental_div_mod(m, base);
        vstd::arithmetic::div_mod::lemma_fundamental_div_mod(n, base);
    }
}

/// The largest amount is one less than two to the power of 256.
pub proof fn law_amount_limit()
    ensures
        amount_limit() == pow2(256),
{
    vstd::arithmetic::power2::lemma2_to64();
    vstd::arithmetic::power2::lemma_pow2_adds(64, 64);
    vstd::arithmetic::power2::lemma_pow2_adds(128, 128);
    assert(pow2(128) == 0x1_0000_0000_0000_0000_0000_0000_0000_0000nat) by (nonlinear_arith)
        requires
            pow2(128) == pow2(64) * pow2(64),
            pow2(64) == 0x1_0000_0000_0000_0000nat,
    ;
    let limit = amount_limit();
    assert(pow2(256) == limit) by (nonlinear_arith)
        requires
            pow2(256) == pow2(128) * pow2(128),
            pow2(128) == 0x1_0000_0000_0000_0000_0000_0000_0000_0000nat,
            limit
                == 0x1_0000_0000_0000_0000_0000_0000_0000_0000_0000_0000_0000_0000_0000_0000_0000_0000nat,
    ;
}

/// The limbs of an amount are its digits in base 2^64, the most significant last.
pub proof fn law_limbs(amount: U256)
    ensures
        numeral(
            seq![
                amount.limbs@[3] as int,
                amount.limbs@[2] as int,
                amount.limbs@[1] as int,
                amount.limbs@[0] as int,
            ],
            pow2(64) as int,
            amount.value() as int,
        ),
        amount.value() < pow2(256),
{
    vstd::arithmetic::power2::lemma2_to64();
    law_amount_limit();
    reveal(pow);
    let base = pow2(64) as int;
    let l3 = amount.limbs@[3] as int;
    let l2 = amount.limbs@[2] as int;
    let l1 = amount.limbs@[1] as int;
    let l0 = amount.limbs@[0] as int;
    let d4 = seq![l3, l2, l1, l0];
    let d3 = seq![l3, l2, l1];
    let d2 = seq![l3, l2];
    let d1 = seq![l3];
    assert(d4.drop_last() =~= d3 && d3.drop_last() =~= d2 && d2.drop_last() =~= d1);
    assert(d1.drop_last() =~= Seq::empty());
    let n4 = amount.value() as int;
    let n3 = l1 + l2 * base + l3 * 0x1_0000_0000_0000_0000_0000_0000_0000_0000;
    let n2 = l2 + l3 * base;
    assert(numeral(Seq::empty(), base, 0));
    assert(l3 / base == 0 && l3 % base == l3);
    lemma_numeral_step(d1, base, l3);
    assert(n2 / base == l3 && n2 % base == l2);
    lemma_numeral_step(d2, base, n2);
    assert(n3 / base == n2 && n3 % base == l1);
    lemma_numeral_step(d3, base, n3);
    assert(n4 / base == n3 && n4 % base == l0);
    lemma_numeral_step(d4, base, n4);
}

/// An amount is stored in decimal, without leading zeros.
pub proof fn law_decimal_writes(n: nat)
    ensures
        writes(decimal(n), n as int),
    decreases n,
{
    reveal(pow);
    let s = decimal(n);
    let digits = digit_numbers(s);
    if n < 10 {
        assert(digits.drop_last() =~= Seq::empty());
        assert(s[0] == decimal_digit(n));
        assert(numeral(Seq::empty(), 10, 0));
    } else {
        law_decimal_writes(n / 10);
        let front = decimal(n / 10);
        assert(s == front.push(decimal_digit(n % 10)));
        assert(digits.drop_last() =~= digit_numbers(front));
        assert(s[0] == front[0]);
        if front.len() == 1 {
            assert(digit_numbers(front)[0] == ((n / 10) as int / pow(10, 0)) % 10);
            assert(n / 10 < pow(10, 1));
            assert(pow(10, 1) == 10 * pow(10, 0));
        }
    }
    lemma_numeral_step(digits, 10, n as int);
}

/// Digits write what their numeral says.
proof fn lemma_digits_value(s: Seq<char>, n: int)
    requires
        forall|i: int| 0 <= i < s.len() ==> '0' <= #[trigger] s[i] <= '9',
        numeral(digit_numbers(s), 10, n),
    ensures
        digits_value(s, 10) == Some(n as nat),
    decreases s.len(),
{
    reveal(pow);
    if s.len() > 0 {
        let digits = digit_numbers(s);
        lemma_numeral_step(digits, 10, n);
        assert(digits.drop_last() =~= digit_numbers(s.drop_last()));
        assert forall|i: int| 0 <= i < s.drop_last().len() implies '0' <= #[trigger] s.drop_last()[i]
            <= '9' by {
            assert(s.drop_last()[i] == s[i]);
        }
        lemma_digits_value(s.drop_last(), n / 10);
        assert(s.last() == s[s.len() - 1]);
        assert(digits.last() == s.last() as int - 48);
    }
}

proof fn lemma_unspaced(spaces: Seq<char>, t: Seq<char>)
    requires
        forall|i: int| 0 <= i < spaces.len() ==> is_space(#[trigger] spaces[i]),
        t.len() > 0 ==> !is_space(t[0]),
    ensures
        unspaced(spaces + t) == t,
    decreases spaces.len(),
{
    let s = spaces + t;
    if spaces.len() == 0 {
        assert(s =~= t);
    } else {
        let fewer = spaces.skip(1);
        assert forall|i: int| 0 <= i < fewer.len() implies is_space(#[trigger] fewer[i]) by {
            assert(fewer[i] == spaces[i + 1]);
        }
        assert(is_space(spaces[0]));
        assert(s.skip(1) =~= fewer + t);
        lemma_unspaced(fewer, t);
    }
}

proof fn lemma_digit_count(digits: Seq<char>, rest: Seq<char>)
    requires
        forall|i: int| 0 <= i < digits.len() ==> '0' <= #[trigger] digits[i] <= '9',
        rest.len() > 0 ==> !('0' <= rest[0] <= '9'),
    ensures
        digit_count(digits + rest) == digits.len(),
    decreases digits.len(),
{
    let s = digits + rest;
    if digits.len() == 0 {
        assert(s =~= rest);
    } else {
        let fewer = digits.skip(1);
        assert forall|i: int| 0 <= i < fewer.len() implies '0' <= #[trigger] fewer[i] <= '9' by {
            assert(fewer[i] == digits[i + 1]);
        }
        assert('0' <= digits[0] <= '9');
        assert(s.skip(1) =~= fewer + rest);
        lemma_digit_count(fewer, rest);
    }
}

/// What a value of the event log counts for. Its text is white space, a sign or none, decimal
/// digits, and a rest that begins with no digit, each as long as it can be. The value is the number
/// that the digits write, with the sign. Every number below 2^256 counts in full; a larger one, and
/// one below -2^63, is held to 64 bits with a sign.
pub proof fn law_logged_value(
    spaces: Seq<char>,
    sign: Seq<char>,
    digits: Seq<char>,
    rest: Seq<char>,
    n: int,
)
    requires
        forall|i: int|
            0 <= i < spaces.len() ==> (#[trigger] spaces[i] as int == 32 || 9 <= spaces[i] as int
                <= 13),
        sign == Seq::<char>::empty() || sign == seq!['+'] || sign == seq!['-'],
        forall|i: int| 0 <= i < digits.len() ==> '0' <= #[trigger] digits[i] <= '9',
        numeral(digit_numbers(digits), 10, n),
        rest.len() > 0 ==> !('0' <= rest[0] <= '9'),
        sign.len() == 0 && digits.len() == 0 && rest.len() > 0 ==> {
            &&& rest[0] != '+' && rest[0] != '-'
            &&& rest[0] as int != 32 && !(9 <= rest[0] as int <= 13)
        },
    ensures
        logged_value(spaces + sign + digits + rest) == if sign == seq!['-'] {
            if n <= pow2(63) {
                -n
            } else {
                -pow2(63)
            }
        } else if n < pow2(256) {
            n
        } else {
            pow2(63) - 1
        },
{
    vstd::arithmetic::power2::lemma2_to64();
    vstd::arithmetic::power2::lemma2_to64_rest();
    law_amount_limit();
    let body = digits + rest;
    let t = sign + body;
    let s = spaces + sign + digits + rest;
    assert(s =~= spaces + t);
    if digits.len() > 0 {
        assert('0' <= digits[0] <= '9');
        assert(body[0] == digits[0]);
    } else {
        assert(body =~= rest);
    }
    if sign.len() == 0 {
        assert(t =~= body);
    } else {
        assert(t[0] == sign[0]);
        assert(t.skip(1) =~= body);
        assert(seq!['+'][0] == '+' && seq!['-'][0] == '-');
    }
    assert forall|i: int| 0 <= i < spaces.len() implies is_space(#[trigger] spaces[i]) by {}
    lemma_unspaced(spaces, t);
    lemma_digit_count(digits, rest);
    lemma_digits_value(digits, n);
    assert(body.take(digits.len() as int) =~= digits);
}

/// A value that was written in decimal counts in full.
pub proof fn law_written_value_counts(s: Seq<char>, n: int)
    requires
        writes(s, n),
        n < pow2(256),
    ensures
        logged_value(s) == n,
{
    law_logged_value(Seq::empty(), Seq::empty(), s, Seq::empty(), n);
    assert(Seq::<char>::empty() + Seq::<char>::empty() + s + Seq::<char>::empty() =~= s);
}

/// Whether `c` stands for `v` as a digit: a decimal digit below 10, a letter of either case from
/// there on.
pub open spec fn stands_for(c: char, v: int) -> bool {
    ||| 0 <= v < 10 && c as int == '0' as int + v
    ||| 10 <= v < 36 && (c as int == 'a' as int + v - 10 || c as int == 'A' as int + v - 10)
}

/// Whether a text that begins with `prefix` is read in base `base`. Without a prefix the base is 10.
pub open spec fn announces(prefix: Seq<char>, body: Seq<char>, base: int) -> bool {
    if prefix.len() == 0 {
        &&& base == 10
        &&& body.len() >= 2 && body[0] == '0' ==> !(seq!['x', 'X', 'o', 'O', 'b', 'B'].contains(
            body[1],
        ))
    } else {
        &&& prefix.len() == 2
        &&& prefix[0] == '0'
        &&& {
            ||| base == 16 && (prefix[1] == 'x' || prefix[1] == 'X')
            ||| base == 8 && (prefix[1] == 'o' || prefix[1] == 'O')
            ||| base == 2 && (prefix[1] == 'b' || prefix[1] == 'B')
        }
    }
}

proof fn lemma_announced(prefix: Seq<char>, body: Seq<char>, base: int)
    requires
        announces(prefix, body, base),
    ensures
        radix_of(prefix + body) == base,
        radix_of(prefix + body) == 10 ==> prefix + body == body,
        radix_of(prefix + body) != 10 ==> (prefix + body).skip(2) == body,
{
    let s = prefix + body;
    let marks = seq!['x', 'X', 'o', 'O', 'b', 'B'];
    if prefix.len() == 0 {
        assert(s =~= body);
        assert(marks[0] == 'x' && marks[1] == 'X' && marks[2] == 'o' && marks[3] == 'O' && marks[4]
            == 'b' && marks[5] == 'B');
    } else {
        assert(s[0] == prefix[0] && s[1] == prefix[1]);
        assert(s.skip(2) =~= body);
    }
}

proof fn lemma_body_value(body: Seq<char>, values: Seq<int>, base: int, n: int)
    requires
        base == 2 || base == 8 || base == 10 || base == 16,
        body.filter(|c: char| c != '_').len() == values.len(),
        forall|i: int|
            0 <= i < values.len() ==> stands_for(
                body.filter(|c: char| c != '_')[i],
                #[trigger] values[i],
            ) && values[i] < base,
        numeral(values, base, n),
    ensures
        digits_value(body, base as nat) == Some(n as nat),
    decreases body.len(),
{
    reveal(pow);
    reveal(Seq::filter);
    let kept = body.filter(|c: char| c != '_');
    if body.len() > 0 {
        let front = body.drop_last();
        let before = front.filter(|c: char| c != '_');
        if body.last() == '_' {
            lemma_body_value(front, values, base, n);
        } else {
            assert(kept == before.push(body.last()));
            lemma_numeral_step(values, base, n);
            assert forall|i: int| 0 <= i < values.drop_last().len() implies stands_for(
                before[i],
                #[trigger] values.drop_last()[i],
            ) && values.drop_last()[i] < base by {
                assert(values.drop_last()[i] == values[i]);
                assert(kept[i] == before[i]);
            }
            vstd::arithmetic::div_mod::lemma_fundamental_div_mod(n, base);
            assert(n / base >= 0) by (nonlinear_arith)
                requires
                    n >= 0,
                    base > 0,
            ;
            lemma_body_value(front, values.drop_last(), base, n / base);
            let v = values[values.len() - 1];
            assert(stands_for(kept[values.len() - 1], v));
            assert(digit_value(body.last()) == v);
            assert((n / base) * base + v == n) by (nonlinear_arith)
                requires
                    n == base * (n / base) + n % base,
                    v == n % base,
            ;
        }
    }
}

proof fn lemma_body_refused(body: Seq<char>, base: int, i: int)
    requires
        base == 2 || base == 8 || base == 10 || base == 16,
        0 <= i < body.len(),
        body[i] != '_',
        forall|v: int| #[trigger] stands_for(body[i], v) ==> v >= base,
    ensures
        digits_value(body, base as nat) is None,
    decreases body.len(),
{
    if i < body.len() - 1 {
        assert(body.drop_last()[i] == body[i]);
        lemma_body_refused(body.drop_last(), base, i);
    } else {
        let d = digit_value(body.last()) as int;
        if d < base {
            assert(stands_for(body[i], d));
        }
    }
}

/// How a stored balance is read: in the base that its prefix announces, underscores skipped, the
/// digits write the amount. More than 256 bits are refused.
pub proof fn law_parsed(
    prefix: Seq<char>,
    body: Seq<char>,
    values: Seq<int>,
    base: int,
    n: int,
)
    requires
        announces(prefix, body, base),
        body.filter(|c: char| c != '_').len() == values.len(),
        forall|i: int|
            0 <= i < values.len() ==> stands_for(
                body.filter(|c: char| c != '_')[i],
                #[trigger] values[i],
            ) && values[i] < base,
        numeral(values, base, n),
    ensures
        parsed(prefix + body) == if n < pow2(256) {
            Some(n as nat)
        } else {
            None
        },
{
    law_amount_limit();
    lemma_announced(prefix, body, base);
    lemma_body_value(body, values, base, n);
}

/// A stored balance that holds anything but digits of its base and underscores is refused.
pub proof fn law_parsed_refuses(prefix: Seq<char>, body: Seq<char>, base: int, i: int)
    requires
        announces(prefix, body, base),
        0 <= i < body.len(),
        body[i] != '_',
        forall|v: int| #[trigger] stands_for(body[i], v) ==> v >= base,
    ensures
        parsed(prefix + body) is None,
{
    lemma_announced(prefix, body, base);
    lemma_body_refused(body, base, i);
}

/// A balance that was written in decimal is read back.
pub proof fn law_written_balance_is_read(s: Seq<char>, n: int)
    requires
        writes(s, n),
        n < pow2(256),
    ensures
        parsed(s) == Some(n as nat),
{
    let values = digit_numbers(s);
    assert(s.filter(|c: char| c != '_') == s) by {
        lemma_no_underscore(s);
    }
    let marks = seq!['x', 'X', 'o', 'O', 'b', 'B'];
    if s.len() >= 2 {
        assert('0' <= s[1] <= '9');
        assert(!marks.contains(s[1]));
    }
    law_parsed(Seq::empty(), s, values, 10, n);
    assert(Seq::<char>::empty() + s =~= s);
}

proof fn lemma_no_underscore(s: Seq<char>)
    requires
        forall|i: int| 0 <= i < s.len() ==> '0' <= #[trigger] s[i] <= '9',
    ensures
        s.filter(|c: char| c != '_') == s,
    decreases s.len(),
{
    reveal(Seq::filter);
    if s.len() > 0 {
        assert forall|i: int| 0 <= i < s.drop_last().len() implies '0' <= #[trigger] s.drop_last()[i]
            <= '9' by {
            assert(s.drop_last()[i] == s[i]);
        }
        lemma_no_underscore(s.drop_last());
        assert('0' <= s[s.len() - 1] <= '9');
        assert(s.drop_last().push(s.last()) =~= s);
    }
}

/// The text of an address is `0x` and two lower-case hexadecimal digits for each byte, the high one
/// first.
pub proof fn law_address_digits(bytes: Seq<u8>, i: int)
    requires
        0 <= i < bytes.len(),
    ensures
        address_text(bytes).len() == 2 + 2 * bytes.len(),
        address_text(bytes)[0] == '0',
        address_text(bytes)[1] == 'x',
        address_text(bytes)[2 + 2 * i] == "0123456789abcdef"@[bytes[i] as int / 16],
        address_text(bytes)[3 + 2 * i] == "0123456789abcdef"@[bytes[i] as int % 16],
{
    reveal_strlit("0123456789abcdef");
    let s = address_text(bytes);
    assert(s[2 + 2 * i] == hex_digits(bytes)[2 * i]);
    assert(s[3 + 2 * i] == hex_digits(bytes)[2 * i + 1]);
    assert((2 * i + 1) % 2 == 1 && (2 * i + 1) / 2 == i && (2 * i) / 2 == i);
}

/// Bytes write what their numeral says.
pub(crate) proof fn lemma_be_value(bytes: Seq<u8>)
    ensures
        numeral(byte_numbers(bytes), 256, be_value(bytes) as int),
    decreases bytes.len(),
{
    reveal(pow);
    if bytes.len() > 0 {
        let digits = byte_numbers(bytes);
        lemma_be_value(bytes.drop_last());
        assert(digits.drop_last() =~= byte_numbers(bytes.drop_last()));
        assert(digits.last() == bytes.last() as int);
        lemma_numeral_step(digits, 256, be_value(bytes) as int);
    }
}

/// Two addresses, two words and two amounts are equal only where all their bytes and limbs are.
pub proof fn law_equality(a: Address, b: Address, v: B256, w: B256, m: U256, n: U256)
    ensures
        vstd::std_specs::cmp::PartialEqSpec::eq_spec(&a, &b) <==> a.bytes@ == b.bytes@,
        vstd::std_specs::cmp::PartialEqSpec::eq_spec(&v, &w) <==> v.bytes@ == w.bytes@,
        vstd::std_specs::cmp::PartialEqSpec::eq_spec(&m, &n) <==> m.limbs@ == n.limbs@,
{
    if m.value() == n.value() {
        assert(m.limbs@ =~= n.limbs@);
    }
}

/// An amount made from a 64-bit number is that number.
pub proof fn law_small_amount(n: u64)
    ensures
        <U256 as vstd::std_specs::convert::FromSpec<u64>>::from_spec(n).value() == n,
{
}

} // verus!
