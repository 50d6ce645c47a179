//! The texts in which addresses and amounts are stored.
//!
//! An address is stored as `0x` and its bytes in lower-case hexadecimal, an amount in decimal.
//! There are two ways to read an amount back, and both accept more texts than are written. A balance
//! is read with the number grammar of the 256-bit integer type, which also knows the prefixes `0x`,
//! `0o` and `0b`, and skips underscores. A value of the event log is read as an SQL cast to an integer
//! does it: the decimal number with which the text begins, whatever follows.

use vstd::prelude::*;

verus! {

/// One more than the largest amount: two to the power of 256.
pub open spec fn amount_limit() -> nat {
    0x1_0000_0000_0000_0000_0000_0000_0000_0000_0000_0000_0000_0000_0000_0000_0000_0000nat
}

/// The decimal digit `d`.
pub open spec fn decimal_digit(d: nat) -> char {
    (48 + d) as char
}

/// `n` in decimal, without leading zeros.
pub open spec fn decimal(n: nat) -> Seq<char>
    decreases n,
{
    if n < 10 {
        seq![decimal_digit(n)]
    } else {
        decimal(n / 10).push(decimal_digit(n % 10))
    }
}

/// The hexadecimal digit `d`, in lower case.
pub open spec fn hex_digit(d: nat) -> char {
    if d < 10 {
        (48 + d) as char
    } else {
        (87 + d) as char
    }
}

/// Two hexadecimal digits for each byte, the high one first.
pub open spec fn hex_digits(bytes: Seq<u8>) -> Seq<char> {
    Seq::new(
        2 * bytes.len(),
        |i: int|
            if i % 2 == 0 {
                hex_digit(bytes[i / 2] as nat / 16)
            } else {
                hex_digit(bytes[i / 2] as nat % 16)
            },
    )
}

/// The text under which the address with these bytes is stored.
pub open spec fn address_text(bytes: Seq<u8>) -> Seq<char> {
    seq!['0', 'x'] + hex_digits(bytes)
}

/// The number that `c` stands for as a digit, in any base up to 36; 36 where it is no digit.
pub open spec fn digit_value(c: char) -> nat {
    if '0' <= c <= '9' {
        (c as nat - 48) as nat
    } else if 'a' <= c <= 'z' {
        (c as nat - 87) as nat
    } else if 'A' <= c <= 'Z' {
        (c as nat - 55) as nat
    } else {
        36
    }
}

/// The number written by `s` in base `radix`, with underscores skipped; `None` where `s` holds
/// anything else that is no digit of that base.
pub open spec fn digits_value(s: Seq<char>, radix: nat) -> Option<nat>
    decreases s.len(),
{
    if s.len() == 0 {
        Some(0)
    } else {
        match digits_value(s.drop_last(), radix) {
            None => None,
            Some(v) => if s.last() == '_' {
                Some(v)
            } else if digit_value(s.last()) < radix {
                Some(v * radix + digit_value(s.last()))
            } else {
                None
            },
        }
    }
}

/// The base that the first two characters of `s` announce; 10 where they announce none.
pub open spec fn radix_of(s: Seq<char>) -> nat {
    if s.len() < 2 || s[0] != '0' {
        10
    } else if s[1] == 'x' || s[1] == 'X' {
        16
    } else if s[1] == 'o' || s[1] == 'O' {
        8
    } else if s[1] == 'b' || s[1] == 'B' {
        2
    } else {
        10
    }
}

/// The amount that `s` is read as; `None` where it is no number or too large for an amount.
pub open spec fn parsed(s: Seq<char>) -> Option<nat> {
    let digits = if radix_of(s) == 10 {
        s
    } else {
        s.skip(2)
    };
    match digits_value(digits, radix_of(s)) {
        Some(n) => if n < amount_limit() {
            Some(n)
        } else {
            None
        },
        None => None,
    }
}

/// The amount that `s` is read as, zero where it cannot be read.
pub open spec fn amount_of(s: Seq<char>) -> nat {
    match parsed(s) {
        Some(n) => n,
        None => 0,
    }
}

/// Whether `c` is white space before a number.
pub open spec fn is_space(c: char) -> bool {
    c == ' ' || '\t' <= c <= '\r'
}

/// `s` without the white space at its beginning.
pub open spec fn unspaced(s: Seq<char>) -> Seq<char>
    decreases s.len(),
{
    if s.len() > 0 && is_space(s[0]) {
        unspaced(s.skip(1))
    } else {
        s
    }
}

/// How many decimal digits `s` begins with.
pub open spec fn digit_count(s: Seq<char>) -> nat
    decreases s.len(),
{
    if s.len() > 0 && '0' <= s[0] <= '9' {
        1 + digit_count(s.skip(1))
    } else {
        0
    }
}

/// The number written by the decimal digits with which `s` begins; zero where it begins with none.
pub open spec fn leading_number(s: Seq<char>) -> nat {
    match digits_value(s.take(digit_count(s) as int), 10) {
        Some(n) => n,
        None => 0,
    }
}

/// Whether `s` begins with the sign `sign`.
pub open spec fn has_sign(s: Seq<char>, sign: char) -> bool {
    s.len() > 0 && s[0] == sign
}

/// What the value `s` of a row of the event log counts for: the number with which it begins, after
/// white space and a sign. What follows is ignored, and a text that begins with no number counts for
/// zero. Every amount counts in full. What is no amount is held to a signed 64-bit integer.
pub open spec fn logged_value(s: Seq<char>) -> int {
    let t = unspaced(s);
    if has_sign(t, '-') {
        let n = leading_number(t.skip(1));
        if n <= 0x8000_0000_0000_0000 {
            -n
        } else {
            -0x8000_0000_0000_0000
        }
    } else {
        let n = if has_sign(t, '+') {
            leading_number(t.skip(1))
        } else {
            leading_number(t)
        };
        if n < amount_limit() {
            n as int
        } else {
            0x7fff_ffff_ffff_ffff
        }
    }
}

/// Decimal digits write a number, and announce no other base.
pub proof fn lemma_plain_digits(s: Seq<char>)
    requires
        forall|i: int| 0 <= i < s.len() ==> '0' <= #[trigger] s[i] <= '9',
    ensures
        radix_of(s) == 10,
        digits_value(s, 10) is Some,
    decreases s.len(),
{
    if s.len() > 0 {
        assert forall|i: int| 0 <= i < s.drop_last().len() implies '0' <= #[trigger] s.drop_last()[i]
            <= '9' by {
            assert(s.drop_last()[i] == s[i]);
        }
        lemma_plain_digits(s.drop_last());
        assert(s.last() == s[s.len() - 1]);
    }
}

/// Where `s` is made of digits alone, all of it counts.
proof fn lemma_all_digits_count(s: Seq<char>)
    requires
        forall|i: int| 0 <= i < s.len() ==> '0' <= #[trigger] s[i] <= '9',
    ensures
        digit_count(s) == s.len(),
    decreases s.len(),
{
    if s.len() > 0 {
        assert forall|i: int| 0 <= i < s.skip(1).len() implies '0' <= #[trigger] s.skip(1)[i]
            <= '9' by {
            assert(s.skip(1)[i] == s[i + 1]);
        }
        lemma_all_digits_count(s.skip(1));
    }
}

/// What reading finds in a decimal text: its digits, and no prefix of another base.
proof fn lemma_decimal_digits(n: nat)
    ensures
        decimal(n).len() > 0,
        forall|i: int| 0 <= i < decimal(n).len() ==> '0' <= #[trigger] decimal(n)[i] <= '9',
        digits_value(decimal(n), 10) == Some(n),
    decreases n,
{
    reveal_with_fuel(digits_value, 2);
    if n < 10 {
        assert(decimal(n).drop_last() =~= Seq::empty());
        assert(decimal(n).last() == decimal_digit(n));
    } else {
        lemma_decimal_digits(n / 10);
        assert(decimal(n).drop_last() =~= decimal(n / 10));
        assert(decimal(n).last() == decimal_digit(n % 10));
    }
}

/// An amount is read back from its decimal text, as a balance and as a value of the event log:
/// reading undoes writing.
pub proof fn law_decimal_read_back(n: nat)
    requires
        n < amount_limit(),
    ensures
        parsed(decimal(n)) == Some(n),
        amount_of(decimal(n)) == n,
        logged_value(decimal(n)) == n,
{
    lemma_decimal_digits(n);
    let s = decimal(n);
    lemma_all_digits_count(s);
    assert('0' <= s[0] <= '9');
    assert(s.take(s.len() as int) =~= s);
}

/// Two addresses with the same text are the same.
pub proof fn law_address_text_injective(a: Seq<u8>, b: Seq<u8>)
    requires
        address_text(a) == address_text(b),
    ensures
        a == b,
{
    let s = address_text(a);
    let t = address_text(b);
    assert(s.len() == 2 + 2 * a.len());
    assert(t.len() == 2 + 2 * b.len());
    assert forall|i: int| 0 <= i < a.len() implies a[i] == b[i] by {
        assert(s[2 + 2 * i] == hex_digits(a)[2 * i]);
        assert(t[2 + 2 * i] == hex_digits(b)[2 * i]);
        assert(s[3 + 2 * i] == hex_digits(a)[2 * i + 1]);
        assert(t[3 + 2 * i] == hex_digits(b)[2 * i + 1]);
        assert((2 * i + 1) % 2 == 1 && (2 * i + 1) / 2 == i && (2 * i) / 2 == i);
    }
    assert(a =~= b);
}

} // verus!
