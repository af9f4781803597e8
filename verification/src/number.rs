//! Whole numbers in decimal: how they are written and how they are read.
use vstd::prelude::*;
use vstd::string::*;

use crate::text::{char_is_digit, chars_of, is_digit};

verus! {

/// Why a text is not a whole number of the wanted size.
#[derive(Debug, Clone, Copy, PartialEq, Eq, Structural)]
pub enum NumberFault {
    /// There is nothing to read.
    Empty,
    /// A character is not a digit, or there is a sign and no digit.
    InvalidDigit,
    /// The number is above the largest one.
    TooLarge,
    /// The number is below the smallest one.
    TooSmall,
}

/// The digit for `d`.
pub open spec fn digit_char(d: int) -> char {
    ('0' as int + d) as char
}

/// The value of a digit.
pub open spec fn digit_value(c: char) -> nat {
    (c as int - '0' as int) as nat
}

/// `n` in decimal, without leading zeros.
pub open spec fn decimal(n: nat) -> Seq<char>
    decreases n,
{
    if n < 10 {
        seq![digit_char(n as int)]
    } else {
        decimal(n / 10).push(digit_char((n % 10) as int))
    }
}

/// `n` in decimal, with a leading `-` where it is negative.
pub open spec fn signed_decimal(n: int) -> Seq<char> {
    if n < 0 {
        seq!['-'] + decimal((-n) as nat)
    } else {
        decimal(n as nat)
    }
}

/// `n` in decimal, with a leading zero where it has one digit.
pub open spec fn two_digits(n: nat) -> Seq<char> {
    if n < 10 {
        seq!['0'] + decimal(n)
    } else {
        decimal(n)
    }
}

/// The number that the digits `s` write, or the first fault from the left. One
/// above `limit` is reported as `excess`.
pub open spec fn scan(s: Seq<char>, limit: nat, excess: NumberFault) -> Result<nat, NumberFault>
    decreases s.len(),
{
    if s.len() == 0 {
        Ok(0)
    } else {
        match scan(s.drop_last(), limit, excess) {
            Err(fault) => Err(fault),
            Ok(v) => if !is_digit(s.last()) {
                Err(NumberFault::InvalidDigit)
            } else if v * 10 + digit_value(s.last()) > limit {
                Err(excess)
            } else {
                Ok((v * 10 + digit_value(s.last())) as nat)
            },
        }
    }
}

/// The number from zero to `limit` that `s` writes: digits, after a `+` or not.
pub open spec fn read_unsigned(s: Seq<char>, limit: nat) -> Result<nat, NumberFault> {
    if s.len() == 0 {
        Err(NumberFault::Empty)
    } else if s[0] == '+' {
        if s.len() == 1 {
            Err(NumberFault::InvalidDigit)
        } else {
            scan(s.drop_first(), limit, NumberFault::TooLarge)
        }
    } else {
        scan(s, limit, NumberFault::TooLarge)
    }
}

/// The number of `i64` that `s` writes: digits, after a sign or not.
pub open spec fn read_signed(s: Seq<char>) -> Result<int, NumberFault> {
    if s.len() > 1 && s[0] == '-' {
        match scan(s.drop_first(), (i64::MAX + 1) as nat, NumberFault::TooSmall) {
            Ok(v) => Ok(-(v as int)),
            Err(fault) => Err(fault),
        }
    } else {
        match read_unsigned(s, i64::MAX as nat) {
            Ok(v) => Ok(v as int),
            Err(fault) => Err(fault),
        }
    }
}

/// Every character of a written number is a digit, and the first is no zero
/// unless the number is below ten.
pub proof fn lemma_decimal_digits(n: nat)
    ensures
        decimal(n).len() >= 1,
        forall|i: int| 0 <= i < decimal(n).len() ==> is_digit(#[trigger] decimal(n)[i]),
        n > 0 ==> decimal(n)[0] != '0',
    decreases n,
{
    if n >= 10 {
        lemma_decimal_digits(n / 10);
    }
}

/// Reading what was written gives the number back.
pub proof fn lemma_scan_decimal(n: nat, limit: nat, excess: NumberFault)
    requires
        n <= limit,
    ensures
        scan(decimal(n), limit, excess) == Ok::<nat, NumberFault>(n),
    decreases n,
{
    let s = decimal(n);
    if n < 10 {
        assert(s.drop_last() =~= Seq::empty());
        assert(scan(s.drop_last(), limit, excess) == Ok::<nat, NumberFault>(0));
        assert(digit_value(s.last()) == n);
    } else {
        lemma_scan_decimal(n / 10, limit, excess);
        assert(s.drop_last() =~= decimal(n / 10));
        assert(digit_value(s.last()) == n % 10);
    }
}

/// What `decimal` writes, `read_unsigned` reads back.
pub proof fn decimal_reads_back(n: nat, limit: nat)
    requires
        n <= limit,
    ensures
        read_unsigned(decimal(n), limit) == Ok::<nat, NumberFault>(n),
{
    lemma_decimal_digits(n);
    assert(is_digit(decimal(n)[0]));
    lemma_scan_decimal(n, limit, NumberFault::TooLarge);
}

/// What `signed_decimal` writes, `read_signed` reads back.
pub proof fn signed_decimal_reads_back(n: i64)
    ensures
        read_signed(signed_decimal(n as int)) == Ok::<int, NumberFault>(n as int),
{
    if n < 0 {
        let m: nat = (-n) as nat;
        lemma_decimal_digits(m);
        assert(signed_decimal(n as int).drop_first() =~= decimal(m));
        lemma_scan_decimal(m, (i64::MAX + 1) as nat, NumberFault::TooSmall);
    } else {
        lemma_decimal_digits(n as nat);
        assert(is_digit(decimal(n as nat)[0]));
        decimal_reads_back(n as nat, i64::MAX as nat);
    }
}

/// Two numbers that are written alike are the same.
pub proof fn decimal_is_injective(a: nat, b: nat)
    requires
        decimal(a) == decimal(b),
    ensures
        a == b,
{
    let limit: nat = if a < b {
        b
    } else {
        a
    };
    decimal_reads_back(a, limit);
    decimal_reads_back(b, limit);
}

/// The digit for `d`, which is below ten.
fn digit_of(d: u64) -> (c: char)
    requires
        d < 10,
    ensures
        c == digit_char(d as int),
{
    let n: u8 = d as u8;
    (n + 48) as char
}

/// `n` in decimal.
pub fn decimal_text(n: u64) -> (r: String)
    ensures
        r@ == decimal(n as nat),
    decreases n,
{
    if n < 10 {
        let mut r = String::new();
        r.push(digit_of(n));
        assert(r@ =~= seq![digit_char(n as int)]);
        r
    } else {
        let mut r = decimal_text(n / 10);
        r.push(digit_of(n % 10));
        r
    }
}

/// `n` in decimal, with its sign where it is negative.
pub fn signed_text(n: i64) -> (r: String)
    ensures
        r@ == signed_decimal(n as int),
{
    if n < 0 {
        let mut r = String::new();
        r.push('-');
        assert(r@ =~= seq!['-']);
        let m: u64 = (-(n as i128)) as u64;
        let digits = decimal_text(m);
        r.append(digits.as_str());
        r
    } else {
        decimal_text(n as u64)
    }
}

/// `n` in decimal, in two digits at least.
pub fn two_digit_text(n: u64) -> (r: String)
    ensures
        r@ == two_digits(n as nat),
{
    if n < 10 {
        let mut r = String::new();
        r.push('0');
        assert(r@ =~= seq!['0']);
        let digits = decimal_text(n);
        r.append(digits.as_str());
        r
    } else {
        decimal_text(n)
    }
}

/// The number that the digits of `chars` from `from` on write.
fn scan_from(chars: &Vec<char>, from: usize, limit: u64, excess: NumberFault) -> (r: Result<
    u64,
    NumberFault,
>)
    requires
        from <= chars@.len(),
    ensures
        match r {
            Ok(v) => scan(chars@.skip(from as int), limit as nat, excess) == Ok::<nat, NumberFault>(
                v as nat,
            ),
            Err(fault) => scan(chars@.skip(from as int), limit as nat, excess) == Err::<
                nat,
                NumberFault,
            >(fault),
        },
{
    let ghost digits = chars@.skip(from as int);
    let mut v: u64 = 0;
    let mut i: usize = from;
    while i < chars.len()
        invariant
            digits == chars@.skip(from as int),
            from <= i <= chars@.len(),
            v <= limit,
            scan(digits.take(i - from), limit as nat, excess) == Ok::<nat, NumberFault>(v as nat),
        decreases chars@.len() - i,
    {
        let ghost next = digits.take(i + 1 - from);
        proof {
            assert(next.drop_last() == digits.take(i - from));
            assert(next.last() == chars@[i as int]);
        }
        let fault: NumberFault;
        if !char_is_digit(chars[i]) {
            fault = NumberFault::InvalidDigit;
        } else {
            let d: u64 = (chars[i] as u32 - 48) as u64;
            let wide: u128 = (v as u128) * 10 + (d as u128);
            if wide > limit as u128 {
                fault = excess;
            } else {
                v = wide as u64;
                i = i + 1;
                continue ;
            }
        }
        proof {
            lemma_scan_fault(digits, i + 1 - from, limit as nat, excess, fault);
        }
        return Err(fault);
    }
    assert(digits.take(i - from) == digits);
    Ok(v)
}

/// A fault in a prefix is the fault of the whole.
proof fn lemma_scan_fault(s: Seq<char>, n: int, limit: nat, excess: NumberFault, fault: NumberFault)
    requires
        0 <= n <= s.len(),
        scan(s.take(n), limit, excess) == Err::<nat, NumberFault>(fault),
    ensures
        scan(s, limit, excess) == Err::<nat, NumberFault>(fault),
    decreases s.len() - n,
{
    if n == s.len() {
        assert(s.take(n) == s);
    } else {
        assert(s.take(n + 1).drop_last() == s.take(n));
        lemma_scan_fault(s, n + 1, limit, excess, fault);
    }
}

/// The number from zero to `limit` that `text` writes.
pub fn parse_unsigned(text: &str, limit: u64) -> (r: Result<u64, NumberFault>)
    ensures
        match r {
            Ok(v) => read_unsigned(text@, limit as nat) == Ok::<nat, NumberFault>(v as nat),
            Err(fault) => read_unsigned(text@, limit as nat) == Err::<nat, NumberFault>(fault),
        },
{
    let chars = chars_of(text);
    if chars.len() == 0 {
        return Err(NumberFault::Empty);
    }
    if chars[0] == '+' {
        if chars.len() == 1 {
            return Err(NumberFault::InvalidDigit);
        }
        assert(chars@.skip(1) == chars@.drop_first());
        scan_from(&chars, 1, limit, NumberFault::TooLarge)
    } else {
        assert(chars@.skip(0) == chars@);
        scan_from(&chars, 0, limit, NumberFault::TooLarge)
    }
}

/// The number that `text` writes, with or without a sign.
pub fn parse_signed(text: &str) -> (r: Result<i64, NumberFault>)
    ensures
        match r {
            Ok(v) => read_signed(text@) == Ok::<int, NumberFault>(v as int),
            Err(fault) => read_signed(text@) == Err::<int, NumberFault>(fault),
        },
{
    let chars = chars_of(text);
    if chars.len() > 1 && chars[0] == '-' {
        assert(chars@.skip(1) == chars@.drop_first());
        match scan_from(&chars, 1, 0x8000_0000_0000_0000u64, NumberFault::TooSmall) {
            Ok(v) => Ok((-(v as i128)) as i64),
            Err(fault) => Err(fault),
        }
    } else {
        match parse_unsigned(text, 0x7fff_ffff_ffff_ffffu64) {
            Ok(v) => Ok(v as i64),
            Err(fault) => Err(fault),
        }
    }
}

/// The `usize` that `text` writes.
pub fn parse_size(text: &str) -> (r: Result<usize, NumberFault>)
    ensures
        match r {
            Ok(v) => read_unsigned(text@, usize::MAX as nat) == Ok::<nat, NumberFault>(v as nat),
            Err(fault) => read_unsigned(text@, usize::MAX as nat) == Err::<nat, NumberFault>(fault),
        },
{
    match parse_unsigned(text, usize::MAX as u64) {
        Ok(v) => Ok(v as usize),
        Err(fault) => Err(fault),
    }
}

/// The `u32` that `text` writes.
pub fn parse_u32(text: &str) -> (r: Result<u32, NumberFault>)
    ensures
        match r {
            Ok(v) => read_unsigned(text@, u32::MAX as nat) == Ok::<nat, NumberFault>(v as nat),
            Err(fault) => read_unsigned(text@, u32::MAX as nat) == Err::<nat, NumberFault>(fault),
        },
{
    match parse_unsigned(text, u32::MAX as u64) {
        Ok(v) => Ok(v as u32),
        Err(fault) => Err(fault),
    }
}

} // verus!
