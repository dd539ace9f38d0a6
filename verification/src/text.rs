//! Decimal numbers and small string helpers.
//!
//! Error messages and PDF syntax both spell numbers in decimal. The digits are described once,
//! as bytes, by [`decimal`].

use crate::bytes::same_bytes;
use vstd::prelude::*;

verus! {

/// The decimal digits of `n`, most significant first, without leading zeros.
pub open spec fn decimal(n: nat) -> Seq<u8>
    decreases n,
{
    if n < 10 {
        seq![(0x30 + n) as u8]
    } else {
        decimal(n / 10).push((0x30 + n % 10) as u8)
    }
}

/// The number that a run of decimal digits spells.
pub open spec fn number(digits: Seq<u8>) -> nat
    decreases digits.len(),
{
    if digits.len() == 0 {
        0
    } else {
        number(digits.drop_last()) * 10 + (digits.last() - 0x30) as nat
    }
}

/// Whether `b` is an ASCII digit.
pub open spec fn is_digit(b: u8) -> bool {
    0x30 <= b <= 0x39
}

/// Bytes below 128 read as the characters they stand for.
pub open spec fn ascii_text(bytes: Seq<u8>) -> Seq<char> {
    bytes.map_values(|b: u8| b as char)
}

/// [`decimal`] as characters.
pub open spec fn decimal_text(n: nat) -> Seq<char> {
    ascii_text(decimal(n))
}

/// `n` in decimal, padded on the left with zeros to `width` digits.
pub open spec fn padded(n: nat, width: nat) -> Seq<u8> {
    let digits = decimal(n);
    if digits.len() >= width {
        digits
    } else {
        Seq::new((width - digits.len()) as nat, |i: int| 0x30u8) + digits
    }
}

/// Every byte of [`decimal`] is a digit, and there is at least one.
pub proof fn lemma_decimal_digits(n: nat)
    ensures
        decimal(n).len() >= 1,
        forall|i: int| 0 <= i < decimal(n).len() ==> is_digit(#[trigger] decimal(n)[i]),
    decreases n,
{
    if n >= 10 {
        lemma_decimal_digits(n / 10);
    }
}

/// Writing a number in decimal and reading it back gives the number.
pub proof fn lemma_number_of_decimal(n: nat)
    ensures
        number(decimal(n)) == n,
    decreases n,
{
    reveal_with_fuel(number, 2);
    if n >= 10 {
        lemma_number_of_decimal(n / 10);
        assert(decimal(n).drop_last() =~= decimal(n / 10));
    } else {
        assert(decimal(n).drop_last() =~= Seq::<u8>::empty());
    }
}

/// A number below ten to the `k` has at most `k` digits.
pub proof fn lemma_decimal_len(n: nat, k: nat)
    requires
        k >= 1,
        n < vstd::arithmetic::power::pow(10, k) as nat,
    ensures
        decimal(n).len() <= k,
    decreases k,
{
    vstd::arithmetic::power::lemma_pow_positive(10, k);
    if n >= 10 {
        if k == 1 {
            vstd::arithmetic::power::lemma_pow1(10);
        } else {
            vstd::arithmetic::power::lemma_pow_positive(10, (k - 1) as nat);
            vstd::arithmetic::power::lemma_pow_adds(10, 1, (k - 1) as nat);
            vstd::arithmetic::power::lemma_pow1(10);
            assert(n / 10 < vstd::arithmetic::power::pow(10, (k - 1) as nat) as nat);
            lemma_decimal_len(n / 10, (k - 1) as nat);
        }
    }
}

/// No `u64` needs more than twenty digits.
pub proof fn lemma_decimal_len_u64(n: u64)
    ensures
        decimal(n as nat).len() <= 20,
{
    reveal(vstd::arithmetic::power::pow);
    assert(vstd::arithmetic::power::pow(10, 20) == 100000000000000000000int) by {
        vstd::arithmetic::power::lemma_pow_adds(10, 10, 10);
        reveal_with_fuel(vstd::arithmetic::power::pow, 11);
        assert(vstd::arithmetic::power::pow(10, 10) == 10000000000int);
    }
    lemma_decimal_len(n as nat, 20);
}

/// Append the decimal digits of `n`.
pub fn push_decimal(out: &mut Vec<u8>, n: u64)
    ensures
        final(out)@ == old(out)@ + decimal(n as nat),
    decreases n,
{
    if n >= 10 {
        push_decimal(out, n / 10);
    }
    out.push(0x30u8 + (n % 10) as u8);
    assert(out@ =~= old(out)@ + decimal(n as nat));
}

/// Append `n` in decimal, zero-padded on the left to `width` digits.
pub fn push_padded(out: &mut Vec<u8>, n: u64, width: usize)
    ensures
        final(out)@ == old(out)@ + padded(n as nat, width as nat),
{
    let mut digits: Vec<u8> = Vec::new();
    push_decimal(&mut digits, n);
    let mut missing: usize = if digits.len() < width { width - digits.len() } else { 0 };
    let ghost total: nat = missing as nat;
    while missing > 0
        invariant
            missing <= total,
            out@ == old(out)@ + Seq::new((total - missing) as nat, |i: int| 0x30u8),
        decreases missing,
    {
        out.push(0x30);
        missing = missing - 1;
        assert(out@ =~= old(out)@ + Seq::new((total - missing) as nat, |i: int| 0x30u8));
    }
    out.extend_from_slice(digits.as_slice());
    assert(digits@ =~= decimal(n as nat));
    assert(out@ =~= old(out)@ + padded(n as nat, width as nat));
}

/// `String::push` appends one character.
pub assume_specification[ String::push ](s: &mut String, c: char)
    ensures
        final(s)@ == old(s)@.push(c),
;

/// Append the decimal digits of `n` to a string.
pub fn append_decimal(out: &mut String, n: u64)
    ensures
        final(out)@ == old(out)@ + decimal_text(n as nat),
    decreases n,
{
    if n >= 10 {
        append_decimal(out, n / 10);
    }
    out.push((0x30u8 + (n % 10) as u8) as char);
    assert(out@ =~= old(out)@ + decimal_text(n as nat));
}

/// Append the UTF-8 bytes of `text`.
pub fn push_text(out: &mut Vec<u8>, text: &str)
    ensures
        final(out)@ == old(out)@ + vstd::utf8::encode_utf8(text@),
{
    out.extend_from_slice(text.as_bytes());
    assert(out@ =~= old(out)@ + vstd::utf8::encode_utf8(text@));
}

/// The UTF-8 bytes of a string.
pub open spec fn utf8(text: &str) -> Seq<u8> {
    vstd::utf8::encode_utf8(text@)
}

/// Whether `bytes` are the UTF-8 bytes of `text`.
pub fn is_text(bytes: &[u8], text: &str) -> (r: bool)
    ensures
        r == (bytes@ == utf8(text)),
{
    same_bytes(bytes, text.as_bytes())
}

/// Whether two strings are the same.
pub fn same_text(a: &str, b: &str) -> (r: bool)
    ensures
        r == (a@ == b@),
{
    proof {
        vstd::utf8::encode_utf8_decode_utf8(a@);
        vstd::utf8::encode_utf8_decode_utf8(b@);
    }
    same_bytes(a.as_bytes(), b.as_bytes())
}

} // verus!
