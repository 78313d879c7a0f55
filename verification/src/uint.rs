//! Unsigned integers of 256 bits: balances, nonces, gas and prices. The
//! arithmetic is that of `ethcore_bigint`.

use crate::text::digits_of;
use vstd::prelude::*;

verus! {

/// An unsigned integer of 256 bits, as four words of 64 bits, the least
/// significant word first.
#[derive(Debug, Clone, Copy, PartialEq, Eq, Hash)]
pub struct U256(pub [u64; 4]);

/// The largest number that 256 bits hold.
pub open spec fn max_value() -> nat {
    0xffff_ffff_ffff_ffff_ffff_ffff_ffff_ffff_ffff_ffff_ffff_ffff_ffff_ffff_ffff_ffffnat
}

/// The number that four words stand for, the least significant word first.
pub open spec fn value_of(words: Seq<u64>) -> nat {
    (words[0] as nat) + (words[1] as nat) * 0x1_0000_0000_0000_0000nat + (words[2] as nat)
        * 0x1_0000_0000_0000_0000_0000_0000_0000_0000nat + (words[3] as nat)
        * 0x1_0000_0000_0000_0000_0000_0000_0000_0000_0000_0000_0000_0000nat
}

impl View for U256 {
    type V = nat;

    open spec fn view(&self) -> nat {
        value_of(self.0@)
    }
}

/// `ethcore_bigint::uint::U256::saturating_add`: the sum, or the largest
/// number of 256 bits where the sum is above it. Trusted.
#[verifier::external_body]
fn bigint_saturating_add(a: U256, b: U256) -> (sum: U256)
    ensures
        sum@ == if a@ + b@ > max_value() {
            max_value()
        } else {
            a@ + b@
        },
{
    let a = ethcore_bigint::uint::U256(a.0);
    let b = ethcore_bigint::uint::U256(b.0);
    U256(a.saturating_add(b).0)
}

/// `ethcore_bigint::uint::U256::saturating_mul`: the product, or the largest
/// number of 256 bits where the product is above it. Trusted.
#[verifier::external_body]
fn bigint_saturating_mul(a: U256, b: U256) -> (product: U256)
    ensures
        product@ == if a@ * b@ > max_value() {
            max_value()
        } else {
            a@ * b@
        },
{
    let a = ethcore_bigint::uint::U256(a.0);
    let b = ethcore_bigint::uint::U256(b.0);
    U256(a.saturating_mul(b).0)
}

/// `Display` of `ethcore_bigint::uint::U256`: the number in decimal digits,
/// without leading zeros. Trusted.
#[verifier::external_body]
fn bigint_decimal(a: U256) -> (text: String)
    ensures
        text@ == digits_of(a@),
{
    format!("{}", ethcore_bigint::uint::U256(a.0))
}

/// A number written as a high part times `base` and a low part below
/// `base` compares by its high part first.
pub proof fn lemma_high_first(high: int, low: int, other_high: int, other_low: int, base: int)
    by (nonlinear_arith)
    requires
        0 <= low < base,
        0 <= other_low < base,
    ensures
        (high * base + low < other_high * base + other_low) == (high < other_high || (high
            == other_high && low < other_low)),
        (high * base + low == other_high * base + other_low) == (high == other_high && low
            == other_low),
{
}

/// The three lower words of a number, as a number.
pub open spec fn low_three(words: Seq<u64>) -> int {
    words[0] + words[1] * 0x1_0000_0000_0000_0000int + words[2]
        * 0x1_0000_0000_0000_0000_0000_0000_0000_0000int
}

/// The two lower words of a number, as a number.
pub open spec fn low_two(words: Seq<u64>) -> int {
    words[0] + words[1] * 0x1_0000_0000_0000_0000int
}

/// Numbers of 256 bits compare word by word, the most significant word first.
pub proof fn lemma_words(a: Seq<u64>, b: Seq<u64>)
    ensures
        (value_of(a) < value_of(b)) == (a[3] < b[3] || (a[3] == b[3] && (a[2] < b[2] || (a[2]
            == b[2] && (a[1] < b[1] || (a[1] == b[1] && a[0] < b[0])))))),
        (value_of(a) == value_of(b)) == (a[3] == b[3] && a[2] == b[2] && a[1] == b[1] && a[0]
            == b[0]),
{
    let base = 0x1_0000_0000_0000_0000int;
    let base2 = 0x1_0000_0000_0000_0000_0000_0000_0000_0000int;
    let base3 = 0x1_0000_0000_0000_0000_0000_0000_0000_0000_0000_0000_0000_0000int;
    assert(0 <= low_two(a) < base2);
    assert(0 <= low_two(b) < base2);
    assert(0 <= low_three(a) < base3);
    assert(0 <= low_three(b) < base3);
    lemma_high_first(a[1] as int, a[0] as int, b[1] as int, b[0] as int, base);
    lemma_high_first(a[2] as int, low_two(a), b[2] as int, low_two(b), base2);
    lemma_high_first(a[3] as int, low_three(a), b[3] as int, low_three(b), base3);
    assert(value_of(a) == a[3] * base3 + low_three(a));
    assert(value_of(b) == b[3] * base3 + low_three(b));
    assert(low_three(a) == a[2] * base2 + low_two(a));
    assert(low_three(b) == b[2] * base2 + low_two(b));
    assert(low_two(a) == a[1] * base + a[0]);
    assert(low_two(b) == b[1] * base + b[0]);
}

impl U256 {
    /// Zero.
    pub fn zero() -> (n: U256)
        ensures
            n@ == 0,
    {
        U256([0, 0, 0, 0])
    }

    /// The number `value`.
    pub fn from_u64(value: u64) -> (n: U256)
        ensures
            n@ == value,
    {
        U256([value, 0, 0, 0])
    }

    /// The number `value`.
    pub fn from_u128(value: u128) -> (n: U256)
        ensures
            n@ == value,
    {
        let low = (value & 0xffff_ffff_ffff_ffff) as u64;
        let high = (value >> 64) as u64;
        assert(value == (value & 0xffff_ffff_ffff_ffff) + (value >> 64) * 0x1_0000_0000_0000_0000
            && (value & 0xffff_ffff_ffff_ffff) <= 0xffff_ffff_ffff_ffff && (value >> 64)
            <= 0xffff_ffff_ffff_ffff) by (bit_vector);
        U256([low, high, 0, 0])
    }

    /// Whether the number is below `other`.
    pub fn lt(&self, other: &U256) -> (below: bool)
        ensures
            below == (self@ < other@),
    {
        proof {
            lemma_words(self.0@, other.0@);
        }
        if self.0[3] != other.0[3] {
            self.0[3] < other.0[3]
        } else if self.0[2] != other.0[2] {
            self.0[2] < other.0[2]
        } else if self.0[1] != other.0[1] {
            self.0[1] < other.0[1]
        } else {
            self.0[0] < other.0[0]
        }
    }

    /// Whether the number is `other`.
    pub fn is(&self, other: &U256) -> (same: bool)
        ensures
            same == (self@ == other@),
    {
        proof {
            lemma_words(self.0@, other.0@);
        }
        self.0[0] == other.0[0] && self.0[1] == other.0[1] && self.0[2] == other.0[2] && self.0[3]
            == other.0[3]
    }

    /// The number in decimal digits, without leading zeros.
    pub fn decimal(&self) -> (text: String)
        ensures
            text@ == digits_of(self@),
    {
        bigint_decimal(*self)
    }

    /// Addition which saturates at the maximum value.
    pub fn saturating_add(self, other: U256) -> (sum: U256)
        ensures
            sum@ == if self@ + other@ > max_value() {
                max_value()
            } else {
                self@ + other@
            },
    {
        bigint_saturating_add(self, other)
    }

    /// Multiplication which saturates at the maximum value.
    pub fn saturating_mul(self, other: U256) -> (product: U256)
        ensures
            product@ == if self@ * other@ > max_value() {
                max_value()
            } else {
                self@ * other@
            },
    {
        bigint_saturating_mul(self, other)
    }
}

} // verus!
