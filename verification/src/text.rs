//! Numbers as decimal text.

use vstd::prelude::*;

verus! {

/// A decimal digit.
pub open spec fn is_digit(c: char) -> bool {
    '0' <= c <= '9'
}

/// The number that decimal digits write.
pub open spec fn decimal(digits: Seq<char>) -> nat
    decreases digits.len(),
{
    if digits.len() == 0 {
        0
    } else {
        decimal(digits.drop_last()) * 10 + (digits.last() as nat - '0' as nat) as nat
    }
}

/// More digits write no lower number.
pub proof fn lemma_decimal_grows(digits: Seq<char>, seen: int)
    requires
        0 <= seen <= digits.len(),
        forall|i: int| 0 <= i < digits.len() ==> is_digit(#[trigger] digits[i]),
    ensures
        decimal(digits.take(seen)) <= decimal(digits),
    decreases digits.len() - seen,
{
    if seen < digits.len() {
        lemma_decimal_grows(digits, seen + 1);
        assert(digits.take(seen + 1).drop_last() =~= digits.take(seen));
        assert(digits.take(seen + 1).last() == digits[seen]);
    } else {
        assert(digits.take(seen) =~= digits);
    }
}

/// The character of a decimal digit.
pub open spec fn digit_char(digit: nat) -> char {
    ('0' as nat + digit) as char
}

/// The decimal digits of a number, without leading zeros.
pub open spec fn digits_of(n: nat) -> Seq<char>
    decreases n,
{
    if n < 10 {
        seq![digit_char(n)]
    } else {
        digits_of(n / 10).push(digit_char(n % 10))
    }
}

/// The decimal digits of a number are digits, and write that number.
pub proof fn lemma_digits_of(n: nat)
    ensures
        digits_of(n).len() > 0,
        forall|i: int| 0 <= i < digits_of(n).len() ==> is_digit(#[trigger] digits_of(n)[i]),
        decimal(digits_of(n)) == n,
    decreases n,
{
    if n < 10 {
        let digits = digits_of(n);
        assert(digits.drop_last() =~= Seq::<char>::empty());
        assert(decimal(Seq::<char>::empty()) == 0);
        assert(digits.last() == digit_char(n));
    } else {
        lemma_digits_of(n / 10);
        let digits = digits_of(n);
        assert(digits.drop_last() =~= digits_of(n / 10));
        assert(digits.last() == digit_char(n % 10));
        assert forall|i: int| 0 <= i < digits.len() implies is_digit(#[trigger] digits[i]) by {
            if i < digits.len() - 1 {
                assert(digits[i] == digits_of(n / 10)[i]);
            }
        }
    }
}

/// The characters of decimal digits that stand lowest first, highest first.
pub open spec fn highest_first(digits: Seq<u8>) -> Seq<char> {
    Seq::new(digits.len(), |i: int| digit_char(digits[digits.len() - 1 - i] as nat))
}

/// One decimal digit as text.
fn digit_text(digit: u8) -> (text: &'static str)
    requires
        digit < 10,
    ensures
        text@ == seq![digit_char(digit as nat)],
{
    proof {
        reveal_strlit("0");
        reveal_strlit("1");
        reveal_strlit("2");
        reveal_strlit("3");
        reveal_strlit("4");
        reveal_strlit("5");
        reveal_strlit("6");
        reveal_strlit("7");
        reveal_strlit("8");
        reveal_strlit("9");
    }
    let text = match digit {
        0 => "0",
        1 => "1",
        2 => "2",
        3 => "3",
        4 => "4",
        5 => "5",
        6 => "6",
        7 => "7",
        8 => "8",
        _ => "9",
    };
    assert(text@ =~= seq![digit_char(digit as nat)]);
    text
}

/// The decimal digits of `number` as text, without leading zeros.
pub fn decimal_text(number: u128) -> (text: String)
    ensures
        text@ == digits_of(number as nat),
{
    let mut digits: Vec<u8> = Vec::new();
    digits.push((number % 10) as u8);
    let mut left = number / 10;
    proof {
        assert(highest_first(digits@) =~= seq![digit_char((number % 10) as nat)]);
        if number >= 10 {
            assert(digits_of(number as nat) =~= digits_of(left as nat) + highest_first(digits@));
        }
    }
    while left > 0
        invariant
            digits@.len() > 0,
            forall|i: int| 0 <= i < digits@.len() ==> #[trigger] digits@[i] < 10,
            digits_of(number as nat) == if left > 0 {
                digits_of(left as nat) + highest_first(digits@)
            } else {
                highest_first(digits@)
            },
        decreases left,
    {
        let ghost lower = digits@;
        let ghost held = left;
        digits.push((left % 10) as u8);
        left = left / 10;
        proof {
            assert(highest_first(digits@) =~= seq![digit_char((held % 10) as nat)]
                + highest_first(lower));
            if held >= 10 {
                assert(digits_of(held as nat) + highest_first(lower) =~= digits_of(left as nat)
                    + highest_first(digits@));
            }
        }
    }
    let mut text = String::new();
    let mut i: usize = digits.len();
    while i > 0
        invariant
            i <= digits@.len(),
            forall|j: int| 0 <= j < digits@.len() ==> #[trigger] digits@[j] < 10,
            text@ == highest_first(digits@).take(digits@.len() - i),
        decreases i,
    {
        i -= 1;
        text.append(digit_text(digits[i]));
        proof {
            assert(text@ =~= highest_first(digits@).take(digits@.len() - i));
        }
    }
    proof {
        assert(highest_first(digits@).take(digits@.len() as int) =~= highest_first(digits@));
    }
    text
}

} // verus!
