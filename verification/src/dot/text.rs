//! Numbers as text.

use vstd::prelude::*;

verus! {

/// The character of a decimal digit.
pub open spec fn digit(value: nat) -> char {
    if value == 0 {
        '0'
    } else if value == 1 {
        '1'
    } else if value == 2 {
        '2'
    } else if value == 3 {
        '3'
    } else if value == 4 {
        '4'
    } else if value == 5 {
        '5'
    } else if value == 6 {
        '6'
    } else if value == 7 {
        '7'
    } else if value == 8 {
        '8'
    } else {
        '9'
    }
}

/// The number in decimal notation, without leading zeros.
pub open spec fn decimal(value: nat) -> Seq<char>
    decreases value,
{
    if value < 10 {
        seq![digit(value)]
    } else {
        decimal(value / 10).push(digit(value % 10))
    }
}

/// `String::push`: appends the character to the end of the string.
pub assume_specification[ String::push ](text: &mut String, symbol: char)
    ensures
        final(text)@ == old(text)@.push(symbol),
;

fn write_digit(value: usize) -> (symbol: char)
    requires
        value < 10,
    ensures
        symbol == digit(value as nat),
{
    if value == 0 {
        '0'
    } else if value == 1 {
        '1'
    } else if value == 2 {
        '2'
    } else if value == 3 {
        '3'
    } else if value == 4 {
        '4'
    } else if value == 5 {
        '5'
    } else if value == 6 {
        '6'
    } else if value == 7 {
        '7'
    } else if value == 8 {
        '8'
    } else {
        '9'
    }
}

/// Appends the number in decimal notation to the text.
pub fn write_decimal(text: &mut String, value: usize)
    ensures
        final(text)@ == old(text)@ + decimal(value as nat),
{
    let mut digits: Vec<char> = Vec::new();
    digits.push(write_digit(value % 10));
    let mut rest: usize = value / 10;
    let ghost mut tail: Seq<char> = seq![digit((value % 10) as nat)];
    while rest > 0
        invariant
            digits@.len() == tail.len(),
            digits@.len() > 0,
            forall|i: int| 0 <= i < tail.len() ==> digits@[i] == tail[tail.len() - 1 - i],
            decimal(value as nat) == if rest == 0 {
                tail
            } else {
                decimal(rest as nat) + tail
            },
        decreases rest,
    {
        let symbol = write_digit(rest % 10);
        digits.push(symbol);
        proof {
            let longer = seq![symbol] + tail;
            if rest < 10 {
                assert(decimal(rest as nat) + tail =~= longer);
            } else {
                assert(decimal(rest as nat) + tail =~= decimal((rest / 10) as nat) + longer);
            }
            tail = longer;
        }
        rest = rest / 10;
    }
    let mut i: usize = digits.len();
    while i > 0
        invariant
            i <= digits@.len(),
            digits@.len() == tail.len(),
            forall|k: int| 0 <= k < tail.len() ==> digits@[k] == tail[tail.len() - 1 - k],
            text@ == old(text)@ + tail.take(tail.len() - i),
        decreases i,
    {
        i -= 1;
        text.push(digits[i]);
        proof {
            assert(tail.take(tail.len() - i) =~= tail.take(tail.len() - i - 1).push(
                tail[tail.len() - i - 1],
            ));
            assert(old(text)@ + tail.take(tail.len() - i) =~= (old(text)@ + tail.take(
                tail.len() - i - 1,
            )).push(tail[tail.len() - i - 1]));
        }
    }
    proof {
        assert(tail.take(tail.len() as int) =~= tail);
    }
}

} // verus!
