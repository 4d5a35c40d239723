//! Numbers in messages.

use vstd::prelude::*;

verus! {

/// The character for a digit.
pub open spec fn digit(d: nat) -> char {
    if d == 0 {
        '0'
    } else if d == 1 {
        '1'
    } else if d == 2 {
        '2'
    } else if d == 3 {
        '3'
    } else if d == 4 {
        '4'
    } else if d == 5 {
        '5'
    } else if d == 6 {
        '6'
    } else if d == 7 {
        '7'
    } else if d == 8 {
        '8'
    } else {
        '9'
    }
}

/// A number in decimal notation, without leading zeros.
pub open spec fn decimal(n: nat) -> Seq<char>
    decreases n,
{
    if n < 10 {
        seq![digit(n)]
    } else {
        decimal(n / 10) + seq![digit(n % 10)]
    }
}

/// The number that a digit stands for, if the character is one.
pub open spec fn digit_value(c: char) -> Option<nat> {
    if '0' <= c && c <= '9' {
        Some((c as nat - '0' as nat) as nat)
    } else {
        None
    }
}

/// The number that a text stands for in decimal notation, if it is one.
pub open spec fn value(text: Seq<char>) -> Option<nat>
    decreases text.len(),
{
    if text.len() == 0 {
        None
    } else {
        match (digit_value(text.last()), value(text.drop_last())) {
            (Some(d), Some(rest)) => Some(10 * rest + d),
            (Some(d), None) => if text.len() == 1 {
                Some(d)
            } else {
                None
            },
            _ => None,
        }
    }
}

/// A number in decimal notation reads as that number, and does not begin with a zero unless it is one.
pub proof fn law_decimal_reads_back(n: nat)
    ensures
        value(decimal(n)) == Some(n),
        decimal(n).len() > 0,
        n > 0 ==> decimal(n)[0] != '0',
    decreases n,
{
    reveal_with_fuel(value, 2);
    let text = decimal(n);
    if n < 10 {
        assert(text.drop_last() =~= Seq::<char>::empty());
        assert(digit_value(digit(n)) == Some(n));
    } else {
        law_decimal_reads_back(n / 10);
        assert(text.drop_last() =~= decimal(n / 10));
        assert(text.last() == digit(n % 10));
        assert(digit_value(digit(n % 10)) == Some(n % 10));
        assert(text[0] == decimal(n / 10)[0]);
    }
}

fn digit_text(d: u64) -> (r: &'static str)
    requires
        d < 10,
    ensures
        r@ == seq![digit(d as nat)],
{
    proof {
        reveal_strlit("0");
        reveal_strlit("1");
        reveal_strlit("2");
        reveal_strlit("3");
        reveal_strlit("4");
        reveal_strlit("5");
        reveal_strlit("6");
        reveal_strlit("7");
        reveal_strlit("8");
        reveal_strlit("9");
    }
    match d {
        0 => "0",
        1 => "1",
        2 => "2",
        3 => "3",
        4 => "4",
        5 => "5",
        6 => "6",
        7 => "7",
        8 => "8",
        _ => "9",
    }
}

/// Appends a number in decimal notation.
pub fn push_decimal(text: &mut String, n: u64)
    ensures
        final(text)@ == old(text)@ + decimal(n as nat),
    decreases n,
{
    if n < 10 {
        text.append(digit_text(n));
    } else {
        push_decimal(text, n / 10);
        text.append(digit_text(n % 10));
    }
}

} // verus!
