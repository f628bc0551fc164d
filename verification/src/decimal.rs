//! Integers in decimal.

use vstd::prelude::*;

verus! {

/// A digit, zero to nine.
pub open spec fn digit(d: nat) -> Seq<char> {
    if d == 0 {
        "0"@
    } else if d == 1 {
        "1"@
    } else if d == 2 {
        "2"@
    } else if d == 3 {
        "3"@
    } else if d == 4 {
        "4"@
    } else if d == 5 {
        "5"@
    } else if d == 6 {
        "6"@
    } else if d == 7 {
        "7"@
    } else if d == 8 {
        "8"@
    } else {
        "9"@
    }
}

/// A natural number in decimal.
pub open spec fn digits(n: nat) -> Seq<char>
    decreases n,
{
    if n < 10 {
        digit(n)
    } else {
        digits(n / 10) + digit(n % 10)
    }
}

/// An integer in decimal.
pub open spec fn decimal(n: int) -> Seq<char> {
    if n < 0 {
        "-"@ + digits((-n) as nat)
    } else {
        digits(n as nat)
    }
}

fn add_digit(text: &mut String, d: u64)
    requires
        d < 10,
    ensures
        final(text)@ == old(text)@ + digit(d as nat),
{
    text.append(
        match d {
            0 => "0",
            1 => "1",
            2 => "2",
            3 => "3",
            4 => "4",
            5 => "5",
            6 => "6",
            7 => "7",
            8 => "8",
            _ => "9",
        },
    );
}

/// Adds `n` in decimal to `text`.
pub fn add_digits(text: &mut String, n: u64)
    ensures
        final(text)@ == old(text)@ + digits(n as nat),
    decreases n,
{
    if n >= 10 {
        add_digits(text, n / 10);
    }
    add_digit(text, n % 10);
    assert(text@ =~= old(text)@ + digits(n as nat));
}

/// Adds `n` in decimal to `text`.
pub fn add_decimal(text: &mut String, n: i32)
    ensures
        final(text)@ == old(text)@ + decimal(n as int),
{
    if n < 0 {
        text.append("-");
        add_digits(text, (-(n as i64)) as u64);
    } else {
        add_digits(text, n as u64);
    }
    assert(text@ =~= old(text)@ + decimal(n as int));
}

} // verus!
