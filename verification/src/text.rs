//! Numbers written out, for the sentences the republic says to the player.

use vstd::prelude::*;
use vstd::string::StringExecFns;

verus! {

/// The character for one decimal digit.
pub open spec fn digit_char(d: nat) -> char {
    if d == 0 {
        '0'
    } else if d == 1 {
        '1'
    } else if d == 2 {
        '2'
    } else if d == 3 {
        '3'
    } else if d == 4 {
        '4'
    } else if d == 5 {
        '5'
    } else if d == 6 {
        '6'
    } else if d == 7 {
        '7'
    } else if d == 8 {
        '8'
    } else {
        '9'
    }
}

/// A whole number in plain decimal: no sign, no separators, no leading zeros.
pub open spec fn decimal(n: nat) -> Seq<char>
    decreases n,
{
    if n < 10 {
        seq![digit_char(n)]
    } else {
        decimal(n / 10).push(digit_char(n % 10))
    }
}

fn push_digit(s: &mut String, d: u64)
    requires
        d < 10,
    ensures
        final(s)@ == old(s)@.push(digit_char(d as nat)),
{
    proof {
        reveal_strlit("0");
        reveal_strlit("1");
        reveal_strlit("2");
        reveal_strlit("3");
        reveal_strlit("4");
        reveal_strlit("5");
        reveal_strlit("6");
        reveal_strlit("7");
        reveal_strlit("8");
        reveal_strlit("9");
    }
    let digit: &str = if d == 0 {
        "0"
    } else if d == 1 {
        "1"
    } else if d == 2 {
        "2"
    } else if d == 3 {
        "3"
    } else if d == 4 {
        "4"
    } else if d == 5 {
        "5"
    } else if d == 6 {
        "6"
    } else if d == 7 {
        "7"
    } else if d == 8 {
        "8"
    } else {
        "9"
    };
    assert(digit@ =~= seq![digit_char(d as nat)]);
    s.append(digit);
    assert(s@ =~= old(s)@.push(digit_char(d as nat)));
}

/// Write `n` on the end of `s` in plain decimal.
pub fn push_decimal(s: &mut String, n: u64)
    ensures
        final(s)@ == old(s)@ + decimal(n as nat),
    decreases n,
{
    if n >= 10 {
        push_decimal(s, n / 10);
    }
    push_digit(s, n % 10);
    proof {
        if n >= 10 {
            assert(decimal(n as nat) == decimal((n / 10) as nat).push(digit_char((n % 10) as nat)));
        } else {
            assert(decimal(n as nat) == seq![digit_char(n as nat)]);
        }
        assert(s@ =~= old(s)@ + decimal(n as nat));
    }
}

/// A sum held in hundredths, to the nearest whole unit, a half going to the
/// even neighbour.
pub open spec fn whole_units(hundredths: nat) -> nat {
    let q = hundredths / 100;
    let r = hundredths % 100;
    if r > 50 || (r == 50 && q % 2 == 1) {
        q + 1
    } else {
        q
    }
}

/// A signed sum held in hundredths, written in whole units: a minus sign for
/// anything below zero, then its size rounded as [`whole_units`] does.
pub open spec fn signed_units(hundredths: int) -> Seq<char> {
    if hundredths < 0 {
        seq!['-'] + decimal(whole_units((-hundredths) as nat))
    } else {
        decimal(whole_units(hundredths as nat))
    }
}

fn round_units(hundredths: u64) -> (r: u64)
    ensures
        r == whole_units(hundredths as nat),
{
    let q = hundredths / 100;
    let r = hundredths % 100;
    if r > 50 || (r == 50 && q % 2 == 1) {
        q + 1
    } else {
        q
    }
}

/// Write a sum held in hundredths on the end of `s`, in whole units.
pub fn push_units(s: &mut String, hundredths: u64)
    ensures
        final(s)@ == old(s)@ + decimal(whole_units(hundredths as nat)),
{
    let whole = round_units(hundredths);
    push_decimal(s, whole);
}

/// Write a signed sum held in hundredths on the end of `s`, in whole units.
pub fn push_signed_units(s: &mut String, hundredths: i64)
    ensures
        final(s)@ == old(s)@ + signed_units(hundredths as int),
{
    if hundredths < 0 {
        proof {
            reveal_strlit("-");
        }
        s.append("-");
        let size: u64 = (0i128 - hundredths as i128) as u64;
        push_units(s, size);
        assert(s@ =~= old(s)@ + signed_units(hundredths as int));
    } else {
        push_units(s, hundredths as u64);
    }
}

} // verus!
