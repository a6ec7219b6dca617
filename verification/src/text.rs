//! Decimal rendering of counters, as `format!("{}")` and `format!("{:02}")`
//! would produce it.

use vstd::prelude::*;
use vstd::string::*;

verus! {

/// The ASCII digit for `d` (taken modulo nothing: callers pass `0 <= d < 10`).
pub open spec fn digit_char(d: int) -> char {
    if d == 0 {
        '0'
    } else if d == 1 {
        '1'
    } else if d == 2 {
        '2'
    } else if d == 3 {
        '3'
    } else if d == 4 {
        '4'
    } else if d == 5 {
        '5'
    } else if d == 6 {
        '6'
    } else if d == 7 {
        '7'
    } else if d == 8 {
        '8'
    } else {
        '9'
    }
}

/// Base-10 digits of `n`, most significant first, with no leading zeros.
pub open spec fn decimal(n: nat) -> Seq<char>
    decreases n,
{
    if n < 10 {
        seq![digit_char(n as int)]
    } else {
        decimal(n / 10) + seq![digit_char((n % 10) as int)]
    }
}

/// Base-10 digits of `n`, left-padded with zeros to at least two characters.
pub open spec fn decimal_width2(n: nat) -> Seq<char> {
    if n < 10 {
        seq!['0'] + decimal(n)
    } else {
        decimal(n)
    }
}

fn push_digit(s: &mut String, d: u64)
    requires
        d < 10,
    ensures
        final(s)@ == old(s)@.push(digit_char(d as int)),
{
    if d == 0 {
        proof { reveal_strlit("0"); }
        s.append("0");
    } else if d == 1 {
        proof { reveal_strlit("1"); }
        s.append("1");
    } else if d == 2 {
        proof { reveal_strlit("2"); }
        s.append("2");
    } else if d == 3 {
        proof { reveal_strlit("3"); }
        s.append("3");
    } else if d == 4 {
        proof { reveal_strlit("4"); }
        s.append("4");
    } else if d == 5 {
        proof { reveal_strlit("5"); }
        s.append("5");
    } else if d == 6 {
        proof { reveal_strlit("6"); }
        s.append("6");
    } else if d == 7 {
        proof { reveal_strlit("7"); }
        s.append("7");
    } else if d == 8 {
        proof { reveal_strlit("8"); }
        s.append("8");
    } else {
        proof { reveal_strlit("9"); }
        s.append("9");
    }
}

/// Appends the decimal rendering of `n` to `s`.
pub fn append_decimal(s: &mut String, n: u64)
    ensures
        final(s)@ == old(s)@ + decimal(n as nat),
    decreases n,
{
    if n >= 10 {
        append_decimal(s, n / 10);
    }
    push_digit(s, n % 10);
}

/// Appends the decimal rendering of `n`, zero-padded to width two (`{:02}`).
pub fn append_decimal_width2(s: &mut String, n: u64)
    ensures
        final(s)@ == old(s)@ + decimal_width2(n as nat),
{
    if n < 10 {
        push_digit(s, 0);
    }
    append_decimal(s, n);
    proof {
        if n < 10 {
            assert(old(s)@.push('0') + decimal(n as nat) =~= old(s)@ + (seq!['0'] + decimal(n as nat)));
        }
    }
}

/// The decimal rendering of `n`, as `n.to_string()` gives it.
pub fn decimal_string(n: u64) -> (s: String)
    ensures
        s@ == decimal(n as nat),
{
    let mut s = String::new();
    append_decimal(&mut s, n);
    proof {
        assert(Seq::<char>::empty() + decimal(n as nat) =~= decimal(n as nat));
    }
    s
}

} // verus!
