//! Small helpers: price formatting and hashing.

use vstd::prelude::*;
use vstd::string::StringExecFns;

verus! {

/// The character for one decimal digit.
pub open spec fn spec_digit_char(d: int) -> char {
    if d == 0 {
        '0'
    } else if d == 1 {
        '1'
    } else if d == 2 {
        '2'
    } else if d == 3 {
        '3'
    } else if d == 4 {
        '4'
    } else if d == 5 {
        '5'
    } else if d == 6 {
        '6'
    } else if d == 7 {
        '7'
    } else if d == 8 {
        '8'
    } else {
        '9'
    }
}

/// The decimal digits of a number, most significant first.
pub open spec fn spec_digits(n: int) -> Seq<char>
    decreases n,
{
    if n < 10 {
        seq![spec_digit_char(n)]
    } else {
        spec_digits(n / 10).push(spec_digit_char(n % 10))
    }
}

/// One decimal digit as a string slice.
fn digit_str(d: u64) -> (r: &'static str)
    requires
        d < 10,
    ensures
        r@ == seq![spec_digit_char(d as int)],
{
    proof {
        reveal_strlit("0");
        reveal_strlit("1");
        reveal_strlit("2");
        reveal_strlit("3");
        reveal_strlit("4");
        reveal_strlit("5");
        reveal_strlit("6");
        reveal_strlit("7");
        reveal_strlit("8");
        reveal_strlit("9");
    }
    let r = match d {
        0 => "0",
        1 => "1",
        2 => "2",
        3 => "3",
        4 => "4",
        5 => "5",
        6 => "6",
        7 => "7",
        8 => "8",
        _ => "9",
    };
    proof {
        assert(r@ =~= seq![spec_digit_char(d as int)]);
    }
    r
}

/// Append the decimal digits of `n`.
fn push_decimal(s: &mut String, n: u64)
    ensures
        final(s)@ == old(s)@ + spec_digits(n as int),
    decreases n,
{
    if n < 10 {
        s.append(digit_str(n));
        proof {
            assert(final(s)@ =~= old(s)@ + spec_digits(n as int));
        }
    } else {
        push_decimal(s, n / 10);
        s.append(digit_str(n % 10));
        proof {
            assert(old(s)@ + spec_digits((n / 10) as int) + seq![
                spec_digit_char((n % 10) as int),
            ] =~= old(s)@ + spec_digits(n as int));
        }
    }
}

/// The display form of a tick price: dollars and two cent digits.
pub open spec fn spec_price_string(ticks: int) -> Seq<char> {
    seq!['$'] + spec_digits(ticks / 100) + seq!['.'] + seq![
        spec_digit_char((ticks % 100) / 10),
        spec_digit_char(ticks % 10),
    ]
}

/// Format a tick price (one tick is one cent) as dollars and cents.
pub fn format_price(price_ticks: u64) -> (r: String)
    ensures
        r@ == spec_price_string(price_ticks as int),
{
    proof {
        reveal_strlit("$");
        reveal_strlit(".");
    }
    let mut s = String::from_str("$");
    proof {
        assert(s@ =~= seq!['$']);
    }
    push_decimal(&mut s, price_ticks / 100);
    s.append(".");
    let cents = price_ticks % 100;
    s.append(digit_str(cents / 10));
    s.append(digit_str(cents % 10));
    proof {
        assert((price_ticks % 100) / 10 == (price_ticks as int % 100) / 10);
        assert(cents % 10 == price_ticks as int % 10) by {
            assert(price_ticks as int % 100 % 10 == price_ticks as int % 10) by (nonlinear_arith);
        }
        assert(s@ =~= spec_price_string(price_ticks as int));
    }
    s
}

/// A simple multiplicative hash over a price, for distribution experiments.
pub fn price_hash(price: u64) -> (r: u64)
    ensures
        r == vstd::wrapping::u64_specs::wrapping_mul(price, 0x9E3779B97F4A7C15),
{
    price.wrapping_mul(0x9E3779B97F4A7C15)
}

} // verus!
