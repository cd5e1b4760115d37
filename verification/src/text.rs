//! Numbers written out as text, for error messages.
use vstd::prelude::*;

verus! {

/// The character of a digit below 16: `0`-`9`, then `a`-`f`.
pub open spec fn digit_char(d: nat) -> char {
    if d == 0 { '0' } else if d == 1 { '1' } else if d == 2 { '2' } else if d == 3 { '3' }
    else if d == 4 { '4' } else if d == 5 { '5' } else if d == 6 { '6' } else if d == 7 { '7' }
    else if d == 8 { '8' } else if d == 9 { '9' } else if d == 10 { 'a' } else if d == 11 { 'b' }
    else if d == 12 { 'c' } else if d == 13 { 'd' } else if d == 14 { 'e' } else { 'f' }
}

/// `n` in base `b` (10 or 16), without leading zeros (`0` for zero).
pub open spec fn digits(n: nat, b: nat) -> Seq<char>
    recommends
        b == 10 || b == 16,
    decreases n,
{
    if n < b || b < 2 {
        seq![digit_char(n)]
    } else {
        proof {
            assert(n / b < n) by (nonlinear_arith) requires b >= 2, n >= b;
        }
        digits(n / b, b) + seq![digit_char(n % b)]
    }
}

/// `n` in decimal, as `{}` formats it.
pub open spec fn decimal(n: nat) -> Seq<char> {
    digits(n, 10)
}

/// `n` in lowercase hex after `0x`, as `{:#x}` formats it.
pub open spec fn prefixed_hex(n: nat) -> Seq<char> {
    seq!['0', 'x'] + digits(n, 16)
}

/// The one-character text of a digit below 16.
fn digit_str(d: u64) -> (s: &'static str)
    requires
        d < 16,
    ensures
        s@ == seq![digit_char(d as nat)],
{
    proof {
        reveal_strlit("0"); reveal_strlit("1"); reveal_strlit("2"); reveal_strlit("3");
        reveal_strlit("4"); reveal_strlit("5"); reveal_strlit("6"); reveal_strlit("7");
        reveal_strlit("8"); reveal_strlit("9"); reveal_strlit("a"); reveal_strlit("b");
        reveal_strlit("c"); reveal_strlit("d"); reveal_strlit("e"); reveal_strlit("f");
    }
    if d == 0 { "0" } else if d == 1 { "1" } else if d == 2 { "2" } else if d == 3 { "3" }
    else if d == 4 { "4" } else if d == 5 { "5" } else if d == 6 { "6" } else if d == 7 { "7" }
    else if d == 8 { "8" } else if d == 9 { "9" } else if d == 10 { "a" } else if d == 11 { "b" }
    else if d == 12 { "c" } else if d == 13 { "d" } else if d == 14 { "e" } else { "f" }
}

/// Appends `n` written in base `b` (10 or 16).
fn push_digits(s: &mut String, n: u64, b: u64)
    requires
        b == 10 || b == 16,
    ensures
        final(s)@ == old(s)@ + digits(n as nat, b as nat),
    decreases n,
{
    let ghost start = s@;
    if n >= b {
        push_digits(s, n / b, b);
    }
    let ghost mid = s@;
    s.append(digit_str(n % b));
    proof {
        if n >= b {
            assert(digits(n as nat, b as nat) == digits((n / b) as nat, b as nat) + seq![digit_char((n % b) as nat)]);
            assert(mid == start + digits((n / b) as nat, b as nat));
            assert(s@ =~= start + digits(n as nat, b as nat));
        } else {
            assert(n % b == n);
            assert(s@ =~= start + digits(n as nat, b as nat));
        }
    }
}

/// Appends the hex digit `d`.
pub fn push_hex_digit(s: &mut String, d: u64)
    requires
        d < 16,
    ensures
        final(s)@ == old(s)@ + seq![digit_char(d as nat)],
{
    s.append(digit_str(d));
}

/// Appends `n` in decimal.
pub fn push_decimal(s: &mut String, n: u64)
    ensures
        final(s)@ == old(s)@ + decimal(n as nat),
{
    push_digits(s, n, 10);
}

/// Appends `n` in lowercase hex after `0x`.
pub fn push_prefixed_hex(s: &mut String, n: u64)
    ensures
        final(s)@ == old(s)@ + prefixed_hex(n as nat),
{
    proof { reveal_strlit("0x"); }
    s.append("0x");
    let ghost mid = s@;
    push_digits(s, n, 16);
    assert(s@ =~= old(s)@ + prefixed_hex(n as nat));
}

} // verus!
