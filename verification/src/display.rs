//! Numbers as the tools show them: the stopwatch reading in milliseconds, zero-padded to
//! three digits, and the local address a forwarder listens on.

use vstd::prelude::*;
use crate::text::string_from_chars;

verus! {

/// The decimal digit of `d`.
pub open spec fn dec_digit(d: nat) -> char {
    ('0' as nat + d) as char
}

/// `n` in decimal, without leading zeros, as `format!("{}", n)` writes it.
pub open spec fn decimal(n: nat) -> Seq<char>
    decreases n,
{
    if n < 10 {
        seq![dec_digit(n)]
    } else {
        decimal(n / 10).push(dec_digit(n % 10))
    }
}

/// `x` in decimal with a leading `-` when it is negative.
pub open spec fn signed_decimal(x: int) -> Seq<char> {
    if x < 0 {
        seq!['-'] + decimal((-x) as nat)
    } else {
        decimal(x as nat)
    }
}

/// `s` with zeros in front up to `width` characters; `s` itself when it is that long already.
pub open spec fn zero_padded(s: Seq<char>, width: nat) -> Seq<char> {
    if s.len() >= width {
        s
    } else {
        Seq::new((width - s.len()) as nat, |i: int| '0') + s
    }
}

/// The stopwatch reading for `ms` milliseconds, as `format!("{:03}", ms)` writes it.
pub open spec fn stopwatch_text(ms: nat) -> Seq<char> {
    zero_padded(decimal(ms), 3)
}

/// The address `0.0.0.0:` followed by the port, as `format!("{}:{}", "0.0.0.0", port)`
/// writes it.
pub open spec fn listen_addr_text(port: int) -> Seq<char> {
    seq!['0', '.', '0', '.', '0', '.', '0', ':'] + signed_decimal(port)
}

fn digit_char(d: u128) -> (c: char)
    requires
        d < 10,
    ensures
        c == dec_digit(d as nat),
{
    let digits = vec!['0', '1', '2', '3', '4', '5', '6', '7', '8', '9'];
    assert(digits@ =~= Seq::new(10, |i: int| dec_digit(i as nat)));
    digits[d as usize]
}

/// `n` in decimal.
pub fn to_decimal(n: u128) -> (r: Vec<char>)
    ensures
        r@ == decimal(n as nat),
    decreases n,
{
    if n < 10 {
        let mut v = Vec::new();
        v.push(digit_char(n));
        assert(v@ =~= seq![dec_digit(n as nat)]);
        v
    } else {
        let mut v = to_decimal(n / 10);
        v.push(digit_char(n % 10));
        v
    }
}

/// The stopwatch reading for `ms` milliseconds.
pub fn stopwatch_reading(ms: u128) -> (r: String)
    ensures
        r@ == stopwatch_text(ms as nat),
{
    let digits = to_decimal(ms);
    let mut v: Vec<char> = Vec::new();
    let mut pad: usize = 0;
    if digits.len() < 3 {
        pad = 3 - digits.len();
    }
    let mut k: usize = 0;
    while k < pad
        invariant
            k <= pad,
            v@ == Seq::new(k as nat, |i: int| '0'),
        decreases pad - k,
    {
        v.push('0');
        assert(v@ =~= Seq::new((k + 1) as nat, |i: int| '0'));
        k = k + 1;
    }
    let ghost zeros = v@;
    let mut j: usize = 0;
    while j < digits.len()
        invariant
            j <= digits@.len(),
            v@ == zeros + digits@.take(j as int),
        decreases digits@.len() - j,
    {
        v.push(digits[j]);
        assert(digits@.take(j + 1) =~= digits@.take(j as int).push(digits@[j as int]));
        j = j + 1;
    }
    assert(digits@.take(j as int) =~= digits@);
    if digits.len() >= 3 {
        assert(v@ =~= digits@);
    }
    string_from_chars(&v, 0, v.len())
}

/// The local address a forwarder on port `port` listens on.
pub fn listen_addr(port: i32) -> (r: String)
    ensures
        r@ == listen_addr_text(port as int),
{
    let mut v = vec!['0', '.', '0', '.', '0', '.', '0', ':'];
    let ghost prefix = v@;
    assert(prefix =~= seq!['0', '.', '0', '.', '0', '.', '0', ':']);
    let magnitude: u128 = if port < 0 {
        (0 - (port as i128)) as u128
    } else {
        port as u128
    };
    if port < 0 {
        v.push('-');
    }
    let ghost before = v@;
    let digits = to_decimal(magnitude);
    let mut j: usize = 0;
    while j < digits.len()
        invariant
            j <= digits@.len(),
            v@ == before + digits@.take(j as int),
        decreases digits@.len() - j,
    {
        v.push(digits[j]);
        assert(digits@.take(j + 1) =~= digits@.take(j as int).push(digits@[j as int]));
        j = j + 1;
    }
    assert(digits@.take(j as int) =~= digits@);
    assert(v@ =~= listen_addr_text(port as int));
    string_from_chars(&v, 0, v.len())
}

} // verus!
