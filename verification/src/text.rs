//! Decimal and hexadecimal rendering of numbers into strings.

use vstd::prelude::*;

verus! {

/// The character of digit `d` (0 to 15), with upper-case letters above 9.
pub open spec fn digit_char(d: nat) -> char {
    if d < 10 {
        (48 + d) as char
    } else {
        (55 + d) as char
    }
}

/// The decimal representation of `n`, without leading zeros.
pub open spec fn decimal(n: nat) -> Seq<char>
    decreases n,
{
    if n < 10 {
        seq![digit_char(n)]
    } else {
        decimal(n / 10).push(digit_char(n % 10))
    }
}

/// Appends one character, by `String::push`. Claimed: the string's characters
/// afterwards are the old ones followed by `c`.
#[verifier::external_body]
pub fn push_char(s: &mut String, c: char)
    ensures
        final(s)@ == old(s)@.push(c),
{
    s.push(c);
}

fn digit(d: u32) -> (c: char)
    requires
        d < 16,
    ensures
        c == digit_char(d as nat),
{
    if d < 10 {
        ((48 + d) as u8) as char
    } else {
        ((55 + d) as u8) as char
    }
}

/// Appends the decimal representation of `n`.
pub fn push_decimal(out: &mut String, n: u64)
    ensures
        final(out)@ == old(out)@ + decimal(n as nat),
    decreases n,
{
    if n >= 10 {
        push_decimal(out, n / 10);
    }
    push_char(out, digit((n % 10) as u32));
    assert(out@ =~= old(out)@ + decimal(n as nat));
}

/// The upper-case hexadecimal representation of `n`, without leading zeros.
pub open spec fn hex(n: nat) -> Seq<char>
    decreases n,
{
    if n < 16 {
        seq![digit_char(n)]
    } else {
        hex(n / 16).push(digit_char(n % 16))
    }
}

/// The upper-case hexadecimal representation of `n` in at least two digits.
pub open spec fn hex2(n: nat) -> Seq<char> {
    if n < 16 {
        seq!['0'] + hex(n)
    } else {
        hex(n)
    }
}

/// `s` right-aligned in a field of three characters.
pub open spec fn right3(s: Seq<char>) -> Seq<char> {
    if s.len() >= 3 {
        s
    } else {
        Seq::new((3 - s.len()) as nat, |i: int| ' ') + s
    }
}

/// Numbers below 10 take one decimal digit, below 100 two, others at least three.
pub proof fn lemma_decimal_len(n: nat)
    ensures
        n < 10 ==> decimal(n).len() == 1,
        10 <= n < 100 ==> decimal(n).len() == 2,
        100 <= n ==> decimal(n).len() >= 3,
    decreases n,
{
    if n >= 10 {
        lemma_decimal_len(n / 10);
    }
}

fn push_hex(out: &mut String, n: u32)
    ensures
        final(out)@ == old(out)@ + hex(n as nat),
    decreases n,
{
    if n >= 16 {
        push_hex(out, n / 16);
    }
    push_char(out, digit(n % 16));
    assert(out@ =~= old(out)@ + hex(n as nat));
}

/// Appends `n` in upper-case hexadecimal, at least two digits.
pub fn push_hex2(out: &mut String, n: u32)
    ensures
        final(out)@ == old(out)@ + hex2(n as nat),
{
    if n < 16 {
        push_char(out, '0');
    }
    push_hex(out, n);
    assert(out@ =~= old(out)@ + hex2(n as nat));
}

/// Appends the decimal representation of `n`, right-aligned in three characters.
pub fn push_decimal_right3(out: &mut String, n: u64)
    ensures
        final(out)@ == old(out)@ + right3(decimal(n as nat)),
{
    proof {
        lemma_decimal_len(n as nat);
    }
    if n < 10 {
        push_char(out, ' ');
        push_char(out, ' ');
    } else if n < 100 {
        push_char(out, ' ');
    }
    push_decimal(out, n);
    assert(out@ =~= old(out)@ + right3(decimal(n as nat)));
}

/// Appends `c` `count` times.
pub fn push_repeated(out: &mut String, c: char, count: u64)
    ensures
        final(out)@ == old(out)@ + Seq::new(count as nat, |i: int| c),
{
    let mut i: u64 = 0;
    while i < count
        invariant
            i <= count,
            out@ == old(out)@ + Seq::new(i as nat, |j: int| c),
        decreases count - i,
    {
        push_char(out, c);
        i = i + 1;
        assert(out@ =~= old(out)@ + Seq::new(i as nat, |j: int| c));
    }
}

} // verus!
