//! Lowercase hexadecimal numerals, as chunk lengths are written on the wire.

use vstd::prelude::*;

verus! {

/// The character for one hexadecimal digit: `0`..`9`, then `a`..`f`.
pub open spec fn hex_digit(d: nat) -> u8
    recommends
        d < 16,
{
    if d < 10 {
        (48 + d) as u8
    } else {
        (87 + d) as u8
    }
}

/// Whether a byte is one of the sixteen lowercase hexadecimal characters.
pub open spec fn is_hex_digit(b: u8) -> bool {
    (48 <= b <= 57) || (97 <= b <= 102)
}

/// The digit that a hexadecimal character stands for.
pub open spec fn digit_value(b: u8) -> nat
    recommends
        is_hex_digit(b),
{
    if b <= 57 {
        (b - 48) as nat
    } else {
        (b - 87) as nat
    }
}

/// The numeral of `n` in base sixteen: most significant digit first,
/// lowercase, as short as possible.
pub open spec fn hex(n: nat) -> Seq<u8>
    decreases n,
{
    if n < 16 {
        seq![hex_digit(n)]
    } else {
        hex(n / 16).push(hex_digit(n % 16))
    }
}

/// The number that a string of hexadecimal characters denotes.
pub open spec fn hex_value(s: Seq<u8>) -> nat
    decreases s.len(),
{
    if s.len() == 0 {
        0
    } else {
        16 * hex_value(s.drop_last()) + digit_value(s.last())
    }
}

/// A numeral is never empty, holds lowercase hexadecimal characters only,
/// starts with `0` only when it is the numeral of zero, which is the single
/// character `0`, and denotes the number it was made from.
pub proof fn lemma_hex_canonical(n: nat)
    ensures
        hex(n).len() >= 1,
        n == 0 ==> hex(n) == seq![48u8],
        forall|i: int| 0 <= i < hex(n).len() ==> is_hex_digit(#[trigger] hex(n)[i]),
        hex(n)[0] == 48u8 <==> n == 0,
        hex_value(hex(n)) == n,
    decreases n,
{
    if n < 16 {
        let numeral = hex(n);
        assert(hex_value(numeral) == 16 * hex_value(numeral.drop_last()) + digit_value(
            numeral.last(),
        ));
    } else {
        lemma_hex_canonical(n / 16);
        let head = hex(n / 16);
        assert(hex(n).drop_last() =~= head);
        assert forall|i: int| 0 <= i < hex(n).len() implies is_hex_digit(#[trigger] hex(n)[i]) by {
            if i < head.len() {
                assert(hex(n)[i] == head[i]);
            }
        }
    }
}

/// Writes `n` in lowercase hexadecimal.
pub fn to_hex(n: usize) -> (digits: Vec<u8>)
    ensures
        digits@ == hex(n as nat),
{
    // Least significant digit first, then turned round.
    let mut low_first: Vec<u8> = Vec::new();
    let mut rest: usize = n;
    while rest >= 16
        invariant
            hex(n as nat) == hex(rest as nat) + low_first@.reverse(),
        decreases rest,
    {
        let d: usize = rest % 16;
        let ghost before = low_first@;
        low_first.push(digit_char(d));
        proof {
            assert(low_first@.reverse() =~= seq![hex_digit(d as nat)] + before.reverse());
        }
        rest = rest / 16;
    }
    let mut digits: Vec<u8> = Vec::new();
    digits.push(digit_char(rest));
    let mut i: usize = low_first.len();
    while i > 0
        invariant
            i <= low_first.len(),
            digits@ == hex(rest as nat) + low_first@.reverse().take(low_first.len() - i),
        decreases i,
    {
        i = i - 1;
        digits.push(low_first[i]);
    }
    digits
}

/// The character of a single digit.
fn digit_char(d: usize) -> (c: u8)
    requires
        d < 16,
    ensures
        c == hex_digit(d as nat),
{
    if d < 10 {
        48u8 + (d as u8)
    } else {
        87u8 + (d as u8)
    }
}

} // verus!
