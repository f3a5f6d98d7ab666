//! Text output: the bytes of literal text and of numbers in decimal.

use vstd::prelude::*;
use vstd::string::StringSliceAdditionalSpecFns;

verus! {

/// The decimal digits of a number, as ASCII characters.
pub open spec fn digits(n: nat) -> Seq<u8>
    decreases n,
{
    if n < 10 {
        seq![(48 + n) as u8]
    } else {
        digits(n / 10).push((48 + n % 10) as u8)
    }
}

/// A number in decimal, with a minus sign before it where it is negative.
pub open spec fn decimal(n: int) -> Seq<u8> {
    if n < 0 {
        seq![45u8] + digits((-n) as nat)
    } else {
        digits(n as nat)
    }
}

/// Appends the bytes of a text.
pub fn write_text(output: &mut Vec<u8>, text: &str)
    ensures
        final(output)@ == old(output)@ + text.spec_bytes(),
{
    output.extend_from_slice(text.as_bytes());
}

/// Appends the decimal digits of a number.
fn write_digits(output: &mut Vec<u8>, n: u128)
    ensures
        final(output)@ == old(output)@ + digits(n as nat),
    decreases n,
{
    if n >= 10 {
        write_digits(output, n / 10);
    }
    output.push(48 + (n % 10) as u8);
    assert(output@ =~= old(output)@ + digits(n as nat));
}

/// Appends a number in decimal.
pub fn write_decimal(output: &mut Vec<u8>, n: i128)
    ensures
        final(output)@ == old(output)@ + decimal(n as int),
{
    if n < 0 {
        output.push(45);
        write_digits(output, (-(n + 1)) as u128 + 1);
    } else {
        write_digits(output, n as u128);
    }
    assert(output@ =~= old(output)@ + decimal(n as int));
}

} // verus!
