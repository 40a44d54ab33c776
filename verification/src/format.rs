//! Byte counts as text.

use vstd::prelude::*;
use vstd::string::StringExecFns;

verus! {

/// Bytes in a kilobyte.
pub const KB: u64 = 1024;

/// Bytes in a megabyte.
pub const MB: u64 = 1_048_576;

/// Bytes in a gigabyte.
pub const GB: u64 = 1_073_741_824;

/// The least number that a double-precision float does not hold exactly
/// together with its predecessor: 2 to the 53.
pub const DOUBLE_EXACT: u64 = 9_007_199_254_740_992;

/// The character of a decimal digit.
pub open spec fn digit(d: nat) -> char {
    if d == 0 {
        '0'
    } else if d == 1 {
        '1'
    } else if d == 2 {
        '2'
    } else if d == 3 {
        '3'
    } else if d == 4 {
        '4'
    } else if d == 5 {
        '5'
    } else if d == 6 {
        '6'
    } else if d == 7 {
        '7'
    } else if d == 8 {
        '8'
    } else {
        '9'
    }
}

/// A number in decimal digits, without leading zeros.
pub open spec fn decimal(n: nat) -> Seq<char>
    decreases n,
{
    if n < 10 {
        seq![digit(n)]
    } else {
        decimal(n / 10).push(digit(n % 10))
    }
}

/// `a / b` rounded to the nearest whole number, and to the even one of two
/// that are equally near.
pub open spec fn round_half_even(a: nat, b: nat) -> nat {
    let quotient: nat = a / b;
    let rest: nat = a % b;
    if 2 * rest < b || (2 * rest == b && quotient % 2 == 0) {
        quotient
    } else {
        quotient + 1
    }
}

/// The distance between neighbouring double-precision floats around `n`:
/// 1 below 2 to the 53, and twice as much with each doubling from there.
pub open spec fn double_step(n: nat) -> nat
    decreases n,
{
    if n < DOUBLE_EXACT {
        1
    } else {
        2 * double_step(n / 2)
    }
}

/// The double-precision float nearest to `n`, which is a whole number: `n`
/// itself below 2 to the 53, and above it the nearest multiple of the step,
/// the even one of two that are equally near.
pub open spec fn nearest_double(n: nat) -> nat {
    round_half_even(n, double_step(n)) * double_step(n)
}

/// A size in hundredths of `unit`, rounded to the nearest, and to the even
/// one of two that are equally near. The size counts as the double-precision
/// float nearest to it.
pub open spec fn hundredths(size: nat, unit: nat) -> nat {
    round_half_even(nearest_double(size) * 100, unit)
}

/// A number of hundredths with two decimal places.
pub open spec fn two_places(h: nat) -> Seq<char> {
    decimal(h / 100) + seq!['.', digit(h / 10 % 10), digit(h % 10)]
}

/// A byte count as text: in the largest of the units GB, MB and KB that it
/// reaches, with two decimal places, or in whole bytes below 1 KB.
pub open spec fn size_text(size: u64) -> Seq<char> {
    if size >= GB {
        two_places(hundredths(size as nat, GB as nat)) + " GB"@
    } else if size >= MB {
        two_places(hundredths(size as nat, MB as nat)) + " MB"@
    } else if size >= KB {
        two_places(hundredths(size as nat, KB as nat)) + " KB"@
    } else {
        decimal(size as nat) + " bytes"@
    }
}

/// One decimal digit as text.
fn digit_text(d: u64) -> (text: &'static str)
    requires
        d < 10,
    ensures
        text@ == seq![digit(d as nat)],
{
    proof {
        reveal_strlit("0");
        reveal_strlit("1");
        reveal_strlit("2");
        reveal_strlit("3");
        reveal_strlit("4");
        reveal_strlit("5");
        reveal_strlit("6");
        reveal_strlit("7");
        reveal_strlit("8");
        reveal_strlit("9");
    }
    let text = if d == 0 {
        "0"
    } else if d == 1 {
        "1"
    } else if d == 2 {
        "2"
    } else if d == 3 {
        "3"
    } else if d == 4 {
        "4"
    } else if d == 5 {
        "5"
    } else if d == 6 {
        "6"
    } else if d == 7 {
        "7"
    } else if d == 8 {
        "8"
    } else {
        "9"
    };
    assert(text@ =~= seq![digit(d as nat)]);
    text
}

/// Appends `n` in decimal digits.
fn push_decimal(text: &mut String, n: u64)
    ensures
        final(text)@ == old(text)@ + decimal(n as nat),
    decreases n,
{
    if n >= 10 {
        push_decimal(text, n / 10);
    }
    text.append(digit_text(n % 10));
    proof {
        assert(text@ =~= old(text)@ + decimal(n as nat));
    }
}

/// Appends a number of hundredths with two decimal places.
fn push_two_places(text: &mut String, h: u64)
    ensures
        final(text)@ == old(text)@ + two_places(h as nat),
{
    push_decimal(text, h / 100);
    text.append(".");
    text.append(digit_text(h / 10 % 10));
    text.append(digit_text(h % 10));
    proof {
        reveal_strlit(".");
        assert(text@ =~= old(text)@ + two_places(h as nat));
    }
}

/// `a / b` rounded to the nearest whole number, half to even.
fn divide_rounding(a: u128, b: u128) -> (rounded: u128)
    requires
        0 < b <= u64::MAX,
        a / b < u128::MAX,
    ensures
        rounded == round_half_even(a as nat, b as nat),
{
    let quotient: u128 = a / b;
    let rest: u128 = a % b;
    if 2 * rest < b || (2 * rest == b && quotient % 2 == 0) {
        quotient
    } else {
        quotient + 1
    }
}

/// The double-precision float nearest to `size`.
fn to_nearest_double(size: u64) -> (double: u128)
    ensures
        double == nearest_double(size as nat),
        double <= size + 4096,
{
    let mut step: u64 = 1;
    let mut rest: u64 = size;
    while rest >= DOUBLE_EXACT
        invariant
            1 <= step <= 4096,
            rest * step <= size,
            double_step(size as nat) == step * double_step(rest as nat),
        decreases rest,
    {
        proof {
            assert(step < 2048) by (nonlinear_arith)
                requires
                    rest * step <= size,
                    rest >= 9_007_199_254_740_992,
                    size <= 0xffff_ffff_ffff_ffff,
            ;
            assert((rest / 2) * (step * 2) <= rest * step) by (nonlinear_arith);
            assert(step * (2 * double_step((rest / 2) as nat)) == (step * 2) * double_step(
                (rest / 2) as nat,
            )) by (nonlinear_arith);
        }
        rest = rest / 2;
        step = step * 2;
    }
    proof {
        assert(double_step(rest as nat) == 1);
        assert(step * 1 == step) by (nonlinear_arith);
    }
    let multiple: u128 = divide_rounding(size as u128, step as u128);
    proof {
        lemma_rounded_multiple(size as nat, step as nat);
    }
    multiple * (step as u128)
}

/// A number rounded to a multiple of `step` is no more than `step` above it.
proof fn lemma_rounded_multiple(n: nat, step: nat)
    requires
        0 < step,
    ensures
        round_half_even(n, step) * step <= n + step,
{
    vstd::arithmetic::div_mod::lemma_fundamental_div_mod(n as int, step as int);
    let quotient: nat = n / step;
    assert((quotient + 1) * step == quotient * step + step) by (nonlinear_arith);
    assert(quotient * step == step * quotient) by (nonlinear_arith);
}

/// A size in hundredths of `unit`.
fn in_hundredths(size: u64, unit: u64) -> (h: u64)
    requires
        unit >= KB,
    ensures
        h == hundredths(size as nat, unit as nat),
{
    let double: u128 = to_nearest_double(size);
    let scaled: u128 = double * 100;
    proof {
        assert(scaled / (unit as u128) <= scaled / 1024) by {
            vstd::arithmetic::div_mod::lemma_div_is_ordered_by_denominator(
                scaled as int,
                1024,
                unit as int,
            );
        }
    }
    let h: u128 = divide_rounding(scaled, unit as u128);
    h as u64
}

/// A byte count as text: `512 bytes`, `2.00 KB`, `1.50 MB`, `1.00 GB`.
///
/// Below 1 KB the size stands in whole bytes. From there on it stands in the
/// largest of the units KB, MB and GB that it reaches, each 1024 times the
/// one before, with two decimal places. The last place is rounded to the
/// nearest, and to the even digit where two are equally near; a size of 2
/// to the 53 bytes or more is first rounded as a double-precision float
/// holds it.
pub fn format_size(size: u64) -> (text: String)
    ensures
        text@ == size_text(size),
{
    let mut text = String::new();
    if size >= GB {
        push_two_places(&mut text, in_hundredths(size, GB));
        text.append(" GB");
    } else if size >= MB {
        push_two_places(&mut text, in_hundredths(size, MB));
        text.append(" MB");
    } else if size >= KB {
        push_two_places(&mut text, in_hundredths(size, KB));
        text.append(" KB");
    } else {
        push_decimal(&mut text, size);
        text.append(" bytes");
    }
    proof {
        assert(text@ =~= size_text(size));
    }
    text
}

} // verus!
