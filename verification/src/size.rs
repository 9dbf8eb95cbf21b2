//! Human-readable file sizes: a byte count scaled by a power of the
//! delimiter and followed by the unit of that power.

use vstd::prelude::*;
use vstd::string::StringExecFns;
use crate::text::{decimal, decimal_string, digit_char, digit_str, push_numeral};

verus! {

/// `base` multiplied by itself `exponent` times.
pub open spec fn power(base: nat, exponent: nat) -> nat
    decreases exponent,
{
    if exponent == 0 {
        1
    } else {
        base * power(base, (exponent - 1) as nat)
    }
}

/// The ninth power of `delimiter`: the largest number that the units reach.
pub open spec fn ninth_power(delimiter: int) -> int {
    delimiter * (delimiter * (delimiter * (delimiter * (delimiter * (delimiter * (delimiter * (
        delimiter * delimiter)))))))
}

/// The least exponent `k`, not below `start`, at which `num` is no more than
/// the power `k + 1` of `delimiter`.
pub open spec fn exponent_from(num: nat, delimiter: nat, start: nat) -> nat
    decreases num - power(delimiter, start),
    via exponent_from_decreases
{
    if delimiter < 2 || num <= power(delimiter, start + 1) {
        start
    } else {
        exponent_from(num, delimiter, start + 1)
    }
}

#[via_fn]
proof fn exponent_from_decreases(num: nat, delimiter: nat, start: nat) {
    if delimiter >= 2 {
        lemma_power_grows(delimiter, start);
        lemma_power_grows(delimiter, start + 1);
    }
}

/// How many times a size is divided by the delimiter: the least `k` with
/// `num <= delimiter^(k + 1)`, so that the scaled value does not exceed the
/// delimiter.
pub open spec fn scale_exponent(num: nat, delimiter: nat) -> nat {
    exponent_from(num, delimiter, 0)
}

/// The quotient of `a` by `b` rounded to the nearest integer; a quotient
/// halfway between two integers goes to the even one.
pub open spec fn rounded_quotient(a: nat, b: nat) -> nat {
    let q = a / b;
    let r = a % b;
    if 2 * r > b || (2 * r == b && q % 2 == 1) {
        q + 1
    } else {
        q
    }
}

/// The number of steps into which double precision divides the range from
/// one power of two to the next: two to the power 52.
pub const BINADE_STEPS: u64 = 0x10_0000_0000_0000;

/// The largest of `start`, twice `start`, four times `start` and so on that
/// `p` times it does not exceed `n`.
pub open spec fn binade_from(n: nat, p: nat, start: nat) -> nat
    decreases n - p * start,
    via binade_from_decreases
{
    if p == 0 || start == 0 || n < 2 * (p * start) {
        start
    } else {
        binade_from(n, p, 2 * start)
    }
}

#[via_fn]
proof fn binade_from_decreases(n: nat, p: nat, start: nat) {
    if p > 0 && start > 0 {
        assert(p * start >= 1 && p * (2 * start) == 2 * (p * start)) by (nonlinear_arith)
            requires
                p >= 1,
                start >= 1,
        ;
    }
}

/// The power of two at or just below the quotient of `n` by `p`: the largest
/// power of two `s` with `p * s <= n`.
pub open spec fn binade(n: nat, p: nat) -> nat {
    binade_from(n, p, 1)
}

/// Ten times the quotient of `n` by `p`, rounded to an integer in the two
/// steps of a division in double precision that is written with one decimal
/// place.
///
/// First the quotient is rounded to 53 significant bits: with `s` the power
/// of two at or just below it, to the nearest multiple of `s / 2^52`, a tie
/// going to the even multiple. Then that value is rounded to the nearest
/// tenth, a tie going to the even tenth.
pub open spec fn binary_tenths(n: nat, p: nat) -> nat {
    let s = binade(n, p);
    if s <= BINADE_STEPS {
        let fine = BINADE_STEPS as nat / s;
        let held = rounded_quotient(n * fine, p);
        rounded_quotient(10 * held, fine)
    } else {
        let coarse = s / (BINADE_STEPS as nat);
        let held = rounded_quotient(n, p * coarse);
        10 * held * coarse
    }
}

/// The unit of the power `k` of the delimiter.
pub open spec fn unit_char(k: nat) -> char {
    if k == 0 {
        'B'
    } else if k == 1 {
        'K'
    } else if k == 2 {
        'M'
    } else if k == 3 {
        'G'
    } else if k == 4 {
        'T'
    } else if k == 5 {
        'P'
    } else if k == 6 {
        'E'
    } else if k == 7 {
        'Z'
    } else {
        'Y'
    }
}

/// The text of a size of `num` bytes scaled by powers of `delimiter`.
///
/// A size that does not exceed the delimiter is written as the plain
/// integer. A larger one is divided by the power `k = scale_exponent` of the
/// delimiter and written with one decimal place and the unit of `k`. The
/// decimal place is that of a division in double precision: the quotient is
/// rounded to 53 significant bits before the tenth is taken, so that 1050
/// and 1150 at a delimiter of 1000 are both written `1.1K`. The size and the
/// power of the delimiter enter the division as they are, also where they
/// have more than 53 significant bits.
pub open spec fn human_size(num: nat, delimiter: nat) -> Seq<char> {
    let k = scale_exponent(num, delimiter);
    if k == 0 {
        decimal(num)
    } else {
        let tenths = binary_tenths(num, power(delimiter, k));
        decimal(tenths / 10) + seq!['.', digit_char(tenths % 10), unit_char(k)]
    }
}

/// A power of a base of two or more is positive, and the next power is the
/// base times larger.
pub proof fn lemma_power_grows(base: nat, exponent: nat)
    requires
        base >= 2,
    ensures
        1 <= power(base, exponent),
        power(base, exponent + 1) == base * power(base, exponent),
        power(base, exponent) < power(base, exponent + 1),
    decreases exponent,
{
    if exponent > 0 {
        lemma_power_grows(base, (exponent - 1) as nat);
    }
    let current = power(base, exponent);
    assert(power(base, exponent + 1) == base * current);
    assert(current < base * current) by (nonlinear_arith)
        requires
            base >= 2,
            current >= 1,
    ;
}

/// Powers of a base of two or more grow with the exponent.
pub proof fn lemma_power_monotonic(base: nat, low: nat, high: nat)
    requires
        base >= 2,
        low <= high,
    ensures
        power(base, low) <= power(base, high),
    decreases high - low,
{
    if low < high {
        lemma_power_monotonic(base, low, (high - 1) as nat);
        lemma_power_grows(base, (high - 1) as nat);
    }
}

/// The ninth power written as a product is the power of exponent nine.
pub proof fn lemma_ninth_power(delimiter: nat)
    ensures
        ninth_power(delimiter as int) == power(delimiter, 9),
{
    reveal_with_fuel(power, 10);
}

/// The scale exponent brackets the size between two consecutive powers of
/// the delimiter: the size exceeds the power `k` unless `k` is zero, and does
/// not exceed the power `k + 1`.
pub proof fn lemma_scale_exponent_brackets(num: nat, delimiter: nat)
    requires
        delimiter >= 2,
    ensures
        num <= power(delimiter, scale_exponent(num, delimiter) + 1),
        scale_exponent(num, delimiter) > 0 ==> power(delimiter, scale_exponent(num, delimiter))
            < num,
{
    lemma_exponent_from_brackets(num, delimiter, 0);
}

proof fn lemma_exponent_from_brackets(num: nat, delimiter: nat, start: nat)
    requires
        delimiter >= 2,
        start > 0 ==> power(delimiter, start) < num,
    ensures
        start <= exponent_from(num, delimiter, start),
        num <= power(delimiter, exponent_from(num, delimiter, start) + 1),
        exponent_from(num, delimiter, start) > 0 ==> power(
            delimiter,
            exponent_from(num, delimiter, start),
        ) < num,
    decreases num - power(delimiter, start),
{
    if num > power(delimiter, start + 1) {
        lemma_power_grows(delimiter, start);
        lemma_exponent_from_brackets(num, delimiter, start + 1);
    }
}

/// A size is scaled exactly when it exceeds the delimiter: up to the
/// delimiter it is written as the plain integer, above it with a unit.
pub proof fn lemma_scaled_above_delimiter(num: nat, delimiter: nat)
    requires
        delimiter >= 2,
    ensures
        num <= delimiter <==> scale_exponent(num, delimiter) == 0,
        num <= delimiter ==> human_size(num, delimiter) == decimal(num),
{
    assert(power(delimiter, 0) == 1);
    assert(power(delimiter, 1) == delimiter) by {
        lemma_power_grows(delimiter, 0);
        assert(delimiter * 1 == delimiter);
    }
    if num > delimiter {
        lemma_exponent_from_brackets(num, delimiter, 1);
    }
}

/// The binade brackets the quotient: `p` times it does not exceed `n`, and
/// `p` times twice it does.
pub proof fn lemma_binade_brackets(n: nat, p: nat)
    requires
        1 <= p <= n,
    ensures
        1 <= binade(n, p),
        p * binade(n, p) <= n < 2 * (p * binade(n, p)),
{
    assert(p * 1 == p) by (nonlinear_arith);
    lemma_binade_from_brackets(n, p, 1);
}

proof fn lemma_binade_from_brackets(n: nat, p: nat, start: nat)
    requires
        p >= 1,
        start >= 1,
        p * start <= n,
    ensures
        start <= binade_from(n, p, start),
        p * binade_from(n, p, start) <= n < 2 * (p * binade_from(n, p, start)),
    decreases n - p * start,
{
    if n >= 2 * (p * start) {
        assert(p * start >= 1 && p * (2 * start) == 2 * (p * start)) by (nonlinear_arith)
            requires
                p >= 1,
                start >= 1,
        ;
        lemma_binade_from_brackets(n, p, 2 * start);
    }
}

/// The binade is a power of two.
pub proof fn lemma_binade_power_of_two(n: nat, p: nat)
    ensures
        exists|e: nat| binade(n, p) == #[trigger] power(2, e),
{
    assert(power(2, 0) == 1);
    lemma_binade_from_power_of_two(n, p, 1, 0);
}

proof fn lemma_binade_from_power_of_two(n: nat, p: nat, start: nat, e: nat)
    requires
        start == power(2, e),
    ensures
        exists|e: nat| binade_from(n, p, start) == #[trigger] power(2, e),
    decreases n - p * start,
{
    if !(p == 0 || start == 0 || n < 2 * (p * start)) {
        assert(p * start >= 1 && p * (2 * start) == 2 * (p * start)) by (nonlinear_arith)
            requires
                p >= 1,
                start >= 1,
        ;
        lemma_power_grows(2, e);
        lemma_binade_from_power_of_two(n, p, 2 * start, e + 1);
    }
}

/// A size that is scaled lies far below the limit of the precision: the
/// binade of its quotient by the power of the delimiter is below two to the
/// power 32.
proof fn lemma_binade_small(num: nat, delimiter: nat, scale: nat)
    requires
        delimiter >= 2,
        delimiter <= scale < num,
        num <= scale * delimiter,
        num <= u64::MAX,
    ensures
        binade(num, scale) < 0x1_0000_0000,
{
    lemma_binade_brackets(num, scale);
    let s = binade(num, scale);
    assert(s <= delimiter) by (nonlinear_arith)
        requires
            scale * s <= num,
            num <= scale * delimiter,
            scale >= 1,
    ;
    assert(s < 0x1_0000_0000) by (nonlinear_arith)
        requires
            scale * s <= num,
            s <= scale,
            num <= 0xffff_ffff_ffff_ffff,
    ;
}

/// A size within the reach of the units has a scale exponent of at most
/// eight.
pub proof fn lemma_scale_exponent_bounded(num: nat, delimiter: nat)
    requires
        delimiter >= 2,
        num <= ninth_power(delimiter as int),
    ensures
        scale_exponent(num, delimiter) <= 8,
{
    let k = scale_exponent(num, delimiter);
    lemma_scale_exponent_brackets(num, delimiter);
    lemma_ninth_power(delimiter);
    if k >= 9 {
        lemma_power_monotonic(delimiter, 9, k);
    }
}

/// The one-letter text of the unit of the power `k`.
fn unit_str(k: usize) -> (text: &'static str)
    requires
        k <= 8,
    ensures
        text@ == seq![unit_char(k as nat)],
{
    proof {
        reveal_strlit("B");
        reveal_strlit("K");
        reveal_strlit("M");
        reveal_strlit("G");
        reveal_strlit("T");
        reveal_strlit("P");
        reveal_strlit("E");
        reveal_strlit("Z");
        reveal_strlit("Y");
    }
    let text = if k == 0 {
        "B"
    } else if k == 1 {
        "K"
    } else if k == 2 {
        "M"
    } else if k == 3 {
        "G"
    } else if k == 4 {
        "T"
    } else if k == 5 {
        "P"
    } else if k == 6 {
        "E"
    } else if k == 7 {
        "Z"
    } else {
        "Y"
    };
    assert(text@ =~= seq![unit_char(k as nat)]);
    text
}

/// The quotient of `a` by `b`, rounded to the nearest integer, ties to even.
fn divide_rounded(a: u128, b: u128) -> (q: u128)
    requires
        b >= 1,
        b <= u64::MAX,
        a < u128::MAX,
    ensures
        q == rounded_quotient(a as nat, b as nat),
        q <= a + 1,
{
    let q: u128 = a / b;
    let r: u128 = a % b;
    assert(q <= a) by (nonlinear_arith)
        requires
            q == a / b,
            b >= 1,
    ;
    if 2 * r > b || (2 * r == b && q % 2 == 1) {
        q + 1
    } else {
        q
    }
}

/// The power of two at or just below the quotient of `n` by `p`.
fn binade_of(n: u64, p: u64) -> (s: u64)
    requires
        1 <= p <= n,
    ensures
        s == binade(n as nat, p as nat),
{
    let mut s: u64 = 1;
    assert(p * 1 == p) by (nonlinear_arith);
    while (n as u128) >= 2 * ((p as u128) * (s as u128))
        invariant
            p >= 1,
            s >= 1,
            p * s <= n,
            binade(n as nat, p as nat) == binade_from(n as nat, p as nat, s as nat),
        decreases n - p * s,
    {
        assert(2 * s <= n && p * (2 * s) == 2 * (p * s) && p * s >= 1) by (nonlinear_arith)
            requires
                2 * (p * s) <= n,
                p >= 1,
                s >= 1,
        ;
        s = 2 * s;
    }
    s
}

/// Ten times the quotient of `n` by `p`, rounded as `binary_tenths` says.
fn tenths_of(n: u64, p: u64) -> (tenths: u128)
    requires
        1 <= p <= n,
        binade(n as nat, p as nat) <= BINADE_STEPS,
    ensures
        tenths == binary_tenths(n as nat, p as nat),
{
    let s = binade_of(n, p);
    proof {
        lemma_binade_brackets(n as nat, p as nat);
    }
    let fine: u128 = (BINADE_STEPS / s) as u128;
    assert(1 <= fine <= BINADE_STEPS) by (nonlinear_arith)
        requires
            fine == BINADE_STEPS as nat / s as nat,
            1 <= s <= BINADE_STEPS,
    ;
    assert(n * fine <= 0xffff_ffff_ffff_ffff * 0x10_0000_0000_0000) by (nonlinear_arith)
        requires
            n <= 0xffff_ffff_ffff_ffff,
            fine <= 0x10_0000_0000_0000,
    ;
    let held = divide_rounded((n as u128) * fine, p as u128);
    divide_rounded(10 * held, fine)
}

/// Writes a size of `num` bytes in units of powers of `delimiter`.
///
/// The units are `K`, `M`, `G`, `T`, `P`, `E`, `Z` and `Y`: the size has to be
/// within their reach, that is no more than the ninth power of the delimiter.
pub fn convert(num: u64, delimiter: u64) -> (text: String)
    requires
        delimiter >= 2,
        num <= ninth_power(delimiter as int),
    ensures
        text@ == human_size(num as nat, delimiter as nat),
{
    let mut k: usize = 0;
    let mut scale: u64 = 1;
    proof {
        lemma_scale_exponent_bounded(num as nat, delimiter as nat);
        lemma_power_grows(delimiter as nat, 0);
    }
    while (num as u128) > (scale as u128) * (delimiter as u128)
        invariant
            delimiter >= 2,
            scale == power(delimiter as nat, k as nat),
            scale >= 1,
            k > 0 ==> scale < num,
            k <= scale_exponent(num as nat, delimiter as nat) <= 8,
            scale_exponent(num as nat, delimiter as nat) == exponent_from(
                num as nat,
                delimiter as nat,
                k as nat,
            ),
            scale * delimiter <= u128::MAX,
            scale * delimiter == power(delimiter as nat, (k + 1) as nat),
        decreases num - scale,
    {
        proof {
            lemma_power_grows(delimiter as nat, k as nat);
            lemma_power_grows(delimiter as nat, (k + 1) as nat);
            lemma_exponent_from_brackets(num as nat, delimiter as nat, (k + 1) as nat);
        }
        scale = scale * delimiter;
        k = k + 1;
        assert(scale * delimiter <= u128::MAX) by (nonlinear_arith)
            requires
                scale <= u64::MAX,
                delimiter <= u64::MAX,
        ;
        assert(scale * delimiter == power(delimiter as nat, (k + 1) as nat)) by {
            lemma_power_grows(delimiter as nat, k as nat);
            assert(scale * delimiter == delimiter * scale) by (nonlinear_arith);
        }
    }
    if k == 0 {
        decimal_string(num)
    } else {
        proof {
            lemma_power_monotonic(delimiter as nat, 1, k as nat);
            assert(power(delimiter as nat, 1) == delimiter) by {
                lemma_power_grows(delimiter as nat, 0);
                assert(power(delimiter as nat, 0) == 1);
                assert(delimiter * 1 == delimiter);
            }
            lemma_binade_small(num as nat, delimiter as nat, scale as nat);
        }
        let tenths: u128 = tenths_of(num, scale);
        let mut text = String::new();
        push_numeral(&mut text, tenths / 10, 10);
        text.append(".");
        text.append(digit_str(tenths % 10));
        text.append(unit_str(k));
        proof {
            reveal_strlit(".");
            assert(text@ =~= human_size(num as nat, delimiter as nat));
        }
        text
    }
}

} // verus!
