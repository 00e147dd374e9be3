//! Sizes as text. Numbers of bytes are shown as a double-precision number
//! with a few decimals; the digits are worked out on integers.

use vstd::prelude::*;

use crate::text;

verus! {

/// 2^53: up to here every whole number is a double.
pub const EXACT_DOUBLE: u64 = 0x20_0000_0000_0000;

/// `n / d` rounded to the nearest whole number, and to the even one of two.
pub open spec fn round_half_even(n: nat, d: nat) -> nat {
    let q = n / d;
    let r = n % d;
    if 2 * r > d || (2 * r == d && q % 2 == 1) {
        q + 1
    } else {
        q
    }
}

/// How far apart doubles lie around `n`.
pub open spec fn double_step(n: nat) -> nat
    decreases n,
{
    if n < EXACT_DOUBLE {
        1
    } else {
        2 * double_step(n / 2)
    }
}

/// The double nearest to `n`.
pub open spec fn nearest_double(n: nat) -> nat {
    round_half_even(n, double_step(n)) * double_step(n)
}

/// `value / d` with a number of decimals, the last of them rounded.
pub open spec fn fixed_point(value: nat, d: nat, places: nat) -> Seq<char> {
    if places == 0 {
        text::decimal(round_half_even(value, d))
    } else if places == 1 {
        let s = round_half_even(value * 10, d);
        text::decimal(s / 10) + "."@ + text::padded(s % 10, 1)
    } else {
        let s = round_half_even(value * 100, d);
        text::decimal(s / 100) + "."@ + text::padded(s % 100, 2)
    }
}

fn rounded(n: u128, d: u128) -> (r: u128)
    requires
        0 < d <= 0x1_0000_0000,
        n < u128::MAX,
    ensures
        r == round_half_even(n as nat, d as nat),
{
    let q: u128 = n / d;
    let rest: u128 = n % d;
    if 2 * rest > d || (2 * rest == d && q % 2 == 1) {
        proof {
            vstd::arithmetic::div_mod::lemma_div_is_ordered_by_denominator(n as int, 1, d as int);
        }
        q + 1
    } else {
        q
    }
}

proof fn lemma_rounded_bound(n: nat, d: nat, k: nat)
    requires
        d > 0,
        n <= k * d,
    ensures
        round_half_even(n, d) <= k,
{
    vstd::arithmetic::div_mod::lemma_fundamental_div_mod(n as int, d as int);
    let q = n / d;
    let r = n % d;
    assert(q < k || (q == k && r == 0)) by (nonlinear_arith)
        requires
            n == d * q + r,
            n <= k * d,
            0 <= r < d,
    ;
}

/// 2^64 in steps of a given size.
spec fn top_for(step: nat) -> nat {
    if step == 1 {
        0x1_0000_0000_0000_0000
    } else if step == 2 {
        0x8000_0000_0000_0000
    } else if step == 4 {
        0x4000_0000_0000_0000
    } else if step == 8 {
        0x2000_0000_0000_0000
    } else if step == 16 {
        0x1000_0000_0000_0000
    } else if step == 32 {
        0x800_0000_0000_0000
    } else if step == 64 {
        0x400_0000_0000_0000
    } else if step == 128 {
        0x200_0000_0000_0000
    } else if step == 256 {
        0x100_0000_0000_0000
    } else if step == 512 {
        0x80_0000_0000_0000
    } else if step == 1024 {
        0x40_0000_0000_0000
    } else {
        0x20_0000_0000_0000
    }
}

/// The double nearest to `n`.
fn as_double(n: u64) -> (r: u128)
    ensures
        r == nearest_double(n as nat),
        r <= 0x1_0000_0000_0000_0000,
{
    let mut m: u64 = n;
    let mut step: u128 = 1;
    while m >= EXACT_DOUBLE
        invariant
            step >= 1,
            step * m <= n,
            step <= 2048,
            (step == 1 && m == n) || m * step <= n,
            double_step(n as nat) == step * double_step(m as nat),
            step == 1 || step == 2 || step == 4 || step == 8 || step == 16 || step == 32 || step
                == 64 || step == 128 || step == 256 || step == 512 || step == 1024 || step == 2048,
        decreases m,
    {
        assert(step < 2048) by (nonlinear_arith)
            requires
                step * m <= n,
                m >= 0x20_0000_0000_0000u64,
                n <= 0xffff_ffff_ffff_ffffu64,
                step <= 2048,
        ;
        let half: u64 = m / 2;
        proof {
            let s = step as int;
            let h = half as int;
            let d = double_step(half as nat) as int;
            assert((s * 2) * h <= n) by (nonlinear_arith)
                requires
                    s * m <= n,
                    2 * h <= m,
                    s >= 1,
            ;
            assert(s * (2 * d) == (s * 2) * d) by (nonlinear_arith);
            assert(h * (s * 2) == (s * 2) * h) by (nonlinear_arith);
        }
        m = half;
        step = step * 2;
    }
    let count = rounded(n as u128, step);
    proof {
        assert(step * 1 == step) by (nonlinear_arith);
        let top: nat = top_for(step as nat);
        lemma_rounded_bound(n as nat, step as nat, top);
        assert(count * step <= top * step) by (nonlinear_arith)
            requires
                count <= top,
                step >= 1,
        ;
    }
    count * step
}

fn fixed(value: u128, d: u64, places: u8) -> (out: String)
    requires
        value <= 0x1_0000_0000_0000_0000,
        1024 <= d <= 0x1_0000_0000,
        places <= 2,
    ensures
        out@ == fixed_point(value as nat, d as nat, places as nat),
{
    let scale: u64 = if places == 0 {
        1
    } else if places == 1 {
        10
    } else {
        100
    };
    let s = rounded(value * (scale as u128), d as u128);
    proof {
        assert(value * scale <= 0x1_0000_0000_0000_0000 * 100) by (nonlinear_arith)
            requires
                0 <= value <= 0x1_0000_0000_0000_0000,
                0 <= scale <= 100,
        ;
        let k: nat = 0x64_0000_0000_0000_00;
        assert(value * scale <= k * d) by (nonlinear_arith)
            requires
                value * scale <= 0x1_0000_0000_0000_0000 * 100,
                k == 0x64_0000_0000_0000_00,
                d >= 1024,
        ;
        lemma_rounded_bound((value * scale) as nat, d as nat, k);
    }
    let s: u64 = s as u64;
    let mut out = text::decimal_text(s / scale);
    if places > 0 {
        out.append(".");
        out.append(text::padded_text(s % scale, places as usize).as_str());
    }
    out
}

pub const KB: u64 = 1024;

pub const MB: u64 = 1048576;

pub const GB: u64 = 1073741824;

/// The size in gigabytes with two decimals, in megabytes with one, or in
/// kilobytes with none.
pub open spec fn size_text(bytes: nat) -> Seq<char> {
    if bytes >= GB {
        fixed_point(nearest_double(bytes), GB as nat, 2) + " GB"@
    } else if bytes >= MB {
        fixed_point(nearest_double(bytes), MB as nat, 1) + " MB"@
    } else {
        fixed_point(nearest_double(bytes), KB as nat, 0) + " KB"@
    }
}

/// Formatted size string (for status output).
pub fn human_size(bytes: u64) -> (out: String)
    ensures
        out@ == size_text(bytes as nat),
{
    let value = as_double(bytes);
    if bytes >= GB {
        let mut out = fixed(value, GB, 2);
        out.append(" GB");
        out
    } else if bytes >= MB {
        let mut out = fixed(value, MB, 1);
        out.append(" MB");
        out
    } else {
        let mut out = fixed(value, KB, 0);
        out.append(" KB");
        out
    }
}

/// The size in gigabytes or megabytes with one decimal, or in whole kilobytes.
pub open spec fn short_size_text(bytes: nat) -> Seq<char> {
    if bytes >= GB {
        fixed_point(nearest_double(bytes), GB as nat, 1) + " GB"@
    } else if bytes >= MB {
        fixed_point(nearest_double(bytes), MB as nat, 1) + " MB"@
    } else {
        text::decimal(bytes / KB as nat) + " KB"@
    }
}

/// Formatted size string (for the dashboard).
pub fn fmt_bytes(bytes: u64) -> (out: String)
    ensures
        out@ == short_size_text(bytes as nat),
{
    if bytes >= GB {
        let mut out = fixed(as_double(bytes), GB, 1);
        out.append(" GB");
        out
    } else if bytes >= MB {
        let mut out = fixed(as_double(bytes), MB, 1);
        out.append(" MB");
        out
    } else {
        let mut out = text::decimal_text(bytes / KB);
        out.append(" KB");
        out
    }
}

/// The size that an output is logged with.
pub fn logged_size(bytes: u64) -> (out: String)
    ensures
        out@ == fixed_point(nearest_double(bytes as nat), MB as nat, 1) + " MB"@,
{
    let mut out = fixed(as_double(bytes), MB, 1);
    out.append(" MB");
    out
}

// ---------------------------------------------------------------------------
// Laws
// ---------------------------------------------------------------------------

/// Rounding gives a whole number that is at most half away, and the even one
/// of two that are.
pub proof fn rounding_is_to_the_nearest(n: nat, d: nat)
    requires
        d > 0,
    ensures
        2 * (round_half_even(n, d) * d - n) <= d,
        2 * (n - round_half_even(n, d) * d) <= d,
        2 * (n - round_half_even(n, d) * d) == d || 2 * (round_half_even(n, d) * d - n) == d
            ==> round_half_even(n, d) % 2 == 0,
{
    vstd::arithmetic::div_mod::lemma_fundamental_div_mod(n as int, d as int);
    let q = n / d;
    let r = n % d;
    assert(q * d == d * q && (q + 1) * d == d * q + d) by (nonlinear_arith);
}

/// Up to 2^53 a double is exact; beyond, it is off by no more than one part in
/// 2^53.
pub proof fn doubles_are_close(n: nat)
    ensures
        n < 0x20_0000_0000_0000 ==> nearest_double(n) == n,
        (nearest_double(n) - n) * 0x20_0000_0000_0000 <= n,
        (n - nearest_double(n)) * 0x20_0000_0000_0000 <= n,
{
    let step = double_step(n);
    lemma_double_step(n);
    rounding_is_to_the_nearest(n, step);
    if n < 0x20_0000_0000_0000 {
        assert(step == 1);
        assert(n / 1 == n && n % 1 == 0);
        assert(round_half_even(n, 1) == n);
    }
}

proof fn lemma_double_step(n: nat)
    ensures
        double_step(n) >= 1,
        n >= 0x10_0000_0000_0000 ==> double_step(n) * 0x10_0000_0000_0000 <= n,
        n < 0x20_0000_0000_0000 ==> double_step(n) == 1,
    decreases n,
{
    if n >= EXACT_DOUBLE {
        lemma_double_step(n / 2);
    }
}

/// A number with one decimal is the nearest such number: with its tenths taken
/// together it is at most half a tenth away.
pub proof fn one_decimal_is_the_nearest(value: nat, d: nat)
    requires
        d > 0,
    ensures
        exists|whole: nat, tenths: nat|
            {
                &&& fixed_point(value, d, 1) == #[trigger] text::decimal(whole) + "."@
                    + #[trigger] text::padded(tenths, 1)
                &&& tenths < 10
                &&& 2 * ((10 * whole + tenths) * d - 10 * value) <= d
                &&& 2 * (10 * value - (10 * whole + tenths) * d) <= d
            },
{
    let s = round_half_even(value * 10, d);
    rounding_is_to_the_nearest(value * 10, d);
    let whole = s / 10;
    let tenths = s % 10;
    assert(10 * whole + tenths == s);
    assert(fixed_point(value, d, 1) == text::decimal(whole) + "."@ + text::padded(tenths, 1));
}

/// A number with two decimals is the nearest such number.
pub proof fn two_decimals_are_the_nearest(value: nat, d: nat)
    requires
        d > 0,
    ensures
        exists|whole: nat, hundredths: nat|
            {
                &&& fixed_point(value, d, 2) == #[trigger] text::decimal(whole) + "."@
                    + #[trigger] text::padded(hundredths, 2)
                &&& hundredths < 100
                &&& 2 * ((100 * whole + hundredths) * d - 100 * value) <= d
                &&& 2 * (100 * value - (100 * whole + hundredths) * d) <= d
            },
{
    let s = round_half_even(value * 100, d);
    rounding_is_to_the_nearest(value * 100, d);
    let whole = s / 100;
    let hundredths = s % 100;
    assert(100 * whole + hundredths == s);
    assert(fixed_point(value, d, 2) == text::decimal(whole) + "."@ + text::padded(hundredths, 2));
}

/// A number without decimals is the nearest whole number.
pub proof fn no_decimals_are_the_nearest(value: nat, d: nat)
    requires
        d > 0,
    ensures
        exists|whole: nat|
            {
                &&& fixed_point(value, d, 0) == #[trigger] text::decimal(whole)
                &&& 2 * (whole * d - value) <= d
                &&& 2 * (value - whole * d) <= d
            },
{
    rounding_is_to_the_nearest(value, d);
    assert(fixed_point(value, d, 0) == text::decimal(round_half_even(value, d)));
}

/// A size is shown in the largest unit that it fills, as a number of such units
/// with two, one or no decimals.
pub proof fn sizes_are_shown_in_the_largest_unit(bytes: nat)
    ensures
        bytes >= 1024 * 1024 * 1024 ==> size_text(bytes) == fixed_point(
            nearest_double(bytes),
            1024 * 1024 * 1024,
            2,
        ) + seq![' ', 'G', 'B'] && short_size_text(bytes) == fixed_point(
            nearest_double(bytes),
            1024 * 1024 * 1024,
            1,
        ) + seq![' ', 'G', 'B'],
        1024 * 1024 <= bytes < 1024 * 1024 * 1024 ==> size_text(bytes) == fixed_point(
            bytes,
            1024 * 1024,
            1,
        ) + seq![' ', 'M', 'B'] && short_size_text(bytes) == size_text(bytes),
        bytes < 1024 * 1024 ==> size_text(bytes) == fixed_point(bytes, 1024, 0) + seq![
            ' ',
            'K',
            'B',
        ],
{
    reveal_strlit(" GB");
    reveal_strlit(" MB");
    reveal_strlit(" KB");
    doubles_are_close(bytes);
    assert(" GB"@ =~= seq![' ', 'G', 'B']);
    assert(" MB"@ =~= seq![' ', 'M', 'B']);
    assert(" KB"@ =~= seq![' ', 'K', 'B']);
}

/// A short size below a megabyte counts whole kilobytes only.
pub proof fn short_sizes_count_whole_kilobytes(bytes: nat)
    requires
        bytes < 1024 * 1024,
    ensures
        exists|whole: nat|
            {
                &&& short_size_text(bytes) == #[trigger] text::decimal(whole) + seq![' ', 'K', 'B']
                &&& whole * 1024 <= bytes < (whole + 1) * 1024
            },
{
    reveal_strlit(" KB");
    assert(" KB"@ =~= seq![' ', 'K', 'B']);
    assert(short_size_text(bytes) == text::decimal(bytes / 1024) + seq![' ', 'K', 'B']);
}

} // verus!
