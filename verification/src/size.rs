//! Byte counts as text.
use vstd::arithmetic::power2::*;
use vstd::prelude::*;
use vstd::string::StringExecFns;

use crate::number;

verus! {

pub const KIB: u128 = 1024;

pub const MIB: u128 = 1024 * 1024;

pub const GIB: u128 = 1024 * 1024 * 1024;

/// The counts below this one are held exactly by a double-precision number.
pub const EXACT_LIMIT: u64 = 0x20_0000_0000_0000;

/// The whole number nearest to a quotient; where two are as near, the even one.
pub open spec fn nearest(n: nat, d: nat) -> nat
    recommends
        d > 0,
{
    let q = n / d;
    let twice = 2 * (n % d);
    if twice > d || twice == d && q % 2 == 1 {
        q + 1
    } else {
        q
    }
}

/// The distance between the double-precision numbers around a count.
pub open spec fn spacing(n: nat) -> nat
    decreases n,
{
    if n < EXACT_LIMIT {
        1
    } else {
        2 * spacing(n / 2)
    }
}

/// The double-precision number nearest to a count.
pub open spec fn as_double(n: nat) -> nat {
    nearest(n, spacing(n)) * spacing(n)
}

/// A count in a unit, with one digit behind the point.
pub open spec fn with_tenths(n: nat, unit: nat) -> Seq<char> {
    let tenths = nearest(10 * n, unit);
    number::decimal(tenths / 10).push('.').push(number::digit(tenths % 10))
}

/// A byte count in the largest unit of which it holds at least one.
pub open spec fn formatted(bytes: nat) -> Seq<char> {
    let n = as_double(bytes);
    if n >= GIB {
        with_tenths(n, GIB as nat) + " GiB"@
    } else if n >= MIB {
        with_tenths(n, MIB as nat) + " MiB"@
    } else if n >= KIB {
        with_tenths(n, KIB as nat) + " KiB"@
    } else {
        number::decimal(bytes) + " B"@
    }
}

/// Counts below the limit are exact.
pub proof fn lemma_exact(n: nat)
    requires
        n < EXACT_LIMIT,
    ensures
        as_double(n) == n,
{
    assert(n / 1 == n && n % 1 == 0) by (nonlinear_arith);
    assert(n * 1 == n) by (nonlinear_arith);
}

/// What is shown is off by at most half of the last digit.
pub proof fn lemma_nearest(n: nat, d: nat)
    requires
        d > 0,
    ensures
        -(d as int) <= 2 * (n - nearest(n, d) * d) <= d,
{
    let q = n / d;
    assert(n == q * d + n % d) by (nonlinear_arith)
        requires
            d > 0,
            q == n / d,
    ;
    assert((q + 1) * d == q * d + d) by (nonlinear_arith);
}

/// A whole number that is nearer to a quotient than any other is the nearest one, and of
/// two that are as near the even one is.
pub proof fn lemma_nearest_is(n: nat, d: nat, q: nat)
    requires
        d > 0,
        -(d as int) <= 2 * (n - q * d) <= d,
        2 * (n - q * d) == d || 2 * (n - q * d) == -d ==> q % 2 == 0,
    ensures
        nearest(n, d) == q,
{
    let f = n / d;
    let r = n % d;
    assert(n == f * d + r && 0 <= r < d) by (nonlinear_arith)
        requires
            d > 0,
            f == n / d,
            r == n % d,
    ;
    let e = f - q;
    assert(f * d - q * d == e * d) by (nonlinear_arith)
        requires
            e == f - q,
    ;
    if e >= 1 {
        assert(e * d >= d) by (nonlinear_arith)
            requires
                e >= 1,
                d > 0,
        ;
    } else if e <= -2 {
        assert(e * d <= -2 * d) by (nonlinear_arith)
            requires
                e <= -2,
                d > 0,
        ;
    } else if e == -1 {
        assert(e * d == -d) by (nonlinear_arith)
            requires
                e == -1,
        ;
    } else {
        assert(e * d == 0) by (nonlinear_arith)
            requires
                e == 0,
        ;
    }
}

proof fn lemma_spacing(n: nat, k: nat)
    requires
        pow2(52 + k) <= n < pow2(53 + k),
    ensures
        spacing(n) == pow2(k),
    decreases k,
{
    lemma2_to64();
    lemma2_to64_rest();
    if k > 0 {
        lemma_pow2_unfold(52 + k);
        lemma_pow2_unfold(53 + k);
        lemma_pow2_unfold(k);
        lemma_spacing(n / 2, (k - 1) as nat);
        if k > 1 {
            lemma_pow2_strictly_increases(53, 52 + k);
        }
    }
}

/// A double-precision number holds 53 bits: the one nearest to a count of so many bits and
/// `k` more is the nearest multiple of 2^k, and of two that are as near the one that is an
/// even multiple.
pub proof fn lemma_double(n: nat, k: nat, q: nat)
    requires
        pow2(52 + k) <= n < pow2(53 + k),
        -(pow2(k) as int) <= 2 * (n - q * pow2(k)) <= pow2(k),
        2 * (n - q * pow2(k)) == pow2(k) || 2 * (n - q * pow2(k)) == -pow2(k) ==> q % 2 == 0,
    ensures
        as_double(n) == q * pow2(k),
{
    lemma_spacing(n, k);
    lemma_pow2_pos(k);
    lemma_nearest_is(n, pow2(k), q);
}

/// Counts below 1024 are shown as they are.
pub proof fn lemma_shown_in_bytes(bytes: nat)
    requires
        bytes < 1024,
    ensures
        formatted(bytes) == number::decimal(bytes) + " B"@,
{
    lemma_exact(bytes);
}

/// Other counts are shown in KiB, MiB or GiB, the largest of which there is at least one,
/// with one digit behind the point: as the number of tenths nearest to the count.
pub proof fn lemma_shown_in_units(bytes: nat, n: nat, t: nat)
    requires
        n == as_double(bytes),
    ensures
        1_024 <= n < 1_048_576 && are_tenths(n, 1_024, t) ==> formatted(bytes) == in_tenths(t)
            + " KiB"@,
        1_048_576 <= n < 1_073_741_824 && are_tenths(n, 1_048_576, t) ==> formatted(bytes)
            == in_tenths(t) + " MiB"@,
        1_073_741_824 <= n && are_tenths(n, 1_073_741_824, t) ==> formatted(bytes) == in_tenths(
            t,
        ) + " GiB"@,
{
    assert(MIB == 1_048_576 && GIB == 1_073_741_824);
    if are_tenths(n, 1_024, t) {
        lemma_nearest_is(10 * n, 1_024, t);
    }
    if are_tenths(n, 1_048_576, t) {
        lemma_nearest_is(10 * n, 1_048_576, t);
    }
    if are_tenths(n, 1_073_741_824, t) {
        lemma_nearest_is(10 * n, 1_073_741_824, t);
    }
    number::lemma_decimal_more(0, t % 10);
    assert(in_tenths(t) =~= number::decimal(t / 10).push('.').push(number::digit(t % 10)));
}

/// Whether so many tenths of a unit are as near to a count as can be; where another number
/// of tenths is as near, whether these are even in number.
pub open spec fn are_tenths(n: nat, unit: nat, t: nat) -> bool {
    let off = 2 * (10 * n - t * unit);
    -unit <= off <= unit && (off == unit || off == -unit ==> t % 2 == 0)
}

/// A number of tenths, with a point before the last digit.
pub open spec fn in_tenths(t: nat) -> Seq<char> {
    number::decimal(t / 10) + seq!['.'] + number::decimal(t % 10)
}

fn nearest_quotient(n: u128, d: u128) -> (r: u128)
    requires
        0 < d <= 0x1_0000_0000,
        n <= 0x1_0000_0000_0000_0000_0000,
    ensures
        r == nearest(n as nat, d as nat),
        r <= n / d + 1,
{
    let q: u128 = n / d;
    assert(q <= n) by (nonlinear_arith)
        requires
            q == n / d,
            d > 0,
    ;
    let twice: u128 = 2 * (n % d);
    if twice > d || twice == d && q % 2 == 1 {
        q + 1
    } else {
        q
    }
}

fn double_spacing(n: u64) -> (r: u64)
    ensures
        r == spacing(n as nat),
        r == 1 || r * 0x10_0000_0000_0000 <= n,
        r > 0,
    decreases n,
{
    if n < EXACT_LIMIT {
        1
    } else {
        2 * double_spacing(n / 2)
    }
}

fn to_double(n: u64) -> (r: u128)
    ensures
        r == as_double(n as nat),
        r <= 0x1_0000_0000_0000_1000,
{
    let spacing: u128 = double_spacing(n) as u128;
    let q: u128 = nearest_quotient(n as u128, spacing);
    assert(q * spacing <= n + spacing) by (nonlinear_arith)
        requires
            q <= n as u128 / spacing + 1,
            spacing > 0,
    ;
    q * spacing
}

fn push_with_tenths(out: &mut String, n: u128, unit: u128)
    requires
        KIB <= unit <= GIB,
        n <= 0x1_0000_0000_0000_1000,
    ensures
        final(out)@ == old(out)@ + with_tenths(n as nat, unit as nat),
{
    let tenths: u128 = nearest_quotient(10 * n, unit);
    assert(tenths <= u64::MAX) by (nonlinear_arith)
        requires
            tenths <= (10 * n) / (unit as int) + 1,
            unit >= 1024,
            n <= 0x1_0000_0000_0000_1000,
    ;
    let tenths: u64 = tenths as u64;
    number::push_decimal(out, tenths / 10);
    out.push('.');
    number::push_decimal(out, tenths % 10);
    assert(out@ =~= old(out)@ + with_tenths(n as nat, unit as nat));
}

/// Format a byte count as a human-readable string using binary units.
pub fn format_size(bytes: u64) -> (r: String)
    ensures
        r@ == formatted(bytes as nat),
{
    let mut out: String = String::new();
    let n: u128 = to_double(bytes);
    if n >= GIB {
        push_with_tenths(&mut out, n, GIB);
        out.append(" GiB");
    } else if n >= MIB {
        push_with_tenths(&mut out, n, MIB);
        out.append(" MiB");
    } else if n >= KIB {
        push_with_tenths(&mut out, n, KIB);
        out.append(" KiB");
    } else {
        number::push_decimal(&mut out, bytes);
        out.append(" B");
    }
    assert(out@ =~= formatted(bytes as nat));
    out
}

} // verus!
