//! Conversions between number formats, on bit patterns: binary16 and
//! binary32, and `u32` and binary32.

use vstd::prelude::*;

verus! {

/// Two to the power `k`.
pub open spec fn power_of_two(k: nat) -> nat
    decreases k,
{
    if k == 0 {
        1
    } else {
        2 * power_of_two((k - 1) as nat)
    }
}

/// The position of the highest bit that is set in `n`; 0 for 0.
pub open spec fn top_bit(n: nat) -> nat
    decreases n,
{
    if n < 2 {
        0
    } else {
        1 + top_bit(n / 2)
    }
}

/// `x` divided by `d` and rounded to the nearest integer, a tie to the even
/// one.
pub open spec fn round_half_even(x: nat, d: nat) -> nat {
    let q = x / d;
    let rem = x % d;
    if 2 * rem > d || (2 * rem == d && q % 2 == 1) {
        q + 1
    } else {
        q
    }
}

/// The binary32 pattern with the value of the binary16 pattern `h`. The
/// fraction of a NaN is kept, in the upper bits.
pub open spec fn half_as_f32(h: u16) -> u32 {
    let sign = h as nat / 32768;
    let exp = (h as nat / 1024) % 32;
    let frac = h as nat % 1024;
    let magnitude = if exp == 0 {
        if frac == 0 {
            0
        } else {
            let k = top_bit(frac);
            ((k + 103) * 0x80_0000 + (frac - power_of_two(k)) * power_of_two((23 - k) as nat)) as nat
        }
    } else if exp == 31 {
        (255 * 0x80_0000 + frac * 8192) as nat
    } else {
        ((exp + 112) * 0x80_0000 + frac * 8192) as nat
    };
    (sign * 0x8000_0000 + magnitude) as u32
}

/// The binary16 pattern nearest in value to the binary32 pattern `f`, a tie
/// going to the even pattern. Below the smallest positive binary16 value it is
/// zero, though that value may be nearer. A NaN keeps its upper fraction bits,
/// and stays a NaN.
pub open spec fn f32_as_half(f: u32) -> u16 {
    let sign = f as nat / 0x8000_0000;
    let abs = f as nat % 0x8000_0000;
    let magnitude = if abs > 0x7f80_0000 {
        let m = (abs / 8192) % 1024;
        31744 + (if m == 0 {
            1
        } else {
            m
        })
    } else if abs >= 0x4780_0000 {
        31744
    } else if abs >= 0x3880_0000 {
        (round_half_even(abs, 8192) - 112 * 1024) as nat
    } else if abs < 0x3380_0000 {
        0
    } else {
        round_half_even(
            abs % 0x80_0000 + 0x80_0000,
            power_of_two((126 - abs / 0x80_0000) as nat),
        )
    };
    (sign * 32768 + magnitude) as u16
}

/// The binary32 pattern nearest in value to `n`, a tie going to the even
/// pattern.
pub open spec fn uint_as_f32(n: u32) -> u32 {
    if n == 0 {
        0
    } else {
        let k = top_bit(n as nat);
        let mantissa = if k <= 23 {
            n as nat * power_of_two((23 - k) as nat)
        } else {
            round_half_even(n as nat, power_of_two((k - 23) as nat))
        };
        ((k + 126) * 0x80_0000 + mantissa) as u32
    }
}

/// The integer nearest to the binary32 value `f`; of two that are equally
/// near, the larger. A NaN and a value below zero give 0, a value of at least
/// 2^32 gives the largest integer.
pub open spec fn f32_as_uint(f: u32) -> u32 {
    let exp = f as nat / 0x80_0000;
    let mantissa = f as nat % 0x80_0000 + 0x80_0000;
    if f > 0x7f80_0000 {
        0
    } else if exp >= 159 {
        u32::MAX
    } else if exp >= 150 {
        (mantissa * power_of_two((exp - 150) as nat)) as u32
    } else if exp >= 127 {
        ((mantissa + power_of_two((149 - exp) as nat)) / power_of_two((150 - exp) as nat)) as u32
    } else if exp == 126 {
        1
    } else {
        0
    }
}

proof fn lemma_power_table()
    ensures
        power_of_two(0) == 1,
        power_of_two(1) == 2,
        power_of_two(2) == 4,
        power_of_two(3) == 8,
        power_of_two(4) == 16,
        power_of_two(5) == 32,
        power_of_two(6) == 64,
        power_of_two(7) == 128,
        power_of_two(8) == 256,
        power_of_two(9) == 512,
        power_of_two(10) == 1024,
        power_of_two(11) == 2048,
        power_of_two(12) == 4096,
        power_of_two(13) == 8192,
        power_of_two(14) == 16384,
        power_of_two(15) == 32768,
        power_of_two(16) == 0x1_0000,
        power_of_two(17) == 0x2_0000,
        power_of_two(18) == 0x4_0000,
        power_of_two(19) == 0x8_0000,
        power_of_two(20) == 0x10_0000,
        power_of_two(21) == 0x20_0000,
        power_of_two(22) == 0x40_0000,
        power_of_two(23) == 0x80_0000,
        power_of_two(24) == 0x100_0000,
        power_of_two(31) == 0x8000_0000,
{
    reveal_with_fuel(power_of_two, 32);
}

pub proof fn lemma_power_positive(k: nat)
    ensures
        power_of_two(k) > 0,
    decreases k,
{
    if k > 0 {
        lemma_power_positive((k - 1) as nat);
    }
}

pub proof fn lemma_power_monotonic(a: nat, b: nat)
    requires
        a <= b,
    ensures
        power_of_two(a) <= power_of_two(b),
    decreases b,
{
    if a < b {
        lemma_power_monotonic(a, (b - 1) as nat);
    }
}

pub proof fn lemma_power_sum(a: nat, b: nat)
    ensures
        power_of_two(a + b) == power_of_two(a) * power_of_two(b),
    decreases a,
{
    if a == 0 {
        assert(1 * power_of_two(b) == power_of_two(b));
    } else {
        lemma_power_sum((a - 1) as nat, b);
        let p = power_of_two((a - 1) as nat);
        let q = power_of_two(b);
        assert(2 * (p * q) == (2 * p) * q) by (nonlinear_arith);
    }
}

/// The highest bit bounds a number from both sides.
pub proof fn lemma_top_bit(n: nat)
    requires
        n > 0,
    ensures
        power_of_two(top_bit(n)) <= n < 2 * power_of_two(top_bit(n)),
    decreases n,
{
    if n >= 2 {
        lemma_top_bit(n / 2);
    }
}

/// Two to the power `k`.
pub fn power(k: u32) -> (r: u32)
    requires
        k <= 31,
    ensures
        r == power_of_two(k as nat),
{
    let mut r: u32 = 1;
    let mut i: u32 = 0;
    while i < k
        invariant
            i <= k <= 31,
            r == power_of_two(i as nat),
        decreases k - i,
    {
        proof {
            lemma_power_monotonic((i + 1) as nat, 31);
            lemma_power_table();
        }
        r = 2 * r;
        i = i + 1;
    }
    r
}

/// The position of the highest bit that is set in `n`.
pub fn highest_bit(n: u32) -> (r: u32)
    ensures
        r == top_bit(n as nat),
        n > 0 ==> r <= 31,
{
    let mut r: u32 = 0;
    let mut m: u32 = n;
    while m >= 2
        invariant
            top_bit(n as nat) == r + top_bit(m as nat),
            r + m <= 0xffff_ffff,
        decreases m,
    {
        m = m / 2;
        r = r + 1;
    }
    proof {
        if n > 0 {
            lemma_top_bit(n as nat);
            if r > 31 {
                lemma_power_monotonic(32, r as nat);
                lemma_power_table();
            }
        }
    }
    r
}

fn rounded_quotient(x: u32, d: u32) -> (r: u32)
    requires
        2 <= d <= 0x8000_0000,
    ensures
        r == round_half_even(x as nat, d as nat),
{
    let q: u32 = x / d;
    let rem: u32 = x % d;
    assert(q <= 0x7fff_ffff) by (nonlinear_arith)
        requires
            q == x / d,
            d >= 2,
            x <= 0xffff_ffff,
    ;
    if rem > d / 2 || (rem == d / 2 && d % 2 == 0 && q % 2 == 1) {
        q + 1
    } else {
        q
    }
}

/// Decode a binary16 bit pattern to a binary32 bit pattern.
pub fn half_to_f32(h: u16) -> (r: u32)
    ensures
        r == half_as_f32(h),
{
    let sign: u32 = (h / 32768) as u32;
    let exp: u32 = ((h / 1024) % 32) as u32;
    let frac: u32 = (h % 1024) as u32;
    if exp == 0 {
        if frac == 0 {
            return sign * 0x8000_0000;
        }
        let k: u32 = highest_bit(frac);
        proof {
            lemma_top_bit(frac as nat);
            lemma_power_table();
            if k > 9 {
                lemma_power_monotonic(10, k as nat);
            }
            lemma_power_sum(k as nat, (23 - k) as nat);
            let a = power_of_two(k as nat);
            let b = power_of_two((23 - k) as nat);
            assert((frac - a) * b < a * b) by (nonlinear_arith)
                requires
                    a <= frac < 2 * a,
                    b > 0,
            ;
            assert(0 <= (frac - a) * b) by (nonlinear_arith)
                requires
                    a <= frac,
                    b > 0,
            ;
            lemma_power_positive((23 - k) as nat);
        }
        return sign * 0x8000_0000 + (k + 103) * 0x80_0000 + (frac - power(k)) * power(23 - k);
    }
    if exp == 31 {
        return sign * 0x8000_0000 + 255 * 0x80_0000 + frac * 8192;
    }
    sign * 0x8000_0000 + (exp + 112) * 0x80_0000 + frac * 8192
}

/// Encode a binary32 bit pattern as a binary16 bit pattern.
pub fn f32_to_half(f: u32) -> (r: u16)
    ensures
        r == f32_as_half(f),
{
    let sign: u32 = f / 0x8000_0000;
    let abs: u32 = f % 0x8000_0000;
    let magnitude: u32 = if abs > 0x7f80_0000 {
        let m: u32 = (abs / 8192) % 1024;
        if m == 0 {
            31745
        } else {
            31744 + m
        }
    } else if abs >= 0x4780_0000 {
        31744
    } else if abs >= 0x3880_0000 {
        rounded_quotient(abs, 8192) - 112 * 1024
    } else if abs < 0x3380_0000 {
        0
    } else {
        let shift: u32 = 126 - abs / 0x80_0000;
        proof {
            lemma_power_table();
            lemma_power_monotonic(14, shift as nat);
            lemma_power_monotonic(shift as nat, 24);
        }
        let d: u32 = power(shift);
        let m: u32 = abs % 0x80_0000 + 0x80_0000;
        assert(m / d <= 1024) by (nonlinear_arith)
            requires
                m < 0x100_0000,
                d >= 16384,
        ;
        rounded_quotient(m, d)
    };
    assert(magnitude <= 32767);
    (sign * 32768 + magnitude) as u16
}

/// The binary32 bit pattern for an unsigned integer.
pub fn uint_to_f32(n: u32) -> (r: u32)
    ensures
        r == uint_as_f32(n),
{
    if n == 0 {
        return 0;
    }
    let k: u32 = highest_bit(n);
    proof {
        lemma_top_bit(n as nat);
        lemma_power_table();
    }
    if k <= 23 {
        proof {
            lemma_power_sum(k as nat, (23 - k) as nat);
            let a = power_of_two(k as nat);
            let b = power_of_two((23 - k) as nat);
            assert(n * b < 2 * (a * b)) by (nonlinear_arith)
                requires
                    n < 2 * a,
                    b > 0,
            ;
            lemma_power_positive((23 - k) as nat);
        }
        (k + 126) * 0x80_0000 + n * power(23 - k)
    } else {
        proof {
            lemma_power_monotonic(1, (k - 23) as nat);
            lemma_power_sum(23, (k - 23) as nat);
            let d = power_of_two((k - 23) as nat);
            assert(n as nat / d < 0x100_0000) by (nonlinear_arith)
                requires
                    n < 2 * (0x80_0000 * d),
                    d > 0,
            ;
            lemma_power_monotonic((k - 23) as nat, 24);
        }
        (k + 126) * 0x80_0000 + rounded_quotient(n, power(k - 23))
    }
}

/// The unsigned integer for a binary32 bit pattern.
pub fn f32_to_uint(f: u32) -> (r: u32)
    ensures
        r == f32_as_uint(f),
{
    let exp: u32 = f / 0x80_0000;
    let mantissa: u32 = f % 0x80_0000 + 0x80_0000;
    proof {
        lemma_power_table();
    }
    if f > 0x7f80_0000 {
        0
    } else if exp >= 159 {
        u32::MAX
    } else if exp >= 150 {
        proof {
            lemma_power_monotonic((exp - 150) as nat, 8);
            let p = power_of_two((exp - 150) as nat);
            assert(mantissa * p <= 0xffff_ffff) by (nonlinear_arith)
                requires
                    mantissa < 0x100_0000,
                    p <= 256,
            ;
        }
        mantissa * power(exp - 150)
    } else if exp >= 127 {
        proof {
            lemma_power_monotonic((149 - exp) as nat, 22);
            lemma_power_positive((150 - exp) as nat);
        }
        (mantissa + power(149 - exp)) / power(150 - exp)
    } else if exp == 126 {
        1
    } else {
        0
    }
}

/// Every binary16 pattern that is not a NaN survives binary32.
pub proof fn law_half_round_trip(h: u16)
    requires
        h % 32768 <= 31744,
    ensures
        f32_as_half(half_as_f32(h)) == h,
{
    let sign = h as nat / 32768;
    let exp = (h as nat / 1024) % 32;
    let frac = h as nat % 1024;
    lemma_power_table();
    if exp == 0 && frac > 0 {
        let k = top_bit(frac);
        lemma_top_bit(frac);
        if k > 9 {
            lemma_power_monotonic(10, k);
        }
        lemma_power_sum(k, (23 - k) as nat);
        lemma_power_positive((23 - k) as nat);
        let a = power_of_two(k);
        let b = power_of_two((23 - k) as nat);
        let low = (frac - a) * b;
        assert(0 <= low < 0x80_0000 && low + a * b == frac * b) by (nonlinear_arith)
            requires
                low == (frac - a) * b,
                a <= frac < 2 * a,
                b > 0,
                a * b == 0x80_0000,
        ;
        let abs = (k + 103) * 0x80_0000 + low;
        assert(half_as_f32(h) == sign * 0x8000_0000 + abs);
        assert(abs / 0x80_0000 == k + 103);
        assert(abs % 0x80_0000 == low);
        assert((frac * b) / b == frac && (frac * b) % b == 0) by (nonlinear_arith)
            requires
                b > 0,
        ;
    } else if exp > 0 && exp < 31 {
        let abs = (exp + 112) * 0x80_0000 + frac * 8192;
        assert(half_as_f32(h) == sign * 0x8000_0000 + abs);
    }
}

/// The binary32 pattern of a binary16 NaN is a NaN, and is encoded as the
/// same binary16 pattern again.
pub proof fn law_half_nan_round_trip(h: u16)
    requires
        h % 32768 > 31744,
    ensures
        half_as_f32(h) % 0x8000_0000 > 0x7f80_0000,
        f32_as_half(half_as_f32(h)) == h,
{
}

/// Unsigned integers up to 2^24 survive binary32.
pub proof fn law_uint_round_trip(n: u32)
    requires
        n <= 0x100_0000,
    ensures
        f32_as_uint(uint_as_f32(n)) == n,
{
    lemma_power_table();
    if n == 0x100_0000 {
        reveal_with_fuel(top_bit, 25);
        assert(top_bit(n as nat) == 24);
        assert(uint_as_f32(n) == 0x4b80_0000);
        assert(0x80_0000 * power_of_two(1) == 0x100_0000);
        assert(f32_as_uint(0x4b80_0000) == 0x100_0000);
    } else if n > 0 {
        let k = top_bit(n as nat);
        lemma_top_bit(n as nat);
        if k > 23 {
            lemma_power_monotonic(24, k);
        }
        lemma_power_sum(k, (23 - k) as nat);
        lemma_power_positive((23 - k) as nat);
        let a = power_of_two(k);
        let b = power_of_two((23 - k) as nat);
        assert(a * b <= n * b < 2 * (a * b)) by (nonlinear_arith)
            requires
                a <= n < 2 * a,
                b > 0,
        ;
        let f = uint_as_f32(n);
        assert(f == (k + 126) * 0x80_0000 + n * b);
        assert(f as nat / 0x80_0000 == k + 127);
        assert(f as nat % 0x80_0000 + 0x80_0000 == n * b);
        if k < 23 {
            let c = power_of_two((22 - k) as nat);
            lemma_power_positive((22 - k) as nat);
            assert(b == 2 * c);
            assert((n * b + c) / (b as int) == n) by (nonlinear_arith)
                requires
                    b == 2 * c,
                    c > 0,
            ;
        } else {
            assert(n * 1 == n);
            assert(f32_as_uint(f) == (n * b) * 1);
        }
    }
}

/// No integer is nearer to a value from one half up to 2^23 than the one that
/// is stored for it. Value and integer are counted here in units of the last
/// place of the value.
pub proof fn law_uint_nearest(f: u32)
    requires
        126 <= f / 0x80_0000 < 150,
    ensures
        ({
            let unit = power_of_two((150 - f / 0x80_0000) as nat);
            let x = f % 0x80_0000 + 0x80_0000;
            2 * x - unit < 2 * (f32_as_uint(f) * unit) <= 2 * x + unit
        }),
{
    lemma_power_table();
    let exp = f as nat / 0x80_0000;
    let x = f as nat % 0x80_0000 + 0x80_0000;
    let u = power_of_two((150 - exp) as nat);
    let h = power_of_two((149 - exp) as nat);
    assert(u == 2 * h);
    lemma_power_positive((149 - exp) as nat);
    if exp >= 127 {
        let n = (x + h) / u;
        assert(n * u <= x + h < n * u + u && n <= x + h) by (nonlinear_arith)
            requires
                n == (x + h) / u,
                u > 0,
                x + h >= 0,
        ;
        lemma_power_monotonic((149 - exp) as nat, 22);
        assert(f32_as_uint(f) == n);
    } else {
        assert(u == 0x100_0000);
        assert(1 * u == u);
    }
}

/// Halves keep their order, their sign and their value as floats: one is one, a
/// step of the exponent is one of the exponent, and within it steps are equal.
pub proof fn law_half_values(h: u16)
    requires
        h < 0x7c00,
    ensures
        half_as_f32(0x3c00) == 0x3f80_0000,
        half_as_f32(0) == 0,
        half_as_f32(0x7c00) == 0x7f80_0000,
        half_as_f32((h + 0x8000) as u16) == half_as_f32(h) + 0x8000_0000,
        0x400 <= h < 0x7800 ==> half_as_f32((h + 0x400) as u16) == half_as_f32(h) + 0x80_0000,
        0x400 <= h && (h + 1) % 0x400 != 0 ==> half_as_f32((h + 1) as u16) == half_as_f32(h)
            + 0x2000,
{
    if 0 < h < 0x400 {
        law_small_half_values(h);
        let n = (h + 0x8000) as u16;
        assert(n as nat % 1024 == h as nat % 1024 && (n as nat / 1024) % 32 == 0);
        let k = top_bit(h as nat);
        lemma_power_table();
        lemma_top_bit(h as nat);
        if k > 9 {
            lemma_power_monotonic(10, k);
        }
        lemma_power_sum(k, (23 - k) as nat);
        lemma_power_positive((23 - k) as nat);
        let a = power_of_two(k);
        let b = power_of_two((23 - k) as nat);
        let low = (h - a) * b;
        assert(0 <= low < 0x80_0000) by (nonlinear_arith)
            requires
                low == (h - a) * b,
                a <= h < 2 * a,
                b > 0,
                a * b == 0x80_0000,
        ;
    }
}

/// A half below the normal ones is its pattern times the smallest of them: the
/// mantissa of the float is the pattern, shifted to the left by as many places as
/// its exponent is below 126.
pub proof fn law_small_half_values(h: u16)
    requires
        0 < h < 0x400,
    ensures
        ({
            let f = half_as_f32(h);
            &&& 103 <= f / 0x80_0000 <= 112
            &&& f % 0x80_0000 + 0x80_0000 == h * power_of_two((126 - f / 0x80_0000) as nat)
        }),
{
    let frac = h as nat;
    lemma_power_table();
    let k = top_bit(frac);
    lemma_top_bit(frac);
    if k > 9 {
        lemma_power_monotonic(10, k);
    }
    lemma_power_sum(k, (23 - k) as nat);
    lemma_power_positive((23 - k) as nat);
    let a = power_of_two(k);
    let b = power_of_two((23 - k) as nat);
    let low = (frac - a) * b;
    assert(0 <= low < 0x80_0000 && low + a * b == frac * b) by (nonlinear_arith)
        requires
            low == (frac - a) * b,
            a <= frac < 2 * a,
            b > 0,
            a * b == 0x80_0000,
    ;
    let abs = (k + 103) * 0x80_0000 + low;
    assert(h as nat / 32768 == 0 && (h as nat / 1024) % 32 == 0 && h as nat % 1024 == frac);
    assert(half_as_f32(h) == abs);
    assert(abs / 0x80_0000 == k + 103);
    assert(abs % 0x80_0000 == low);
}

/// A float in the range of the normal halves goes to the nearest half, and from
/// the middle between two to the even one.
pub proof fn law_half_nearest(f: u32)
    requires
        0x3880_0000 <= f < 0x477f_f000,
    ensures
        ({
            let h = f32_as_half(f);
            let back = half_as_f32(h);
            &&& -0x1000 <= back - f <= 0x1000
            &&& back - f == 0x1000 || f - back == 0x1000 ==> h % 2 == 0
            &&& f32_as_half((f + 0x8000_0000) as u32) == h + 0x8000
        }),
{
}

/// A float that is too great for a half goes to infinity, one that is too small goes to zero,
/// and what is no number stays none.
pub proof fn law_half_extremes(f: u32)
    requires
        f < 0x8000_0000,
    ensures
        0x477f_f000 <= f <= 0x7f80_0000 ==> f32_as_half(f) == 0x7c00,
        f > 0x7f80_0000 ==> 0x7c00 < f32_as_half(f) < 0x8000,
        f > 0x7f80_0000 && (f / 0x2000) % 0x400 != 0 ==> f32_as_half(f) == 0x7c00 + (f / 0x2000)
            % 0x400,
        f < 0x3380_0000 ==> f32_as_half(f) == 0,
        f32_as_half((f + 0x8000_0000) as u32) == f32_as_half(f) + 0x8000,
{
    if 0x3380_0000 <= f < 0x3880_0000 {
        law_small_half_nearest(f);
    }
}

/// A float in the range of the halves below the normal ones goes to the nearest one, and from
/// the middle between two to the even one.
pub proof fn law_small_half_nearest(f: u32)
    requires
        0x3380_0000 <= f < 0x3880_0000,
    ensures
        ({
            let h = f32_as_half(f);
            let unit = power_of_two((126 - f / 0x80_0000) as nat);
            let off = 2 * (h * unit - (f % 0x80_0000 + 0x80_0000));
            &&& -unit <= off <= unit
            &&& off == unit || off == -unit ==> h % 2 == 0
            &&& h <= 0x400
            &&& f32_as_half((f + 0x8000_0000) as u32) == h + 0x8000
        }),
{
    lemma_power_table();
    let e = f as nat / 0x80_0000;
    let x = f as nat % 0x80_0000 + 0x80_0000;
    let d = power_of_two((126 - e) as nat);
    lemma_power_positive((126 - e) as nat);
    lemma_power_monotonic(14, (126 - e) as nat);
    let (q, r) = (x / d, x % d);
    vstd::arithmetic::div_mod::lemma_fundamental_div_mod(x as int, d as int);
    vstd::arithmetic::div_mod::lemma_mod_bound(x as int, d as int);
    let n = round_half_even(x, d);
    assert(n * d == q * d + if n == q + 1 {
        d as int
    } else {
        0
    }) by (nonlinear_arith)
        requires
            n == q || n == q + 1,
    ;
    assert(d * q == q * d) by (nonlinear_arith);
    assert(q < 0x400) by (nonlinear_arith)
        requires
            x == d * q + r,
            0 <= r,
            x < 0x100_0000,
            d >= 0x4000,
    ;
    assert(f32_as_half(f) == n);
}

/// A value from 2^23 up to 2^32 is an integer, and stored as it is. Values above give the
/// greatest integer, and those below one half, below zero, and what is no number give zero.
pub proof fn law_uint_extremes(f: u32)
    ensures
        150 <= f / 0x80_0000 < 159 ==> f32_as_uint(f) == (f % 0x80_0000 + 0x80_0000) * power_of_two(
            (f / 0x80_0000 - 150) as nat,
        ),
        159 <= f / 0x80_0000 && f <= 0x7f80_0000 ==> f32_as_uint(f) == u32::MAX,
        f > 0x7f80_0000 ==> f32_as_uint(f) == 0,
        f / 0x80_0000 < 126 ==> f32_as_uint(f) == 0,
{
    if 150 <= f / 0x80_0000 < 159 {
        lemma_power_table();
        let e = (f / 0x80_0000 - 150) as nat;
        let m = f % 0x80_0000 + 0x80_0000;
        lemma_power_monotonic(e, 8);
        let p = power_of_two(e);
        assert(0 <= m * p <= 0xffff_ffff) by (nonlinear_arith)
            requires
                0 <= m <= 0xff_ffff,
                0 <= p <= 256,
        ;
    }
}

/// An integer above 2^24 goes to the nearest float, and from the middle between two to the one
/// whose last digit is 0. It is counted here in units of the last place of the float.
pub proof fn law_uint_rounded(n: u32)
    requires
        n > 0x100_0000,
    ensures
        ({
            let f = uint_as_f32(n);
            let unit = power_of_two((f / 0x80_0000 - 150) as nat);
            let x = f % 0x80_0000 + 0x80_0000;
            let off = 2 * (x * unit - n);
            &&& 151 <= f / 0x80_0000 <= 159
            &&& -unit <= off <= unit
            &&& off == unit || off == -unit ==> x % 2 == 0
        }),
{
    lemma_power_table();
    let k = top_bit(n as nat);
    lemma_top_bit(n as nat);
    if k < 24 {
        lemma_power_monotonic(k + 1, 24);
    }
    if k > 31 {
        lemma_power_monotonic(32, k);
    }
    let j = (k - 23) as nat;
    let d = power_of_two(j);
    lemma_power_positive(j);
    lemma_power_sum(23, j);
    let (q, r) = (n as nat / d, n as nat % d);
    vstd::arithmetic::div_mod::lemma_fundamental_div_mod(n as int, d as int);
    vstd::arithmetic::div_mod::lemma_mod_bound(n as int, d as int);
    let m = round_half_even(n as nat, d);
    assert(0x80_0000 <= q < 0x100_0000) by (nonlinear_arith)
        requires
            n == d * q + r,
            0 <= r < d,
            0x80_0000 * d <= n < 2 * (0x80_0000 * d),
    ;
    assert(m * d == d * q + if m == q + 1 {
        d as int
    } else {
        0
    }) by (nonlinear_arith)
        requires
            m == q || m == q + 1,
    ;
    let f = uint_as_f32(n);
    assert(f == (k + 126) * 0x80_0000 + m);
    if m < 0x100_0000 {
        assert(f / 0x80_0000 == k + 127 && f % 0x80_0000 + 0x80_0000 == m);
    } else {
        assert(f / 0x80_0000 == k + 128 && f % 0x80_0000 == 0);
        assert(power_of_two((k + 128 - 150) as nat) == 2 * d);
        assert(0x80_0000 * (2 * d) == m * d) by (nonlinear_arith)
            requires
                m == 0x100_0000,
        ;
    }
}

} // verus!
