//! The levels of images that are stored at several resolutions: each level
//! halves the one before it.

use crate::half::power_of_two;
use vstd::arithmetic::div_mod::*;
use vstd::arithmetic::mul::*;
use vstd::prelude::*;

verus! {

/// The size of level `level` along an axis of the given size, which is
/// divided by two for each level and rounded down or up. A level has at least
/// one pixel.
pub open spec fn level_size(size: int, level: int, round_up: bool) -> int {
    let p = power_of_two(level as nat) as int;
    let q = if round_up {
        (size + p - 1) / p
    } else {
        size / p
    };
    if q < 1 {
        1
    } else {
        q
    }
}

/// Half of a size, rounded.
pub open spec fn halved(size: int, round_up: bool) -> int {
    if round_up {
        (size + 1) / 2
    } else {
        size / 2
    }
}

/// The number of levels down to a size of one.
pub open spec fn level_count(size: int, round_up: bool) -> int
    decreases size,
{
    if size <= 1 {
        1
    } else {
        level_count(halved(size, round_up), round_up) + 1
    }
}

/// Halving once more gives the next level.
pub proof fn lemma_level_step(size: int, level: int, round_up: bool)
    requires
        size >= 1,
        level >= 0,
    ensures
        level_size(size, 0, round_up) == size,
        level_size(size, level, round_up) >= 1,
        level_size(size, level, round_up) <= size,
        level_size(size, level + 1, round_up) == (if level_size(size, level, round_up) <= 1 {
            1
        } else {
            halved(level_size(size, level, round_up), round_up)
        }),
{
    let p = power_of_two(level as nat) as int;
    let q = power_of_two((level + 1) as nat) as int;
    lemma_power_positive(level as nat);
    assert(q == 2 * p);
    assert(power_of_two(0) == 1);
    lemma_div_pos_is_pos(size, p);
    if round_up {
        lemma_ceil(size, p);
        lemma_ceil(size, q);
        let a = (size + p - 1) / p;
        lemma_ceil(a, 2);
        lemma_ceil_twice(size, p);
        assert(a <= size) by (nonlinear_arith)
            requires
                (a - 1) * p < size,
                p >= 1,
                size >= 1,
        ;
    } else {
        lemma_div_denominator(size, p, 2);
        lemma_mul_is_commutative(p, 2);
        lemma_div_is_ordered_by_denominator(size, 1, p);
    }
}

proof fn lemma_power_positive(n: nat)
    ensures
        power_of_two(n) >= 1,
    decreases n,
{
    if n > 0 {
        lemma_power_positive((n - 1) as nat);
    }
}

/// What division that rounds up gives.
proof fn lemma_ceil(a: int, p: int)
    requires
        a >= 1,
        p >= 1,
    ensures
        ({
            let c = (a + p - 1) / p;
            c >= 1 && (c - 1) * p < a && a <= c * p
        }),
{
    let c = (a + p - 1) / p;
    lemma_fundamental_div_mod(a + p - 1, p);
    lemma_mod_bound(a + p - 1, p);
    lemma_mul_is_commutative(p, c);
    assert((c - 1) * p == c * p - p) by (nonlinear_arith);
    assert(c >= 1) by (nonlinear_arith)
        requires
            c * p > a - 1,
            a >= 1,
            p >= 1,
    ;
}

/// Rounding up twice is rounding up once.
proof fn lemma_ceil_twice(size: int, p: int)
    requires
        size >= 1,
        p >= 1,
    ensures
        ((size + p - 1) / p + 1) / 2 == (size + 2 * p - 1) / (2 * p),
{
    let a = (size + p - 1) / p;
    let b = (a + 1) / 2;
    lemma_ceil(size, p);
    // 2 (b - 1) < a <= 2 b
    assert(2 * (b - 1) < a && a <= 2 * b);
    assert(size <= b * (2 * p)) by (nonlinear_arith)
        requires
            size <= a * p,
            a <= 2 * b,
            p >= 1,
    ;
    assert((b - 1) * (2 * p) < size) by (nonlinear_arith)
        requires
            (a - 1) * p < size,
            2 * (b - 1) <= a - 1,
            p >= 1,
    ;
    let q = 2 * p;
    let r = size + q - 1 - b * q;
    assert((b - 1) * q == b * q - q) by (nonlinear_arith);
    lemma_fundamental_div_mod_converse(size + q - 1, q, b, r);
}

/// The number of levels of a size of `dim`, rounding down or up.
pub fn mipmap_level_count(dim: u32, round_up: bool) -> (r: u32)
    ensures
        r == level_count(dim as int, round_up),
{
    let mut d: u32 = dim;
    let mut n: u32 = 1;
    proof {
        lemma_count_bound(dim as int, round_up);
    }
    while d > 1
        invariant
            level_count(dim as int, round_up) == n - 1 + level_count(d as int, round_up),
            level_count(dim as int, round_up) <= dim + 1,
            level_count(dim as int, round_up) <= 0xffff_ffff,
            n >= 1,
        decreases d,
    {
        proof {
            lemma_count_bound(halved(d as int, round_up), round_up);
        }
        d = if round_up {
            d / 2 + d % 2
        } else {
            d / 2
        };
        n = n + 1;
    }
    n
}

/// There is at least one level, and fewer than the size can be halved.
pub proof fn lemma_count_bound(size: int, round_up: bool)
    ensures
        1 <= level_count(size, round_up),
        size >= 1 ==> level_count(size, round_up) <= size,
    decreases size,
{
    if size > 1 {
        lemma_count_bound(halved(size, round_up), round_up);
    }
}

/// The size of level `level` along an axis of size `full_dim`.
pub fn mipmap_level_dim(full_dim: u32, level: u32, round_up: bool) -> (r: u32)
    ensures
        r == level_size(full_dim as int, level as int, round_up),
{
    if full_dim == 0 {
        proof {
            let p = power_of_two(level as nat) as int;
            lemma_power_positive(level as nat);
            lemma_div_of0(p);
            lemma_fundamental_div_mod_converse(p - 1, p, 0, p - 1);
        }
        return 1;
    }
    let mut d: u32 = full_dim;
    let mut i: u32 = 0;
    proof {
        lemma_level_step(full_dim as int, 0, round_up);
    }
    while i < level && d > 1
        invariant
            full_dim >= 1,
            i <= level,
            d >= 1,
            d == level_size(full_dim as int, i as int, round_up),
        decreases level - i,
    {
        proof {
            lemma_level_step(full_dim as int, i as int, round_up);
            lemma_level_step(full_dim as int, i + 1, round_up);
        }
        d = if round_up {
            d / 2 + d % 2
        } else {
            d / 2
        };
        i = i + 1;
    }
    proof {
        if i < level {
            lemma_level_stays(full_dim as int, i as int, level as int, round_up);
        }
    }
    d
}

/// A level of one pixel is followed by levels of one pixel.
proof fn lemma_level_stays(size: int, a: int, b: int, round_up: bool)
    requires
        size >= 1,
        0 <= a <= b,
        level_size(size, a, round_up) == 1,
    ensures
        level_size(size, b, round_up) == 1,
    decreases b - a,
{
    if a < b {
        lemma_level_stays(size, a, b - 1, round_up);
        lemma_level_step(size, b - 1, round_up);
    }
}

/// Every level has at least one pixel, and no more than the full size.
pub proof fn law_level_size(size: int, level: int, round_up: bool)
    requires
        size >= 1,
        level >= 0,
    ensures
        1 <= level_size(size, level, round_up) <= size,
        level_size(size, 0, round_up) == size,
{
    lemma_level_step(size, level, round_up);
}

/// Halving before taking a level is taking the next level.
proof fn lemma_level_of_half(size: int, level: int, round_up: bool)
    requires
        size > 1,
        level >= 0,
    ensures
        level_size(halved(size, round_up), level, round_up) == level_size(
            size,
            level + 1,
            round_up,
        ),
    decreases level,
{
    let half = halved(size, round_up);
    lemma_level_step(size, level, round_up);
    lemma_level_step(half, level, round_up);
    if level > 0 {
        lemma_level_of_half(size, level - 1, round_up);
        lemma_level_step(half, level - 1, round_up);
    }
}

/// The last level is the first one of a single pixel: level `l` of a size is
/// one exactly from the last level on.
pub proof fn law_last_level(size: int, level: int, round_up: bool)
    requires
        size >= 1,
        level >= 0,
    ensures
        level_size(size, level, round_up) == 1 <==> level >= level_count(size, round_up) - 1,
    decreases size,
{
    lemma_level_step(size, level, round_up);
    lemma_count_bound(size, round_up);
    if size == 1 {
        assert(level_size(size, level, round_up) == 1);
    } else if level == 0 {
        lemma_count_bound(halved(size, round_up), round_up);
    } else {
        law_last_level(halved(size, round_up), level - 1, round_up);
        lemma_level_of_half(size, level - 1, round_up);
    }
}

/// A size of 32 bits has at most 33 levels.
pub proof fn law_level_count(size: int, round_up: bool)
    requires
        1 <= size <= 0xffff_ffff,
    ensures
        1 <= level_count(size, round_up) <= 33,
{
    lemma_count_bound(size, round_up);
    assert(power_of_two(32) == 0x1_0000_0000) by {
        reveal_with_fuel(power_of_two, 33);
    }
    let p = power_of_two(32) as int;
    assert(size / p == 0);
    assert((size + p - 1) / p == 1);
    assert(level_size(size, 32, round_up) == 1);
    law_last_level(size, 32, round_up);
}

} // verus!
