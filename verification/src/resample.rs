//! Which samples of a sampled channel a pixel lies between, and which pixels
//! a sample stands for.

use crate::error::{ExrError, Fault};
use crate::flat_block::{sampled, subsampled_dim};
use vstd::arithmetic::div_mod::*;
use vstd::prelude::*;

verus! {

// ----------------------------------------------------------------------
// Sizes
// ----------------------------------------------------------------------
/// A step of zero counts as one.
pub open spec fn step_of(s: u32) -> int {
    if s == 0 {
        1
    } else {
        s as int
    }
}

/// A step of zero counts as one.
pub fn whole_step(s: u32) -> (r: u32)
    ensures
        r == step_of(s),
        r >= 1,
{
    if s == 0 {
        1
    } else {
        s
    }
}

/// Check that a plane has a sample for every pixel.
pub fn check_full(len: usize, width: u32, height: u32) -> (r: Result<(), ExrError>)
    ensures
        r is Ok <==> len == width * height,
        r matches Err(e) ==> e.fault() == Fault::Invalid,
{
    assert(width * height <= 0xffff_ffff * 0xffff_ffff) by (nonlinear_arith)
        requires
            width <= 0xffff_ffff,
            height <= 0xffff_ffff,
    ;
    if len as u64 != width as u64 * height as u64 {
        return Err(ExrError::invalid("plane holds another number of samples than the image"));
    }
    Ok(())
}

/// The columns and rows of a plane with a sample at every `sx`-th pixel of
/// every `sy`-th line, where it has as many samples.
pub fn check_sampled(len: usize, width: u32, height: u32, sx: u32, sy: u32) -> (r: Result<
    (u32, u32),
    ExrError,
>)
    ensures
        r matches Ok((pw, ph)) ==> pw == sampled(width as int, step_of(sx)) && ph == sampled(
            height as int,
            step_of(sy),
        ) && len == pw * ph,
        r matches Err(e) ==> e.fault() == Fault::Invalid && len != sampled(
            width as int,
            step_of(sx),
        ) * sampled(height as int, step_of(sy)),
{
    let pw: u32 = subsampled_dim(width, whole_step(sx));
    let ph: u32 = subsampled_dim(height, whole_step(sy));
    match check_full(len, pw, ph) {
        Ok(_) => Ok((pw, ph)),
        Err(_) => Err(ExrError::invalid("sub-sampled plane holds another number of samples")),
    }
}

// ----------------------------------------------------------------------
// From samples to pixels
// ----------------------------------------------------------------------
/// The samples that a pixel lies between, and how far it is from the first.
#[derive(Debug, Clone, Copy, PartialEq, Eq, Structural)]
pub struct Between {
    pub low: u32,
    pub high: u32,
    pub offset: u32,
}

/// The samples that pixel `x` lies between, where `n` pixels have a sample at
/// every `s`-th. Behind the last sample there is none but that.
pub open spec fn between_of(x: int, s: int, n: int) -> Between {
    let low = x / s;
    Between {
        low: low as u32,
        high: (if low + 1 < sampled(n, s) {
            low + 1
        } else {
            sampled(n, s) - 1
        }) as u32,
        offset: (x % s) as u32,
    }
}

/// The samples that each of `n` pixels lies between.
pub fn bilinear_plan(n: u32, s: u32) -> (r: Vec<Between>)
    ensures
        r@ == Seq::new(n as nat, |x: int| between_of(x, step_of(s), n as int)),
{
    let ghost all = Seq::new(n as nat, |x: int| between_of(x, step_of(s), n as int));
    let step: u32 = whole_step(s);
    let count: u32 = subsampled_dim(n, step);
    let mut r: Vec<Between> = Vec::new();
    let mut x: u32 = 0;
    while x < n
        invariant
            x <= n,
            step == step_of(s),
            step >= 1,
            count == sampled(n as int, step as int),
            all == Seq::new(n as nat, |i: int| between_of(i, step_of(s), n as int)),
            r@.len() == x,
            forall|i: int| 0 <= i < x ==> r@[i] == all[i],
        decreases n - x,
    {
        proof {
            law_between(x as int, step as int, n as int);
        }
        let low: u32 = x / step;
        let high: u32 = if low + 1 < count {
            low + 1
        } else {
            count - 1
        };
        r.push(Between { low, high, offset: x % step });
        x = x + 1;
    }
    assert(r@ =~= all);
    r
}

/// A pixel lies at or behind its first sample, and before the next one. The
/// samples are there.
pub proof fn law_between(x: int, s: int, n: int)
    requires
        1 <= s,
        0 <= x < n,
    ensures
        0 <= x / s < sampled(n, s),
        (x / s) * s + x % s == x,
        0 <= x % s < s,
        sampled(n, s) <= n,
{
    lemma_fundamental_div_mod(x, s);
    lemma_mod_bound(x, s);
    lemma_div_pos_is_pos(x, s);
    let q = x / s;
    assert(q * s == s * q) by (nonlinear_arith);
    lemma_fundamental_div_mod(n + s - 1, s);
    lemma_mod_bound(n + s - 1, s);
    let p = (n + s - 1) / s;
    assert(q < p) by (nonlinear_arith)
        requires
            s * q <= x,
            x < n,
            n + s - 1 < s * p + s,
            1 <= s,
    ;
    assert(p <= n) by (nonlinear_arith)
        requires
            s * p <= n + s - 1,
            1 <= n,
            1 <= s,
    ;
}

/// A ramp is met exactly between its samples: what the two samples give, each
/// weighted by how near the pixel is to it, is the value of the ramp.
pub proof fn law_ramp_between(x: int, s: int, n: int, a: int, b: int)
    requires
        1 <= s,
        0 <= x < n <= u32::MAX,
        x / s + 1 < sampled(n, s),
    ensures
        ({
            let t = between_of(x, s, n);
            (s - t.offset) * (a * (t.low * s) + b) + t.offset * (a * (t.high * s) + b) == s * (a
                * x + b)
        }),
{
    law_between(x, s, n);
    let t = between_of(x, s, n);
    let (q, r) = (x / s, x % s);
    assert(t.low == q && t.high == q + 1 && t.offset == r);
    let u = q * s;
    assert((q + 1) * s == u + s) by (nonlinear_arith)
        requires
            u == q * s,
    ;
    assert((s - r) * (a * u + b) + r * (a * (u + s) + b) == s * (a * (u + r) + b))
        by (nonlinear_arith);
}

// ----------------------------------------------------------------------
// From pixels to samples
// ----------------------------------------------------------------------
/// A pixel that a sample stands for, and how much.
#[derive(Debug, Clone, Copy, PartialEq, Eq, Structural)]
pub struct Tap {
    pub position: u32,
    pub weight: u32,
}

/// How much a pixel counts for the sample at pixel `c`: the nearer, the more.
pub open spec fn tent(s: int, c: int, x: int) -> int {
    if x < c {
        s - (c - x)
    } else {
        s - (x - c)
    }
}

/// The first pixel that counts for the sample at pixel `c`.
pub open spec fn first_tap(s: int, c: int) -> int {
    if c - s + 1 < 0 {
        0
    } else {
        c - s + 1
    }
}

/// The pixel behind the last one that counts for the sample at pixel `c`.
pub open spec fn end_tap(s: int, c: int, n: int) -> int {
    if c + s > n {
        n
    } else {
        c + s
    }
}

/// The pixels from `from` to `to` that count for the sample at pixel `c`.
pub open spec fn taps_in(s: int, c: int, from: int, to: int) -> Seq<Tap> {
    Seq::new(
        (to - from) as nat,
        |i: int| Tap { position: (from + i) as u32, weight: tent(s, c, from + i) as u32 },
    )
}

/// The pixels that sample `j` stands for, where `n` pixels have a sample at
/// every `s`-th.
pub open spec fn taps_of(j: int, s: int, n: int) -> Seq<Tap> {
    taps_in(s, j * s, first_tap(s, j * s), end_tap(s, j * s, n))
}

/// The pixels that sample `j` stands for.
pub fn tent_taps(j: u32, s: u32, n: u32) -> (r: Vec<Tap>)
    requires
        j < sampled(n as int, step_of(s)),
    ensures
        r@ == taps_of(j as int, step_of(s), n as int),
        r@.len() > 0,
{
    let step: u64 = whole_step(s) as u64;
    let ghost all = taps_of(j as int, step as int, n as int);
    proof {
        lemma_sample_place(j as int, step as int, n as int);
    }
    let c: u64 = j as u64 * step;
    let from: u64 = if c + 1 < step {
        0
    } else {
        c + 1 - step
    };
    let to: u64 = if c + step > n as u64 {
        n as u64
    } else {
        c + step
    };
    let mut r: Vec<Tap> = Vec::new();
    let mut x: u64 = from;
    while x < to
        invariant
            from <= x <= to,
            to <= n,
            1 <= step <= u32::MAX,
            c == j * step,
            c < n,
            from == first_tap(step as int, c as int),
            to == end_tap(step as int, c as int, n as int),
            all == taps_in(step as int, c as int, from as int, to as int),
            r@.len() == x - from,
            forall|i: int| 0 <= i < x - from ==> r@[i] == all[i],
        decreases to - x,
    {
        let weight: u64 = if x < c {
            step - (c - x)
        } else {
            step - (x - c)
        };
        r.push(Tap { position: x as u32, weight: weight as u32 });
        x = x + 1;
    }
    assert(r@ =~= all);
    r
}

/// A sample stands at a pixel.
proof fn lemma_sample_place(j: int, s: int, n: int)
    requires
        1 <= s,
        0 <= n,
        0 <= j < sampled(n, s),
    ensures
        0 <= j * s < n,
{
    lemma_fundamental_div_mod(n + s - 1, s);
    lemma_mod_bound(n + s - 1, s);
    let p = (n + s - 1) / s;
    assert(0 <= j * s && j * s < n) by (nonlinear_arith)
        requires
            0 <= j,
            j + 1 <= p,
            s * p <= n + s - 1,
            1 <= s,
    ;
}

/// What the values of a ramp at some pixels come to, each by its weight.
pub open spec fn ramp_total(taps: Seq<Tap>, a: int, b: int) -> int
    decreases taps.len(),
{
    if taps.len() == 0 {
        0
    } else {
        ramp_total(taps.drop_last(), a, b) + taps.last().weight * (a * taps.last().position + b)
    }
}

/// The first pixel is one of those that are added up.
proof fn lemma_ramp_head(taps: Seq<Tap>, a: int, b: int)
    requires
        taps.len() > 0,
    ensures
        ramp_total(taps, a, b) == taps[0].weight * (a * taps[0].position + b) + ramp_total(
            taps.skip(1),
            a,
            b,
        ),
    decreases taps.len(),
{
    let rest = taps.skip(1);
    if taps.len() == 1 {
        assert(taps.drop_last() =~= Seq::<Tap>::empty());
        assert(rest =~= Seq::<Tap>::empty());
        assert(ramp_total(taps.drop_last(), a, b) == 0);
    } else {
        let init = taps.drop_last();
        lemma_ramp_head(init, a, b);
        assert(init.skip(1) =~= rest.drop_last());
        assert(rest.last() == taps.last());
    }
}

/// The pixels up to `d` away from a sample come to as many times the value of
/// the ramp at the sample as their weights are.
proof fn lemma_ramp_around(s: int, c: int, d: int, a: int, b: int)
    requires
        1 <= s <= u32::MAX,
        0 <= d < s,
        0 <= c - d,
        c + d < u32::MAX,
    ensures
        ramp_total(taps_in(s, c, c - d, c + d + 1), a, b) == (s * (2 * d + 1) - d * (d + 1)) * (a
            * c + b),
    decreases d,
{
    let all = taps_in(s, c, c - d, c + d + 1);
    if d == 0 {
        assert(all.drop_last() =~= Seq::<Tap>::empty());
        assert(ramp_total(all.drop_last(), a, b) == 0);
        assert(all.last().weight == s && all.last().position == c);
        assert(s * (2 * d + 1) - d * (d + 1) == s);
    } else {
        let inner = taps_in(s, c, c - (d - 1), c + d);
        lemma_ramp_around(s, c, d - 1, a, b);
        lemma_ramp_head(all, a, b);
        let rest = all.skip(1);
        assert(rest.drop_last() =~= inner);
        assert(rest.last().weight == s - d && rest.last().position == c + d);
        assert(all[0].weight == s - d && all[0].position == c - d);
        assert((s - d) * (a * (c - d) + b) + ((s * (2 * (d - 1) + 1) - (d - 1) * d) * (a * c + b)
            + (s - d) * (a * (c + d) + b)) == (s * (2 * d + 1) - d * (d + 1)) * (a * c + b))
            by (nonlinear_arith);
    }
}

/// A ramp is reduced exactly away from the edges: what the pixels of a sample
/// come to, divided by their weights, is the value of the ramp at the sample.
pub proof fn law_ramp_reduced(j: int, s: int, n: int, a: int, b: int)
    requires
        1 <= s <= u32::MAX,
        n <= u32::MAX,
        0 <= j * s - s + 1,
        j * s + s <= n,
    ensures
        ramp_total(taps_of(j, s, n), a, b) == (s * s) * (a * (j * s) + b),
        ramp_total(taps_of(j, s, n), 0, 1) == s * s,
{
    let c = j * s;
    lemma_ramp_around(s, c, s - 1, a, b);
    lemma_ramp_around(s, c, s - 1, 0, 1);
    assert(s * (2 * (s - 1) + 1) - (s - 1) * s == s * s) by (nonlinear_arith);
    assert(0 * c + 1 == 1);
}

/// Behind the last sample every pixel takes that sample alone.
pub proof fn law_behind_last(x: int, s: int, n: int)
    requires
        1 <= s,
        0 <= x < n <= u32::MAX,
        (sampled(n, s) - 1) * s <= x,
    ensures
        between_of(x, s, n).low == sampled(n, s) - 1,
        between_of(x, s, n).high == sampled(n, s) - 1,
{
    law_between(x, s, n);
    let (q, c) = (x / s, sampled(n, s));
    assert(q >= c - 1) by (nonlinear_arith)
        requires
            (c - 1) * s <= x,
            q * s + x % s == x,
            x % s < s,
            1 <= s,
    ;
}

/// The pixels of a sample are those less than a step away from it that the image has, in
/// their order. The pixel of the sample counts as much as the step is long, and each pixel
/// by one less than its neighbour on the side of the sample.
pub proof fn law_tent_taps(j: int, s: int, n: int, i: int)
    requires
        1 <= s <= u32::MAX,
        0 <= j,
        j * s < n <= u32::MAX,
    ensures
        ({
            let taps = taps_of(j, s, n);
            let c = j * s;
            &&& 0 <= i < taps.len() ==> {
                let t = taps[i];
                &&& t.position <= c ==> t.weight + (c - t.position) == s
                &&& c <= t.position ==> t.weight + (t.position - c) == s
                &&& t.weight > 0
                &&& t.position < n
                &&& t.position == taps[0].position + i
            }
            &&& taps.len() > 0
            &&& taps[0].position == 0 || taps[0].weight == 1
            &&& taps.last().position == n - 1 || taps.last().weight == 1
        }),
{
    assert(0 <= j * s) by (nonlinear_arith)
        requires
            0 <= j,
            1 <= s,
    ;
}

} // verus!
