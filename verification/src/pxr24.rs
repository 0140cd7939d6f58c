//! The 24-bit coder: samples as differences, cut into planes of bytes.
//!
//! A binary32 sample keeps its upper 24 bits. In every row of a channel the
//! difference of each sample to the one before it is taken, and the first
//! bytes of all differences stand in front of the second bytes, and so on.

use crate::bytes::{lemma_stands_split, stands_at};
use crate::half::{
    f32_as_half, f32_as_uint, f32_to_half, f32_to_uint, half_as_f32, half_to_f32, uint_as_f32,
    uint_to_f32,
};
use crate::types::PixelType;
use vstd::arithmetic::div_mod::*;
use vstd::prelude::*;

verus! {

/// The bytes of a sample.
pub open spec fn short_size(t: PixelType) -> nat {
    match t {
        PixelType::Float => 3,
        PixelType::Half => 2,
        PixelType::Uint => 4,
    }
}

pub fn pxr24_channel_bytes(t: PixelType) -> (r: usize)
    ensures
        r == short_size(t),
{
    match t {
        PixelType::Float => 3,
        PixelType::Half => 2,
        PixelType::Uint => 4,
    }
}

/// The upper 24 bits of a binary32 word, rounded. An infinity keeps its sign,
/// and a NaN stays one.
pub open spec fn code24(v: u32) -> u32 {
    let exponent = v / 0x80_0000 % 0x100;
    let low = v % 0x80_0000;
    let rest = v % 0x8000_0000;
    if exponent == 0xff {
        (v / 0x8000_0000 * 0x80_0000 + 0x7f_8000 + if low > 0 && low / 0x100 == 0 {
            1
        } else {
            (low / 0x100) as int
        }) as u32
    } else {
        let cut = (rest / 0x100) as int;
        let rounded = if low % 0x100 >= 0x80 {
            cut + 1
        } else {
            cut
        };
        (v / 0x8000_0000 * 0x80_0000 + if rounded >= 0x7f_8000 {
            cut
        } else {
            rounded
        }) as u32
    }
}

/// Reduce a binary32 word to 24 bits.
pub fn pxr24_f32_to_code24(bits: u32) -> (r: u32)
    ensures
        r == code24(bits),
        r < 0x100_0000,
{
    let exponent: u32 = bits / 0x80_0000 % 0x100;
    let low: u32 = bits % 0x80_0000;
    let rest: u32 = bits % 0x8000_0000;
    let sign: u32 = bits / 0x8000_0000;
    if exponent == 0xff {
        let kept: u32 = low / 0x100;
        sign * 0x80_0000 + 0x7f_8000 + if low > 0 && kept == 0 {
            1
        } else {
            kept
        }
    } else {
        let cut: u32 = rest / 0x100;
        let rounded: u32 = if low % 0x100 >= 0x80 {
            cut + 1
        } else {
            cut
        };
        assert(rest < 0x7f80_0000);
        let kept: u32 = if rounded >= 0x7f_8000 {
            cut
        } else {
            rounded
        };
        sign * 0x80_0000 + kept
    }
}

/// The number that stands for a sample.
pub open spec fn code_of_sample(t: PixelType, v: u32) -> u32 {
    match t {
        PixelType::Float => code24(v),
        PixelType::Half => f32_as_half(v) as u32,
        PixelType::Uint => f32_as_uint(v),
    }
}

/// The sample that a number stands for.
pub open spec fn code_value(t: PixelType, code: u32) -> u32 {
    match t {
        PixelType::Float => pxr24_bits(code),
        PixelType::Half => half_as_f32((code % 0x1_0000) as u16),
        PixelType::Uint => uint_as_f32(code),
    }
}

/// The binary32 word with the given upper 24 bits.
pub open spec fn pxr24_bits(code: u32) -> u32 {
    (code % 0x100_0000 * 0x100) as u32
}

/// The binary32 word with the given upper 24 bits.
pub fn pxr24_code_to_f32_bits(code24: u32) -> (r: u32)
    ensures
        r == pxr24_bits(code24),
{
    code24 % 0x100_0000 * 0x100
}

/// What a sample is read back as.
pub open spec fn short_value(t: PixelType, v: u32) -> u32 {
    code_value(t, code_of_sample(t, v))
}

fn sample_of_code(t: PixelType, code: u32) -> (r: u32)
    ensures
        r == code_value(t, code),
{
    match t {
        PixelType::Float => pxr24_code_to_f32_bits(code),
        PixelType::Half => half_to_f32((code % 0x1_0000) as u16),
        PixelType::Uint => uint_to_f32(code),
    }
}

fn sample_code(t: PixelType, v: u32) -> (r: u32)
    ensures
        r == code_of_sample(t, v),
{
    match t {
        PixelType::Float => pxr24_f32_to_code24(v),
        PixelType::Half => f32_to_half(v) as u32,
        PixelType::Uint => f32_to_uint(v),
    }
}

/// The number that the first `k` bytes of difference `x` spell, where a row
/// of `n` samples stands at `off`.
pub open spec fn planar(data: Seq<u8>, off: int, n: int, x: int, k: int) -> nat
    decreases k,
{
    if k <= 0 {
        0
    } else {
        256 * planar(data, off, n, x, k - 1) + data[off + (k - 1) * n + x] as nat
    }
}

/// The number of sample `x` in a row of `n` samples: the sum of the
/// differences up to it, in 32 bits.
pub open spec fn code_sum(t: PixelType, data: Seq<u8>, off: int, n: int, x: int) -> nat
    decreases x + 1,
{
    if x < 0 {
        0
    } else {
        (code_sum(t, data, off, n, x - 1) + planar(data, off, n, x, short_size(t) as int))
            % 0x1_0000_0000
    }
}

/// The samples of a row.
pub open spec fn code_row(t: PixelType, data: Seq<u8>, off: int, n: int) -> Seq<u32> {
    Seq::new(n as nat, |x: int| code_value(t, code_sum(t, data, off, n, x) as u32))
}

proof fn lemma_code_sum_bound(t: PixelType, data: Seq<u8>, off: int, n: int, x: int)
    ensures
        code_sum(t, data, off, n, x) < 0x1_0000_0000,
{
}

/// Append the samples of a row.
pub fn read_code_row(out: &mut Vec<u32>, t: PixelType, data: &[u8], off: usize, n: usize)
    requires
        off + n * short_size(t) <= data@.len(),
    ensures
        final(out)@ == old(out)@ + code_row(t, data@, off as int, n as int),
{
    let ghost start = out@;
    let size: usize = pxr24_channel_bytes(t);
    let mut acc: u32 = 0;
    let mut x: usize = 0;
    let ghost all = code_row(t, data@, off as int, n as int);
    assert(data.len() == data@.len());
    assert(start + all.take(0) =~= start);
    while x < n
        invariant
            x <= n,
            size == short_size(t),
            2 <= size <= 4,
            off + n * size <= data@.len(),
            data@.len() <= usize::MAX,
            all == code_row(t, data@, off as int, n as int),
            acc == code_sum(t, data@, off as int, n as int, x - 1),
            out@ == start + all.take(x as int),
        decreases n - x,
    {
        let mut diff: u32 = 0;
        let mut b: usize = 0;
        while b < size
            invariant
                b <= size <= 4,
                x < n,
                off + n * size <= data@.len(),
                data@.len() <= usize::MAX,
                diff == planar(data@, off as int, n as int, x as int, b as int),
                b == 0 ==> diff == 0,
                b == 1 ==> diff < 0x100,
                b == 2 ==> diff < 0x1_0000,
                b == 3 ==> diff < 0x100_0000,
            decreases size - b,
        {
            assert(b * n + x < n * size && 0 <= b * n) by (nonlinear_arith)
                requires
                    0 <= b < size,
                    0 <= x < n,
            ;
            let v: u8 = data[off + b * n + x];
            diff = diff * 256 + v as u32;
            b = b + 1;
        }
        proof {
            lemma_code_sum_bound(t, data@, off as int, n as int, x as int);
        }
        acc = acc.wrapping_add(diff);
        out.push(sample_of_code(t, acc));
        proof {
            assert(all.take(x + 1) =~= all.take(x as int).push(all[x as int]));
            assert(out@ =~= start + all.take(x + 1));
        }
        x = x + 1;
    }
    assert(all.take(n as int) =~= all);
}

// ----------------------------------------------------------------------
// Writing
// ----------------------------------------------------------------------
/// Byte `j` of a number, from the least significant one.
pub open spec fn byte_of(d: u32, j: int) -> u8 {
    if j == 0 {
        (d % 0x100) as u8
    } else if j == 1 {
        (d / 0x100 % 0x100) as u8
    } else if j == 2 {
        (d / 0x1_0000 % 0x100) as u8
    } else {
        (d / 0x100_0000) as u8
    }
}

fn take_byte(d: u32, j: usize) -> (r: u8)
    requires
        j < 4,
    ensures
        r == byte_of(d, j as int),
{
    if j == 0 {
        (d % 0x100) as u8
    } else if j == 1 {
        (d / 0x100 % 0x100) as u8
    } else if j == 2 {
        (d / 0x1_0000 % 0x100) as u8
    } else {
        (d / 0x100_0000) as u8
    }
}

/// The difference of sample `x` of a row to the one before it.
pub open spec fn difference(t: PixelType, row: Seq<u32>, x: int) -> u32 {
    ((code_of_sample(t, row[x]) - (if x > 0 {
        code_of_sample(t, row[x - 1])
    } else {
        0
    })) % 0x1_0000_0000) as u32
}

pub open spec fn differences(t: PixelType, row: Seq<u32>) -> Seq<u32> {
    Seq::new(row.len(), |x: int| difference(t, row, x))
}

/// The first `k` planes of bytes of some differences of `size` bytes.
pub open spec fn byte_planes(ds: Seq<u32>, size: int, k: int) -> Seq<u8>
    decreases k,
{
    if k <= 0 {
        Seq::empty()
    } else {
        byte_planes(ds, size, k - 1) + Seq::new(ds.len(), |x: int| byte_of(ds[x], size - k))
    }
}

/// A row as it is stored.
pub open spec fn code_row_bytes(t: PixelType, row: Seq<u32>) -> Seq<u8> {
    byte_planes(differences(t, row), short_size(t) as int, short_size(t) as int)
}

pub proof fn lemma_byte_planes_len(ds: Seq<u32>, size: int, k: int)
    requires
        0 <= k,
    ensures
        byte_planes(ds, size, k).len() == ds.len() * k,
    decreases k,
{
    let n = ds.len() as int;
    if k > 0 {
        lemma_byte_planes_len(ds, size, k - 1);
        assert(n * k == n * (k - 1) + n) by (nonlinear_arith);
    } else {
        assert(n * 0 == 0);
    }
}

/// Append a row as it is stored.
pub fn put_code_row(out: &mut Vec<u8>, t: PixelType, row: &[u32])
    ensures
        final(out)@ == old(out)@ + code_row_bytes(t, row@),
{
    let ghost start = out@;
    let size: usize = pxr24_channel_bytes(t);
    let mut ds: Vec<u32> = Vec::new();
    let mut prev: u32 = 0;
    let mut x: usize = 0;
    while x < row.len()
        invariant
            x <= row@.len(),
            ds@ == differences(t, row@).take(x as int),
            prev == (if x > 0 {
                code_of_sample(t, row@[x - 1])
            } else {
                0
            }),
        decreases row@.len() - x,
    {
        let code: u32 = sample_code(t, row[x]);
        ds.push(code.wrapping_sub(prev));
        prev = code;
        proof {
            assert(differences(t, row@).take(x + 1) =~= differences(t, row@).take(x as int).push(
                difference(t, row@, x as int),
            ));
        }
        x = x + 1;
    }
    assert(ds@ =~= differences(t, row@));
    let mut k: usize = 0;
    assert(start + Seq::<u8>::empty() =~= start);
    while k < size
        invariant
            k <= size <= 4,
            out@ == start + byte_planes(ds@, size as int, k as int),
        decreases size - k,
    {
        let ghost before = out@;
        let ghost plane = Seq::new(ds@.len(), |x: int| byte_of(ds@[x], size - k - 1));
        let mut i: usize = 0;
        assert(before + plane.take(0) =~= before);
        while i < ds.len()
            invariant
                i <= ds@.len(),
                k < size <= 4,
                plane == Seq::new(ds@.len(), |x: int| byte_of(ds@[x], size - k - 1)),
                out@ == before + plane.take(i as int),
            decreases ds@.len() - i,
        {
            out.push(take_byte(ds[i], size - 1 - k));
            proof {
                assert(plane.take(i + 1) =~= plane.take(i as int).push(plane[i as int]));
                assert(out@ =~= before + plane.take(i + 1));
            }
            i = i + 1;
        }
        proof {
            assert(plane.take(ds@.len() as int) =~= plane);
            assert(byte_planes(ds@, size as int, k + 1) =~= byte_planes(ds@, size as int, k as int)
                + plane);
            assert(out@ =~= start + byte_planes(ds@, size as int, k + 1));
        }
        k = k + 1;
    }
}

/// The bytes of plane `b` of stored differences.
proof fn lemma_plane_byte(data: Seq<u8>, off: int, ds: Seq<u32>, size: int, k: int, b: int, x: int)
    requires
        stands_at(data, off, byte_planes(ds, size, k)),
        0 <= b < k,
        0 <= x < ds.len(),
    ensures
        data[off + b * ds.len() + x] == byte_of(ds[x], size - 1 - b),
    decreases k,
{
    let last = Seq::new(ds.len(), |x: int| byte_of(ds[x], size - k));
    lemma_stands_split(data, off, byte_planes(ds, size, k - 1), last);
    lemma_byte_planes_len(ds, size, k - 1);
    if b < k - 1 {
        lemma_plane_byte(data, off, ds, size, k - 1, b, x);
    } else {
        let at = off + byte_planes(ds, size, k - 1).len();
        assert(ds.len() * (k - 1) == b * ds.len()) by (nonlinear_arith)
            requires
                b == k - 1,
        ;
        assert(data.subrange(at, at + last.len())[x] == last[x]);
    }
}

/// How many numbers a difference of a type is taken from.
pub open spec fn modulus(t: PixelType) -> int {
    match t {
        PixelType::Float => 0x100_0000,
        PixelType::Half => 0x1_0000,
        PixelType::Uint => 0x1_0000_0000,
    }
}

proof fn lemma_two_bytes(d: u32)
    ensures
        256 * byte_of(d, 1) + byte_of(d, 0) == d % 0x1_0000,
{
}

proof fn lemma_three_bytes(d: u32)
    ensures
        256 * (256 * byte_of(d, 2) + byte_of(d, 1)) + byte_of(d, 0) == d % 0x100_0000,
{
}

proof fn lemma_four_bytes(d: u32)
    ensures
        256 * (256 * (256 * byte_of(d, 3) + byte_of(d, 2)) + byte_of(d, 1)) + byte_of(d, 0) == d,
{
}

proof fn lemma_sum_step(t: PixelType, a: int, p: int, c: int)
    requires
        0 <= a,
        a % modulus(t) == p,
        0 <= c < modulus(t),
    ensures
        ((a + (c - p) % 0x1_0000_0000 % modulus(t)) % 0x1_0000_0000) % modulus(t) == c,
{
    let m = modulus(t);
    let d = (c - p) % 0x1_0000_0000 % m;
    match t {
        PixelType::Float => {
            lemma_mod_mod(c - p, 0x100_0000, 0x100);
            lemma_mod_mod(a + d, 0x100_0000, 0x100);
        },
        PixelType::Half => {
            lemma_mod_mod(c - p, 0x1_0000, 0x1_0000);
            lemma_mod_mod(a + d, 0x1_0000, 0x1_0000);
        },
        PixelType::Uint => {
            lemma_mod_mod(c - p, 0x1_0000_0000, 1);
            lemma_mod_mod(a + d, 0x1_0000_0000, 1);
        },
    }
    lemma_sum_of_difference(a, c - p, m);
    lemma_fundamental_div_mod(a, m);
    lemma_mod_multiples_vanish(a / m, c, m);
    lemma_small_mod(c as nat, m as nat);
}

proof fn lemma_sum_of_difference(a: int, y: int, m: int)
    requires
        0 < m,
    ensures
        (a + y % m) % m == (a + y) % m,
{
    lemma_add_mod_noop_right(a, y, m);
}

/// What a difference is read back as.
proof fn lemma_difference_reads_back(t: PixelType, data: Seq<u8>, off: int, ds: Seq<u32>, x: int)
    requires
        stands_at(data, off, byte_planes(ds, short_size(t) as int, short_size(t) as int)),
        0 <= x < ds.len(),
    ensures
        planar(data, off, ds.len() as int, x, short_size(t) as int) == ds[x] as int % modulus(t),
{
    let size = short_size(t) as int;
    let n = ds.len() as int;
    assert(0 * n == 0);
    assert(1 * n == n);
    lemma_plane_byte(data, off, ds, size, size, 0, x);
    lemma_plane_byte(data, off, ds, size, size, 1, x);
    assert(planar(data, off, n, x, 0) == 0);
    assert(planar(data, off, n, x, 1) == byte_of(ds[x], size - 1));
    assert(planar(data, off, n, x, 2) == 256 * byte_of(ds[x], size - 1) + byte_of(
        ds[x],
        size - 2,
    ));
    match t {
        PixelType::Half => {
            lemma_two_bytes(ds[x]);
        },
        PixelType::Float => {
            lemma_plane_byte(data, off, ds, size, size, 2, x);
            lemma_three_bytes(ds[x]);
        },
        PixelType::Uint => {
            lemma_plane_byte(data, off, ds, size, size, 2, x);
            lemma_plane_byte(data, off, ds, size, size, 3, x);
            assert(planar(data, off, n, x, 3) == 256 * (256 * byte_of(ds[x], 3) + byte_of(
                ds[x],
                2,
            )) + byte_of(ds[x], 1));
            lemma_four_bytes(ds[x]);
        },
    }
}

/// The sums of the differences are the numbers of the samples again.
proof fn lemma_codes_read_back(t: PixelType, data: Seq<u8>, off: int, row: Seq<u32>, x: int)
    requires
        stands_at(data, off, code_row_bytes(t, row)),
        -1 <= x < row.len(),
    ensures
        x >= 0 ==> code_sum(t, data, off, row.len() as int, x) as int % modulus(t)
            == code_of_sample(t, row[x]),
    decreases x + 1,
{
    if x >= 0 {
        let ds = differences(t, row);
        let n = row.len() as int;
        lemma_codes_read_back(t, data, off, row, x - 1);
        lemma_difference_reads_back(t, data, off, ds, x);
        lemma_code_bound(t, row[x]);
        if x > 0 {
            lemma_code_bound(t, row[x - 1]);
        }
        let a = code_sum(t, data, off, n, x - 1) as int;
        let c = code_of_sample(t, row[x]) as int;
        let p = if x > 0 {
            code_of_sample(t, row[x - 1]) as int
        } else {
            0
        };
        assert(ds[x] == (c - p) % 0x1_0000_0000);
        assert(x == 0 ==> a == 0);
        assert(0int % modulus(t) == 0);
        lemma_sum_step(t, a, p, c);
    }
}

proof fn lemma_code_bound(t: PixelType, v: u32)
    ensures
        code_of_sample(t, v) < modulus(t),
{
    let rest = v % 0x8000_0000;
    assert(v / 0x8000_0000 <= 1);
    assert(v / 0x80_0000 % 0x100 != 0xff ==> rest < 0x7f80_0000);
}

/// A number that is right but for the modulus stands for the sample.
proof fn lemma_code_value(t: PixelType, s: u32, v: u32)
    requires
        s as int % modulus(t) == code_of_sample(t, v),
    ensures
        code_value(t, s) == short_value(t, v),
{
    let c = code_of_sample(t, v);
    match t {
        PixelType::Float => {
            assert(s % 0x100_0000 == c % 0x100_0000);
        },
        PixelType::Half => {
            assert(s % 0x1_0000 == c % 0x1_0000);
        },
        PixelType::Uint => {
            assert(s == c);
        },
    }
}

/// A row that is stored is read back.
pub proof fn lemma_code_row_reads_back(t: PixelType, data: Seq<u8>, off: int, row: Seq<u32>)
    requires
        stands_at(data, off, code_row_bytes(t, row)),
    ensures
        code_row(t, data, off, row.len() as int) == row.map_values(|v: u32| short_value(t, v)),
{
    let n = row.len() as int;
    assert forall|x: int| 0 <= x < n implies code_value(
        t,
        code_sum(t, data, off, n, x) as u32,
    ) == short_value(t, row[x]) by {
        lemma_codes_read_back(t, data, off, row, x);
        lemma_code_sum_bound(t, data, off, n, x);
        lemma_code_value(t, code_sum(t, data, off, n, x) as u32, row[x]);
    }
    assert(code_row(t, data, off, n) =~= row.map_values(|v: u32| short_value(t, v)));
}

/// Samples whose low eight bits are zero keep their value.
pub proof fn law_short_exact(v: u32)
    requires
        v % 0x100 == 0,
    ensures
        short_value(PixelType::Float, v) == v,
{
}

/// Storing a sample that was read back changes nothing more.
pub proof fn law_short_stable(v: u32)
    ensures
        short_value(PixelType::Float, short_value(PixelType::Float, v)) == short_value(
            PixelType::Float,
            v,
        ),
{
    lemma_code_bound(PixelType::Float, v);
    let c = code24(v);
    assert(pxr24_bits(c) == c * 0x100);
    law_short_exact(pxr24_bits(c));
}

/// A float that is shortened keeps its sign and is at most half a unit of the
/// last kept place off; an infinity stays, a NaN stays one, and a finite number
/// stays finite.
pub proof fn law_short_float(v: u32)
    ensures
        ({
            let r = short_value(PixelType::Float, v);
            &&& r % 0x100 == 0
            &&& r / 0x8000_0000 == v / 0x8000_0000
            &&& v % 0x8000_0000 == 0x7f80_0000 ==> r == v
            &&& v % 0x8000_0000 > 0x7f80_0000 ==> r % 0x8000_0000 > 0x7f80_0000
            &&& v % 0x8000_0000 < 0x7f80_0000 ==> r % 0x8000_0000 < 0x7f80_0000
            &&& v % 0x8000_0000 < 0x7f7f_ff80 ==> -0x80 < r - v <= 0x80
            &&& 0x7f7f_ff80 <= v % 0x8000_0000 < 0x7f80_0000 ==> r % 0x8000_0000 == 0x7f7f_ff00
        }),
{
}

} // verus!
