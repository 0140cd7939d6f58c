//! The bytes of the channels of a chunk, as the three ways of storing them
//! see them.

use crate::bytes::{put_bytes, put_u16, put_u32, read_u16, read_u32, u16_at, u16_le, u32_at, u32_le};
use crate::dwa_regions::{lemma_span, regions_fit, rows_of, span_of};
use crate::dwa_rules::DwaScheme;
use crate::dwa_tables::PerceptualTables;
use crate::flat_block::{at_least_one, lemma_sampled_monotonic, subsampled_dim, wide};
use crate::half::{f32_as_half, f32_to_half, half_as_f32, half_to_f32};
use crate::layout::byte_views;
use crate::types::{channel_views, Channel, ChannelView, PixelType};
use vstd::arithmetic::div_mod::*;
use vstd::prelude::*;

verus! {

broadcast use crate::bytes::group_le_len;

// ----------------------------------------------------------------------
// Byte planes
// ----------------------------------------------------------------------
/// The first bytes of all samples of `z` bytes, then the second ones, and so
/// on.
pub open spec fn split_bytes(region: Seq<u8>, z: int) -> Seq<u8> {
    let count = region.len() as int / z;
    Seq::new(region.len(), |i: int| region[(i % count) * z + i / count])
}

/// The samples that were split into their bytes.
pub open spec fn unsplit_bytes(part: Seq<u8>, z: int) -> Seq<u8> {
    let count = part.len() as int / z;
    Seq::new(part.len(), |i: int| part[(i % z) * count + i / z])
}

/// The place of byte `j` of sample `s`.
proof fn lemma_byte_place(count: int, z: int, s: int, j: int)
    requires
        0 <= s < count,
        0 <= j < z,
    ensures
        0 <= s * z + j < count * z,
        (s * z + j) / z == s,
        (s * z + j) % z == j,
{
    assert(0 <= s * z && s * z + j < count * z) by (nonlinear_arith)
        requires
            0 <= s,
            s + 1 <= count,
            0 <= j < z,
    ;
    lemma_fundamental_div_mod_converse(s * z + j, z, s, j);
}

/// Every byte is one of a sample.
proof fn lemma_byte_split(count: int, z: int, i: int)
    requires
        0 <= i < count * z,
        0 < z,
    ensures
        0 <= i / z < count,
        0 <= i % z < z,
        (i / z) * z + i % z == i,
{
    let (s, j) = (i / z, i % z);
    lemma_fundamental_div_mod(i, z);
    lemma_mod_bound(i, z);
    lemma_div_pos_is_pos(i, z);
    assert(s * z + j == i) by (nonlinear_arith)
        requires
            i == z * s + j,
    ;
    assert(s < count) by (nonlinear_arith)
        requires
            s * z + j == i,
            i < count * z,
            0 <= j,
            0 < z,
    ;
}

proof fn lemma_whole_samples(len: int, count: int, z: int)
    requires
        len == count * z,
        0 < z,
    ensures
        len / z == count,
        len % z == 0,
        len == z * count,
{
    lemma_fundamental_div_mod_converse(len, z, count, 0);
    assert(count * z == z * count) by (nonlinear_arith);
}

proof fn lemma_samples_of(len: int, z: int)
    requires
        0 <= len,
        0 < z,
        len % z == 0,
    ensures
        0 <= len / z,
        len == (len / z) * z,
{
    lemma_fundamental_div_mod(len, z);
    lemma_div_pos_is_pos(len, z);
    let q = len / z;
    assert(z * q == q * z) by (nonlinear_arith);
}

/// Samples that were split are put together again.
pub proof fn law_unsplit_of_split(region: Seq<u8>, z: int, count: int)
    requires
        0 < z,
        0 <= count,
        region.len() == count * z,
    ensures
        unsplit_bytes(split_bytes(region, z), z) == region,
        split_bytes(region, z).len() == region.len(),
{
    lemma_whole_samples(region.len() as int, count, z);
    let got = unsplit_bytes(split_bytes(region, z), z);
    assert forall|i: int| 0 <= i < region.len() implies got[i] == region[i] by {
        lemma_byte_split(count, z, i);
        lemma_byte_place(z, count, i % z, i / z);
    }
    assert(got =~= region);
}

/// Samples that were put together are split again.
pub proof fn law_split_of_unsplit(part: Seq<u8>, z: int, count: int)
    requires
        0 < z,
        0 <= count,
        part.len() == count * z,
    ensures
        split_bytes(unsplit_bytes(part, z), z) == part,
        unsplit_bytes(part, z).len() == part.len(),
{
    lemma_whole_samples(part.len() as int, count, z);
    let got = split_bytes(unsplit_bytes(part, z), z);
    assert forall|i: int| 0 <= i < part.len() implies got[i] == part[i] by {
        if count == 0 {
            assert(0 * z == 0);
        } else {
            lemma_byte_split(z, count, i);
            lemma_byte_place(count, z, i % count, i / count);
        }
    }
    assert(got =~= part);
}

/// Append the bytes of samples, split.
pub fn put_split(out: &mut Vec<u8>, region: &[u8], z: usize)
    requires
        0 < z,
        region@.len() % (z as nat) == 0,
    ensures
        final(out)@ == old(out)@ + split_bytes(region@, z as int),
{
    let ghost start = out@;
    let ghost all = split_bytes(region@, z as int);
    let ghost count = region@.len() as int / z as int;
    proof {
        lemma_samples_of(region@.len() as int, z as int);
        lemma_whole_samples(region@.len() as int, count, z as int);
    }
    let n: usize = region.len() / z;
    let mut j: usize = 0;
    assert(0 * n == 0);
    assert(start + all.take(0) =~= start);
    while j < z
        invariant
            j <= z,
            n == count,
            region@.len() == count * z,
            region@.len() == z * n,
            region@.len() / (z as nat) == count,
            region@.len() <= usize::MAX,
            all == split_bytes(region@, z as int),
            all.len() == region@.len(),
            0 <= j * n <= all.len(),
            out@ == start + all.take(j * n),
        decreases z - j,
    {
        assert((j + 1) * n == j * n + n && j * n + n <= z * n) by (nonlinear_arith)
            requires
                j + 1 <= z,
                0 <= n,
        ;
        let mut s: usize = 0;
        while s < n
            invariant
                j < z,
                s <= n,
                n == count,
                region@.len() == count * z,
                region@.len() == z * n,
                region@.len() / (z as nat) == count,
                region@.len() <= usize::MAX,
                all == split_bytes(region@, z as int),
                all.len() == region@.len(),
                0 <= j * n,
                j * n + n <= all.len(),
                out@ == start + all.take(j * n + s),
            decreases n - s,
        {
            proof {
                lemma_byte_place(count, z as int, s as int, j as int);
                lemma_byte_place(z as int, count, j as int, s as int);
                assert(0 <= s * z) by (nonlinear_arith)
                    requires
                        0 <= s,
                        0 <= z,
                ;
            }
            let b: u8 = region[s * z + j];
            out.push(b);
            proof {
                assert(b == all[j * n + s]);
                assert(out@ =~= start + all.take(j * n + s + 1));
            }
            s = s + 1;
        }
        j = j + 1;
    }
    assert(all.take(z * n) =~= all);
}

/// Put samples together that were split.
pub fn unsplit(part: &[u8], z: usize) -> (r: Vec<u8>)
    requires
        0 < z,
        part@.len() % (z as nat) == 0,
    ensures
        r@ == unsplit_bytes(part@, z as int),
{
    let ghost all = unsplit_bytes(part@, z as int);
    let ghost count = part@.len() as int / z as int;
    proof {
        lemma_samples_of(part@.len() as int, z as int);
        lemma_whole_samples(part@.len() as int, count, z as int);
    }
    let n: usize = part.len() / z;
    let mut r: Vec<u8> = Vec::new();
    let mut i: usize = 0;
    while i < part.len()
        invariant
            i <= part@.len(),
            0 < z,
            n == count,
            part@.len() == count * z,
            part@.len() == z * n,
            part@.len() / (z as nat) == count,
            part@.len() <= usize::MAX,
            all == unsplit_bytes(part@, z as int),
            r@.len() == i,
            forall|k: int| 0 <= k < i ==> r@[k] == all[k],
        decreases part@.len() - i,
    {
        proof {
            lemma_byte_split(count, z as int, i as int);
            lemma_byte_place(z as int, count, (i % z) as int, (i / z) as int);
            assert(0 <= (i % z) * n) by (nonlinear_arith)
                requires
                    0 <= i % z,
                    0 <= n,
            ;
        }
        r.push(part[(i % z) * n + i / z]);
        i = i + 1;
    }
    assert(r@ =~= all);
    r
}

// ----------------------------------------------------------------------
// Samples of lossy channels
// ----------------------------------------------------------------------
/// The bytes of a code in a channel of a type.
pub open spec fn code_bytes(t: PixelType, code: u16) -> Seq<u8> {
    match t {
        PixelType::Half => u16_le(code),
        _ => u32_le(half_as_f32(code)),
    }
}

/// The bytes of codes in a channel of a type.
pub open spec fn codes_bytes(t: PixelType, codes: Seq<u16>) -> Seq<u8>
    decreases codes.len(),
{
    if codes.len() == 0 {
        Seq::empty()
    } else {
        codes_bytes(t, codes.drop_last()) + code_bytes(t, codes.last())
    }
}

pub proof fn lemma_codes_bytes_len(t: PixelType, codes: Seq<u16>)
    ensures
        codes_bytes(t, codes).len() == codes.len() * (if t == PixelType::Half {
            2int
        } else {
            4int
        }),
    decreases codes.len(),
{
    if codes.len() > 0 {
        lemma_codes_bytes_len(t, codes.drop_last());
    }
}

/// The bytes of codes in a channel of a type.
pub fn bytes_of_codes(t: PixelType, codes: &[u16]) -> (r: Vec<u8>)
    ensures
        r@ == codes_bytes(t, codes@),
{
    let mut r: Vec<u8> = Vec::new();
    let mut i: usize = 0;
    while i < codes.len()
        invariant
            i <= codes@.len(),
            r@ == codes_bytes(t, codes@.take(i as int)),
        decreases codes@.len() - i,
    {
        match t {
            PixelType::Half => {
                put_u16(&mut r, codes[i]);
            },
            _ => {
                put_u32(&mut r, half_to_f32(codes[i]));
            },
        }
        assert(codes@.take(i + 1).drop_last() =~= codes@.take(i as int));
        i = i + 1;
    }
    assert(codes@.take(i as int) =~= codes@);
    r
}

/// A binary32 number within what a half can hold; one that is not a number is
/// left alone.
pub open spec fn clamped(v: u32) -> u32 {
    let size = v % 0x8000_0000;
    if size > 0x477f_e000 && size <= 0x7f80_0000 {
        (v - size + 0x477f_e000) as u32
    } else {
        v
    }
}

fn clamp_to_half(v: u32) -> (r: u32)
    ensures
        r == clamped(v),
{
    let size: u32 = v % 0x8000_0000;
    if size > 0x477f_e000 && size <= 0x7f80_0000 {
        v - size + 0x477f_e000
    } else {
        v
    }
}

/// Reduce a binary32 number to the half nearest to it that is finite.
pub fn f32_to_half_clamped(v: u32) -> (r: u16)
    ensures
        r == f32_as_half(clamped(v)),
{
    f32_to_half(clamp_to_half(v))
}

/// The code of sample `i` of a channel.
pub open spec fn half_code(region: Seq<u8>, t: PixelType, i: int) -> u16 {
    match t {
        PixelType::Half => u16_at(region, 2 * i),
        _ => f32_as_half(clamped(u32_at(region, 4 * i))),
    }
}

/// The codes of the samples of a channel.
pub open spec fn half_codes(region: Seq<u8>, t: PixelType) -> Seq<u16> {
    Seq::new((region.len() as int / t.size() as int) as nat, |i: int| half_code(region, t, i))
}

/// The samples of a channel as they are cut into squares: on a curve, unless
/// the channel is linear.
pub open spec fn plane_values(codes: Seq<u16>, linear: bool, table: Seq<u16>) -> Seq<u32> {
    Seq::new(
        codes.len(),
        |i: int|
            half_as_f32(
                if linear {
                    codes[i]
                } else {
                    table[codes[i] as int]
                },
            ),
    )
}

/// The samples of a lossy channel.
pub fn lossy_values(region: &[u8], t: PixelType, linear: bool, tables: &PerceptualTables) -> (r: Vec<u32>)
    requires
        tables.inv(),
        t != PixelType::Uint,
    ensures
        r@ == plane_values(half_codes(region@, t), linear, tables.nonlinear_codes()),
{
    let ghost codes = half_codes(region@, t);
    let ghost all = plane_values(codes, linear, tables.nonlinear_codes());
    let z: usize = t.bytes_per_sample();
    let n: usize = region.len() / z;
    let mut r: Vec<u32> = Vec::new();
    let mut i: usize = 0;
    while i < n
        invariant
            i <= n,
            tables.inv(),
            t != PixelType::Uint,
            z == t.size(),
            n == region@.len() / (z as nat),
            region@.len() <= usize::MAX,
            codes == half_codes(region@, t),
            all == plane_values(codes, linear, tables.nonlinear_codes()),
            r@.len() == i,
            forall|k: int| 0 <= k < i ==> r@[k] == all[k],
        decreases n - i,
    {
        let code: u16 = match t {
            PixelType::Half => {
                read_u16(region, 2 * i)
            },
            _ => {
                f32_to_half_clamped(read_u32(region, 4 * i))
            },
        };
        assert(code == codes[i as int]);
        let curved: u16 = if linear {
            code
        } else {
            tables.to_nonlinear(code)
        };
        r.push(half_to_f32(curved));
        i = i + 1;
    }
    assert(r@ =~= all);
    r
}

// ----------------------------------------------------------------------
// Channels that are stored alike
// ----------------------------------------------------------------------
/// The bytes of those of the first `k` channels that are stored in a way.
pub open spec fn scheme_size(
    cs: Seq<ChannelView>,
    classes: Seq<(DwaScheme, i8)>,
    s: DwaScheme,
    width: int,
    y0: int,
    n: int,
    k: int,
) -> int
    decreases k,
{
    if k <= 0 {
        0
    } else {
        scheme_size(cs, classes, s, width, y0, n, k - 1) + if classes[k - 1].0 == s {
            span_of(cs[k - 1], width, y0, n)
        } else {
            0
        }
    }
}

pub proof fn lemma_scheme_size(
    cs: Seq<ChannelView>,
    classes: Seq<(DwaScheme, i8)>,
    s: DwaScheme,
    width: int,
    y0: int,
    n: int,
    a: int,
    b: int,
)
    requires
        0 <= width,
        0 <= y0,
        0 <= n,
        0 <= a <= b <= cs.len(),
    ensures
        0 <= scheme_size(cs, classes, s, width, y0, n, a) <= scheme_size(
            cs,
            classes,
            s,
            width,
            y0,
            n,
            b,
        ),
        a < b && classes[a].0 == s ==> scheme_size(cs, classes, s, width, y0, n, a) + span_of(
            cs[a],
            width,
            y0,
            n,
        ) <= scheme_size(cs, classes, s, width, y0, n, b),
    decreases b,
{
    if b > 0 {
        lemma_span(cs[b - 1], width, y0, n);
        if a < b {
            lemma_scheme_size(cs, classes, s, width, y0, n, a, b - 1);
        } else {
            lemma_scheme_size(cs, classes, s, width, y0, n, b - 1, b - 1);
        }
    }
}

/// A number, as far as it can be counted.
pub open spec fn counted(x: int) -> u64 {
    if x > u64::MAX {
        u64::MAX
    } else {
        x as u64
    }
}

/// The number of rows of a channel in a chunk.
pub fn row_count(c: &Channel, y0: u32, n: u32) -> (r: u32)
    requires
        y0 + n <= u32::MAX,
    ensures
        r == rows_of(c@, y0 as int, n as int),
        r <= n,
{
    let step: u32 = at_least_one(c.y_sampling);
    proof {
        lemma_sampled_monotonic(y0 as int, y0 + n, step as int);
        crate::dwa_regions::lemma_rows_bound(c@, y0 as int, n as int);
    }
    subsampled_dim(y0 + n, step) - subsampled_dim(y0, step)
}

/// The number of samples in a row of a channel.
pub fn column_count(c: &Channel, width: u32) -> (r: u32)
    ensures
        r == wide(c@, width as int),
        r <= width,
{
    subsampled_dim(width, at_least_one(c.x_sampling))
}

/// The bytes of a channel in a chunk.
pub fn span_bytes(c: &Channel, width: u32, y0: u32, n: u32) -> (r: u128)
    requires
        y0 + n <= u32::MAX,
    ensures
        r == span_of(c@, width as int, y0 as int, n as int),
        r <= 0x4_0000_0000_0000_0000,
{
    let rows: u32 = row_count(c, y0, n);
    let cols: u32 = column_count(c, width);
    let z: usize = c.pixel_type.bytes_per_sample();
    assert(cols * z <= 0x4_0000_0000) by (nonlinear_arith)
        requires
            cols <= 0xffff_ffff,
            z <= 4,
    ;
    let row: u64 = cols as u64 * z as u64;
    assert(rows * row <= 0x4_0000_0000_0000_0000) by (nonlinear_arith)
        requires
            rows <= 0xffff_ffff,
            row <= 0x4_0000_0000,
    ;
    rows as u128 * row as u128
}

/// The bytes of the channels that are stored in a way, as far as they can be
/// counted.
pub fn scheme_bytes_count(
    channels: &[Channel],
    classes: &[(DwaScheme, i8)],
    s: DwaScheme,
    width: u32,
    y0: u32,
    n: u32,
) -> (r: u64)
    requires
        y0 + n <= u32::MAX,
        classes@.len() == channels@.len(),
    ensures
        r == counted(
            scheme_size(
                channel_views(channels@),
                classes@,
                s,
                width as int,
                y0 as int,
                n as int,
                channels@.len() as int,
            ),
        ),
{
    let ghost cs = channel_views(channels@);
    let mut total: u64 = 0;
    let mut k: usize = 0;
    while k < channels.len()
        invariant
            k <= channels@.len(),
            y0 + n <= u32::MAX,
            classes@.len() == channels@.len(),
            cs == channel_views(channels@),
            cs.len() == channels@.len(),
            total == counted(
                scheme_size(cs, classes@, s, width as int, y0 as int, n as int, k as int),
            ),
        decreases channels@.len() - k,
    {
        assert(cs[k as int] == channels@[k as int]@);
        proof {
            lemma_scheme_size(
                cs,
                classes@,
                s,
                width as int,
                y0 as int,
                n as int,
                k as int,
                k as int,
            );
        }
        if classes[k].0 == s {
            let more: u128 = total as u128 + span_bytes(&channels[k], width, y0, n);
            total = if more > u64::MAX as u128 {
                u64::MAX
            } else {
                more as u64
            };
        }
        k = k + 1;
    }
    total
}

/// The bytes of the first `k` channels that are stored in a way, one behind
/// the other.
pub open spec fn scheme_bytes(parts: Seq<Seq<u8>>, classes: Seq<(DwaScheme, i8)>, s: DwaScheme, k: int) -> Seq<u8>
    decreases k,
{
    if k <= 0 {
        Seq::empty()
    } else {
        scheme_bytes(parts, classes, s, k - 1) + if classes[k - 1].0 == s {
            parts[k - 1]
        } else {
            Seq::empty()
        }
    }
}

/// Every channel, split into the bytes of its samples.
pub open spec fn split_parts(regions: Seq<Seq<u8>>, cs: Seq<ChannelView>) -> Seq<Seq<u8>> {
    Seq::new(cs.len(), |c: int| split_bytes(regions[c], cs[c].pixel_type.size() as int))
}

pub proof fn lemma_scheme_bytes_len(
    parts: Seq<Seq<u8>>,
    cs: Seq<ChannelView>,
    classes: Seq<(DwaScheme, i8)>,
    s: DwaScheme,
    width: int,
    y0: int,
    n: int,
    k: int,
)
    requires
        regions_fit(parts, cs, width, y0, n),
        classes.len() == cs.len(),
        0 <= k <= cs.len(),
    ensures
        scheme_bytes(parts, classes, s, k).len() == scheme_size(cs, classes, s, width, y0, n, k),
    decreases k,
{
    if k > 0 {
        lemma_scheme_bytes_len(parts, cs, classes, s, width, y0, n, k - 1);
        assert(parts[k - 1].len() == span_of(cs[k - 1], width, y0, n));
    }
}

/// What is stored for a channel is found at its place.
pub proof fn law_scheme_part(
    parts: Seq<Seq<u8>>,
    cs: Seq<ChannelView>,
    classes: Seq<(DwaScheme, i8)>,
    s: DwaScheme,
    width: int,
    y0: int,
    n: int,
    k: int,
    c: int,
)
    requires
        regions_fit(parts, cs, width, y0, n),
        classes.len() == cs.len(),
        0 <= width,
        0 <= y0,
        0 <= n,
        0 <= c < k <= cs.len(),
        classes[c].0 == s,
    ensures
        ({
            let at = scheme_size(cs, classes, s, width, y0, n, c);
            let end = at + span_of(cs[c], width, y0, n);
            &&& 0 <= at <= end <= scheme_bytes(parts, classes, s, k).len()
            &&& scheme_bytes(parts, classes, s, k).subrange(at, end) == parts[c]
        }),
    decreases k,
{
    let at = scheme_size(cs, classes, s, width, y0, n, c);
    let end = at + span_of(cs[c], width, y0, n);
    lemma_scheme_bytes_len(parts, cs, classes, s, width, y0, n, k);
    lemma_scheme_bytes_len(parts, cs, classes, s, width, y0, n, k - 1);
    lemma_scheme_size(cs, classes, s, width, y0, n, c, k);
    lemma_span(cs[c], width, y0, n);
    assert(parts[c].len() == span_of(cs[c], width, y0, n));
    let all = scheme_bytes(parts, classes, s, k);
    if c < k - 1 {
        law_scheme_part(parts, cs, classes, s, width, y0, n, k - 1, c);
        assert(all.subrange(at, end) =~= scheme_bytes(parts, classes, s, k - 1).subrange(at, end));
    } else {
        assert(all.subrange(at, end) =~= parts[c]);
    }
}

/// The bytes of a channel are whole samples.
pub proof fn lemma_whole_span(c: ChannelView, width: int, y0: int, n: int)
    requires
        0 <= width,
        0 <= y0,
        0 <= n,
    ensures
        span_of(c, width, y0, n) == (rows_of(c, y0, n) * wide(c, width)) * c.pixel_type.size(),
        0 <= rows_of(c, y0, n) * wide(c, width),
        span_of(c, width, y0, n) / c.pixel_type.size() as int == rows_of(c, y0, n) * wide(c, width),
        span_of(c, width, y0, n) % c.pixel_type.size() as int == 0,
{
    lemma_span(c, width, y0, n);
    let (a, b, z) = (rows_of(c, y0, n), wide(c, width), c.pixel_type.size() as int);
    assert(a * (b * z) == (a * b) * z && 0 <= a * b) by (nonlinear_arith)
        requires
            0 <= a,
            0 <= b,
    ;
    lemma_whole_samples(span_of(c, width, y0, n), a * b, z);
}

pub proof fn lemma_split_parts_fit(regions: Seq<Seq<u8>>, cs: Seq<ChannelView>, width: int, y0: int, n: int)
    requires
        regions_fit(regions, cs, width, y0, n),
    ensures
        regions_fit(split_parts(regions, cs), cs, width, y0, n),
{
    assert forall|c: int| 0 <= c < cs.len() implies (#[trigger] split_parts(regions, cs)[c]).len()
        == span_of(cs[c], width, y0, n) by {
        assert(regions[c].len() == span_of(cs[c], width, y0, n));
    }
}

/// Gather the bytes of the channels that are stored in a way, split into the
/// bytes of their samples where that is wanted.
pub(crate) fn gather_scheme(
    regions: &[Vec<u8>],
    channels: &[Channel],
    classes: &[(DwaScheme, i8)],
    s: DwaScheme,
    split: bool,
    Ghost(width): Ghost<int>,
    Ghost(y0): Ghost<int>,
    Ghost(n): Ghost<int>,
) -> (r: Vec<u8>)
    requires
        regions_fit(byte_views(regions@), channel_views(channels@), width, y0, n),
        classes@.len() == channels@.len(),
        0 <= width,
        0 <= y0,
        0 <= n,
    ensures
        r@ == scheme_bytes(
            if split {
                split_parts(byte_views(regions@), channel_views(channels@))
            } else {
                byte_views(regions@)
            },
            classes@,
            s,
            channels@.len() as int,
        ),
{
    let ghost cs = channel_views(channels@);
    let ghost rs = byte_views(regions@);
    let ghost parts = if split {
        split_parts(rs, cs)
    } else {
        rs
    };
    let mut r: Vec<u8> = Vec::new();
    let mut k: usize = 0;
    while k < channels.len()
        invariant
            k <= channels@.len(),
            cs == channel_views(channels@),
            cs.len() == channels@.len(),
            rs == byte_views(regions@),
            parts == if split {
                split_parts(rs, cs)
            } else {
                rs
            },
            regions_fit(rs, cs, width, y0, n),
            classes@.len() == channels@.len(),
            0 <= width,
            0 <= y0,
            0 <= n,
            r@ == scheme_bytes(parts, classes@, s, k as int),
        decreases channels@.len() - k,
    {
        assert(cs[k as int] == channels@[k as int]@);
        assert(rs[k as int] == regions@[k as int]@);
        assert(regions@.len() == rs.len());
        if classes[k].0 == s {
            if split {
                proof {
                    lemma_whole_span(cs[k as int], width, y0, n);
                }
                put_split(
                    &mut r,
                    regions[k].as_slice(),
                    channels[k].pixel_type.bytes_per_sample(),
                );
            } else {
                put_bytes(&mut r, regions[k].as_slice());
            }
        } else {
            assert(r@ + Seq::<u8>::empty() =~= r@);
        }
        k = k + 1;
    }
    r
}

} // verus!
