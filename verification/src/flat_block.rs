//! How the samples of some lines of a flat image are put one behind the
//! other: line by line, and in each line channel by channel.
//!
//! A channel may hold only every n-th sample of a line, and only every n-th
//! line. Two orders of bytes are known: the plain one, and the short one of
//! the 24-bit coder.

use crate::bytes::{lemma_stands_split, slice_range, stands_at};
use crate::deep_block::plane_views;
use crate::deep_input::slice_views;
use crate::pxr24::{
    code_row, code_row_bytes, lemma_byte_planes_len, lemma_code_row_reads_back, put_code_row,
    pxr24_channel_bytes, read_code_row, short_size, short_value,
};
use crate::samples::{
    lemma_plane_bytes_len, lemma_plane_reads_back, plane_bytes, put_plane, read_sample, sample_at,
    stored_value,
};
use crate::types::{channel_views, Channel, ChannelView};
use vstd::prelude::*;

verus! {

broadcast use crate::bytes::group_le_len;

/// How many samples stand for `n` pixels, of which every `s`-th is sampled.
pub open spec fn sampled(n: int, s: int) -> int {
    if s <= 1 {
        n
    } else {
        (n + s - 1) / s
    }
}

/// The number of samples of a channel along an axis.
pub fn subsampled_dim(dim: u32, sampling: u32) -> (r: u32)
    ensures
        r == sampled(dim as int, sampling as int),
        r <= dim,
{
    if sampling <= 1 {
        return dim;
    }
    let q: u32 = dim / sampling;
    let rest: u32 = dim % sampling;
    proof {
        let (n, s, k, m) = (dim as int, sampling as int, q as int, rest as int);
        vstd::arithmetic::div_mod::lemma_fundamental_div_mod(n, s);
        if m == 0 {
            assert(n + s - 1 == k * s + (s - 1)) by (nonlinear_arith)
                requires
                    n == s * k,
            ;
            vstd::arithmetic::div_mod::lemma_fundamental_div_mod_converse(n + s - 1, s, k, s - 1);
            assert(k <= n) by (nonlinear_arith)
                requires
                    n == s * k,
                    s >= 1,
                    k >= 0,
            ;
        } else {
            assert(n + s - 1 == (k + 1) * s + (m - 1)) by (nonlinear_arith)
                requires
                    n == s * k + m,
            ;
            vstd::arithmetic::div_mod::lemma_fundamental_div_mod_converse(n + s - 1, s, k + 1, m - 1);
            assert(k + 1 <= n) by (nonlinear_arith)
                requires
                    n == s * k + m,
                    s >= 1,
                    m >= 1,
                    k >= 0,
            ;
        }
    }
    if rest == 0 {
        q
    } else {
        q + 1
    }
}

/// A line more adds a sample where the line is one that is sampled.
pub proof fn lemma_sampled_step(y: int, s: int)
    requires
        0 <= y,
        1 <= s,
    ensures
        sampled(y + 1, s) == sampled(y, s) + (if y % s == 0 {
            1int
        } else {
            0int
        }),
        sampled(0, s) == 0,
        0 <= sampled(y, s) <= y,
{
    if s > 1 {
        let (k, m) = (y / s, y % s);
        vstd::arithmetic::div_mod::lemma_fundamental_div_mod(y, s);
        vstd::arithmetic::div_mod::lemma_fundamental_div_mod_converse(s - 1, s, 0, s - 1);
        vstd::arithmetic::div_mod::lemma_div_pos_is_pos(y, s);
        assert(y + s == (k + 1) * s + m) by (nonlinear_arith)
            requires
                y == s * k + m,
        ;
        vstd::arithmetic::div_mod::lemma_fundamental_div_mod_converse(y + s, s, k + 1, m);
        assert(k <= y && (m > 0 ==> k + 1 <= y)) by (nonlinear_arith)
            requires
                y == s * k + m,
                s >= 1,
                m >= 0,
                k >= 0,
        ;
        if m == 0 {
            assert(y + s - 1 == k * s + (s - 1)) by (nonlinear_arith)
                requires
                    y == s * k,
            ;
            vstd::arithmetic::div_mod::lemma_fundamental_div_mod_converse(y + s - 1, s, k, s - 1);
        } else {
            assert(y + s - 1 == (k + 1) * s + (m - 1)) by (nonlinear_arith)
                requires
                    y == s * k + m,
            ;
            vstd::arithmetic::div_mod::lemma_fundamental_div_mod_converse(y + s - 1, s, k + 1, m - 1);
        }
    }
}

/// More lines never make fewer samples.
pub proof fn lemma_sampled_monotonic(a: int, b: int, s: int)
    requires
        0 <= a <= b,
        1 <= s,
    ensures
        0 <= sampled(a, s) <= sampled(b, s) <= b,
    decreases b - a,
{
    lemma_sampled_step(b, s);
    if a < b {
        lemma_sampled_step(b - 1, s);
        lemma_sampled_monotonic(a, b - 1, s);
    }
}

/// The distance between samples; a distance of less than one counts as one.
pub open spec fn spacing(s: i32) -> int {
    if s < 1 {
        1
    } else {
        s as int
    }
}

pub fn at_least_one(s: i32) -> (r: u32)
    ensures
        r == spacing(s),
        r >= 1,
{
    if s < 1 {
        1
    } else {
        s as u32
    }
}

/// The number of samples of a channel in a line of the given width.
pub open spec fn wide(c: ChannelView, width: int) -> int {
    sampled(width, spacing(c.x_sampling))
}

/// The number of lines above line `y` in which a channel has samples.
pub open spec fn tall(c: ChannelView, y: int) -> int {
    sampled(y, spacing(c.y_sampling))
}

/// A channel has samples in line `y`.
pub open spec fn is_sampled(c: ChannelView, y: int) -> bool {
    y % spacing(c.y_sampling) == 0
}

/// The bytes of a sample of a channel.
pub open spec fn sample_size(c: ChannelView, short: bool) -> nat {
    if short {
        short_size(c.pixel_type)
    } else {
        c.pixel_type.size()
    }
}

/// The bytes of a channel in line `y`.
pub open spec fn row_size(c: ChannelView, width: int, y: int, short: bool) -> int {
    if is_sampled(c, y) {
        wide(c, width) * sample_size(c, short)
    } else {
        0
    }
}

/// The bytes of the first `k` channels in line `y`.
pub open spec fn line_size(cs: Seq<ChannelView>, width: int, y: int, short: bool, k: int) -> int
    decreases k,
{
    if k <= 0 {
        0
    } else {
        line_size(cs, width, y, short, k - 1) + row_size(cs[k - 1], width, y, short)
    }
}

/// The bytes of `n` lines from line `y0` on.
pub open spec fn lines_size(cs: Seq<ChannelView>, width: int, y0: int, short: bool, n: int) -> int
    decreases n,
{
    if n <= 0 {
        0
    } else {
        lines_size(cs, width, y0, short, n - 1) + line_size(
            cs,
            width,
            y0 + n - 1,
            short,
            cs.len() as int,
        )
    }
}

/// `n` samples of a channel that stand at `off`.
pub open spec fn row_at(c: ChannelView, data: Seq<u8>, off: int, n: int, short: bool) -> Seq<u32> {
    if short {
        code_row(c.pixel_type, data, off, n)
    } else {
        Seq::new(
            n as nat,
            |x: int| sample_at(c.pixel_type, data, off + x * c.pixel_type.size()),
        )
    }
}

/// The samples of channel `c` in line `y`, where the line stands at `off`.
pub open spec fn row_in(
    data: Seq<u8>,
    cs: Seq<ChannelView>,
    width: int,
    y: int,
    short: bool,
    off: int,
    c: int,
) -> Seq<u32> {
    if is_sampled(cs[c], y) {
        row_at(
            cs[c],
            data,
            off + line_size(cs, width, y, short, c),
            wide(cs[c], width),
            short,
        )
    } else {
        Seq::empty()
    }
}

/// The samples of channel `c` in `n` lines from line `y0` on, line by line.
pub open spec fn rows_in(
    data: Seq<u8>,
    cs: Seq<ChannelView>,
    width: int,
    y0: int,
    short: bool,
    n: int,
    c: int,
) -> Seq<u32>
    decreases n,
{
    if n <= 0 {
        Seq::empty()
    } else {
        rows_in(data, cs, width, y0, short, n - 1, c) + row_in(
            data,
            cs,
            width,
            y0 + n - 1,
            short,
            lines_size(cs, width, y0, short, n - 1),
            c,
        )
    }
}

/// The samples of every channel in `n` lines from line `y0` on.
pub open spec fn lines_in(
    data: Seq<u8>,
    cs: Seq<ChannelView>,
    width: int,
    y0: int,
    short: bool,
    n: int,
) -> Seq<Seq<u32>> {
    Seq::new(cs.len(), |c: int| rows_in(data, cs, width, y0, short, n, c))
}

// ----------------------------------------------------------------------
// Sizes
// ----------------------------------------------------------------------
pub proof fn lemma_row_size(c: ChannelView, width: int, y: int, short: bool)
    requires
        0 <= width,
    ensures
        0 <= row_size(c, width, y, short) <= 4 * width,
        0 <= wide(c, width) <= width,
{
    lemma_sampled_step(width, spacing(c.x_sampling));
    let (n, z) = (wide(c, width), sample_size(c, short) as int);
    assert(0 <= n * z <= 4 * width) by (nonlinear_arith)
        requires
            0 <= n <= width,
            0 <= z <= 4,
    ;
}

/// More channels never take fewer bytes.
pub proof fn lemma_line_size(cs: Seq<ChannelView>, width: int, y: int, short: bool, a: int, b: int)
    requires
        0 <= width,
        0 <= a <= b,
    ensures
        0 <= line_size(cs, width, y, short, a) <= line_size(cs, width, y, short, b),
        a < b ==> line_size(cs, width, y, short, a) + row_size(cs[a], width, y, short) <= line_size(
            cs,
            width,
            y,
            short,
            b,
        ),
        line_size(cs, width, y, short, b) <= b * (4 * width),
    decreases b,
{
    if b > 0 {
        lemma_row_size(cs[b - 1], width, y, short);
        assert(b * (4 * width) == (b - 1) * (4 * width) + 4 * width) by (nonlinear_arith);
        if a < b {
            lemma_line_size(cs, width, y, short, a, b - 1);
        } else {
            lemma_line_size(cs, width, y, short, b - 1, b - 1);
        }
    } else {
        assert(0 * (4 * width) == 0);
    }
}

/// More lines never take fewer bytes.
pub proof fn lemma_lines_size(cs: Seq<ChannelView>, width: int, y0: int, short: bool, a: int, b: int)
    requires
        0 <= width,
        0 <= a <= b,
    ensures
        0 <= lines_size(cs, width, y0, short, a) <= lines_size(cs, width, y0, short, b),
        a < b ==> lines_size(cs, width, y0, short, a) + line_size(
            cs,
            width,
            y0 + a,
            short,
            cs.len() as int,
        ) <= lines_size(cs, width, y0, short, b),
    decreases b,
{
    if b > 0 {
        lemma_line_size(cs, width, y0 + b - 1, short, 0, cs.len() as int);
        if a < b {
            lemma_lines_size(cs, width, y0, short, a, b - 1);
        } else {
            lemma_lines_size(cs, width, y0, short, b - 1, b - 1);
        }
    }
}

/// The bytes of a line.
fn size_of_line(channels: &[Channel], width: u32, y: u32, short: bool) -> (r: u128)
    ensures
        r == line_size(
            channel_views(channels@),
            width as int,
            y as int,
            short,
            channels@.len() as int,
        ),
        r <= 0xffff_ffff_ffff_ffff * 0x4_0000_0000,
{
    let ghost cs = channel_views(channels@);
    let ghost w = width as int;
    let mut total: u128 = 0;
    let mut k: usize = 0;
    assert(channels.len() == channels@.len());
    while k < channels.len()
        invariant
            k <= channels@.len(),
            channels@.len() <= usize::MAX,
            w == width,
            cs == channel_views(channels@),
            total == line_size(cs, w, y as int, short, k as int),
        decreases channels@.len() - k,
    {
        let c: &Channel = &channels[k];
        assert(cs[k as int] == c@);
        proof {
            lemma_line_size(cs, w, y as int, short, 0, k as int);
            lemma_line_size(cs, w, y as int, short, 0, k + 1);
            lemma_row_size(cs[k as int], w, y as int, short);
            let a = (k + 1) as int;
            assert(a * (4 * w) <= 0xffff_ffff_ffff_ffff * 0x4_0000_0000) by (nonlinear_arith)
                requires
                    0 <= a <= 0xffff_ffff_ffff_ffff,
                    0 <= w <= 0xffff_ffff,
            ;
        }
        if y % at_least_one(c.y_sampling) == 0 {
            let n: u32 = subsampled_dim(width, at_least_one(c.x_sampling));
            let z: usize = if short {
                pxr24_channel_bytes(c.pixel_type)
            } else {
                c.pixel_type.bytes_per_sample()
            };
            assert(n as int * z as int == row_size(cs[k as int], w, y as int, short));
            let part: u64 = n as u64 * z as u64;
            total = total + part as u128;
        }
        k = k + 1;
    }
    proof {
        lemma_line_size(cs, w, y as int, short, 0, cs.len() as int);
        let a = cs.len() as int;
        assert(a * (4 * w) <= 0xffff_ffff_ffff_ffff * 0x4_0000_0000) by (nonlinear_arith)
            requires
                0 <= a <= 0xffff_ffff_ffff_ffff,
                0 <= w <= 0xffff_ffff,
        ;
    }
    total
}

/// The bytes of `n` lines from line `y0` on, where 64 bits can hold the
/// number.
pub fn size_of_lines(channels: &[Channel], width: u32, y0: u32, short: bool, n: u32) -> (r: Option<u64>)
    requires
        y0 + n <= 0x1_0000_0000,
    ensures
        r matches Some(v) ==> v == lines_size(
            channel_views(channels@),
            width as int,
            y0 as int,
            short,
            n as int,
        ),
        r is None ==> lines_size(
            channel_views(channels@),
            width as int,
            y0 as int,
            short,
            n as int,
        ) > u64::MAX,
{
    let ghost cs = channel_views(channels@);
    let mut total: u64 = 0;
    let mut i: u32 = 0;
    while i < n
        invariant
            i <= n,
            y0 + n <= 0x1_0000_0000,
            cs == channel_views(channels@),
            total == lines_size(cs, width as int, y0 as int, short, i as int),
        decreases n - i,
    {
        let line: u128 = size_of_line(channels, width, y0 + i, short);
        let sum: u128 = total as u128 + line;
        proof {
            lemma_lines_size(cs, width as int, y0 as int, short, i + 1, n as int);
        }
        if sum > u64::MAX as u128 {
            return None;
        }
        total = sum as u64;
        i = i + 1;
    }
    Some(total)
}

/// The bytes that `lines_in_block` lines take from line `block_y0` on.
pub fn native_chunk_size(
    sorted_channels: &[Channel],
    width: u32,
    block_y0: u32,
    lines_in_block: usize,
) -> (r: usize)
    requires
        block_y0 + lines_in_block <= 0x1_0000_0000,
        lines_in_block <= u32::MAX,
        lines_size(
            channel_views(sorted_channels@),
            width as int,
            block_y0 as int,
            false,
            lines_in_block as int,
        ) <= usize::MAX,
    ensures
        r == lines_size(
            channel_views(sorted_channels@),
            width as int,
            block_y0 as int,
            false,
            lines_in_block as int,
        ),
{
    match size_of_lines(sorted_channels, width, block_y0, false, lines_in_block as u32) {
        Some(v) => v as usize,
        None => {
            assert(false);
            0
        },
    }
}

// ----------------------------------------------------------------------
// Reading
// ----------------------------------------------------------------------
/// Append the samples of a row.
fn read_row(out: &mut Vec<u32>, c: &Channel, data: &[u8], off: usize, n: usize, short: bool)
    requires
        off + n * sample_size(c@, short) <= data@.len(),
    ensures
        final(out)@ == old(out)@ + row_at(c@, data@, off as int, n as int, short),
{
    if short {
        read_code_row(out, c.pixel_type, data, off, n);
        return;
    }
    let ghost start = out@;
    let ghost all = row_at(c@, data@, off as int, n as int, false);
    let z: usize = c.pixel_type.bytes_per_sample();
    let mut p: usize = off;
    let mut x: usize = 0;
    assert(data.len() == data@.len());
    assert(start + all.take(0) =~= start);
    assert(0 * z == 0);
    while x < n
        invariant
            x <= n,
            z == c@.pixel_type.size(),
            p == off + x * z,
            off + n * z <= data@.len(),
            data@.len() <= usize::MAX,
            all == row_at(c@, data@, off as int, n as int, false),
            out@ == start + all.take(x as int),
        decreases n - x,
    {
        assert((x + 1) * z <= n * z && (x + 1) * z == x * z + z) by (nonlinear_arith)
            requires
                x + 1 <= n,
                0 <= z,
        ;
        out.push(read_sample(c.pixel_type, data, p));
        proof {
            assert(all.take(x + 1) =~= all.take(x as int).push(all[x as int]));
            assert(out@ =~= start + all.take(x + 1));
        }
        p = p + z;
        x = x + 1;
    }
    assert(all.take(n as int) =~= all);
}

/// Append the samples of a line.
fn read_line(
    planes: &mut Vec<Vec<u32>>,
    channels: &[Channel],
    data: &[u8],
    width: u32,
    y: u32,
    short: bool,
    off: usize,
) -> (end: usize)
    requires
        old(planes)@.len() == channels@.len(),
        off + line_size(
            channel_views(channels@),
            width as int,
            y as int,
            short,
            channels@.len() as int,
        ) <= data@.len(),
    ensures
        end == off + line_size(
            channel_views(channels@),
            width as int,
            y as int,
            short,
            channels@.len() as int,
        ),
        plane_views(final(planes)@) == Seq::new(
            channels@.len(),
            |c: int|
                old(planes)@[c]@ + row_in(
                    data@,
                    channel_views(channels@),
                    width as int,
                    y as int,
                    short,
                    off as int,
                    c,
                ),
        ),
{
    let ghost cs = channel_views(channels@);
    let ghost before = planes@;
    let ghost w = width as int;
    let mut p: usize = off;
    let mut k: usize = 0;
    assert(data.len() == data@.len());
    while k < channels.len()
        invariant
            k <= channels@.len(),
            cs == channel_views(channels@),
            cs.len() == channels@.len(),
            w == width,
            planes@.len() == channels@.len(),
            before.len() == channels@.len(),
            p == off + line_size(cs, w, y as int, short, k as int),
            off + line_size(cs, w, y as int, short, cs.len() as int) <= data@.len(),
            data@.len() <= usize::MAX,
            forall|c: int|
                0 <= c < k ==> (#[trigger] planes@[c])@ == before[c]@ + row_in(
                    data@,
                    cs,
                    w,
                    y as int,
                    short,
                    off as int,
                    c,
                ),
            forall|c: int| k <= c < planes@.len() ==> planes@[c] == before[c],
        decreases channels@.len() - k,
    {
        let c: &Channel = &channels[k];
        assert(cs[k as int] == c@);
        proof {
            lemma_line_size(cs, w, y as int, short, k as int, cs.len() as int);
            lemma_row_size(cs[k as int], w, y as int, short);
        }
        if y % at_least_one(c.y_sampling) == 0 {
            let n: usize = subsampled_dim(width, at_least_one(c.x_sampling)) as usize;
            let z: usize = if short {
                pxr24_channel_bytes(c.pixel_type)
            } else {
                c.pixel_type.bytes_per_sample()
            };
            assert(n as int * z as int == row_size(cs[k as int], w, y as int, short));
            let plane: &mut Vec<u32> = &mut planes[k];
            read_row(plane, c, data, p, n, short);
            p = p + n * z;
        } else {
            assert(before[k as int]@ + Seq::<u32>::empty() =~= before[k as int]@);
        }
        k = k + 1;
    }
    assert(plane_views(planes@) =~= Seq::new(
        channels@.len(),
        |c: int| before[c]@ + row_in(data@, cs, w, y as int, short, off as int, c),
    ));
    p
}

/// The samples of `n` lines from line `y0` on.
pub fn read_lines(
    channels: &[Channel],
    data: &[u8],
    width: u32,
    y0: u32,
    short: bool,
    n: u32,
) -> (r: Vec<Vec<u32>>)
    requires
        y0 + n <= 0x1_0000_0000,
        data@.len() == lines_size(
            channel_views(channels@),
            width as int,
            y0 as int,
            short,
            n as int,
        ),
    ensures
        plane_views(r@) == lines_in(
            data@,
            channel_views(channels@),
            width as int,
            y0 as int,
            short,
            n as int,
        ),
{
    let ghost cs = channel_views(channels@);
    let ghost w = width as int;
    let mut planes: Vec<Vec<u32>> = empty_planes(channels.len());
    let mut p: usize = 0;
    let mut i: u32 = 0;
    assert(plane_views(planes@) =~~= lines_in(data@, cs, w, y0 as int, short, 0));
    while i < n
        invariant
            i <= n,
            y0 + n <= 0x1_0000_0000,
            cs == channel_views(channels@),
            cs.len() == channels@.len(),
            w == width,
            planes@.len() == channels@.len(),
            p == lines_size(cs, w, y0 as int, short, i as int),
            data@.len() == lines_size(cs, w, y0 as int, short, n as int),
            plane_views(planes@) == lines_in(data@, cs, w, y0 as int, short, i as int),
        decreases n - i,
    {
        proof {
            lemma_lines_size(cs, w, y0 as int, short, i as int, n as int);
        }
        let ghost before = planes@;
        p = read_line(&mut planes, channels, data, width, y0 + i, short, p);
        proof {
            let next = lines_in(data@, cs, w, y0 as int, short, i + 1);
            assert forall|c: int| 0 <= c < cs.len() implies plane_views(planes@)[c] == next[c] by {
                assert(plane_views(before)[c] == before[c]@);
            }
            assert(plane_views(planes@).len() == planes@.len());
            assert(plane_views(planes@) =~= next);
        }
        i = i + 1;
    }
    planes
}

/// `n` planes without samples.
pub fn empty_planes(n: usize) -> (r: Vec<Vec<u32>>)
    ensures
        plane_views(r@) == Seq::new(n as nat, |c: int| Seq::<u32>::empty()),
{
    let mut planes: Vec<Vec<u32>> = Vec::new();
    let mut c: usize = 0;
    while c < n
        invariant
            c <= n,
            planes@.len() == c,
            forall|i: int| 0 <= i < c ==> (#[trigger] planes@[i])@ == Seq::<u32>::empty(),
        decreases n - c,
    {
        planes.push(Vec::new());
        c = c + 1;
    }
    assert(plane_views(planes@) =~~= Seq::new(n as nat, |c: int| Seq::<u32>::empty()));
    planes
}

// ----------------------------------------------------------------------
// Writing
// ----------------------------------------------------------------------
/// The samples of a channel in line `y`.
pub open spec fn plane_row(c: ChannelView, plane: Seq<u32>, width: int, y: int) -> Seq<u32> {
    plane.subrange(
        tall(c, y) * wide(c, width),
        tall(c, y) * wide(c, width) + wide(c, width),
    )
}

/// A row as it is stored.
pub open spec fn row_bytes(c: ChannelView, row: Seq<u32>, short: bool) -> Seq<u8> {
    if short {
        code_row_bytes(c.pixel_type, row)
    } else {
        plane_bytes(c.pixel_type, row)
    }
}

/// The first `k` channels of line `y`.
pub open spec fn line_bytes(
    cs: Seq<ChannelView>,
    planes: Seq<Seq<u32>>,
    width: int,
    y: int,
    short: bool,
    k: int,
) -> Seq<u8>
    decreases k,
{
    if k <= 0 {
        Seq::empty()
    } else {
        line_bytes(cs, planes, width, y, short, k - 1) + if is_sampled(cs[k - 1], y) {
            row_bytes(cs[k - 1], plane_row(cs[k - 1], planes[k - 1], width, y), short)
        } else {
            Seq::empty()
        }
    }
}

/// `n` lines from line `y0` on.
pub open spec fn lines_bytes(
    cs: Seq<ChannelView>,
    planes: Seq<Seq<u32>>,
    width: int,
    y0: int,
    short: bool,
    n: int,
) -> Seq<u8>
    decreases n,
{
    if n <= 0 {
        Seq::empty()
    } else {
        lines_bytes(cs, planes, width, y0, short, n - 1) + line_bytes(
            cs,
            planes,
            width,
            y0 + n - 1,
            short,
            cs.len() as int,
        )
    }
}

/// The planes hold the samples of an image of the given size.
pub open spec fn planes_fit(cs: Seq<ChannelView>, planes: Seq<Seq<u32>>, width: int, height: int) -> bool {
    &&& planes.len() == cs.len()
    &&& forall|c: int|
        0 <= c < cs.len() ==> (#[trigger] planes[c]).len() == tall(cs[c], height) * wide(
            cs[c],
            width,
        )
}

/// What samples are read back as.
pub open spec fn kept(c: ChannelView, short: bool, s: Seq<u32>) -> Seq<u32> {
    Seq::new(
        s.len(),
        |i: int|
            if short {
                short_value(c.pixel_type, s[i])
            } else {
                stored_value(c.pixel_type, s[i])
            },
    )
}

/// The row of a line stands inside its plane.
pub proof fn lemma_plane_row(c: ChannelView, plane: Seq<u32>, width: int, height: int, y: int)
    requires
        0 <= width,
        0 <= y < height,
        is_sampled(c, y),
        plane.len() == tall(c, height) * wide(c, width),
    ensures
        0 <= tall(c, y) * wide(c, width),
        tall(c, y) * wide(c, width) + wide(c, width) <= plane.len(),
        tall(c, y + 1) == tall(c, y) + 1,
        plane_row(c, plane, width, y).len() == wide(c, width),
        0 <= wide(c, width) <= width,
{
    let s = spacing(c.y_sampling);
    lemma_sampled_step(y, s);
    lemma_sampled_monotonic(y + 1, height, s);
    lemma_row_size(c, width, y, false);
    let (a, h, w) = (tall(c, y), tall(c, height), wide(c, width));
    assert(0 <= a * w && a * w + w <= h * w) by (nonlinear_arith)
        requires
            0 <= a,
            a + 1 <= h,
            0 <= w,
    ;
}

fn put_line(
    out: &mut Vec<u8>,
    channels: &[Channel],
    planes: &[&[u32]],
    width: u32,
    y: u32,
    short: bool,
    Ghost(height): Ghost<int>,
)
    requires
        planes_fit(channel_views(channels@), slice_views(planes@), width as int, height),
        y < height,
    ensures
        final(out)@ == old(out)@ + line_bytes(
            channel_views(channels@),
            slice_views(planes@),
            width as int,
            y as int,
            short,
            channels@.len() as int,
        ),
{
    let ghost cs = channel_views(channels@);
    let ghost ps = slice_views(planes@);
    let ghost start = out@;
    let ghost w = width as int;
    let mut k: usize = 0;
    assert(start + Seq::<u8>::empty() =~= start);
    while k < channels.len()
        invariant
            k <= channels@.len(),
            cs == channel_views(channels@),
            ps == slice_views(planes@),
            w == width,
            planes_fit(cs, ps, w, height),
            y < height,
            out@ == start + line_bytes(cs, ps, w, y as int, short, k as int),
        decreases channels@.len() - k,
    {
        let c: &Channel = &channels[k];
        assert(cs[k as int] == c@);
        assert(ps[k as int] == planes@[k as int]@);
        let ghost before = out@;
        let step: u32 = at_least_one(c.y_sampling);
        if y % step == 0 {
            let n: usize = subsampled_dim(width, at_least_one(c.x_sampling)) as usize;
            let plane: &[u32] = planes[k];
            let row: usize = (y / step) as usize;
            proof {
                lemma_plane_row(cs[k as int], ps[k as int], w, height, y as int);
                lemma_whole_step(y as int, step as int);
            }
            assert(plane.len() == plane@.len());
            let from: usize = row * n;
            let part: &[u32] = slice_range(plane, from, from + n);
            assert(part@ == plane_row(cs[k as int], ps[k as int], w, y as int));
            if short {
                put_code_row(out, c.pixel_type, part);
            } else {
                put_plane(out, c.pixel_type, part);
            }
        } else {
            assert(before + Seq::<u8>::empty() =~= before);
        }
        proof {
            assert(out@ =~= start + line_bytes(cs, ps, w, y as int, short, k + 1));
        }
        k = k + 1;
    }
}

/// A sampled line is a whole number of steps down.
proof fn lemma_whole_step(y: int, s: int)
    requires
        0 <= y,
        1 <= s,
        y % s == 0,
    ensures
        sampled(y, s) == y / s,
{
    if s > 1 {
        let k = y / s;
        vstd::arithmetic::div_mod::lemma_fundamental_div_mod(y, s);
        assert(y + s - 1 == k * s + (s - 1)) by (nonlinear_arith)
            requires
                y == s * k,
        ;
        vstd::arithmetic::div_mod::lemma_fundamental_div_mod_converse(y + s - 1, s, k, s - 1);
    }
}

/// `n` lines from line `y0` on of an image of the given height.
pub fn put_lines(
    channels: &[Channel],
    planes: &[&[u32]],
    width: u32,
    height: u32,
    y0: u32,
    short: bool,
    n: u32,
) -> (out: Vec<u8>)
    requires
        planes_fit(channel_views(channels@), slice_views(planes@), width as int, height as int),
        y0 + n <= height,
    ensures
        out@ == lines_bytes(
            channel_views(channels@),
            slice_views(planes@),
            width as int,
            y0 as int,
            short,
            n as int,
        ),
{
    let ghost cs = channel_views(channels@);
    let ghost ps = slice_views(planes@);
    let mut out: Vec<u8> = Vec::new();
    let mut i: u32 = 0;
    while i < n
        invariant
            i <= n,
            y0 + n <= height,
            cs == channel_views(channels@),
            ps == slice_views(planes@),
            planes_fit(cs, ps, width as int, height as int),
            out@ == lines_bytes(cs, ps, width as int, y0 as int, short, i as int),
        decreases n - i,
    {
        put_line(&mut out, channels, planes, width, y0 + i, short, Ghost(height as int));
        i = i + 1;
    }
    out
}

// ----------------------------------------------------------------------
// What is written is read back
// ----------------------------------------------------------------------
proof fn lemma_row_bytes_len(c: ChannelView, row: Seq<u32>, short: bool)
    ensures
        row_bytes(c, row, short).len() == row.len() * sample_size(c, short),
{
    if short {
        let t = c.pixel_type;
        lemma_byte_planes_len(
            crate::pxr24::differences(t, row),
            short_size(t) as int,
            short_size(t) as int,
        );
    } else {
        lemma_plane_bytes_len(c.pixel_type, row);
    }
}

proof fn lemma_row_reads_back(c: ChannelView, data: Seq<u8>, off: int, row: Seq<u32>, short: bool)
    requires
        stands_at(data, off, row_bytes(c, row, short)),
    ensures
        row_at(c, data, off, row.len() as int, short) == kept(c, short, row),
{
    if short {
        lemma_code_row_reads_back(c.pixel_type, data, off, row);
        assert(row_at(c, data, off, row.len() as int, short) =~= kept(c, short, row));
    } else {
        assert forall|x: int| 0 <= x < row.len() implies sample_at(
            c.pixel_type,
            data,
            off + x * c.pixel_type.size(),
        ) == stored_value(c.pixel_type, row[x]) by {
            lemma_plane_reads_back(c.pixel_type, data, off, row, x);
        }
        assert(row_at(c, data, off, row.len() as int, short) =~= kept(c, short, row));
    }
}

pub proof fn lemma_line_bytes_len(
    cs: Seq<ChannelView>,
    planes: Seq<Seq<u32>>,
    width: int,
    height: int,
    y: int,
    short: bool,
    k: int,
)
    requires
        planes_fit(cs, planes, width, height),
        0 <= width,
        0 <= y < height,
        0 <= k <= cs.len(),
    ensures
        line_bytes(cs, planes, width, y, short, k).len() == line_size(cs, width, y, short, k),
    decreases k,
{
    if k > 0 {
        lemma_line_bytes_len(cs, planes, width, height, y, short, k - 1);
        let c = cs[k - 1];
        if is_sampled(c, y) {
            lemma_plane_row(c, planes[k - 1], width, height, y);
            lemma_row_bytes_len(c, plane_row(c, planes[k - 1], width, y), short);
        }
    }
}

pub proof fn lemma_lines_bytes_len(
    cs: Seq<ChannelView>,
    planes: Seq<Seq<u32>>,
    width: int,
    height: int,
    y0: int,
    short: bool,
    n: int,
)
    requires
        planes_fit(cs, planes, width, height),
        0 <= width,
        0 <= y0,
        0 <= n,
        y0 + n <= height,
    ensures
        lines_bytes(cs, planes, width, y0, short, n).len() == lines_size(cs, width, y0, short, n),
    decreases n,
{
    if n > 0 {
        lemma_lines_bytes_len(cs, planes, width, height, y0, short, n - 1);
        lemma_line_bytes_len(cs, planes, width, height, y0 + n - 1, short, cs.len() as int);
    }
}

/// A stored row is found in its line.
proof fn lemma_line_reads_back(
    data: Seq<u8>,
    cs: Seq<ChannelView>,
    planes: Seq<Seq<u32>>,
    width: int,
    height: int,
    y: int,
    short: bool,
    off: int,
    k: int,
    c: int,
)
    requires
        planes_fit(cs, planes, width, height),
        0 <= width,
        0 <= y < height,
        0 <= c < k <= cs.len(),
        is_sampled(cs[c], y),
        stands_at(data, off, line_bytes(cs, planes, width, y, short, k)),
    ensures
        row_in(data, cs, width, y, short, off, c) == kept(
            cs[c],
            short,
            plane_row(cs[c], planes[c], width, y),
        ),
    decreases k,
{
    let last = if is_sampled(cs[k - 1], y) {
        row_bytes(cs[k - 1], plane_row(cs[k - 1], planes[k - 1], width, y), short)
    } else {
        Seq::empty()
    };
    lemma_stands_split(data, off, line_bytes(cs, planes, width, y, short, k - 1), last);
    if c < k - 1 {
        lemma_line_reads_back(data, cs, planes, width, height, y, short, off, k - 1, c);
    } else {
        lemma_line_bytes_len(cs, planes, width, height, y, short, k - 1);
        lemma_plane_row(cs[c], planes[c], width, height, y);
        lemma_row_reads_back(
            cs[c],
            data,
            off + line_size(cs, width, y, short, c),
            plane_row(cs[c], planes[c], width, y),
            short,
        );
    }
}

/// The samples of a channel in lines that are stored are read back.
proof fn lemma_rows_read_back(
    data: Seq<u8>,
    cs: Seq<ChannelView>,
    planes: Seq<Seq<u32>>,
    width: int,
    height: int,
    y0: int,
    short: bool,
    n: int,
    c: int,
)
    requires
        planes_fit(cs, planes, width, height),
        0 <= width,
        0 <= y0,
        0 <= n,
        y0 + n <= height,
        0 <= c < cs.len(),
        stands_at(data, 0, lines_bytes(cs, planes, width, y0, short, n)),
    ensures
        0 <= tall(cs[c], y0) * wide(cs[c], width) <= tall(cs[c], y0 + n) * wide(cs[c], width)
            <= planes[c].len(),
        rows_in(data, cs, width, y0, short, n, c) == kept(
            cs[c],
            short,
            planes[c].subrange(
                tall(cs[c], y0) * wide(cs[c], width),
                tall(cs[c], y0 + n) * wide(cs[c], width),
            ),
        ),
    decreases n,
{
    let ch = cs[c];
    let (a, b, h, w) = (tall(ch, y0), tall(ch, y0 + n), tall(ch, height), wide(ch, width));
    lemma_sampled_monotonic(y0, y0 + n, spacing(ch.y_sampling));
    lemma_sampled_monotonic(y0 + n, height, spacing(ch.y_sampling));
    lemma_row_size(ch, width, y0, short);
    assert(0 <= a * w <= b * w <= h * w) by (nonlinear_arith)
        requires
            0 <= a <= b <= h,
            0 <= w,
    ;
    let want = kept(ch, short, planes[c].subrange(a * w, b * w));
    if n > 0 {
        let y = y0 + n - 1;
        let line = line_bytes(cs, planes, width, y, short, cs.len() as int);
        lemma_stands_split(data, 0, lines_bytes(cs, planes, width, y0, short, n - 1), line);
        lemma_lines_bytes_len(cs, planes, width, height, y0, short, n - 1);
        lemma_rows_read_back(data, cs, planes, width, height, y0, short, n - 1, c);
        lemma_sampled_step(y, spacing(ch.y_sampling));
        let m = tall(ch, y);
        if is_sampled(ch, y) {
            lemma_line_reads_back(
                data,
                cs,
                planes,
                width,
                height,
                y,
                short,
                lines_size(cs, width, y0, short, n - 1),
                cs.len() as int,
                c,
            );
            lemma_plane_row(ch, planes[c], width, height, y);
            assert(b * w == m * w + w) by (nonlinear_arith)
                requires
                    b == m + 1,
            ;
        }
        assert(rows_in(data, cs, width, y0, short, n, c) =~= want);
    } else {
        assert(rows_in(data, cs, width, y0, short, n, c) =~= want);
    }
}

/// The samples of every channel in lines that are stored are read back.
pub proof fn law_lines_read_back(
    cs: Seq<ChannelView>,
    planes: Seq<Seq<u32>>,
    width: int,
    height: int,
    y0: int,
    short: bool,
    n: int,
)
    requires
        planes_fit(cs, planes, width, height),
        0 <= width,
        0 <= y0,
        0 <= n,
        y0 + n <= height,
    ensures
        lines_in(lines_bytes(cs, planes, width, y0, short, n), cs, width, y0, short, n) == Seq::new(
            cs.len(),
            |c: int|
                kept(
                    cs[c],
                    short,
                    planes[c].subrange(
                        tall(cs[c], y0) * wide(cs[c], width),
                        tall(cs[c], y0 + n) * wide(cs[c], width),
                    ),
                ),
        ),
{
    let data = lines_bytes(cs, planes, width, y0, short, n);
    assert(data.subrange(0, data.len() as int) =~= data);
    assert forall|c: int| 0 <= c < cs.len() implies rows_in(data, cs, width, y0, short, n, c)
        == kept(
        cs[c],
        short,
        planes[c].subrange(
            tall(cs[c], y0) * wide(cs[c], width),
            tall(cs[c], y0 + n) * wide(cs[c], width),
        ),
    ) by {
        lemma_rows_read_back(data, cs, planes, width, height, y0, short, n, c);
    }
    assert(lines_in(data, cs, width, y0, short, n) =~= Seq::new(
        cs.len(),
        |c: int|
            kept(
                cs[c],
                short,
                planes[c].subrange(
                    tall(cs[c], y0) * wide(cs[c], width),
                    tall(cs[c], y0 + n) * wide(cs[c], width),
                ),
            ),
    ));
}

} // verus!
