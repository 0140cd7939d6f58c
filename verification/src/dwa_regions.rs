//! The lines of a chunk, channel by channel.

use crate::bytes::{put_bytes, slice_range};
use crate::flat_block::{
    at_least_one, is_sampled, lemma_line_size, lemma_lines_size, lemma_row_size, lemma_sampled_monotonic,
    lemma_sampled_step, line_size, lines_size, row_size, spacing, subsampled_dim, tall, wide,
};
use crate::layout::byte_views;
use crate::types::{channel_views, Channel, ChannelView};
use vstd::prelude::*;

verus! {

broadcast use crate::bytes::group_le_len;

/// The number of lines of a chunk in which a channel has samples.
pub open spec fn rows_of(c: ChannelView, y0: int, n: int) -> int {
    tall(c, y0 + n) - tall(c, y0)
}

/// The bytes of a row of a channel.
pub open spec fn row_span(c: ChannelView, width: int) -> int {
    wide(c, width) * c.pixel_type.size()
}

/// The bytes of a channel in a chunk.
pub open spec fn span_of(c: ChannelView, width: int, y0: int, n: int) -> int {
    rows_of(c, y0, n) * row_span(c, width)
}

/// Every channel has the bytes of its lines.
pub open spec fn regions_fit(regions: Seq<Seq<u8>>, cs: Seq<ChannelView>, width: int, y0: int, n: int) -> bool {
    &&& regions.len() == cs.len()
    &&& forall|c: int|
        0 <= c < cs.len() ==> (#[trigger] regions[c]).len() == span_of(cs[c], width, y0, n)
}

/// The bytes of a channel in line `y`.
pub open spec fn region_row(region: Seq<u8>, c: ChannelView, width: int, y0: int, y: int) -> Seq<u8> {
    region.subrange(
        rows_of(c, y0, y - y0) * row_span(c, width),
        rows_of(c, y0, y - y0) * row_span(c, width) + row_span(c, width),
    )
}

/// The first `k` channels of line `y`.
pub open spec fn joined_line(
    regions: Seq<Seq<u8>>,
    cs: Seq<ChannelView>,
    width: int,
    y0: int,
    y: int,
    k: int,
) -> Seq<u8>
    decreases k,
{
    if k <= 0 {
        Seq::empty()
    } else {
        joined_line(regions, cs, width, y0, y, k - 1) + if is_sampled(cs[k - 1], y) {
            region_row(regions[k - 1], cs[k - 1], width, y0, y)
        } else {
            Seq::empty()
        }
    }
}

/// The first `n` lines, one behind the other.
pub open spec fn joined_lines(regions: Seq<Seq<u8>>, cs: Seq<ChannelView>, width: int, y0: int, n: int) -> Seq<u8>
    decreases n,
{
    if n <= 0 {
        Seq::empty()
    } else {
        joined_lines(regions, cs, width, y0, n - 1) + joined_line(
            regions,
            cs,
            width,
            y0,
            y0 + n - 1,
            cs.len() as int,
        )
    }
}

/// The bytes of channel `c` in the first `n` lines.
pub open spec fn region_in(raw: Seq<u8>, cs: Seq<ChannelView>, width: int, y0: int, n: int, c: int) -> Seq<u8>
    decreases n,
{
    if n <= 0 {
        Seq::empty()
    } else {
        let y = y0 + n - 1;
        let off = lines_size(cs, width, y0, false, n - 1) + line_size(cs, width, y, false, c);
        region_in(raw, cs, width, y0, n - 1, c) + if is_sampled(cs[c], y) {
            raw.subrange(off, off + row_span(cs[c], width))
        } else {
            Seq::empty()
        }
    }
}

/// The bytes of every channel.
pub open spec fn regions_in(raw: Seq<u8>, cs: Seq<ChannelView>, width: int, y0: int, n: int) -> Seq<Seq<u8>> {
    Seq::new(cs.len(), |c: int| region_in(raw, cs, width, y0, n, c))
}

/// A row stands inside its region.
pub proof fn lemma_region_row(c: ChannelView, width: int, y0: int, n: int, y: int)
    requires
        0 <= width,
        0 <= y0 <= y < y0 + n,
    ensures
        0 <= rows_of(c, y0, y - y0) * row_span(c, width),
        0 <= row_span(c, width) <= 4 * width,
        0 <= rows_of(c, y0, n) <= n,
        0 <= wide(c, width) <= width,
        is_sampled(c, y) ==> rows_of(c, y0, y - y0) * row_span(c, width) + row_span(c, width)
            <= span_of(c, width, y0, n),
        rows_of(c, y0, y + 1 - y0) == rows_of(c, y0, y - y0) + (if is_sampled(c, y) {
            1int
        } else {
            0int
        }),
        is_sampled(c, y) ==> row_size(c, width, y, false) == row_span(c, width),
{
    let s = spacing(c.y_sampling);
    lemma_sampled_monotonic(y0, y, s);
    lemma_sampled_step(y, s);
    lemma_sampled_monotonic(y + 1, y0 + n, s);
    lemma_rows_bound(c, y0, n);
    lemma_row_size(c, width, y, false);
    let (w, z) = (wide(c, width), c.pixel_type.size() as int);
    assert(0 <= w * z <= 4 * width) by (nonlinear_arith)
        requires
            0 <= w <= width,
            0 <= z <= 4,
    ;
    let (a, b, r) = (rows_of(c, y0, y - y0), rows_of(c, y0, n), row_span(c, width));
    assert(0 <= a * r) by (nonlinear_arith)
        requires
            0 <= a,
            0 <= r,
    ;
    if is_sampled(c, y) {
        assert(a * r + r <= b * r) by (nonlinear_arith)
            requires
                a + 1 <= b,
                0 <= r,
        ;
    }
}

/// A chunk has no more rows of a channel than lines.
pub proof fn lemma_rows_bound(c: ChannelView, y0: int, n: int)
    requires
        0 <= y0,
        0 <= n,
    ensures
        0 <= rows_of(c, y0, n) <= n,
    decreases n,
{
    if n > 0 {
        lemma_rows_bound(c, y0, n - 1);
        lemma_sampled_step(y0 + n - 1, spacing(c.y_sampling));
    }
}

pub proof fn lemma_span(c: ChannelView, width: int, y0: int, n: int)
    requires
        0 <= width,
        0 <= y0,
        0 <= n,
    ensures
        0 <= span_of(c, width, y0, n) <= n * (4 * width),
        0 <= rows_of(c, y0, n) <= n,
        0 <= wide(c, width) <= width,
        0 <= row_span(c, width) <= 4 * width,
{
    lemma_rows_bound(c, y0, n);
    lemma_row_size(c, width, y0, false);
    let (w, z) = (wide(c, width), c.pixel_type.size() as int);
    assert(0 <= w * z <= 4 * width) by (nonlinear_arith)
        requires
            0 <= w <= width,
            0 <= z <= 4,
    ;
    let (b, r) = (rows_of(c, y0, n), row_span(c, width));
    assert(0 <= b * r <= n * (4 * width)) by (nonlinear_arith)
        requires
            0 <= b <= n,
            0 <= r <= 4 * width,
    ;
}

fn put_joined_line(
    out: &mut Vec<u8>,
    regions: &[Vec<u8>],
    channels: &[Channel],
    width: u32,
    y0: u32,
    y: u32,
    Ghost(n): Ghost<int>,
)
    requires
        regions_fit(
            byte_views(regions@),
            channel_views(channels@),
            width as int,
            y0 as int,
            n,
        ),
        y0 <= y < y0 + n,
    ensures
        final(out)@ == old(out)@ + joined_line(
            byte_views(regions@),
            channel_views(channels@),
            width as int,
            y0 as int,
            y as int,
            channels@.len() as int,
        ),
{
    let ghost cs = channel_views(channels@);
    let ghost rs = byte_views(regions@);
    let ghost start = out@;
    let ghost w = width as int;
    let mut k: usize = 0;
    assert(start + Seq::<u8>::empty() =~= start);
    while k < channels.len()
        invariant
            k <= channels@.len(),
            cs == channel_views(channels@),
            rs == byte_views(regions@),
            w == width,
            regions_fit(rs, cs, w, y0 as int, n),
            y0 <= y < y0 + n,
            out@ == start + joined_line(rs, cs, w, y0 as int, y as int, k as int),
        decreases channels@.len() - k,
    {
        let c: &Channel = &channels[k];
        assert(cs[k as int] == c@);
        assert(rs[k as int] == regions@[k as int]@);
        let ghost before = out@;
        let step: u32 = at_least_one(c.y_sampling);
        proof {
            lemma_region_row(cs[k as int], w, y0 as int, n, y as int);
            lemma_sampled_monotonic(y0 as int, y as int, step as int);
        }
        if y % step == 0 {
            assert(is_sampled(cs[k as int], y as int));
            let pw: u32 = subsampled_dim(width, at_least_one(c.x_sampling));
            let z: usize = c.pixel_type.bytes_per_sample();
            let rows: u32 = subsampled_dim(y, step) - subsampled_dim(y0, step);
            assert(regions[k as int].len() == regions@[k as int]@.len());
            assert(pw * z == row_span(cs[k as int], w));
            let span: usize = pw as usize * z;
            let from: usize = rows as usize * span;
            put_bytes(out, slice_range(regions[k].as_slice(), from, from + span));
        } else {
            assert(before + Seq::<u8>::empty() =~= before);
        }
        proof {
            assert(out@ =~= start + joined_line(rs, cs, w, y0 as int, y as int, k + 1));
        }
        k = k + 1;
    }
}

/// Put the lines of a chunk one behind the other.
pub fn join_regions(regions: &[Vec<u8>], channels: &[Channel], width: u32, y0: u32, n: u32) -> (out: Vec<u8>)
    requires
        y0 + n <= 0x1_0000_0000,
        regions_fit(
            byte_views(regions@),
            channel_views(channels@),
            width as int,
            y0 as int,
            n as int,
        ),
    ensures
        out@ == joined_lines(
            byte_views(regions@),
            channel_views(channels@),
            width as int,
            y0 as int,
            n as int,
        ),
{
    let ghost cs = channel_views(channels@);
    let ghost rs = byte_views(regions@);
    let mut out: Vec<u8> = Vec::new();
    let mut i: u32 = 0;
    while i < n
        invariant
            i <= n,
            y0 + n <= 0x1_0000_0000,
            cs == channel_views(channels@),
            rs == byte_views(regions@),
            regions_fit(rs, cs, width as int, y0 as int, n as int),
            out@ == joined_lines(rs, cs, width as int, y0 as int, i as int),
        decreases n - i,
    {
        put_joined_line(&mut out, regions, channels, width, y0, y0 + i, Ghost(n as int));
        i = i + 1;
    }
    out
}

/// `n` empty byte strings.
fn empty_regions(n: usize) -> (r: Vec<Vec<u8>>)
    ensures
        byte_views(r@) == Seq::new(n as nat, |c: int| Seq::<u8>::empty()),
{
    let mut r: Vec<Vec<u8>> = Vec::new();
    let mut c: usize = 0;
    while c < n
        invariant
            c <= n,
            r@.len() == c,
            forall|i: int| 0 <= i < c ==> (#[trigger] r@[i])@ == Seq::<u8>::empty(),
        decreases n - c,
    {
        r.push(Vec::new());
        c = c + 1;
    }
    assert(byte_views(r@) =~~= Seq::new(n as nat, |c: int| Seq::<u8>::empty()));
    r
}

/// Append the rows of a line to their regions.
fn split_line(
    regions: &mut Vec<Vec<u8>>,
    channels: &[Channel],
    raw: &[u8],
    width: u32,
    y: u32,
    off: usize,
) -> (end: usize)
    requires
        old(regions)@.len() == channels@.len(),
        off + line_size(
            channel_views(channels@),
            width as int,
            y as int,
            false,
            channels@.len() as int,
        ) <= raw@.len(),
    ensures
        end == off + line_size(
            channel_views(channels@),
            width as int,
            y as int,
            false,
            channels@.len() as int,
        ),
        byte_views(final(regions)@) == Seq::new(
            channels@.len(),
            |c: int|
                old(regions)@[c]@ + if is_sampled(channel_views(channels@)[c], y as int) {
                    raw@.subrange(
                        off + line_size(channel_views(channels@), width as int, y as int, false, c),
                        off + line_size(channel_views(channels@), width as int, y as int, false, c)
                            + row_span(channel_views(channels@)[c], width as int),
                    )
                } else {
                    Seq::empty()
                },
        ),
{
    let ghost cs = channel_views(channels@);
    let ghost before = regions@;
    let ghost w = width as int;
    let ghost want = Seq::new(
        channels@.len(),
        |c: int|
            before[c]@ + if is_sampled(cs[c], y as int) {
                raw@.subrange(
                    off + line_size(cs, w, y as int, false, c),
                    off + line_size(cs, w, y as int, false, c) + row_span(cs[c], w),
                )
            } else {
                Seq::empty()
            },
    );
    let mut p: usize = off;
    let mut k: usize = 0;
    assert(raw.len() == raw@.len());
    while k < channels.len()
        invariant
            k <= channels@.len(),
            cs == channel_views(channels@),
            cs.len() == channels@.len(),
            w == width,
            regions@.len() == channels@.len(),
            before.len() == channels@.len(),
            p == off + line_size(cs, w, y as int, false, k as int),
            off + line_size(cs, w, y as int, false, cs.len() as int) <= raw@.len(),
            raw@.len() <= usize::MAX,
            want == Seq::new(
                channels@.len(),
                |c: int|
                    before[c]@ + if is_sampled(cs[c], y as int) {
                        raw@.subrange(
                            off + line_size(cs, w, y as int, false, c),
                            off + line_size(cs, w, y as int, false, c) + row_span(cs[c], w),
                        )
                    } else {
                        Seq::empty()
                    },
            ),
            forall|c: int| 0 <= c < k ==> (#[trigger] regions@[c])@ == want[c],
            forall|c: int| k <= c < regions@.len() ==> regions@[c] == before[c],
        decreases channels@.len() - k,
    {
        let c: &Channel = &channels[k];
        assert(cs[k as int] == c@);
        proof {
            lemma_line_size(cs, w, y as int, false, k as int, cs.len() as int);
            lemma_row_size(cs[k as int], w, y as int, false);
        }
        if y % at_least_one(c.y_sampling) == 0 {
            let pw: usize = subsampled_dim(width, at_least_one(c.x_sampling)) as usize;
            let z: usize = c.pixel_type.bytes_per_sample();
            assert(pw as int * z as int == row_size(cs[k as int], w, y as int, false));
            let span: usize = pw * z;
            let region: &mut Vec<u8> = &mut regions[k];
            put_bytes(region, slice_range(raw, p, p + span));
            p = p + span;
        } else {
            assert(before[k as int]@ + Seq::<u8>::empty() =~= before[k as int]@);
        }
        k = k + 1;
    }
    assert(byte_views(regions@) =~= want);
    p
}

/// Take the lines of a chunk apart, channel by channel.
pub fn split_regions(raw: &[u8], channels: &[Channel], width: u32, y0: u32, n: u32) -> (r: Vec<Vec<u8>>)
    requires
        y0 + n <= 0x1_0000_0000,
        raw@.len() == lines_size(
            channel_views(channels@),
            width as int,
            y0 as int,
            false,
            n as int,
        ),
    ensures
        byte_views(r@) == regions_in(
            raw@,
            channel_views(channels@),
            width as int,
            y0 as int,
            n as int,
        ),
{
    let ghost cs = channel_views(channels@);
    let ghost w = width as int;
    let mut regions: Vec<Vec<u8>> = empty_regions(channels.len());
    let mut p: usize = 0;
    let mut i: u32 = 0;
    assert(byte_views(regions@) =~~= regions_in(raw@, cs, w, y0 as int, 0));
    while i < n
        invariant
            i <= n,
            y0 + n <= 0x1_0000_0000,
            cs == channel_views(channels@),
            cs.len() == channels@.len(),
            w == width,
            regions@.len() == channels@.len(),
            p == lines_size(cs, w, y0 as int, false, i as int),
            raw@.len() == lines_size(cs, w, y0 as int, false, n as int),
            byte_views(regions@) == regions_in(raw@, cs, w, y0 as int, i as int),
        decreases n - i,
    {
        proof {
            lemma_lines_size(cs, w, y0 as int, false, i as int, n as int);
        }
        let ghost before = regions@;
        p = split_line(&mut regions, channels, raw, width, y0 + i, p);
        proof {
            let next = regions_in(raw@, cs, w, y0 as int, i + 1);
            assert forall|c: int| 0 <= c < cs.len() implies byte_views(regions@)[c] == next[c] by {
                assert(byte_views(before)[c] == before[c]@);
            }
            assert(byte_views(regions@).len() == regions@.len());
            assert(byte_views(regions@) =~= next);
        }
        i = i + 1;
    }
    regions
}

// ----------------------------------------------------------------------
// Laws
// ----------------------------------------------------------------------
/// The lines that were taken apart have the bytes of their channels.
pub proof fn lemma_regions_fit(raw: Seq<u8>, cs: Seq<ChannelView>, width: int, y0: int, n: int, c: int)
    requires
        0 <= width,
        0 <= y0,
        0 <= n,
        0 <= c < cs.len(),
        raw.len() >= lines_size(cs, width, y0, false, n),
    ensures
        region_in(raw, cs, width, y0, n, c).len() == span_of(cs[c], width, y0, n),
    decreases n,
{
    if n > 0 {
        let y = y0 + n - 1;
        lemma_lines_size(cs, width, y0, false, n - 1, n);
        lemma_line_size(cs, width, y, false, c, cs.len() as int);
        lemma_regions_fit(raw, cs, width, y0, n - 1, c);
        lemma_region_row(cs[c], width, y0, n, y);
        let (a, r) = (rows_of(cs[c], y0, n - 1), row_span(cs[c], width));
        assert((a + 1) * r == a * r + r) by (nonlinear_arith);
    } else {
        assert(0 * row_span(cs[c], width) == 0);
    }
}

proof fn lemma_joined_line_len(
    regions: Seq<Seq<u8>>,
    cs: Seq<ChannelView>,
    width: int,
    y0: int,
    n: int,
    y: int,
    k: int,
)
    requires
        regions_fit(regions, cs, width, y0, n),
        0 <= width,
        0 <= y0 <= y < y0 + n,
        0 <= k <= cs.len(),
    ensures
        joined_line(regions, cs, width, y0, y, k).len() == line_size(cs, width, y, false, k),
    decreases k,
{
    if k > 0 {
        lemma_joined_line_len(regions, cs, width, y0, n, y, k - 1);
        lemma_region_row(cs[k - 1], width, y0, n, y);
        assert(regions[k - 1].len() == span_of(cs[k - 1], width, y0, n));
    }
}

pub proof fn lemma_joined_len(regions: Seq<Seq<u8>>, cs: Seq<ChannelView>, width: int, y0: int, n: int, k: int)
    requires
        regions_fit(regions, cs, width, y0, n),
        0 <= width,
        0 <= y0,
        0 <= k <= n,
    ensures
        joined_lines(regions, cs, width, y0, k).len() == lines_size(cs, width, y0, false, k),
    decreases k,
{
    if k > 0 {
        lemma_joined_len(regions, cs, width, y0, n, k - 1);
        lemma_joined_line_len(regions, cs, width, y0, n, y0 + k - 1, cs.len() as int);
    }
}

/// The row of a channel in a joined line.
proof fn lemma_joined_row(
    regions: Seq<Seq<u8>>,
    cs: Seq<ChannelView>,
    width: int,
    y0: int,
    n: int,
    y: int,
    k: int,
    c: int,
)
    requires
        regions_fit(regions, cs, width, y0, n),
        0 <= width,
        0 <= y0 <= y < y0 + n,
        0 <= c < k <= cs.len(),
        is_sampled(cs[c], y),
    ensures
        ({
            let at = line_size(cs, width, y, false, c);
            &&& 0 <= at
            &&& at + row_span(cs[c], width) <= joined_line(regions, cs, width, y0, y, k).len()
            &&& joined_line(regions, cs, width, y0, y, k).subrange(
                at,
                at + row_span(cs[c], width),
            ) == region_row(regions[c], cs[c], width, y0, y)
        }),
    decreases k,
{
    lemma_joined_line_len(regions, cs, width, y0, n, y, k);
    lemma_joined_line_len(regions, cs, width, y0, n, y, k - 1);
    lemma_line_size(cs, width, y, false, c, k);
    lemma_region_row(cs[c], width, y0, n, y);
    let at = line_size(cs, width, y, false, c);
    let r = row_span(cs[c], width);
    let head = joined_line(regions, cs, width, y0, y, k - 1);
    let all = joined_line(regions, cs, width, y0, y, k);
    if c < k - 1 {
        lemma_joined_row(regions, cs, width, y0, n, y, k - 1, c);
        assert(all.subrange(at, at + r) =~= head.subrange(at, at + r));
    } else {
        assert(regions[c].len() == span_of(cs[c], width, y0, n));
        assert(all.subrange(at, at + r) =~= region_row(regions[c], cs[c], width, y0, y));
    }
}

/// Lines that were put together are taken apart again.
pub proof fn law_regions_of_joined(
    regions: Seq<Seq<u8>>,
    cs: Seq<ChannelView>,
    width: int,
    y0: int,
    n: int,
    k: int,
    c: int,
)
    requires
        regions_fit(regions, cs, width, y0, n),
        0 <= width,
        0 <= y0,
        0 <= k <= n,
        0 <= c < cs.len(),
    ensures
        0 <= rows_of(cs[c], y0, k) * row_span(cs[c], width) <= regions[c].len(),
        region_in(joined_lines(regions, cs, width, y0, n), cs, width, y0, k, c)
            == regions[c].take(rows_of(cs[c], y0, k) * row_span(cs[c], width)),
    decreases k,
{
    let all = joined_lines(regions, cs, width, y0, n);
    let r = row_span(cs[c], width);
    assert(regions[c].len() == span_of(cs[c], width, y0, n));
    lemma_span(cs[c], width, y0, n);
    if k > 0 {
        law_regions_of_joined(regions, cs, width, y0, n, k - 1, c);
        let y = y0 + k - 1;
        let a = rows_of(cs[c], y0, k - 1);
        lemma_region_row(cs[c], width, y0, n, y);
        assert((a + 1) * r == a * r + r) by (nonlinear_arith);
        if is_sampled(cs[c], y) {
            let off = lines_size(cs, width, y0, false, k - 1);
            let at = line_size(cs, width, y, false, c);
            lemma_joined_row(regions, cs, width, y0, n, y, cs.len() as int, c);
            lemma_joined_line_len(regions, cs, width, y0, n, y, cs.len() as int);
            lemma_joined_part(regions, cs, width, y0, n, k, n);
            let line = joined_line(regions, cs, width, y0, y, cs.len() as int);
            assert(all.subrange(off + at, off + at + r) =~= all.subrange(
                off,
                off + line.len(),
            ).subrange(at, at + r));
        }
        assert(region_in(all, cs, width, y0, k, c) =~= regions[c].take(
            rows_of(cs[c], y0, k) * r,
        ));
    } else {
        assert(0 * r == 0);
        assert(region_in(all, cs, width, y0, k, c) =~= regions[c].take(0));
    }
}

/// Where a line stands among the joined ones.
proof fn lemma_joined_part(
    regions: Seq<Seq<u8>>,
    cs: Seq<ChannelView>,
    width: int,
    y0: int,
    n: int,
    k: int,
    m: int,
)
    requires
        regions_fit(regions, cs, width, y0, n),
        0 <= width,
        0 <= y0,
        0 < k <= m <= n,
    ensures
        ({
            let off = lines_size(cs, width, y0, false, k - 1);
            let line = joined_line(regions, cs, width, y0, y0 + k - 1, cs.len() as int);
            &&& 0 <= off
            &&& off + line.len() <= joined_lines(regions, cs, width, y0, m).len()
            &&& joined_lines(regions, cs, width, y0, m).subrange(off, off + line.len()) == line
        }),
    decreases m,
{
    let off = lines_size(cs, width, y0, false, k - 1);
    let line = joined_line(regions, cs, width, y0, y0 + k - 1, cs.len() as int);
    lemma_joined_len(regions, cs, width, y0, n, m);
    lemma_joined_len(regions, cs, width, y0, n, m - 1);
    lemma_joined_line_len(regions, cs, width, y0, n, y0 + k - 1, cs.len() as int);
    lemma_lines_size(cs, width, y0, false, k - 1, m);
    let all = joined_lines(regions, cs, width, y0, m);
    if k < m {
        lemma_joined_part(regions, cs, width, y0, n, k, m - 1);
        let head = joined_lines(regions, cs, width, y0, m - 1);
        assert(all.subrange(off, off + line.len()) =~= head.subrange(off, off + line.len()));
    } else {
        assert(all.subrange(off, off + line.len()) =~= line);
    }
}

/// Lines that were taken apart are put together again.
pub proof fn law_joined_of_regions(raw: Seq<u8>, cs: Seq<ChannelView>, width: int, y0: int, n: int, k: int)
    requires
        0 <= width,
        0 <= y0,
        0 <= k <= n,
        raw.len() == lines_size(cs, width, y0, false, n),
    ensures
        0 <= lines_size(cs, width, y0, false, k) <= raw.len(),
        joined_lines(regions_in(raw, cs, width, y0, n), cs, width, y0, k) == raw.take(
            lines_size(cs, width, y0, false, k),
        ),
    decreases k,
{
    let regions = regions_in(raw, cs, width, y0, n);
    lemma_lines_size(cs, width, y0, false, k, n);
    if k > 0 {
        law_joined_of_regions(raw, cs, width, y0, n, k - 1);
        let off = lines_size(cs, width, y0, false, k - 1);
        lemma_lines_size(cs, width, y0, false, k - 1, n);
        lemma_line_of_regions(raw, cs, width, y0, n, k, cs.len() as int);
        assert(joined_lines(regions, cs, width, y0, k) =~= raw.take(
            lines_size(cs, width, y0, false, k),
        ));
    } else {
        assert(raw.take(0) =~= Seq::<u8>::empty());
    }
}

/// The first channels of a line that was taken apart.
proof fn lemma_line_of_regions(
    raw: Seq<u8>,
    cs: Seq<ChannelView>,
    width: int,
    y0: int,
    n: int,
    k: int,
    m: int,
)
    requires
        0 <= width,
        0 <= y0,
        0 < k <= n,
        0 <= m <= cs.len(),
        raw.len() == lines_size(cs, width, y0, false, n),
    ensures
        ({
            let off = lines_size(cs, width, y0, false, k - 1);
            let size = line_size(cs, width, y0 + k - 1, false, m);
            &&& 0 <= off
            &&& 0 <= size
            &&& off + size <= raw.len()
            &&& joined_line(
                regions_in(raw, cs, width, y0, n),
                cs,
                width,
                y0,
                y0 + k - 1,
                m,
            ) == raw.subrange(off, off + size)
        }),
    decreases m,
{
    let y = y0 + k - 1;
    let off = lines_size(cs, width, y0, false, k - 1);
    let regions = regions_in(raw, cs, width, y0, n);
    lemma_lines_size(cs, width, y0, false, k - 1, n);
    lemma_line_size(cs, width, y, false, m, cs.len() as int);
    if m > 0 {
        lemma_line_of_regions(raw, cs, width, y0, n, k, m - 1);
        let c = cs[m - 1];
        let at = off + line_size(cs, width, y, false, m - 1);
        let r = row_span(c, width);
        lemma_region_row(c, width, y0, n, y);
        if is_sampled(c, y) {
            lemma_row_of_region(raw, cs, width, y0, n, k, m - 1);
            assert(region_row(regions[m - 1], c, width, y0, y) == raw.subrange(at, at + r));
        }
        assert(joined_line(regions, cs, width, y0, y, m) =~= raw.subrange(
            off,
            off + line_size(cs, width, y, false, m),
        ));
    } else {
        assert(raw.subrange(off, off) =~= Seq::<u8>::empty());
    }
}

/// The row of a channel that was taken out of a line.
proof fn lemma_row_of_region(raw: Seq<u8>, cs: Seq<ChannelView>, width: int, y0: int, n: int, k: int, c: int)
    requires
        0 <= width,
        0 <= y0,
        0 < k <= n,
        0 <= c < cs.len(),
        is_sampled(cs[c], y0 + k - 1),
        raw.len() == lines_size(cs, width, y0, false, n),
    ensures
        ({
            let y = y0 + k - 1;
            let at = lines_size(cs, width, y0, false, k - 1) + line_size(cs, width, y, false, c);
            &&& 0 <= at
            &&& at + row_span(cs[c], width) <= raw.len()
            &&& region_row(region_in(raw, cs, width, y0, n, c), cs[c], width, y0, y)
                == raw.subrange(at, at + row_span(cs[c], width))
        }),
    decreases n,
{
    let y = y0 + k - 1;
    let at = lines_size(cs, width, y0, false, k - 1) + line_size(cs, width, y, false, c);
    let r = row_span(cs[c], width);
    let a = rows_of(cs[c], y0, k - 1);
    lemma_lines_size(cs, width, y0, false, k - 1, n);
    lemma_line_size(cs, width, y, false, c, cs.len() as int);
    lemma_region_row(cs[c], width, y0, n, y);
    lemma_region_row(cs[c], width, y0, k, y);
    lemma_region_prefix(raw, cs, width, y0, k, n, c);
    lemma_regions_fit(raw, cs, width, y0, n, c);
    lemma_regions_fit(raw, cs, width, y0, k, c);
    lemma_regions_fit(raw, cs, width, y0, k - 1, c);
    lemma_lines_size(cs, width, y0, false, k, n);
    let whole = region_in(raw, cs, width, y0, n, c);
    let part = region_in(raw, cs, width, y0, k, c);
    assert(whole.subrange(a * r, a * r + r) =~= part.subrange(a * r, a * r + r));
    assert(part.subrange(a * r, a * r + r) =~= raw.subrange(at, at + r));
}

/// More lines only add to a region.
proof fn lemma_region_prefix(raw: Seq<u8>, cs: Seq<ChannelView>, width: int, y0: int, k: int, n: int, c: int)
    requires
        0 <= k <= n,
    ensures
        region_in(raw, cs, width, y0, k, c).len() <= region_in(raw, cs, width, y0, n, c).len(),
        region_in(raw, cs, width, y0, n, c).take(
            region_in(raw, cs, width, y0, k, c).len() as int,
        ) == region_in(raw, cs, width, y0, k, c),
    decreases n,
{
    let a = region_in(raw, cs, width, y0, k, c);
    let b = region_in(raw, cs, width, y0, n, c);
    if k < n {
        lemma_region_prefix(raw, cs, width, y0, k, n - 1, c);
        assert(b.take(a.len() as int) =~= region_in(raw, cs, width, y0, n - 1, c).take(
            a.len() as int,
        ));
    } else {
        assert(b.take(a.len() as int) =~= a);
    }
}

} // verus!
