//! What the writers of deep files share: the checks of their input, and the
//! records of their blocks.

use crate::bytes::{lemma_stands_split, lemma_u64_reads_back, read_u64, slice_range, stands_at, u64_at, u64_le};
use crate::deep_block::{
    block_of, plain_shape, read_block, reads_back, record_bytes, BlockShape, BlockView, DeepBlock,
    PackedView,
};
use crate::error::{ExrError, Fault};
use crate::ragged::{lemma_total_bound, sum, total};
use crate::samples::stored_plane;
use crate::text::{name_lt, str_lt};
use crate::types::{channel_views, names_ascend, Channel, ChannelView, Compression};
use vstd::prelude::*;

verus! {

broadcast use crate::bytes::group_le_len;

/// The planes that a list of slices stands for.
pub open spec fn slice_views(v: Seq<&[u32]>) -> Seq<Seq<u32>> {
    Seq::new(v.len(), |i: int| v[i]@)
}

/// The first fault of the channels from `i` on: a channel that does not have
/// a sample at every pixel, or one whose samples are not `n`.
pub open spec fn planes_fault(cs: Seq<ChannelView>, planes: Seq<Seq<u32>>, n: int, i: int) -> Option<Fault>
    decreases cs.len() - i,
{
    if i >= cs.len() {
        None
    } else if cs[i].x_sampling != 1 || cs[i].y_sampling != 1 {
        Some(Fault::Unsupported)
    } else if planes[i].len() != n {
        Some(Fault::Invalid)
    } else {
        planes_fault(cs, planes, n, i + 1)
    }
}

/// Without a fault, every channel is full and has its samples.
pub proof fn lemma_no_planes_fault(cs: Seq<ChannelView>, planes: Seq<Seq<u32>>, n: int, i: int)
    requires
        0 <= i,
        planes_fault(cs, planes, n, i) is None,
    ensures
        forall|c: int|
            i <= c < cs.len() ==> (#[trigger] cs[c]).x_sampling == 1 && cs[c].y_sampling == 1,
        forall|c: int| i <= c < cs.len() ==> (#[trigger] planes[c]).len() == n,
    decreases cs.len() - i,
{
    if i < cs.len() {
        lemma_no_planes_fault(cs, planes, n, i + 1);
    }
}

/// Check the channels of an input.
pub fn check_planes(channels: &[Channel], planes: &Vec<&[u32]>, n: u128) -> (r: Result<(), ExrError>)
    requires
        planes@.len() == channels@.len(),
    ensures
        r is Ok <==> planes_fault(channel_views(channels@), slice_views(planes@), n as int, 0) is None,
        r matches Err(e) ==> planes_fault(
            channel_views(channels@),
            slice_views(planes@),
            n as int,
            0,
        ) == Some(e.fault()),
{
    let ghost cs = channel_views(channels@);
    let ghost ps = slice_views(planes@);
    let mut i: usize = 0;
    while i < channels.len()
        invariant
            i <= channels@.len(),
            planes@.len() == channels@.len(),
            cs == channel_views(channels@),
            ps == slice_views(planes@),
            planes_fault(cs, ps, n as int, 0) == planes_fault(cs, ps, n as int, i as int),
        decreases channels@.len() - i,
    {
        assert(cs[i as int] == channels@[i as int]@);
        assert(ps[i as int] == planes@[i as int]@);
        if channels[i].x_sampling != 1 || channels[i].y_sampling != 1 {
            return Err(ExrError::unsupported("deep data with a sub-sampled channel"));
        }
        let plane: &[u32] = planes[i];
        if plane.len() as u128 != n {
            return Err(ExrError::invalid("channel sample count differs from the total"));
        }
        i = i + 1;
    }
    Ok(())
}

/// Every name comes before the next.
pub fn ascending(channels: &[Channel]) -> (r: bool)
    ensures
        r == names_ascend(channel_views(channels@)),
{
    let ghost cs = channel_views(channels@);
    let mut i: usize = 1;
    while i < channels.len()
        invariant
            1 <= i,
            i <= channels@.len() || channels@.len() == 0,
            cs == channel_views(channels@),
            forall|a: int, b: int|
                #![trigger cs[a], cs[b]]
                0 <= a && b == a + 1 && b < i && b < cs.len() ==> name_lt(cs[a].name, cs[b].name),
        decreases channels@.len() - i,
    {
        assert(cs[i as int] == channels@[i as int]@);
        assert(cs[i - 1] == channels@[i - 1]@);
        if !str_lt(channels[i - 1].name.as_str(), channels[i].name.as_str()) {
            return false;
        }
        i = i + 1;
    }
    true
}

/// The sum of counts.
pub fn sum_counts(counts: &[u32]) -> (r: u128)
    ensures
        r == sum(counts@),
{
    let mut r: u128 = 0;
    let mut i: usize = 0;
    let ghost len = counts.len();
    while i < counts.len()
        invariant
            i <= counts@.len(),
            len == counts@.len(),
            r == total(counts@, i as int),
        decreases counts@.len() - i,
    {
        proof {
            lemma_total_bound(counts@, i as int);
        }
        r = r + counts[i] as u128;
        i = i + 1;
    }
    r
}

/// What the pixels of an input are read back as.
pub open spec fn stored_pixels(counts: Seq<u32>, planes: Seq<Seq<u32>>, cs: Seq<ChannelView>) -> BlockView {
    BlockView {
        counts,
        planes: Seq::new(cs.len(), |c: int| stored_plane(cs[c].pixel_type, planes[c])),
    }
}

/// A copy of the samples from `from` up to `to`.
pub fn copy_samples(s: &[u32], from: usize, to: usize) -> (r: Vec<u32>)
    requires
        from <= to <= s@.len(),
    ensures
        r@ == s@.subrange(from as int, to as int),
{
    let mut r: Vec<u32> = Vec::with_capacity(to - from);
    r.extend_from_slice(slice_range(s, from, to));
    assert(r@ =~= s@.subrange(from as int, to as int));
    r
}

/// The block whose record stands at `b`, and the position behind it.
pub open spec fn record_block(
    s: Seq<u8>,
    b: int,
    shape: BlockShape,
    c: Compression,
    cs: Seq<ChannelView>,
) -> Option<(BlockView, int)> {
    if b + 24 > s.len() {
        None
    } else {
        let t = u64_at(s, b) as int;
        let d = u64_at(s, b + 8) as int;
        if b + 24 + t + d > s.len() {
            None
        } else {
            match block_of(
                s.subrange(b + 24, b + 24 + t),
                s.subrange(b + 24 + t, b + 24 + t + d),
                u64_at(s, b + 16),
                shape,
                c,
                cs,
            ) {
                None => None,
                Some(v) => Some((v, b + 24 + t + d)),
            }
        }
    }
}

/// Read the block whose record stands at `b`.
pub fn read_record(s: &[u8], b: usize, shape: BlockShape, c: Compression, channels: &[Channel]) -> (r:
    Result<(DeepBlock, usize), ExrError>)
    requires
        b + 24 <= s@.len(),
        shape.is_valid(),
    ensures
        r matches Ok((v, p)) ==> record_block(s@, b as int, shape, c, channel_views(channels@)) == Some(
            (v@, p as int),
        ) && p <= s@.len(),
        r matches Err(e) ==> e.fault() == Fault::Invalid && record_block(
            s@,
            b as int,
            shape,
            c,
            channel_views(channels@),
        ) is None,
{
    let n: usize = s.len();
    let t: u64 = read_u64(s, b);
    let d: u64 = read_u64(s, b + 8);
    let size: u64 = read_u64(s, b + 16);
    let left: usize = n - b - 24;
    if t > left as u64 || d > left as u64 - t {
        return Err(ExrError::invalid("deep chunk payload runs past EOF"));
    }
    let p: usize = b + 24 + t as usize;
    let q: usize = p + d as usize;
    let v: DeepBlock = read_block(
        slice_range(s, b + 24, p),
        slice_range(s, p, q),
        size,
        shape,
        c,
        channels,
    )?;
    Ok((v, q))
}

/// A record that was written for a block reads back.
pub proof fn lemma_record_reads_back(
    s: Seq<u8>,
    b: int,
    p: PackedView,
    rows: u32,
    cols: u32,
    counts: Seq<u32>,
    planes: Seq<Seq<u32>>,
    c: Compression,
    cs: Seq<ChannelView>,
)
    requires
        s.len() <= u64::MAX,
        stands_at(s, b, record_bytes(p)),
        reads_back(p, rows, cols, counts, planes, c, cs),
    ensures
        record_block(s, b, plain_shape(rows, cols), c, cs) == Some(
            (stored_pixels(counts, planes, cs), b + record_bytes(p).len()),
        ),
{
    let t = p.table.len() as u64;
    let d = p.data.len() as u64;
    lemma_stands_split(s, b, u64_le(t), u64_le(d) + (u64_le(p.size) + (p.table + p.data)));
    lemma_stands_split(s, b + 8, u64_le(d), u64_le(p.size) + (p.table + p.data));
    lemma_stands_split(s, b + 16, u64_le(p.size), p.table + p.data);
    lemma_stands_split(s, b + 24, p.table, p.data);
    lemma_u64_reads_back(s, b, t);
    lemma_u64_reads_back(s, b + 8, d);
    lemma_u64_reads_back(s, b + 16, p.size);
}

} // verus!
