//! Samples of a channel, as they are stored and as binary32 bit patterns.

use crate::bytes::{
    lemma_stands_split, lemma_u16_reads_back, lemma_u32_reads_back, put_u16, put_u32, read_u16,
    read_u32, stands_at, u16_at, u16_le, u32_at, u32_le,
};
use crate::half::{
    f32_as_half, f32_as_uint, f32_to_half, f32_to_uint, half_as_f32, half_to_f32, uint_as_f32,
    uint_to_f32,
};
use crate::ragged::mapped;
use crate::types::{channel_views, Channel, ChannelView, PixelType};
use vstd::prelude::*;

verus! {

broadcast use crate::bytes::group_le_len;

/// The sample of the given type at `off`.
pub open spec fn sample_at(t: PixelType, s: Seq<u8>, off: int) -> u32 {
    match t {
        PixelType::Half => half_as_f32(u16_at(s, off)),
        PixelType::Float => u32_at(s, off),
        PixelType::Uint => uint_as_f32(u32_at(s, off)),
    }
}

/// A sample as it is stored.
pub open spec fn sample_bytes(t: PixelType, v: u32) -> Seq<u8> {
    match t {
        PixelType::Half => u16_le(f32_as_half(v)),
        PixelType::Float => u32_le(v),
        PixelType::Uint => u32_le(f32_as_uint(v)),
    }
}

/// What a sample is read back as.
pub open spec fn stored_value(t: PixelType, v: u32) -> u32 {
    match t {
        PixelType::Half => half_as_f32(f32_as_half(v)),
        PixelType::Float => v,
        PixelType::Uint => uint_as_f32(f32_as_uint(v)),
    }
}

/// What the samples of a channel are read back as.
pub open spec fn stored_plane(t: PixelType, plane: Seq<u32>) -> Seq<u32> {
    mapped(plane, |v: u32| stored_value(t, v))
}

/// The samples of a channel as they are stored.
pub open spec fn plane_bytes(t: PixelType, plane: Seq<u32>) -> Seq<u8>
    decreases plane.len(),
{
    if plane.len() == 0 {
        Seq::empty()
    } else {
        plane_bytes(t, plane.drop_last()) + sample_bytes(t, plane.last())
    }
}

/// The samples of the first `k` channels, one channel behind the other.
pub open spec fn channel_data(cs: Seq<ChannelView>, planes: Seq<Seq<u32>>, k: int) -> Seq<u8>
    decreases k,
{
    if k <= 0 {
        Seq::empty()
    } else {
        channel_data(cs, planes, k - 1) + plane_bytes(cs[k - 1].pixel_type, planes[k - 1])
    }
}

/// The bytes of one sample of each of the first `k` channels.
pub open spec fn sizes(cs: Seq<ChannelView>, k: int) -> nat
    decreases k,
{
    if k <= 0 {
        0
    } else {
        sizes(cs, k - 1) + cs[k - 1].pixel_type.size()
    }
}

/// The bytes of one sample of each channel.
pub open spec fn pixel_size(cs: Seq<ChannelView>) -> nat {
    sizes(cs, cs.len() as int)
}

/// The `n` samples of channel `c` in data that holds `n` samples of each
/// channel, one channel behind the other.
pub open spec fn plane_in(data: Seq<u8>, cs: Seq<ChannelView>, n: int, c: int) -> Seq<u32> {
    Seq::new(
        n as nat,
        |i: int|
            sample_at(
                cs[c].pixel_type,
                data,
                n * sizes(cs, c) + i * cs[c].pixel_type.size(),
            ),
    )
}

/// The samples of every channel in such data.
pub open spec fn planes_in(data: Seq<u8>, cs: Seq<ChannelView>, n: int) -> Seq<Seq<u32>> {
    Seq::new(cs.len(), |c: int| plane_in(data, cs, n, c))
}

pub fn read_sample(t: PixelType, s: &[u8], off: usize) -> (r: u32)
    requires
        off + t.size() <= s@.len(),
    ensures
        r == sample_at(t, s@, off as int),
{
    match t {
        PixelType::Half => half_to_f32(read_u16(s, off)),
        PixelType::Float => read_u32(s, off),
        PixelType::Uint => uint_to_f32(read_u32(s, off)),
    }
}

pub fn put_sample(out: &mut Vec<u8>, t: PixelType, v: u32)
    ensures
        final(out)@ == old(out)@ + sample_bytes(t, v),
{
    match t {
        PixelType::Half => put_u16(out, f32_to_half(v)),
        PixelType::Float => put_u32(out, v),
        PixelType::Uint => put_u32(out, f32_to_uint(v)),
    }
}

/// Append samples of a channel.
pub fn put_plane(out: &mut Vec<u8>, t: PixelType, plane: &[u32])
    ensures
        final(out)@ == old(out)@ + plane_bytes(t, plane@),
{
    let mut i: usize = 0;
    let ghost start = out@;
    assert(plane@.take(0) =~= Seq::empty());
    assert(start + Seq::<u8>::empty() =~= start);
    while i < plane.len()
        invariant
            i <= plane@.len(),
            out@ == start + plane_bytes(t, plane@.take(i as int)),
        decreases plane@.len() - i,
    {
        put_sample(out, t, plane[i]);
        proof {
            assert(plane@.take(i + 1).drop_last() =~= plane@.take(i as int));
            assert(out@ =~= start + plane_bytes(t, plane@.take(i + 1)));
        }
        i = i + 1;
    }
    assert(plane@.take(i as int) =~= plane@);
}

pub proof fn lemma_plane_bytes_len(t: PixelType, plane: Seq<u32>)
    ensures
        plane_bytes(t, plane).len() == plane.len() * t.size(),
    decreases plane.len(),
{
    if plane.len() > 0 {
        lemma_plane_bytes_len(t, plane.drop_last());
        let a = plane.len() - 1;
        let z = t.size() as int;
        assert((a + 1) * z == a * z + z) by (nonlinear_arith);
    } else {
        assert(0 * t.size() == 0);
    }
}

proof fn lemma_sample_reads_back(t: PixelType, s: Seq<u8>, at: int, v: u32)
    requires
        stands_at(s, at, sample_bytes(t, v)),
    ensures
        sample_at(t, s, at) == stored_value(t, v),
{
    match t {
        PixelType::Half => {
            lemma_u16_reads_back(s, at, f32_as_half(v));
        },
        PixelType::Float => {
            lemma_u32_reads_back(s, at, v);
        },
        PixelType::Uint => {
            lemma_u32_reads_back(s, at, f32_as_uint(v));
        },
    }
}

/// Stored samples of a channel read back.
pub proof fn lemma_plane_reads_back(t: PixelType, s: Seq<u8>, at: int, plane: Seq<u32>, i: int)
    requires
        stands_at(s, at, plane_bytes(t, plane)),
        0 <= i < plane.len(),
    ensures
        sample_at(t, s, at + i * t.size()) == stored_value(t, plane[i]),
    decreases plane.len(),
{
    let rest = plane.drop_last();
    lemma_stands_split(s, at, plane_bytes(t, rest), sample_bytes(t, plane.last()));
    lemma_plane_bytes_len(t, rest);
    if i < rest.len() {
        lemma_plane_reads_back(t, s, at, rest, i);
    } else {
        lemma_sample_reads_back(t, s, at + plane_bytes(t, rest).len(), plane.last());
    }
}

/// The samples of the first `k` channels are as long as their sizes say.
pub proof fn lemma_channel_data_len(cs: Seq<ChannelView>, planes: Seq<Seq<u32>>, n: int, k: int)
    requires
        0 <= k <= cs.len(),
        0 <= n,
        forall|c: int| 0 <= c < k ==> (#[trigger] planes[c]).len() == n,
    ensures
        channel_data(cs, planes, k).len() == n * sizes(cs, k),
    decreases k,
{
    if k > 0 {
        lemma_channel_data_len(cs, planes, n, k - 1);
        lemma_plane_bytes_len(cs[k - 1].pixel_type, planes[k - 1]);
        let a = sizes(cs, k - 1) as int;
        let z = cs[k - 1].pixel_type.size() as int;
        assert(n * (a + z) == n * a + n * z) by (nonlinear_arith);
    } else {
        assert(n * 0 == 0);
    }
}

proof fn lemma_channel_stands(
    cs: Seq<ChannelView>,
    planes: Seq<Seq<u32>>,
    n: int,
    s: Seq<u8>,
    k: int,
    c: int,
)
    requires
        0 <= c < k <= cs.len(),
        0 <= n,
        forall|i: int| 0 <= i < k ==> (#[trigger] planes[i]).len() == n,
        stands_at(s, 0, channel_data(cs, planes, k)),
    ensures
        stands_at(s, n * sizes(cs, c), plane_bytes(cs[c].pixel_type, planes[c])),
    decreases k,
{
    let last = plane_bytes(cs[k - 1].pixel_type, planes[k - 1]);
    lemma_stands_split(s, 0, channel_data(cs, planes, k - 1), last);
    lemma_channel_data_len(cs, planes, n, k - 1);
    if c < k - 1 {
        lemma_channel_stands(cs, planes, n, s, k - 1, c);
    }
}

/// Stored samples of all channels read back.
pub proof fn lemma_channels_read_back(cs: Seq<ChannelView>, planes: Seq<Seq<u32>>, n: int)
    requires
        0 <= n,
        planes.len() == cs.len(),
        forall|c: int| 0 <= c < cs.len() ==> (#[trigger] planes[c]).len() == n,
    ensures
        planes_in(channel_data(cs, planes, cs.len() as int), cs, n) == Seq::new(
            cs.len(),
            |c: int| stored_plane(cs[c].pixel_type, planes[c]),
        ),
{
    let data = channel_data(cs, planes, cs.len() as int);
    assert(data.subrange(0, data.len() as int) =~= data);
    assert forall|c: int| 0 <= c < cs.len() implies plane_in(data, cs, n, c) == stored_plane(
        cs[c].pixel_type,
        planes[c],
    ) by {
        lemma_channel_stands(cs, planes, n, data, cs.len() as int, c);
        assert(planes[c].len() == n);
        assert forall|i: int| 0 <= i < n implies plane_in(data, cs, n, c)[i] == stored_plane(
            cs[c].pixel_type,
            planes[c],
        )[i] by {
            lemma_plane_reads_back(
                cs[c].pixel_type,
                data,
                n * sizes(cs, c),
                planes[c],
                i,
            );
        }
        assert(plane_in(data, cs, n, c) =~= stored_plane(cs[c].pixel_type, planes[c]));
    }
    assert(planes_in(data, cs, n) =~= Seq::new(
        cs.len(),
        |c: int| stored_plane(cs[c].pixel_type, planes[c]),
    ));
}

pub proof fn lemma_sizes_monotonic(cs: Seq<ChannelView>, a: int, b: int)
    requires
        0 <= a <= b,
    ensures
        sizes(cs, a) <= sizes(cs, b),
        a < b ==> sizes(cs, a) + cs[a].pixel_type.size() <= sizes(cs, b),
        sizes(cs, b) <= 4 * b,
        sizes(cs, b) >= 2 * b,
    decreases b,
{
    if a < b {
        lemma_sizes_monotonic(cs, a, b - 1);
    } else if b > 0 {
        lemma_sizes_monotonic(cs, b - 1, b - 1);
    }
}

/// The bytes of one sample of each channel.
pub fn bytes_per_pixel(channels: &[Channel]) -> (r: u128)
    ensures
        r == pixel_size(channel_views(channels@)),
{
    let mut r: u128 = 0;
    let mut i: usize = 0;
    let ghost cs = channel_views(channels@);
    while i < channels.len()
        invariant
            i <= channels@.len(),
            cs == channel_views(channels@),
            r == sizes(cs, i as int),
            r <= 4 * i,
        decreases channels@.len() - i,
    {
        assert(cs[i as int] == channels@[i as int]@);
        r = r + channels[i].pixel_type.bytes_per_sample() as u128;
        i = i + 1;
    }
    r
}

/// Read `n` samples of each channel.
pub fn read_planes(data: &[u8], channels: &[Channel], n: usize) -> (r: Vec<Vec<u32>>)
    requires
        channels@.len() > 0 ==> n * pixel_size(channel_views(channels@)) <= data@.len(),
    ensures
        r@.len() == channels@.len(),
        forall|c: int|
            0 <= c < channels@.len() ==> (#[trigger] r@[c])@ == planes_in(
                data@,
                channel_views(channels@),
                n as int,
            )[c],
{
    let mut r: Vec<Vec<u32>> = Vec::new();
    let mut base: usize = 0;
    let ghost cs = channel_views(channels@);
    let ghost len = data.len();
    let mut c: usize = 0;
    assert(n * sizes(cs, 0) == 0) by (nonlinear_arith)
        requires
            sizes(cs, 0) == 0,
    ;
    while c < channels.len()
        invariant
            c <= channels@.len(),
            cs == channel_views(channels@),
            len == data@.len(),
            channels@.len() > 0 ==> n * pixel_size(cs) <= len,
            base == n * sizes(cs, c as int),
            r@.len() == c,
            forall|j: int| 0 <= j < c ==> (#[trigger] r@[j])@ == planes_in(data@, cs, n as int)[j],
        decreases channels@.len() - c,
    {
        let t: PixelType = channels[c].pixel_type;
        let size: usize = t.bytes_per_sample();
        let mut plane: Vec<u32> = Vec::new();
        let mut i: usize = 0;
        let mut off: usize = base;
        proof {
            assert(cs[c as int].pixel_type == t);
            lemma_sizes_monotonic(cs, c as int, cs.len() as int);
            let a = sizes(cs, c as int) as int;
            let b = pixel_size(cs) as int;
            assert(n * a + n * size <= n * b) by (nonlinear_arith)
                requires
                    a + size <= b,
                    n >= 0,
            ;
        }
        while i < n
            invariant
                i <= n,
                c < channels@.len(),
                len == data@.len(),
                t == cs[c as int].pixel_type,
                size == t.size(),
                base == n * sizes(cs, c as int),
                base + n * size <= len,
                off == base + i * size,
                plane@.len() == i,
                forall|j: int| 0 <= j < i ==> plane@[j] == plane_in(data@, cs, n as int, c as int)[j],
            decreases n - i,
        {
            proof {
                assert(i * size + size <= n * size) by (nonlinear_arith)
                    requires
                        i + 1 <= n,
                        size >= 0,
                ;
                assert((i + 1) * size == i * size + size) by (nonlinear_arith);
            }
            plane.push(read_sample(t, data, off));
            off = off + size;
            i = i + 1;
        }
        proof {
            assert(plane@ =~= plane_in(data@, cs, n as int, c as int));
            let a = sizes(cs, c as int) as int;
            assert(n * (a + size) == n * a + n * size) by (nonlinear_arith);
        }
        r.push(plane);
        base = off;
        c = c + 1;
    }
    r
}

} // verus!
