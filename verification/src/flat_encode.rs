//! Writing flat images line by line.

use crate::attrs::lemma_named_index;
use crate::bytes::{
    i32_le, i32_of_u32, lemma_i32_reads_back, lemma_stands_split, lemma_u32_reads_back, put_bytes,
    put_i32, stands_at, to_signed, u64_at,
};
use crate::deep_input::{ascending, slice_views};
use crate::deep_meta::{
    entry, lemma_name_lengths, lemma_names_storable, origin_window, put_attribute, window_of,
    F32_ONE,
};
use crate::error::{ExrError, Fault};
use crate::flat::{chunk_lines, exr_of, image_with, line_head_at, scanlines_after, ImageView};
use crate::flat_block::{
    at_least_one, kept, law_lines_read_back, lemma_lines_bytes_len, lemma_sampled_monotonic,
    lemma_sampled_step, lines_bytes, lines_in, lines_size, planes_fit, put_lines, spacing,
    subsampled_dim, tall, wide,
};
use crate::flat_image::{
    blank_planes, chunk_planes, is_holdable, is_spaced, lemma_plane_len, plane_len, required_of,
    short_unpacked, with_chunk, RequiredView,
};
use crate::grid::{lemma_step, steps};
use crate::header::{
    channel_bytes, channel_list_bytes, channel_list_from, channels_storable, encode_header,
    entries_storable, entry_storable, header_bytes, is_storable, law_value_round_trip, lemma_ascii_storable,
    lemma_header_reads_back, lemma_label_storable, lemma_words_len, length_bytes, put_length,
    VersionField,
};
use crate::layout::{byte_views, chunks_placed, file_bytes, law_chunks_placed, lay_out, lemma_file_parts};
use crate::pack::{
    compress_buffer, is_lossless, keep_shorter, packed, shorter, unpacked, zlib_deflate,
    zlib_deflated, zlib_inflated,
};
use crate::types::{
    channel_views, entry_views, law_sort_of_ascending, names_ascend, sort_by_name, Attribute,
    AttributeValue, AttributeView, Channel, ChannelView, Compression, EntryView, LineOrder,
    PixelType,
};
use vstd::prelude::*;
use vstd::string::*;
use vstd::utf8::*;

verus! {

broadcast use crate::bytes::group_le_len;

/// What is written: the size, the channels and their samples, the
/// compression, and the attributes.
#[verifier::ext_equal]
pub struct FlatInput {
    pub width: u32,
    pub height: u32,
    pub channels: Seq<ChannelView>,
    pub planes: Seq<Seq<u32>>,
    pub compression: Compression,
    pub entries: Seq<EntryView>,
}

/// The compressions that can be written.
pub open spec fn is_written(c: Compression) -> bool {
    is_lossless(c) || c == Compression::Pxr24
}

fn can_write(c: Compression) -> (r: bool)
    ensures
        r == is_written(c),
{
    c == Compression::Uncompressed || c == Compression::Rle || c == Compression::Zips || c
        == Compression::Zip || c == Compression::Pxr24
}

/// The first thing that is wrong with an input.
pub open spec fn flat_fault(v: FlatInput) -> Option<Fault> {
    if !is_spaced(v.channels) || !planes_fit(
        v.channels,
        v.planes,
        v.width as int,
        v.height as int,
    ) || !names_ascend(v.channels) {
        Some(Fault::Invalid)
    } else if !is_written(v.compression) {
        Some(Fault::Unsupported)
    } else {
        None
    }
}

/// The samples are stored in the short form.
pub open spec fn is_short(v: FlatInput) -> bool {
    v.compression == Compression::Pxr24
}

/// The number of chunks.
pub open spec fn flat_count(v: FlatInput) -> int {
    steps(v.height as int, v.compression.block_rows() as int)
}

/// The first line of chunk `i`.
pub open spec fn chunk_top(v: FlatInput, i: int) -> int {
    i * v.compression.block_rows()
}

/// The number of lines of chunk `i`.
pub open spec fn chunk_height(v: FlatInput, i: int) -> int {
    chunk_lines(v.compression, v.height as int, chunk_top(v, i))
}

/// The bytes of the lines of chunk `i`.
pub open spec fn chunk_raw(v: FlatInput, i: int) -> Seq<u8> {
    lines_bytes(
        v.channels,
        v.planes,
        v.width as int,
        chunk_top(v, i),
        is_short(v),
        chunk_height(v, i),
    )
}

/// How the lines of chunk `i` are stored.
pub open spec fn chunk_packed(v: FlatInput, i: int) -> Option<Seq<u8>> {
    if is_short(v) {
        match zlib_deflated(chunk_raw(v, i)) {
            Some(z) => Some(shorter(z, chunk_raw(v, i))),
            None => None,
        }
    } else {
        packed(chunk_raw(v, i), v.compression)
    }
}

/// Chunk `i`: the coordinate of its first line, the length of what is stored,
/// and what is stored.
#[verifier::opaque]
pub open spec fn flat_chunk(v: FlatInput, i: int) -> Seq<u8> {
    let payload = chunk_packed(v, i)->Some_0;
    i32_le(i32_of_u32(chunk_top(v, i) as u32)) + (length_bytes(payload.len()) + payload)
}

/// The chunks.
pub open spec fn flat_chunks(v: FlatInput) -> Seq<Seq<u8>> {
    Seq::new(flat_count(v) as nat, |i: int| flat_chunk(v, i))
}

/// Every chunk can be stored.
pub open spec fn chunks_pack(v: FlatInput) -> bool {
    forall|i: int| 0 <= i < flat_count(v) ==> #[trigger] chunk_packed(v, i) is Some
}

/// The version field of a flat file: version 2, and no flag.
pub const FLAT_VERSION: u32 = 2;

/// The file for an input.
pub open spec fn flat_file(v: FlatInput) -> Result<Seq<u8>, Fault> {
    match flat_fault(v) {
        Some(f) => Err(f),
        None => if chunks_pack(v) {
            Ok(file_bytes(header_bytes(FLAT_VERSION, v.entries), flat_chunks(v)))
        } else {
            Err(Fault::Invalid)
        },
    }
}

/// The samples that are read back.
pub open spec fn kept_planes(v: FlatInput) -> Seq<Seq<u32>> {
    Seq::new(v.channels.len(), |c: int| kept(v.channels[c], is_short(v), v.planes[c]))
}

/// The samples of chunk `i` that are read back.
pub open spec fn kept_chunk(v: FlatInput, i: int) -> Seq<Seq<u32>> {
    let y0 = chunk_top(v, i);
    let n = chunk_height(v, i);
    Seq::new(
        v.channels.len(),
        |c: int|
            kept(
                v.channels[c],
                is_short(v),
                v.planes[c].subrange(
                    tall(v.channels[c], y0) * wide(v.channels[c], v.width as int),
                    tall(v.channels[c], y0 + n) * wide(v.channels[c], v.width as int),
                ),
            ),
    )
}

/// Chunk `i` reads back.
pub open spec fn chunk_reads(v: FlatInput, i: int) -> bool {
    forall|log: Seq<u16>| #[trigger]
        chunk_planes(
            chunk_packed(v, i)->Some_0,
            v.compression,
            v.channels,
            v.width as int,
            chunk_top(v, i),
            chunk_height(v, i),
            log,
        ) == Ok::<Seq<Seq<u32>>, Fault>(kept_chunk(v, i))
}

/// The lines of chunk `i` take a number of bytes that 64 bits can hold.
pub open spec fn chunk_countable(v: FlatInput, i: int) -> bool {
    lines_size(v.channels, v.width as int, chunk_top(v, i), false, chunk_height(v, i)) <= u64::MAX
}

/// An input whose file reads back: the attributes can be stored and agree
/// with the size, the channels and the compression, the image begins at line
/// zero, and the lengths of the chunks fit in their fields.
pub open spec fn flat_readable(v: FlatInput) -> bool {
    &&& v.width > 0
    &&& v.height > 0
    &&& entries_storable(v.entries, 31)
    &&& required_of(v.entries) matches Some(m) && {
        &&& sort_by_name(m.channels) == v.channels
        &&& m.compression == v.compression
        &&& m.data_window.columns() == v.width
        &&& m.data_window.rows() == v.height
        &&& m.data_window.y_min == 0
    }
    &&& forall|i: int|
        0 <= i < flat_count(v) ==> chunk_countable(v, i) && (#[trigger] chunk_packed(
            v,
            i,
        ))->Some_0.len() < 0x8000_0000
}

/// The image that the file for an input holds.
pub open spec fn flat_image(v: FlatInput) -> ImageView {
    image_with(required_of(v.entries)->Some_0, kept_planes(v), v.entries)
}

// ----------------------------------------------------------------------
// Chunks
// ----------------------------------------------------------------------
/// Where a chunk stands.
proof fn lemma_chunk_place(v: FlatInput, i: int)
    requires
        0 <= i < flat_count(v),
        v.height > 0,
    ensures
        0 <= chunk_top(v, i) < v.height,
        0 < chunk_height(v, i),
        chunk_top(v, i) + chunk_height(v, i) <= v.height,
        chunk_top(v, i + 1) <= v.height ==> chunk_top(v, i + 1) == chunk_top(v, i) + chunk_height(
            v,
            i,
        ),
        chunk_top(v, i + 1) > v.height ==> chunk_top(v, i) + chunk_height(v, i) == v.height,
{
    let rows = v.compression.block_rows() as int;
    lemma_step(v.height as int, rows, i);
    assert((i + 1) * rows == i * rows + rows) by (nonlinear_arith);
}

proof fn lemma_plain_reads(v: FlatInput, i: int)
    requires
        flat_fault(v) is None,
        !is_short(v),
        v.height > 0,
        0 <= i < flat_count(v),
        chunk_packed(v, i) is Some,
        unpacked(chunk_packed(v, i)->Some_0, chunk_raw(v, i).len(), v.compression) == Some(
            chunk_raw(v, i),
        ),
        chunk_countable(v, i),
    ensures
        chunk_reads(v, i),
{
    lemma_chunk_place(v, i);
    let (w, h, y0, n) = (v.width as int, v.height as int, chunk_top(v, i), chunk_height(v, i));
    lemma_lines_bytes_len(v.channels, v.planes, w, h, y0, false, n);
    law_lines_read_back(v.channels, v.planes, w, h, y0, false, n);
    assert(lines_in(chunk_raw(v, i), v.channels, w, y0, false, n) =~= kept_chunk(v, i));
}

proof fn lemma_short_reads(v: FlatInput, i: int)
    requires
        flat_fault(v) is None,
        is_short(v),
        v.height > 0,
        0 <= i < flat_count(v),
        zlib_deflated(chunk_raw(v, i)) matches Some(z) && zlib_inflated(z) == Some(chunk_raw(v, i)),
        chunk_countable(v, i),
    ensures
        chunk_reads(v, i),
{
    lemma_chunk_place(v, i);
    let (w, h, y0, n) = (v.width as int, v.height as int, chunk_top(v, i), chunk_height(v, i));
    lemma_lines_bytes_len(v.channels, v.planes, w, h, y0, true, n);
    law_lines_read_back(v.channels, v.planes, w, h, y0, true, n);
    assert(lines_in(chunk_raw(v, i), v.channels, w, y0, true, n) =~= kept_chunk(v, i));
    let payload = chunk_packed(v, i)->Some_0;
    assert(short_unpacked(payload, lines_size(v.channels, w, y0, true, n)) == Some(
        chunk_raw(v, i),
    ));
}

/// Pack the lines of a chunk with the 24-bit coder.
fn build_pxr24_block_payload(raw: Vec<u8>) -> (r: Result<Vec<u8>, ExrError>)
    ensures
        r matches Ok(v) ==> zlib_deflated(raw@) matches Some(z) && v@ == shorter(z, raw@)
            && zlib_inflated(z) == Some(raw@),
        r matches Err(e) ==> e.fault() == Fault::Invalid && zlib_deflated(raw@) is None,
{
    match zlib_deflate(raw.as_slice()) {
        Ok(z) => Ok(keep_shorter(z, raw.as_slice())),
        Err(e) => Err(e),
    }
}

/// Make the chunks.
fn make_chunks(
    width: u32,
    height: u32,
    channels: &[Channel],
    planes: &[&[u32]],
    compression: Compression,
    Ghost(v): Ghost<FlatInput>,
) -> (r: Result<Vec<Vec<u8>>, ExrError>)
    requires
        v.width == width,
        v.height == height,
        v.channels == channel_views(channels@),
        v.planes == slice_views(planes@),
        v.compression == compression,
        flat_fault(v) is None,
    ensures
        r matches Ok(chunks) ==> {
            &&& chunks_pack(v)
            &&& byte_views(chunks@) == flat_chunks(v)
            &&& forall|i: int|
                0 <= i < flat_count(v) && chunk_countable(v, i) ==> #[trigger] chunk_reads(v, i)
        },
        r matches Err(e) ==> e.fault() == Fault::Invalid && !chunks_pack(v),
{
    let rows: u32 = compression.scanlines_per_block();
    let n: u64 = (height as u64 + rows as u64 - 1) / rows as u64;
    let short: bool = compression == Compression::Pxr24;
    let mut chunks: Vec<Vec<u8>> = Vec::new();
    let mut i: u64 = 0;
    assert(n == flat_count(v));
    while i < n
        invariant
            i <= n,
            v.width == width,
            v.height == height,
            v.channels == channel_views(channels@),
            v.planes == slice_views(planes@),
            v.compression == compression,
            flat_fault(v) is None,
            rows == compression.block_rows(),
            rows > 0,
            n == flat_count(v),
            n > 0 ==> height > 0,
            short == is_short(v),
            chunks@.len() == i,
            forall|j: int|
                0 <= j < i ==> (#[trigger] chunks@[j])@ == flat_chunk(v, j) && chunk_packed(v, j) is Some,
            forall|j: int|
                0 <= j < i && chunk_countable(v, j) ==> #[trigger] chunk_reads(v, j),
        decreases n - i,
    {
        proof {
            lemma_chunk_place(v, i as int);
        }
        let y0: u32 = (i * rows as u64) as u32;
        let lines: u32 = if height - y0 < rows {
            height - y0
        } else {
            rows
        };
        let raw: Vec<u8> = put_lines(channels, planes, width, height, y0, short, lines);
        let ghost data = raw@;
        assert(data == chunk_raw(v, i as int));
        let payload: Vec<u8> = if short {
            match build_pxr24_block_payload(raw) {
                Ok(p) => p,
                Err(e) => {
                    return Err(e);
                },
            }
        } else {
            match compress_buffer(raw.as_slice(), compression) {
                Ok(p) => p,
                Err(e) => {
                    return Err(e);
                },
            }
        };
        let mut chunk: Vec<u8> = Vec::new();
        put_i32(&mut chunk, to_signed(y0));
        put_length(&mut chunk, payload.len());
        put_bytes(&mut chunk, payload.as_slice());
        proof {
            reveal(flat_chunk);
            assert(chunk_packed(v, i as int) == Some(payload@));
            assert(chunk@ =~= flat_chunk(v, i as int));
            if chunk_countable(v, i as int) {
                if short {
                    lemma_short_reads(v, i as int);
                } else {
                    lemma_plain_reads(v, i as int);
                }
            }
        }
        chunks.push(chunk);
        i = i + 1;
    }
    proof {
        assert(byte_views(chunks@) =~= flat_chunks(v));
        assert forall|j: int| 0 <= j < flat_count(v) implies #[trigger] chunk_packed(v, j) is Some by {
            assert(chunks@[j]@ == flat_chunk(v, j));
        }
    }
    Ok(chunks)
}

/// Every plane has the samples of its channel.
fn check_flat(width: u32, height: u32, channels: &[Channel], planes: &[&[u32]]) -> (r: Result<(), ExrError>)
    ensures
        r is Ok <==> is_spaced(channel_views(channels@)) && planes_fit(
            channel_views(channels@),
            slice_views(planes@),
            width as int,
            height as int,
        ),
        r matches Err(e) ==> e.fault() == Fault::Invalid,
{
    let ghost cs = channel_views(channels@);
    let ghost ps = slice_views(planes@);
    if channels.len() != planes.len() {
        return Err(ExrError::invalid("channels and planes differ in number"));
    }
    let mut k: usize = 0;
    while k < channels.len()
        invariant
            k <= channels@.len(),
            cs == channel_views(channels@),
            ps == slice_views(planes@),
            ps.len() == cs.len(),
            forall|j: int| 0 <= j < k ==> (#[trigger] cs[j]).x_sampling > 0 && cs[j].y_sampling > 0,
            forall|j: int|
                0 <= j < k ==> (#[trigger] ps[j]).len() == tall(cs[j], height as int) * wide(
                    cs[j],
                    width as int,
                ),
        decreases channels@.len() - k,
    {
        let c: &Channel = &channels[k];
        assert(cs[k as int] == c@);
        assert(ps[k as int] == planes@[k as int]@);
        if c.x_sampling <= 0 || c.y_sampling <= 0 {
            return Err(ExrError::invalid("channel sampling must be positive"));
        }
        let pw: u32 = subsampled_dim(width, at_least_one(c.x_sampling));
        let ph: u32 = subsampled_dim(height, at_least_one(c.y_sampling));
        assert(0 <= ph * pw <= 0xffff_ffff * 0xffff_ffff) by (nonlinear_arith)
            requires
                0 <= ph <= 0xffff_ffff,
                0 <= pw <= 0xffff_ffff,
        ;
        let plane: &[u32] = planes[k];
        assert(plane.len() == plane@.len());
        if plane.len() as u64 != ph as u64 * pw as u64 {
            return Err(ExrError::invalid("plane length differs from sub-sampled width * height"));
        }
        k = k + 1;
    }
    Ok(())
}

/// Write a flat image line by line. `planes` holds the samples of every
/// channel in the order of `channels`, as binary32 bit patterns. What was
/// written reads back: the samples as they are stored.
pub fn encode_exr_scanline(
    width: u32,
    height: u32,
    channels: &[Channel],
    planes: &[&[u32]],
    compression: Compression,
    attributes: Vec<Attribute>,
) -> (r: Result<Vec<u8>, ExrError>)
    ensures
        ({
            let input = FlatInput {
                width,
                height,
                channels: channel_views(channels@),
                planes: slice_views(planes@),
                compression,
                entries: entry_views(attributes@),
            };
            &&& r matches Ok(v) ==> flat_file(input) == Ok::<Seq<u8>, Fault>(v@)
            &&& r matches Ok(v) ==> flat_readable(input) ==> forall|log: Seq<u16>| #[trigger]
                exr_of(v@, log) == Ok::<ImageView, Fault>(flat_image(input))
            &&& r matches Err(e) ==> flat_file(input) == Err::<Seq<u8>, Fault>(e.fault())
        }),
{
    let ghost input = FlatInput {
        width,
        height,
        channels: channel_views(channels@),
        planes: slice_views(planes@),
        compression,
        entries: entry_views(attributes@),
    };
    match check_flat(width, height, channels, planes) {
        Ok(_) => {},
        Err(e) => {
            return Err(e);
        },
    }
    if !ascending(channels) {
        return Err(ExrError::invalid("channels not in alphabetical order"));
    }
    if !can_write(compression) {
        return Err(
            ExrError::unsupported("compression is not one of NONE, ZIP, ZIPS, RLE and PXR24"),
        );
    }
    let header: Vec<u8> = encode_header(
        VersionField::from_u32(FLAT_VERSION),
        attributes.as_slice(),
    );
    let chunks: Vec<Vec<u8>> = match make_chunks(
        width,
        height,
        channels,
        planes,
        compression,
        Ghost(input),
    ) {
        Ok(c) => c,
        Err(e) => {
            return Err(e);
        },
    };
    let out: Vec<u8> = lay_out(header, chunks.as_slice());
    proof {
        assert(out.len() == out@.len());
        assert(is_holdable(input.channels, width as int, height as int)) by {
            assert forall|c: int| 0 <= c < input.channels.len() implies plane_len(
                #[trigger] input.channels[c],
                width as int,
                height as int,
            ) <= usize::MAX by {
                assert(input.planes[c] == planes@[c]@);
                assert(planes@[c].len() == planes@[c]@.len());
            }
        }
        if flat_readable(input) {
            lemma_file_parts(header_bytes(FLAT_VERSION, input.entries), flat_chunks(input));
            law_chunks_placed(header_bytes(FLAT_VERSION, input.entries), flat_chunks(input));
            assert forall|log: Seq<u16>| #[trigger]
                exr_of(out@, log) == Ok::<ImageView, Fault>(flat_image(input)) by {
                lemma_flat_reads_back(input, out@, log);
            }
        }
    }
    Ok(out)
}

// ----------------------------------------------------------------------
// What is written is read back
// ----------------------------------------------------------------------
/// The line that the first `k` chunks end at.
pub open spec fn chunks_bottom(v: FlatInput, k: int) -> int {
    if chunk_top(v, k) < v.height {
        chunk_top(v, k)
    } else {
        v.height as int
    }
}

/// The samples after the first `k` chunks.
pub open spec fn first_chunks(v: FlatInput, k: int) -> Seq<Seq<u32>> {
    Seq::new(
        v.channels.len(),
        |c: int|
            Seq::new(
                v.planes[c].len(),
                |i: int|
                    if i < tall(v.channels[c], chunks_bottom(v, k)) * wide(
                        v.channels[c],
                        v.width as int,
                    ) {
                        kept_planes(v)[c][i]
                    } else {
                        0u32
                    },
            ),
    )
}

proof fn lemma_first_chunks_step(v: FlatInput, i: int)
    requires
        flat_fault(v) is None,
        v.height > 0,
        0 <= i < flat_count(v),
    ensures
        with_chunk(
            first_chunks(v, i),
            v.channels,
            v.width as int,
            chunk_top(v, i),
            kept_chunk(v, i),
        ) == first_chunks(v, i + 1),
{
    lemma_chunk_place(v, i);
    let (w, y0, n) = (v.width as int, chunk_top(v, i), chunk_height(v, i));
    let got = with_chunk(first_chunks(v, i), v.channels, w, y0, kept_chunk(v, i));
    let want = first_chunks(v, i + 1);
    assert(chunks_bottom(v, i) == y0);
    assert(chunks_bottom(v, i + 1) == y0 + n);
    assert forall|c: int| 0 <= c < v.channels.len() implies got[c] == want[c] by {
        let ch = v.channels[c];
        let (a, b, h, p) = (tall(ch, y0), tall(ch, y0 + n), tall(ch, v.height as int), wide(ch, w));
        lemma_sampled_monotonic(y0, y0 + n, spacing(ch.y_sampling));
        lemma_sampled_monotonic(y0 + n, v.height as int, spacing(ch.y_sampling));
        lemma_plane_len(ch, w, v.height as int);
        assert(v.planes[c].len() == h * p);
        assert(0 <= a * p <= b * p <= h * p) by (nonlinear_arith)
            requires
                0 <= a <= b <= h,
                0 <= p,
        ;
        let part = v.planes[c].subrange(a * p, b * p);
        assert(kept_chunk(v, i)[c] == kept(ch, is_short(v), part));
        assert(got[c] =~= want[c]);
    }
    assert(got =~= want);
}

proof fn lemma_first_chunks_ends(v: FlatInput)
    requires
        flat_fault(v) is None,
        v.height > 0,
    ensures
        first_chunks(v, 0) == blank_planes(v.channels, v.width as int, v.height as int),
        first_chunks(v, flat_count(v)) == kept_planes(v),
{
    let rows = v.compression.block_rows() as int;
    let (w, h, n) = (v.width as int, v.height as int, flat_count(v));
    assert(0 * rows == 0);
    vstd::arithmetic::div_mod::lemma_fundamental_div_mod(h + rows - 1, rows);
    vstd::arithmetic::div_mod::lemma_mod_bound(h + rows - 1, rows);
    assert(n * rows >= h) by (nonlinear_arith)
        requires
            h + rows - 1 == rows * n + (h + rows - 1) % rows,
            (h + rows - 1) % rows < rows,
    ;
    let first = first_chunks(v, 0);
    let blank = blank_planes(v.channels, w, h);
    let last = first_chunks(v, n);
    assert forall|c: int| 0 <= c < v.channels.len() implies first[c] == blank[c] && last[c]
        == kept_planes(v)[c] by {
        let ch = v.channels[c];
        lemma_sampled_step(0, spacing(ch.y_sampling));
        lemma_plane_len(ch, w, h);
        assert(v.planes[c].len() == plane_len(ch, w, h));
        assert(0 * wide(ch, w) == 0);
        assert(first[c] =~= blank[c]);
        assert(last[c] =~= kept_planes(v)[c]);
    }
    assert(first =~= blank);
    assert(last =~= kept_planes(v));
}

/// A chunk that is stored is found.
proof fn lemma_chunk_found(v: FlatInput, s: Seq<u8>, off: int, i: int)
    requires
        0 <= i < flat_count(v),
        0 < v.height <= 0x8000_0000,
        chunk_packed(v, i) is Some,
        chunk_packed(v, i)->Some_0.len() < 0x8000_0000,
        stands_at(s, off, flat_chunk(v, i)),
    ensures
        line_head_at(s, off) matches Some((y, a, b)) && y == chunk_top(v, i) && s.subrange(a, b)
            == chunk_packed(v, i)->Some_0,
{
    reveal(flat_chunk);
    lemma_chunk_place(v, i);
    let payload = chunk_packed(v, i)->Some_0;
    let y = i32_of_u32(chunk_top(v, i) as u32);
    let n = (payload.len() % 0x1_0000_0000) as u32;
    lemma_stands_split(s, off, i32_le(y), length_bytes(payload.len()) + payload);
    lemma_stands_split(s, off + 4, length_bytes(payload.len()), payload);
    lemma_i32_reads_back(s, off, y);
    lemma_u32_reads_back(s, off + 4, n);
}

proof fn lemma_chunks_read_back(v: FlatInput, s: Seq<u8>, base: int, m: RequiredView, log: Seq<u16>, k: int)
    requires
        flat_fault(v) is None,
        flat_readable(v),
        required_of(v.entries) == Some(m),
        chunks_pack(v),
        forall|i: int| 0 <= i < flat_count(v) ==> #[trigger] chunk_reads(v, i),
        chunks_placed(s, base, flat_chunks(v)),
        v.height <= 0x8000_0000,
        0 <= k <= flat_count(v),
    ensures
        scanlines_after(s, base, v.channels, m.data_window, v.compression, log, k) == Ok::<
            Seq<Seq<u32>>,
            Fault,
        >(first_chunks(v, k)),
    decreases k,
{
    if k == 0 {
        lemma_first_chunks_ends(v);
    } else {
        let i = k - 1;
        lemma_chunks_read_back(v, s, base, m, log, i);
        let off = u64_at(s, base + 8 * i) as int;
        assert(stands_at(s, off, flat_chunks(v)[i]));
        assert(chunk_packed(v, i) is Some);
        assert(chunk_packed(v, i)->Some_0.len() < 0x8000_0000);
        lemma_chunk_found(v, s, off, i);
        lemma_chunk_place(v, i);
        assert(chunk_reads(v, i));
        lemma_first_chunks_step(v, i);
    }
}

proof fn lemma_flat_reads_back(v: FlatInput, s: Seq<u8>, log: Seq<u16>)
    requires
        flat_fault(v) is None,
        flat_readable(v),
        chunks_pack(v),
        is_holdable(v.channels, v.width as int, v.height as int),
        forall|i: int|
            0 <= i < flat_count(v) && chunk_countable(v, i) ==> #[trigger] chunk_reads(v, i),
        stands_at(s, 0, header_bytes(FLAT_VERSION, v.entries)),
        chunks_placed(
            s,
            header_bytes(FLAT_VERSION, v.entries).len() as int,
            flat_chunks(v),
        ),
        header_bytes(FLAT_VERSION, v.entries).len() + 8 * flat_count(v) <= s.len(),
    ensures
        exr_of(s, log) == Ok::<ImageView, Fault>(flat_image(v)),
{
    let m = required_of(v.entries)->Some_0;
    let base = header_bytes(FLAT_VERSION, v.entries).len() as int;
    lemma_header_reads_back(s, FLAT_VERSION, v.entries, false);
    assert(v.height <= 0x8000_0000);
    assert forall|i: int| 0 <= i < flat_count(v) implies #[trigger] chunk_reads(v, i) by {
        assert(chunk_packed(v, i)->Some_0.len() < 0x8000_0000);
        assert(chunk_countable(v, i));
    }
    lemma_chunks_read_back(v, s, base, m, log, flat_count(v));
    lemma_first_chunks_ends(v);
}

/// Samples of a FLOAT channel are read back bit for bit, but for the 24-bit
/// coder.
pub proof fn law_float_kept(c: ChannelView, s: Seq<u32>)
    requires
        c.pixel_type == PixelType::Float,
    ensures
        kept(c, false, s) == s,
{
    assert(kept(c, false, s) =~= s);
}

// ----------------------------------------------------------------------
// Red, green, blue and alpha
// ----------------------------------------------------------------------
/// A FLOAT channel with a sample at every pixel.
pub open spec fn float_channel(name: Seq<char>) -> ChannelView {
    ChannelView { name, pixel_type: PixelType::Float, p_linear: false, x_sampling: 1, y_sampling: 1 }
}

/// The channels of a picture, in the order of their names.
pub open spec fn rgba_channels() -> Seq<ChannelView> {
    seq![float_channel("A"@), float_channel("B"@), float_channel("G"@), float_channel("R"@)]
}

/// The attributes of a picture.
pub open spec fn rgba_entries(width: u32, height: u32, compression: Compression) -> Seq<EntryView> {
    seq![
        entry("channels"@, AttributeView::Channels(rgba_channels())),
        entry("compression"@, AttributeView::Compression(compression)),
        entry("dataWindow"@, AttributeView::Box2i(window_of(width, height))),
        entry("displayWindow"@, AttributeView::Box2i(window_of(width, height))),
        entry("lineOrder"@, AttributeView::LineOrder(LineOrder::IncreasingY)),
        entry("pixelAspectRatio"@, AttributeView::Float(F32_ONE)),
        entry("screenWindowCenter"@, AttributeView::V2f(0, 0)),
        entry("screenWindowWidth"@, AttributeView::Float(F32_ONE)),
    ]
}

/// Every fourth sample from `k` on.
pub open spec fn every_fourth(samples: Seq<u32>, k: int) -> Seq<u32> {
    Seq::new(samples.len() / 4, |i: int| samples[4 * i + k])
}

/// A picture whose samples stand pixel by pixel as red, green, blue and alpha.
pub open spec fn rgba_input(width: u32, height: u32, samples: Seq<u32>, compression: Compression) -> FlatInput {
    FlatInput {
        width,
        height,
        channels: rgba_channels(),
        planes: seq![
            every_fourth(samples, 3),
            every_fourth(samples, 2),
            every_fourth(samples, 1),
            every_fourth(samples, 0),
        ],
        compression,
        entries: rgba_entries(width, height, compression),
    }
}

/// The file for a picture.
pub open spec fn rgba_file(width: u32, height: u32, samples: Seq<u32>, compression: Compression) -> Result<
    Seq<u8>,
    Fault,
> {
    if samples.len() != height * width * 4 {
        Err(Fault::Invalid)
    } else if !is_written(compression) {
        Err(Fault::Unsupported)
    } else {
        flat_file(rgba_input(width, height, samples, compression))
    }
}

/// A picture whose file reads back: its size fits in signed 32-bit integers,
/// and so do the lengths of its chunks.
pub open spec fn rgba_readable(v: FlatInput) -> bool {
    &&& v.width <= 0x8000_0000
    &&& v.height <= 0x8000_0000
    &&& forall|i: int|
        0 <= i < flat_count(v) ==> chunk_countable(v, i) && (#[trigger] chunk_packed(
            v,
            i,
        ))->Some_0.len() < 0x8000_0000
}

fn push_float_channel(out: &mut Vec<Channel>, name: &str)
    ensures
        channel_views(final(out)@) == channel_views(old(out)@).push(float_channel(name@)),
{
    out.push(
        Channel {
            name: name.to_owned(),
            pixel_type: PixelType::Float,
            p_linear: false,
            x_sampling: 1,
            y_sampling: 1,
        },
    );
    assert(channel_views(out@) =~= channel_views(old(out)@).push(float_channel(name@)));
}

fn make_rgba_channels() -> (r: Vec<Channel>)
    ensures
        channel_views(r@) == rgba_channels(),
{
    let mut r: Vec<Channel> = Vec::new();
    assert(channel_views(r@) =~= Seq::empty());
    push_float_channel(&mut r, "A");
    push_float_channel(&mut r, "B");
    push_float_channel(&mut r, "G");
    push_float_channel(&mut r, "R");
    assert(channel_views(r@) =~= rgba_channels());
    r
}

/// Make the attributes of a picture.
pub fn rgba_float_attributes(width: u32, height: u32, compression: Compression) -> (r: Vec<Attribute>)
    requires
        width > 0,
        height > 0,
    ensures
        entry_views(r@) == rgba_entries(width, height, compression),
{
    let mut r: Vec<Attribute> = Vec::new();
    assert(entry_views(r@) =~= Seq::empty());
    put_attribute(&mut r, "channels", AttributeValue::Channels(make_rgba_channels()));
    put_attribute(&mut r, "compression", AttributeValue::Compression(compression));
    put_attribute(&mut r, "dataWindow", AttributeValue::Box2i(origin_window(width, height)));
    put_attribute(&mut r, "displayWindow", AttributeValue::Box2i(origin_window(width, height)));
    put_attribute(&mut r, "lineOrder", AttributeValue::LineOrder(LineOrder::IncreasingY));
    put_attribute(&mut r, "pixelAspectRatio", AttributeValue::Float(F32_ONE));
    put_attribute(&mut r, "screenWindowCenter", AttributeValue::V2f(0, 0));
    put_attribute(&mut r, "screenWindowWidth", AttributeValue::Float(F32_ONE));
    assert(entry_views(r@) =~= rgba_entries(width, height, compression));
    r
}

fn take_every_fourth(samples: &[u32], k: usize) -> (r: Vec<u32>)
    requires
        samples@.len() % 4 == 0,
        k < 4,
    ensures
        r@ == every_fourth(samples@, k as int),
{
    let n: usize = samples.len() / 4;
    let mut r: Vec<u32> = Vec::new();
    let mut i: usize = 0;
    while i < n
        invariant
            i <= n,
            k < 4,
            4 * n == samples@.len(),
            samples@.len() <= usize::MAX,
            r@.len() == i,
            forall|j: int| 0 <= j < i ==> r@[j] == samples@[4 * j + k],
        decreases n - i,
    {
        r.push(samples[4 * i + k]);
        i = i + 1;
    }
    assert(r@ =~= every_fourth(samples@, k as int));
    r
}

proof fn lemma_single_letter(name: Seq<char>)
    requires
        name.len() == 1,
        '\0' <= name[0] <= '\u{7f}',
    ensures
        encode_utf8(name).len() == 1,
        encode_utf8(name)[0] == name[0] as u8,
{
    assert(is_ascii_chars(name));
    is_ascii_chars_encode_utf8(name);
}

proof fn lemma_rgba_names()
    ensures
        names_ascend(rgba_channels()),
        channels_storable(rgba_channels()),
        is_spaced(rgba_channels()),
{
    reveal_strlit("A");
    reveal_strlit("B");
    reveal_strlit("G");
    reveal_strlit("R");
    lemma_ascii_storable("A"@, 255);
    lemma_ascii_storable("B"@, 255);
    lemma_ascii_storable("G"@, 255);
    lemma_ascii_storable("R"@, 255);
    lemma_single_letter("A"@);
    lemma_single_letter("B"@);
    lemma_single_letter("G"@);
    lemma_single_letter("R"@);
}

/// The header of a picture says what the picture is.
proof fn lemma_rgba_required(width: u32, height: u32, compression: Compression)
    ensures
        required_of(rgba_entries(width, height, compression)) == Some(
            RequiredView {
                channels: rgba_channels(),
                compression,
                data_window: window_of(width, height),
                display_window: window_of(width, height),
                line_order: LineOrder::IncreasingY,
                pixel_aspect_ratio: F32_ONE,
                screen_window_center: (0, 0),
                screen_window_width: F32_ONE,
            },
        ),
{
    let es = rgba_entries(width, height, compression);
    lemma_name_lengths();
    lemma_named_index(es, "channels"@, 0, 0);
    lemma_named_index(es, "compression"@, 0, 1);
    lemma_named_index(es, "dataWindow"@, 0, 2);
    lemma_named_index(es, "displayWindow"@, 0, 3);
    lemma_named_index(es, "lineOrder"@, 0, 4);
    lemma_named_index(es, "pixelAspectRatio"@, 0, 5);
    lemma_named_index(es, "screenWindowCenter"@, 0, 6);
    lemma_named_index(es, "screenWindowWidth"@, 0, 7);
}

proof fn lemma_rgba_list_len()
    ensures
        channel_list_bytes(rgba_channels()).len() < 0x8000_0000,
{
    let cs = rgba_channels();
    lemma_rgba_names();
    assert forall|i: int| 0 <= i < 4 implies (#[trigger] channel_bytes(cs[i])).len() <= 300 by {
        assert(is_storable(cs[i].name, 255));
    }
    reveal_with_fuel(channel_list_from, 6);
    assert(channel_bytes(cs[0]).len() <= 300);
    assert(channel_bytes(cs[1]).len() <= 300);
    assert(channel_bytes(cs[2]).len() <= 300);
    assert(channel_bytes(cs[3]).len() <= 300);
}

proof fn lemma_rgba_storable(width: u32, height: u32, compression: Compression)
    ensures
        entries_storable(rgba_entries(width, height, compression), 31),
{
    let es = rgba_entries(width, height, compression);
    lemma_rgba_names();
    lemma_rgba_list_len();
    assert forall|i: int| 0 <= i < es.len() implies entry_storable(#[trigger] es[i], 31) by {
        lemma_words_len(seq![0u32, 0u32]);
        lemma_names_storable(es[i].name);
        lemma_label_storable(es[i].value, 31);
        law_value_round_trip(es[i].value);
    }
}

/// Write a picture. `samples` holds red, green, blue and alpha of every pixel,
/// row by row, as binary32 bit patterns. What was written reads back.
pub fn encode_exr_scanline_rgba_float_with(
    width: u32,
    height: u32,
    samples: &[u32],
    compression: Compression,
) -> (r: Result<Vec<u8>, ExrError>)
    requires
        samples@.len() == height * width * 4 && is_written(compression) ==> width > 0 && height > 0,
    ensures
        r matches Ok(v) ==> rgba_file(width, height, samples@, compression) == Ok::<Seq<u8>, Fault>(
            v@,
        ),
        r matches Ok(v) ==> rgba_readable(rgba_input(width, height, samples@, compression))
            ==> forall|log: Seq<u16>| #[trigger]
            exr_of(v@, log) == Ok::<ImageView, Fault>(
                flat_image(rgba_input(width, height, samples@, compression)),
            ),
        r matches Err(e) ==> rgba_file(width, height, samples@, compression) == Err::<
            Seq<u8>,
            Fault,
        >(e.fault()),
{
    assert(0 <= height * width <= 0xffff_ffff * 0xffff_ffff) by (nonlinear_arith)
        requires
            0 <= height <= 0xffff_ffff,
            0 <= width <= 0xffff_ffff,
    ;
    let pixels: u64 = height as u64 * width as u64;
    assert(samples.len() == samples@.len());
    if samples.len() as u128 != pixels as u128 * 4 {
        return Err(ExrError::invalid("samples length differs from width * height * 4"));
    }
    if !can_write(compression) {
        return Err(
            ExrError::unsupported("compression is not one of NONE, ZIP, ZIPS, RLE and PXR24"),
        );
    }
    let ghost input = rgba_input(width, height, samples@, compression);
    let a: Vec<u32> = take_every_fourth(samples, 3);
    let b: Vec<u32> = take_every_fourth(samples, 2);
    let g: Vec<u32> = take_every_fourth(samples, 1);
    let red: Vec<u32> = take_every_fourth(samples, 0);
    let channels: Vec<Channel> = make_rgba_channels();
    let mut planes: Vec<&[u32]> = Vec::new();
    planes.push(a.as_slice());
    planes.push(b.as_slice());
    planes.push(g.as_slice());
    planes.push(red.as_slice());
    let attributes: Vec<Attribute> = rgba_float_attributes(width, height, compression);
    proof {
        assert(slice_views(planes@) =~= input.planes);
        if rgba_readable(input) {
            lemma_rgba_required(width, height, compression);
            lemma_rgba_storable(width, height, compression);
            lemma_rgba_names();
            law_sort_of_ascending(rgba_channels());
            assert(window_of(width, height).columns() == width);
            assert(window_of(width, height).rows() == height);
            assert(flat_readable(input));
        }
    }
    encode_exr_scanline(
        width,
        height,
        channels.as_slice(),
        planes.as_slice(),
        compression,
        attributes,
    )
}

/// Write a picture with the ZIP compression.
pub fn encode_exr_scanline_rgba_float(width: u32, height: u32, samples: &[u32]) -> (r: Result<
    Vec<u8>,
    ExrError,
>)
    requires
        samples@.len() == height * width * 4 ==> width > 0 && height > 0,
    ensures
        r matches Ok(v) ==> rgba_file(width, height, samples@, Compression::Zip) == Ok::<
            Seq<u8>,
            Fault,
        >(v@),
        r matches Ok(v) ==> rgba_readable(rgba_input(width, height, samples@, Compression::Zip))
            ==> forall|log: Seq<u16>| #[trigger]
            exr_of(v@, log) == Ok::<ImageView, Fault>(
                flat_image(rgba_input(width, height, samples@, Compression::Zip)),
            ),
        r matches Err(e) ==> rgba_file(width, height, samples@, Compression::Zip) == Err::<
            Seq<u8>,
            Fault,
        >(e.fault()),
{
    encode_exr_scanline_rgba_float_with(width, height, samples, Compression::Zip)
}

/// A picture that is not packed by the 24-bit coder keeps its samples.
pub proof fn law_rgba_exact(width: u32, height: u32, samples: Seq<u32>, compression: Compression)
    requires
        compression != Compression::Pxr24,
    ensures
        kept_planes(rgba_input(width, height, samples, compression)) == rgba_input(
            width,
            height,
            samples,
            compression,
        ).planes,
{
    let v = rgba_input(width, height, samples, compression);
    assert forall|c: int| 0 <= c < 4 implies kept_planes(v)[c] == v.planes[c] by {
        law_float_kept(v.channels[c], v.planes[c]);
    }
    assert(kept_planes(v) =~= v.planes);
}

} // verus!
