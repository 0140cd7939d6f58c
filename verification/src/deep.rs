//! Deep images that are stored line by line.

use crate::attrs::{find_string_attr, find_text};
use crate::bytes::{
    i32_at, i32_le, i32_of_u32, lemma_i32_reads_back, lemma_stands_split, put_i32, read_i32,
    read_u64, stands_at, to_signed, u64_at,
};
use crate::deep_block::{
    block_packed, deep_method, is_deep_method, pack_block, plain_shape, plane_views, put_record,
    reads_back, record_bytes, sums_fit, BlockShape, BlockView, DeepBlock, PackedBlock, PackedView,
};
use crate::deep_input::{
    ascending, check_planes, copy_samples, lemma_no_planes_fault, lemma_record_reads_back,
    planes_fault, read_record, record_block, slice_views, stored_pixels, sum_counts,
};
use crate::deep_lines::{
    appended, join_lines, joined, law_joined, lines_fit, no_pixels, take_line, with_line, DeepPixels,
};
use crate::deep_meta::{
    deep_attributes, deep_entries, greatest, greatest_count, is_full, labels_readable,
    law_deep_entries, lemma_deep_entries_storable, meta_of, read_meta, window_of, DeepLabels,
    DeepMeta, MetaView,
};
use crate::deep_tiles::{
    blank_tiles, block_fits, lemma_block_fits, no_tiles, tile_views,
};
use crate::error::{ExrError, Fault};
use crate::header::{
    encode_header, header_bytes, lemma_ascii_storable, lemma_header_reads_back, parse_single_header,
    single_header_of, version_of, HeaderView, ParsedHeader, VersionField,
};
use crate::layout::{
    byte_views, chunks_placed, file_bytes, law_chunks_placed, lay_out, lemma_file_parts,
};
use crate::ragged::{lemma_total_bound, lemma_total_monotonic, lemma_total_slice, sum, total};
use crate::samples::stored_plane;
use crate::text::str_eq;
use crate::types::{
    channel_views, entry_views, names_ascend, Attribute, Box2i, Channel, ChannelView, Compression,
    EntryView, LineOrder,
};
use vstd::prelude::*;
use vstd::string::*;
use vstd::utf8::*;

verus! {

broadcast use crate::bytes::group_le_len;

/// A deep image: any number of samples at every pixel.
///
/// The samples of each channel stand in the order of the pixels, row by row.
/// `samples_per_pixel` says how many of them belong to each pixel.
#[derive(Debug, Clone, PartialEq, Eq)]
pub struct DeepExrImage {
    pub data_window: Box2i,
    pub display_window: Box2i,
    pub line_order: LineOrder,
    pub compression: Compression,
    pub channels: Vec<Channel>,
    pub samples_per_pixel: Vec<u32>,
    /// Binary32 bit patterns.
    pub channel_samples: Vec<Vec<u32>>,
    pub attributes: Vec<Attribute>,
}

/// What a deep image stands for.
#[verifier::ext_equal]
pub struct DeepView {
    pub meta: MetaView,
    pub pixels: BlockView,
    pub entries: Seq<EntryView>,
}

/// An image has a count for every pixel, and in every channel as many samples
/// as the counts say.
pub open spec fn samples_counted(v: DeepView) -> bool {
    &&& v.pixels.counts.len() == v.meta.data_window.rows() * v.meta.data_window.columns()
    &&& v.pixels.planes.len() == v.meta.channels.len()
    &&& forall|c: int|
        0 <= c < v.pixels.planes.len() ==> (#[trigger] v.pixels.planes[c]).len() == sum(
            v.pixels.counts,
        )
}

impl View for DeepExrImage {
    type V = DeepView;

    open spec fn view(&self) -> DeepView {
        DeepView {
            meta: MetaView {
                data_window: self.data_window,
                display_window: self.display_window,
                line_order: self.line_order,
                compression: self.compression,
                channels: channel_views(self.channels@),
            },
            pixels: BlockView {
                counts: self.samples_per_pixel@,
                planes: plane_views(self.channel_samples@),
            },
            entries: entry_views(self.attributes@),
        }
    }
}

/// The number of samples in all pixels.
pub fn count_samples(counts: &[u32]) -> (r: u64)
    requires
        sum(counts@) <= u64::MAX,
    ensures
        r == sum(counts@),
{
    sum_counts(counts) as u64
}

impl DeepExrImage {
    pub fn width(&self) -> (r: u32)
        ensures
            r == self.data_window.columns(),
    {
        self.data_window.width()
    }

    pub fn height(&self) -> (r: u32)
        ensures
            r == self.data_window.rows(),
    {
        self.data_window.height()
    }

    pub fn total_samples(&self) -> (r: u64)
        requires
            sum(self.samples_per_pixel@) <= u64::MAX,
        ensures
            r == sum(self.samples_per_pixel@),
    {
        count_samples(self.samples_per_pixel.as_slice())
    }
}

// ----------------------------------------------------------------------
// Reading
// ----------------------------------------------------------------------
/// `v` with `part` written over it from `at` on.
pub open spec fn overwritten<T>(v: Seq<T>, at: int, part: Seq<T>) -> Seq<T> {
    Seq::new(
        v.len(),
        |i: int|
            if at <= i < at + part.len() {
                part[i - at]
            } else {
                v[i]
            },
    )
}

/// The line whose chunk stands at `off`: its row in the image and its pixels.
pub open spec fn line_at(s: Seq<u8>, off: int, m: MetaView) -> Option<(int, BlockView, int)> {
    if off + 28 > s.len() {
        None
    } else {
        let row = i32_at(s, off) - m.data_window.y_min;
        if row < 0 || row >= m.data_window.rows() {
            None
        } else {
            match record_block(
                s,
                off + 4,
                plain_shape(1, m.data_window.columns()),
                m.compression,
                m.channels,
            ) {
                None => None,
                Some((line, end)) => Some((row, line, end)),
            }
        }
    }
}

/// The lines after the first `k` chunks of the offset table at `base`.
pub open spec fn lines_after(s: Seq<u8>, base: int, m: MetaView, k: int) -> Option<
    Seq<Option<BlockView>>,
>
    decreases k,
{
    if k <= 0 {
        Some(no_tiles(m.data_window.rows() as int))
    } else {
        match lines_after(s, base, m, k - 1) {
            None => None,
            Some(lines) => match line_at(s, u64_at(s, base + 8 * (k - 1)) as int, m) {
                None => None,
                Some((row, line, end)) => Some(with_line(lines, row, line)),
            },
        }
    }
}

/// An image of the given size can be held, and has the number of chunks that
/// its header states.
pub open spec fn size_agrees(m: MetaView, stated: i32, chunks: int) -> bool {
    &&& m.data_window.columns() > 0
    &&& m.data_window.rows() > 0
    &&& stated == chunks
    &&& m.data_window.columns() * m.data_window.rows() <= usize::MAX
}

/// The deep image in a file with one part that is stored line by line. The
/// lines may stand in any order. Of a line that stands there more than once the
/// last counts, and one that does not stand there has no samples.
pub open spec fn deep_scanline_of(s: Seq<u8>) -> Result<DeepView, Fault> {
    match single_header_of(s, true) {
        Err(e) => Err(e),
        Ok(h) => if !h.version.non_image {
            Err(Fault::Invalid)
        } else {
            match find_text(h.entries, "type"@) {
                None => Err(Fault::Invalid),
                Some(t) => if t != "deepscanline"@ {
                    Err(Fault::Unsupported)
                } else {
                    match meta_of(h.entries) {
                        Err(e) => Err(e),
                        Ok((count, m)) => {
                            let n = m.data_window.rows() as int;
                            if !size_agrees(m, count, n) || h.end + 8 * n > s.len() {
                                Err(Fault::Invalid)
                            } else {
                                match lines_after(s, h.end, m, n) {
                                    None => Err(Fault::Invalid),
                                    Some(lines) => Ok(
                                        DeepView {
                                            meta: m,
                                            pixels: joined(
                                                lines,
                                                m.data_window.columns() as int,
                                                m.channels.len(),
                                                n,
                                            ),
                                            entries: h.entries,
                                        },
                                    ),
                                }
                            }
                        },
                    }
                },
            }
        },
    }
}

/// Read the line whose chunk stands at `off`.
pub fn read_line(s: &[u8], off: u64, m: &DeepMeta) -> (r: Result<(u32, DeepBlock, usize), ExrError>)
    requires
        m.data_window.columns() > 0,
    ensures
        r matches Ok((row, line, end)) ==> line_at(s@, off as int, m@) == Some(
            (row as int, line@, end as int),
        ) && row < m.data_window.rows() && end <= s@.len(),
        r matches Err(e) ==> e.fault() == Fault::Invalid && line_at(s@, off as int, m@) is None,
{
    let n: usize = s.len();
    if off > n as u64 || (n as u64 - off) < 28 {
        return Err(ExrError::invalid("deep block header past EOF"));
    }
    let at: usize = off as usize;
    let row: i64 = read_i32(s, at) as i64 - m.data_window.y_min as i64;
    if row < 0 || row >= m.data_window.height() as i64 {
        return Err(ExrError::invalid("deep block outside dataWindow"));
    }
    let w: u32 = m.data_window.width();
    let shape: BlockShape = BlockShape { rows: 1, cols: w, table_rows: 1, stride: w };
    let (line, end) = read_record(s, at + 4, shape, m.compression, m.channels.as_slice())?;
    Ok((row as u32, line, end))
}

/// A line has a count for each column, and a plane for each channel with the
/// samples that are counted.
pub proof fn lemma_line_shape(s: Seq<u8>, off: int, m: MetaView)
    ensures
        line_at(s, off, m) matches Some((row, line, end)) ==> block_fits(
            line,
            m.data_window.columns() as int,
            m.channels.len(),
        ) && 0 <= row < m.data_window.rows(),
{
    assert(1 * m.data_window.columns() == m.data_window.columns());
    lemma_block_fits(
        s,
        off + 4,
        plain_shape(1, m.data_window.columns()),
        m.compression,
        m.channels,
    );
}

/// The lines keep their shape while they are read.
pub proof fn lemma_lines_shape(s: Seq<u8>, base: int, m: MetaView, k: int)
    ensures
        lines_after(s, base, m, k) matches Some(v) ==> v.len() == m.data_window.rows() && lines_fit(
            v,
            m.data_window.columns() as int,
            m.channels.len(),
        ),
    decreases k,
{
    if k > 0 {
        lemma_lines_shape(s, base, m, k - 1);
        lemma_line_shape(s, u64_at(s, base + 8 * (k - 1)) as int, m);
    }
}

/// A row of an image ends in the image.
pub proof fn lemma_row_fits(row: int, w: int, h: int)
    requires
        0 <= row < h,
        0 <= w,
    ensures
        0 <= row * w,
        row * w + w <= w * h,
        (row + 1) * w == row * w + w,
{
    assert(0 <= row * w && row * w + w <= w * h && (row + 1) * w == row * w + w) by (nonlinear_arith)
        requires
            0 <= row < h,
            0 <= w,
    ;
}

/// Read the lines that the offset table at `base` points at.
fn read_lines(s: &[u8], base: usize, m: &DeepMeta) -> (r: Result<Vec<Option<DeepBlock>>, ExrError>)
    requires
        m.data_window.columns() > 0,
        base + 8 * m.data_window.rows() <= s@.len(),
    ensures
        r matches Ok(v) ==> lines_after(s@, base as int, m@, m.data_window.rows() as int) == Some(
            tile_views(v@),
        ),
        r matches Err(e) ==> e.fault() == Fault::Invalid && lines_after(
            s@,
            base as int,
            m@,
            m.data_window.rows() as int,
        ) is None,
{
    let h: u32 = m.data_window.height();
    let ghost len = s.len();
    let mut lines: Vec<Option<DeepBlock>> = blank_tiles(h as usize);
    let mut k: u32 = 0;
    while k < h
        invariant
            k <= h,
            h == m.data_window.rows(),
            m.data_window.columns() > 0,
            base + 8 * h <= s@.len(),
            len == s@.len(),
            lines_after(s@, base as int, m@, k as int) == Some(tile_views(lines@)),
        decreases h - k,
    {
        let off: u64 = read_u64(s, base + 8 * k as usize);
        proof {
            lemma_lines_shape(s@, base as int, m@, k as int);
            assert(tile_views(lines@).len() == lines@.len());
        }
        match read_line(s, off, m) {
            Ok((row, line, _end)) => take_line(&mut lines, row as usize, line),
            Err(e) => {
                proof {
                    lemma_lines_stop(s@, base as int, m@, k + 1, h as int);
                }
                return Err(e);
            },
        }
        k = k + 1;
    }
    Ok(lines)
}

/// Where a line cannot be read, no lines come out.
proof fn lemma_lines_stop(s: Seq<u8>, base: int, m: MetaView, k: int, n: int)
    requires
        k <= n,
        lines_after(s, base, m, k) is None,
    ensures
        lines_after(s, base, m, n) is None,
    decreases n - k,
{
    if k < n {
        lemma_lines_stop(s, base, m, k, n - 1);
    }
}

/// Parse a deep file with one part that is stored line by line.
pub fn parse_exr_deep_scanline(bytes: &[u8]) -> (r: Result<DeepExrImage, ExrError>)
    ensures
        r matches Ok(v) ==> deep_scanline_of(bytes@) == Ok::<DeepView, Fault>(v@),
        r matches Ok(v) ==> samples_counted(v@),
        r matches Err(e) ==> deep_scanline_of(bytes@) == Err::<DeepView, Fault>(e.fault()),
{
    let header: ParsedHeader = parse_single_header(bytes, true)?;
    if !header.version.non_image {
        return Err(ExrError::invalid("parse_exr_deep_scanline called on a flat (non-deep) file"));
    }
    let kind: String = match find_string_attr(header.attributes.as_slice(), "type") {
        Some(t) => t,
        None => {
            return Err(ExrError::invalid("deep file missing required 'type' attribute"));
        },
    };
    if !str_eq(kind.as_str(), "deepscanline") {
        return Err(ExrError::unsupported("deep file of a type other than 'deepscanline'"));
    }
    let (count, m) = read_meta(header.attributes.as_slice())?;
    let w: u32 = m.data_window.width();
    let h: u32 = m.data_window.height();
    if w == 0 || h == 0 {
        return Err(ExrError::invalid("deep dataWindow must not be empty"));
    }
    if count as i64 != h as i64 {
        return Err(ExrError::invalid("deep chunkCount disagrees with the height"));
    }
    proof {
        assert(w as int * h as int <= 0xffff_ffff * 0xffff_ffff) by (nonlinear_arith)
            requires
                w <= 0xffff_ffff,
                h <= 0xffff_ffff,
        ;
    }
    if w as u64 * h as u64 > usize::MAX as u64 {
        return Err(ExrError::invalid("deep dataWindow too large"));
    }
    let left: usize = bytes.len() - header.end_offset;
    if (left as u64) < 8 * h as u64 {
        return Err(ExrError::invalid("deep offset table runs past EOF"));
    }
    let lines: Vec<Option<DeepBlock>> = read_lines(bytes, header.end_offset, &m)?;
    let ghost lv = tile_views(lines@);
    proof {
        lemma_lines_shape(bytes@, header.end_offset as int, m@, h as int);
        assert(lv.len() == lines@.len());
    }
    let pixels: DeepPixels = join_lines(lines.as_slice(), w, m.channels.len());
    proof {
        law_joined(lv, w as int, m@.channels.len(), h as int);
    }
    Ok(
        DeepExrImage {
            data_window: m.data_window,
            display_window: m.display_window,
            line_order: m.line_order,
            compression: m.compression,
            channels: m.channels,
            samples_per_pixel: pixels.counts,
            channel_samples: pixels.planes,
            attributes: header.attributes,
        },
    )
}

// ----------------------------------------------------------------------
// Writing
// ----------------------------------------------------------------------
/// A deep image to be written line by line.
pub struct DeepScanlineInput<'a> {
    pub width: u32,
    pub height: u32,
    /// Channels in the order of their names.
    pub channels: Vec<Channel>,
    /// How many samples each pixel has.
    pub samples_per_pixel: &'a [u32],
    /// The samples of each channel, as binary32 bit patterns.
    pub channel_samples: Vec<&'a [u32]>,
    pub compression: Compression,
}

/// What the input of a deep writer stands for.
#[verifier::ext_equal]
pub struct InputView {
    pub width: u32,
    pub height: u32,
    pub channels: Seq<ChannelView>,
    pub counts: Seq<u32>,
    pub planes: Seq<Seq<u32>>,
    pub compression: Compression,
}

impl<'a> View for DeepScanlineInput<'a> {
    type V = InputView;

    open spec fn view(&self) -> InputView {
        InputView {
            width: self.width,
            height: self.height,
            channels: channel_views(self.channels@),
            counts: self.samples_per_pixel@,
            planes: slice_views(self.channel_samples@),
            compression: self.compression,
        }
    }
}

/// The first thing that is wrong with an input.
pub open spec fn scanline_fault(v: InputView) -> Option<Fault> {
    if !is_deep_method(v.compression) {
        Some(Fault::Unsupported)
    } else if v.counts.len() != v.width * v.height || v.channels.len() != v.planes.len() {
        Some(Fault::Invalid)
    } else {
        match planes_fault(v.channels, v.planes, sum(v.counts), 0) {
            Some(f) => Some(f),
            None => if !names_ascend(v.channels) {
                Some(Fault::Invalid)
            } else {
                None
            },
        }
    }
}

/// An input without faults has its channels full, in order, and with their
/// samples.
pub open spec fn is_sound(v: InputView) -> bool {
    &&& is_deep_method(v.compression)
    &&& v.counts.len() == v.width * v.height
    &&& v.channels.len() == v.planes.len()
    &&& is_full(v.channels)
    &&& names_ascend(v.channels)
    &&& forall|c: int| 0 <= c < v.planes.len() ==> (#[trigger] v.planes[c]).len() == sum(v.counts)
}

pub proof fn lemma_scanline_sound(v: InputView)
    requires
        scanline_fault(v) is None,
    ensures
        is_sound(v),
{
    lemma_no_planes_fault(v.channels, v.planes, sum(v.counts), 0);
}

/// The counts of a row.
pub open spec fn row_counts(v: InputView, y: int) -> Seq<u32> {
    v.counts.subrange(y * v.width, y * v.width + v.width)
}

/// The samples of a row.
pub open spec fn row_planes(v: InputView, y: int) -> Seq<Seq<u32>> {
    Seq::new(
        v.channels.len(),
        |c: int|
            v.planes[c].subrange(
                total(v.counts, y * v.width),
                total(v.counts, y * v.width + v.width),
            ),
    )
}

/// How a row is stored.
pub open spec fn row_packed(v: InputView, y: int) -> Option<PackedView> {
    block_packed(row_counts(v, y), v.width as int, row_planes(v, y), v.compression, v.channels)
}

/// The chunk of a row.
#[verifier::opaque]
pub open spec fn row_chunk(v: InputView, y: int) -> Seq<u8> {
    i32_le(i32_of_u32(y as u32)) + record_bytes(row_packed(v, y)->Some_0)
}

/// The chunks of all rows.
pub open spec fn row_chunks(v: InputView) -> Seq<Seq<u8>> {
    Seq::new(v.height as nat, |y: int| row_chunk(v, y))
}

/// Every row can be stored.
pub open spec fn rows_pack(v: InputView) -> bool {
    forall|y: int| 0 <= y < v.height ==> #[trigger] row_packed(v, y) is Some
}

/// What the attributes of an image that is stored line by line are made of.
pub open spec fn line_labels(v: InputView) -> DeepLabels {
    DeepLabels {
        chunk_count: v.height,
        width: v.width,
        height: v.height,
        max_samples: greatest(v.counts, v.counts.len() as int),
        compression: v.compression,
    }
}

/// The version field of a deep file with one part: version 2, and the flag
/// for deep data.
pub const DEEP_VERSION: u32 = 0x802;

/// The header of a deep file that is stored line by line.
pub open spec fn scanline_header(v: InputView) -> Seq<u8> {
    header_bytes(
        DEEP_VERSION,
        deep_entries(line_labels(v), v.channels, None, None, "deepscanline"@),
    )
}

/// The file for an input.
pub open spec fn deep_scanline_file(v: InputView) -> Result<Seq<u8>, Fault> {
    match scanline_fault(v) {
        Some(f) => Err(f),
        None => if rows_pack(v) {
            Ok(file_bytes(scanline_header(v), row_chunks(v)))
        } else {
            Err(Fault::Invalid)
        },
    }
}

/// An input whose file reads back: its attributes do, its height fits in a
/// signed 32-bit integer, and so do the sums of the counts of each row.
pub open spec fn scanline_readable(v: InputView) -> bool {
    &&& labels_readable(line_labels(v), v.channels)
    &&& v.height <= 0x7fff_ffff
    &&& forall|y: int| 0 <= y < v.height ==> sums_fit(#[trigger] row_counts(v, y), v.width as int)
}

/// The deep image that the file for an input holds.
pub open spec fn scanline_image(v: InputView) -> DeepView {
    DeepView {
        meta: MetaView {
            data_window: window_of(v.width, v.height),
            display_window: window_of(v.width, v.height),
            line_order: LineOrder::IncreasingY,
            compression: v.compression,
            channels: v.channels,
        },
        pixels: stored_pixels(v.counts, v.planes, v.channels),
        entries: deep_entries(line_labels(v), v.channels, None, None, "deepscanline"@),
    }
}

/// Every row that was stored reads back.
pub open spec fn rows_read_back(v: InputView) -> bool {
    forall|y: int|
        0 <= y < v.height ==> reads_back(
            (#[trigger] row_packed(v, y))->Some_0,
            1,
            v.width,
            row_counts(v, y),
            row_planes(v, y),
            v.compression,
            v.channels,
        )
}

/// The samples of a row, cut out of the samples of the image.
pub fn cut_planes(planes: &Vec<&[u32]>, from: u128, to: u128) -> (r: Vec<Vec<u32>>)
    requires
        from <= to,
        forall|c: int| 0 <= c < planes@.len() ==> to <= (#[trigger] planes@[c])@.len(),
    ensures
        plane_views(r@) == Seq::new(
            planes@.len(),
            |c: int| slice_views(planes@)[c].subrange(from as int, to as int),
        ),
{
    let mut r: Vec<Vec<u32>> = Vec::new();
    let mut c: usize = 0;
    while c < planes.len()
        invariant
            c <= planes@.len(),
            from <= to,
            forall|c: int| 0 <= c < planes@.len() ==> to <= (#[trigger] planes@[c])@.len(),
            r@.len() == c,
            forall|i: int|
                0 <= i < c ==> (#[trigger] r@[i])@ == slice_views(planes@)[i].subrange(
                    from as int,
                    to as int,
                ),
        decreases planes@.len() - c,
    {
        let plane: &[u32] = planes[c];
        assert(plane.len() == plane@.len());
        r.push(copy_samples(plane, from as usize, to as usize));
        c = c + 1;
    }
    assert(plane_views(r@) =~= Seq::new(
        planes@.len(),
        |c: int| slice_views(planes@)[c].subrange(from as int, to as int),
    ));
    r
}

/// Every row of a sound input lies in its counts, and its samples in its
/// planes.
pub proof fn lemma_row_of(v: InputView, y: int)
    requires
        is_sound(v),
        0 <= y < v.height,
    ensures
        0 <= y * v.width,
        y * v.width + v.width <= v.counts.len(),
        (y + 1) * v.width == y * v.width + v.width,
        row_counts(v, y).len() == v.width,
        0 <= total(v.counts, y * v.width) <= total(v.counts, y * v.width + v.width) <= sum(v.counts),
        sum(row_counts(v, y)) == total(v.counts, y * v.width + v.width) - total(
            v.counts,
            y * v.width,
        ),
{
    let w = v.width as int;
    lemma_row_fits(y, w, v.height as int);
    lemma_total_monotonic(v.counts, y * w, y * w + w);
    lemma_total_monotonic(v.counts, y * w + w, v.counts.len() as int);
    lemma_total_slice(v.counts, y * w, y * w + w, w);
}

/// The lines of an input, as they are stored line by line.
pub struct LineSource<'b> {
    pub width: u32,
    pub height: u32,
    pub channels: &'b [Channel],
    pub counts: &'b [u32],
    pub planes: &'b Vec<&'b [u32]>,
    pub compression: Compression,
}

impl<'b> View for LineSource<'b> {
    type V = InputView;

    open spec fn view(&self) -> InputView {
        InputView {
            width: self.width,
            height: self.height,
            channels: channel_views(self.channels@),
            counts: self.counts@,
            planes: slice_views(self.planes@),
            compression: self.compression,
        }
    }
}

/// Make the chunks of all rows, each behind `prefix`.
pub fn make_row_chunks(v: &LineSource, prefix: &[u8]) -> (r: Result<Vec<Vec<u8>>, ExrError>)
    requires
        is_sound(v@),
        v.width > 0,
    ensures
        r matches Ok(chunks) ==> {
            &&& rows_pack(v@)
            &&& byte_views(chunks@) == Seq::new(v.height as nat, |y: int| prefix@ + row_chunk(v@, y))
            &&& (forall|y: int|
                0 <= y < v.height ==> sums_fit(#[trigger] row_counts(v@, y), v.width as int))
                ==> rows_read_back(v@)
        },
        r matches Err(e) ==> e.fault() == Fault::Invalid && !rows_pack(v@),
{
    let ghost iv = v@;
    let w: u32 = v.width;
    let mut chunks: Vec<Vec<u8>> = Vec::new();
    let mut y: u32 = 0;
    let mut from: u128 = 0;
    assert(0 * w as int == 0);
    while y < v.height
        invariant
            y <= v.height,
            iv == v@,
            w == v.width,
            w > 0,
            is_sound(iv),
            from == total(iv.counts, y * w),
            chunks@.len() == y,
            forall|i: int|
                0 <= i < y ==> (#[trigger] chunks@[i])@ == prefix@ + row_chunk(iv, i) && row_packed(
                    iv,
                    i,
                ) is Some,
            forall|i: int|
                0 <= i < y && sums_fit(row_counts(iv, i), w as int) ==> reads_back(
                    (#[trigger] row_packed(iv, i))->Some_0,
                    1,
                    w,
                    row_counts(iv, i),
                    row_planes(iv, i),
                    iv.compression,
                    iv.channels,
                ),
        decreases v.height - y,
    {
        proof {
            lemma_row_of(iv, y as int);
            assert(v.counts.len() == v.counts@.len());
            assert forall|c: int| 0 <= c < v.planes@.len() implies total(iv.counts, y * w + w) <= (
            #[trigger] v.planes@[c])@.len() by {
                assert(iv.planes[c] == v.planes@[c]@);
            }
            lemma_total_bound(iv.counts, y * w + w);
        }
        let at: usize = y as usize * w as usize;
        let row: &[u32] = crate::bytes::slice_range(v.counts, at, at + w as usize);
        let to: u128 = from + sum_counts(row);
        let planes: Vec<Vec<u32>> = cut_planes(v.planes, from, to);
        proof {
            assert(plane_views(planes@) =~= row_planes(iv, y as int));
            assert(1 * w == w);
            assert forall|i: int| 0 <= i < planes@.len() implies (#[trigger] planes@[i])@.len() == sum(
                row@,
            ) by {
                assert(plane_views(planes@)[i] == row_planes(iv, y as int)[i]);
                assert(iv.planes[i] == v.planes@[i]@);
            }
        }
        let packed: PackedBlock = pack_block(
            row,
            1,
            w,
            planes.as_slice(),
            v.compression,
            v.channels,
        )?;
        let mut chunk: Vec<u8> = Vec::new();
        crate::bytes::put_bytes(&mut chunk, prefix);
        put_i32(&mut chunk, to_signed(y));
        put_record(&mut chunk, &packed);
        proof {
            reveal(row_chunk);
            assert(row_packed(iv, y as int) == Some(packed@));
            assert(chunk@ =~= prefix@ + row_chunk(iv, y as int));
        }
        let ghost before = chunks@;
        chunks.push(chunk);
        proof {
            assert forall|i: int| 0 <= i < y + 1 implies (#[trigger] chunks@[i])@ == prefix@
                + row_chunk(iv, i) && row_packed(iv, i) is Some by {
                if i < y {
                    assert(chunks@[i] == before[i]);
                }
            }
        }
        from = to;
        y = y + 1;
    }
    proof {
        assert(byte_views(chunks@) =~= Seq::new(
            v.height as nat,
            |y: int| prefix@ + row_chunk(v@, y),
        ));
        assert forall|i: int| 0 <= i < v.height implies #[trigger] row_packed(v@, i) is Some by {
            assert(chunks@[i]@ == prefix@ + row_chunk(iv, i));
        }
    }
    Ok(chunks)
}

/// Check an input.
fn check_scanline(v: &DeepScanlineInput) -> (r: Result<(), ExrError>)
    ensures
        r is Ok <==> scanline_fault(v@) is None,
        r matches Err(e) ==> scanline_fault(v@) == Some(e.fault()),
{
    if !deep_method(v.compression) {
        return Err(ExrError::unsupported("deep compression is not one of NONE, RLE and ZIPS"));
    }
    proof {
        lemma_area(v.width, v.height);
    }
    if v.samples_per_pixel.len() as u64 != v.width as u64 * v.height as u64 {
        return Err(ExrError::invalid("samples_per_pixel does not have width * height items"));
    }
    if v.channels.len() != v.channel_samples.len() {
        return Err(ExrError::invalid("channels and channel_samples differ in number"));
    }
    let n: u128 = sum_counts(v.samples_per_pixel);
    check_planes(v.channels.as_slice(), &v.channel_samples, n)?;
    if !ascending(v.channels.as_slice()) {
        return Err(ExrError::invalid("deep channels not alphabetical"));
    }
    Ok(())
}

/// The area of an image fits in 64 bits.
pub proof fn lemma_area(w: u32, h: u32)
    ensures
        0 <= w * h <= u64::MAX,
{
    assert(0 <= w * h <= 0xffff_ffff * 0xffff_ffff) by (nonlinear_arith)
        requires
            0 <= w <= 0xffff_ffff,
            0 <= h <= 0xffff_ffff,
    ;
}

/// Write a deep file with one part, line by line. What was written reads
/// back: the samples of HALF and UINT channels as they are stored, those of
/// FLOAT channels bit for bit.
pub fn encode_exr_deep_scanline(input: &DeepScanlineInput) -> (r: Result<Vec<u8>, ExrError>)
    requires
        scanline_fault(input@) is None ==> input.width > 0 && input.height > 0,
    ensures
        r matches Ok(v) ==> deep_scanline_file(input@) == Ok::<Seq<u8>, Fault>(v@),
        r matches Ok(v) ==> scanline_readable(input@) ==> deep_scanline_of(v@) == Ok::<DeepView, Fault>(
            scanline_image(input@),
        ),
        r matches Err(e) ==> deep_scanline_file(input@) == Err::<Seq<u8>, Fault>(e.fault()),
{
    check_scanline(input)?;
    let ghost iv = input@;
    proof {
        lemma_scanline_sound(iv);
    }
    let labels: DeepLabels = DeepLabels {
        chunk_count: input.height,
        width: input.width,
        height: input.height,
        max_samples: greatest_count(input.samples_per_pixel),
        compression: input.compression,
    };
    let attributes: Vec<Attribute> = deep_attributes(
        &labels,
        input.channels.as_slice(),
        None,
        None,
        "deepscanline",
    );
    let header: Vec<u8> = encode_header(
        VersionField::from_u32(DEEP_VERSION),
        attributes.as_slice(),
    );
    let source: LineSource = LineSource {
        width: input.width,
        height: input.height,
        channels: input.channels.as_slice(),
        counts: input.samples_per_pixel,
        planes: &input.channel_samples,
        compression: input.compression,
    };
    let prefix: Vec<u8> = Vec::new();
    let chunks: Vec<Vec<u8>> = make_row_chunks(&source, prefix.as_slice())?;
    let out: Vec<u8> = lay_out(header, chunks.as_slice());
    proof {
        assert(source@ == iv);
        assert(byte_views(chunks@) =~= row_chunks(iv)) by {
            assert forall|y: int| 0 <= y < iv.height implies byte_views(chunks@)[y] == row_chunks(
                iv,
            )[y] by {
                assert(prefix@ + row_chunk(iv, y) =~= row_chunk(iv, y));
            }
        }
        assert(out.len() == out@.len());
        assert(input.samples_per_pixel.len() == iv.counts.len());
        if scanline_readable(iv) {
            lemma_file_parts(scanline_header(iv), row_chunks(iv));
            law_chunks_placed(scanline_header(iv), row_chunks(iv));
            lemma_scanline_reads_back(iv, out@);
        }
    }
    Ok(out)
}

/// Row `y` of an input as it is read back.
pub open spec fn stored_row(v: InputView, y: int) -> BlockView {
    stored_pixels(row_counts(v, y), row_planes(v, y), v.channels)
}

/// The first `k` lines of an input as they are read back.
pub open spec fn first_lines(v: InputView, k: int) -> Seq<Option<BlockView>> {
    Seq::new(
        v.height as nat,
        |y: int|
            if y < k {
                Some(stored_row(v, y))
            } else {
                None
            },
    )
}

/// One line more.
pub proof fn lemma_first_lines_step(v: InputView, y: int)
    requires
        0 <= y < v.height,
    ensures
        with_line(first_lines(v, y), y, stored_row(v, y)) == first_lines(v, y + 1),
{
    assert(first_lines(v, y).update(y, Some(stored_row(v, y))) =~= first_lines(v, y + 1));
}

/// The pixels of the first `k` rows of an input: the counts of those rows, and
/// their samples as they are read back.
pub open spec fn first_rows(v: InputView, k: int) -> BlockView {
    BlockView {
        counts: v.counts.take(k * v.width),
        planes: Seq::new(
            v.channels.len(),
            |c: int|
                stored_plane(
                    v.channels[c].pixel_type,
                    v.planes[c].take(total(v.counts, k * v.width)),
                ),
        ),
    }
}

proof fn lemma_first_rows_step(v: InputView, y: int)
    requires
        is_sound(v),
        0 <= y < v.height,
    ensures
        appended(first_rows(v, y), stored_row(v, y)) == first_rows(v, y + 1),
{
    lemma_row_of(v, y);
    let w = v.width as int;
    let a = total(v.counts, y * w);
    let b = total(v.counts, y * w + w);
    let got = appended(first_rows(v, y), stored_row(v, y));
    let want = first_rows(v, y + 1);
    assert(got.counts =~= want.counts);
    assert forall|c: int| 0 <= c < v.channels.len() implies got.planes[c] == want.planes[c] by {
        assert(v.planes[c].len() == sum(v.counts));
        assert(got.planes[c] =~= want.planes[c]);
    }
    assert(got.planes =~= want.planes);
}

proof fn lemma_rows_joined(v: InputView, lines: Seq<Option<BlockView>>, k: int)
    requires
        is_sound(v),
        0 <= k <= v.height,
        lines == first_lines(v, v.height as int),
    ensures
        joined(lines, v.width as int, v.channels.len(), k) == first_rows(v, k),
    decreases k,
{
    if k > 0 {
        lemma_rows_joined(v, lines, k - 1);
        lemma_first_rows_step(v, k - 1);
    } else {
        assert(0 * v.width == 0);
        assert forall|c: int| 0 <= c < v.channels.len() implies first_rows(v, 0).planes[c]
            =~= Seq::<u32>::empty() by {
            assert(v.planes[c].take(0) =~= Seq::<u32>::empty());
        }
        assert(first_rows(v, 0) =~~= no_pixels(v.channels.len()));
    }
}

/// All lines of an input make up its pixels.
pub proof fn lemma_first_lines_ends(v: InputView)
    requires
        is_sound(v),
    ensures
        first_lines(v, 0) == no_tiles(v.height as int),
        joined(
            first_lines(v, v.height as int),
            v.width as int,
            v.channels.len(),
            v.height as int,
        ) == stored_pixels(v.counts, v.planes, v.channels),
{
    let w = v.width as int;
    let h = v.height as int;
    assert(h * w == w * h) by (nonlinear_arith);
    assert(first_lines(v, 0) =~= no_tiles(h));
    lemma_rows_joined(v, first_lines(v, h), h);
    let got = first_rows(v, h);
    let want = stored_pixels(v.counts, v.planes, v.channels);
    assert(got.counts =~= want.counts);
    assert forall|c: int| 0 <= c < v.channels.len() implies got.planes[c] == want.planes[c] by {
        assert(v.planes[c].len() == sum(v.counts));
        assert(v.planes[c].take(sum(v.counts)) =~= v.planes[c]);
    }
    assert(got.planes =~= want.planes);
}

/// The chunk of a row reads back as that row.
pub proof fn lemma_row_reads_back(s: Seq<u8>, off: int, v: InputView, y: int, m: MetaView)
    requires
        s.len() <= u64::MAX,
        is_sound(v),
        rows_read_back(v),
        0 <= y < v.height <= 0x7fff_ffff,
        0 < v.width <= 0x8000_0000,
        m.data_window == window_of(v.width, v.height),
        m.compression == v.compression,
        m.channels == v.channels,
        stands_at(s, off, row_chunk(v, y)),
    ensures
        line_at(s, off, m) == Some(
            (y, stored_row(v, y), off + row_chunk(v, y).len()),
        ),
        m.data_window.columns() == v.width,
        m.data_window.rows() == v.height,
{
    reveal(row_chunk);
    let p = row_packed(v, y)->Some_0;
    let head = i32_le(i32_of_u32(y as u32));
    lemma_stands_split(s, off, head, record_bytes(p));
    lemma_i32_reads_back(s, off, i32_of_u32(y as u32));
    lemma_record_reads_back(
        s,
        off + 4,
        p,
        1,
        v.width,
        row_counts(v, y),
        row_planes(v, y),
        v.compression,
        v.channels,
    );
    assert(head.len() == 4);
    assert(m.data_window.columns() == v.width);
    assert(m.data_window.rows() == v.height);
    assert(record_bytes(p).len() >= 24);
}

proof fn lemma_lines_read_back(s: Seq<u8>, base: int, v: InputView, m: MetaView, k: int)
    requires
        is_sound(v),
        rows_read_back(v),
        0 <= k <= v.height <= 0x7fff_ffff,
        0 < v.width <= 0x8000_0000,
        m.data_window == window_of(v.width, v.height),
        m.data_window.columns() == v.width,
        m.data_window.rows() == v.height,
        m.compression == v.compression,
        m.channels == v.channels,
        s.len() <= u64::MAX,
        chunks_placed(s, base, row_chunks(v)),
    ensures
        lines_after(s, base, m, k) == Some(first_lines(v, k)),
    decreases k,
{
    if k == 0 {
        lemma_first_lines_ends(v);
    } else {
        lemma_lines_read_back(s, base, v, m, k - 1);
        let off = u64_at(s, base + 8 * (k - 1)) as int;
        assert(stands_at(s, off, row_chunks(v)[k - 1]));
        lemma_row_reads_back(s, off, v, k - 1, m);
        lemma_first_lines_step(v, k - 1);
    }
}

proof fn lemma_scanline_header(v: InputView, s: Seq<u8>)
    requires
        is_sound(v),
        labels_readable(line_labels(v), v.channels),
        stands_at(s, 0, scanline_header(v)),
    ensures
        single_header_of(s, true) == Ok::<HeaderView, Fault>(
            HeaderView {
                version: version_of(DEEP_VERSION),
                entries: scanline_image(v).entries,
                end: scanline_header(v).len() as int,
            },
        ),
        find_text(scanline_image(v).entries, "type"@) == Some("deepscanline"@),
        meta_of(scanline_image(v).entries) == Ok::<(i32, MetaView), Fault>(
            (i32_of_u32(v.height), scanline_image(v).meta),
        ),
{
    reveal_strlit("deepscanline");
    lemma_ascii_storable("deepscanline"@, 31);
    lemma_deep_entries_storable(line_labels(v), v.channels, None, None, "deepscanline"@);
    law_deep_entries(line_labels(v), v.channels, None, None, "deepscanline"@);
    lemma_header_reads_back(s, DEEP_VERSION, scanline_image(v).entries, true);
}

proof fn lemma_scanline_reads_back(v: InputView, s: Seq<u8>)
    requires
        is_sound(v),
        rows_read_back(v),
        scanline_readable(v),
        stands_at(s, 0, scanline_header(v)),
        chunks_placed(s, scanline_header(v).len() as int, row_chunks(v)),
        scanline_header(v).len() + 8 * v.height <= s.len(),
        s.len() <= usize::MAX,
        v.counts.len() <= usize::MAX,
    ensures
        deep_scanline_of(s) == Ok::<DeepView, Fault>(scanline_image(v)),
{
    let m = scanline_image(v).meta;
    lemma_scanline_header(v, s);
    assert(m.data_window.columns() == v.width);
    assert(m.data_window.rows() == v.height);
    lemma_lines_read_back(s, scanline_header(v).len() as int, v, m, v.height as int);
    lemma_first_lines_ends(v);
}

} // verus!
