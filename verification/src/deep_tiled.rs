//! Deep images that are stored in tiles, at one level.

use crate::attrs::{find_string_attr, find_text};
use crate::bytes::{i32_at, read_i32, stands_at};
use crate::deep::{
    count_samples, lemma_area, samples_counted, size_agrees, DeepView, InputView, LineSource,
    DEEP_VERSION,
};
use crate::deep_block::{deep_method, is_deep_method, plane_views, BlockView, DeepBlock};
use crate::deep_input::{
    ascending, check_planes, lemma_no_planes_fault, planes_fault, slice_views, stored_pixels,
    sum_counts,
};
use crate::deep_meta::{
    deep_attributes, deep_entries, greatest, greatest_count, labels_readable, law_deep_entries,
    lemma_deep_entries_storable, lemma_part_of, meta_of, part_of, read_meta, read_part, read_tile_size, tile_size_of, window_of,
    DeepLabels, DeepMeta, MetaView,
};
use crate::deep_tiles::{
    assemble, assembled, blank_tiles, counts_small, cuts, first_tiles, is_complete,
    law_tiles_assemble, lemma_first_tiles, lemma_with_tile_fits, make_tile_chunks, no_tiles,
    stored_tiles, take_tile, tile_chunk, tile_chunks, tile_views, tiles_fit, tiles_pack,
    tiles_read_back, with_tile,
};
use crate::deep_lines::DeepPixels;
use crate::error::{ExrError, Fault};
use crate::grid::Grid;
use crate::header::{
    encode_header, header_bytes, lemma_ascii_storable, lemma_header_reads_back, parse_single_header,
    single_header_of, version_of, HeaderView, ParsedHeader, VersionField,
};
use crate::layout::{
    chunk_start, chunks_follow, file_bytes, law_chunks_follow, lay_out, lemma_file_parts,
};
use crate::ragged::sum;
use crate::text::str_eq;
use crate::types::{
    channel_views, entry_views, names_ascend, Attribute, Box2i, Channel, Compression, EntryView,
    LineOrder, TileDesc,
};
use vstd::prelude::*;
use vstd::string::*;
use vstd::utf8::*;

verus! {

broadcast use crate::bytes::group_le_len;

/// A deep image that was stored in tiles.
///
/// The samples of each channel stand in the order of the pixels, row by row,
/// whatever the size of the tiles.
#[derive(Debug, Clone, PartialEq, Eq)]
pub struct DeepTiledImage {
    pub data_window: Box2i,
    pub display_window: Box2i,
    pub line_order: LineOrder,
    pub compression: Compression,
    pub tile_x: u32,
    pub tile_y: u32,
    pub channels: Vec<Channel>,
    pub samples_per_pixel: Vec<u32>,
    /// Binary32 bit patterns.
    pub channel_samples: Vec<Vec<u32>>,
    pub attributes: Vec<Attribute>,
}

/// What a deep tiled image stands for.
#[verifier::ext_equal]
pub struct TiledView {
    pub image: DeepView,
    pub tile_x: u32,
    pub tile_y: u32,
}

impl View for DeepTiledImage {
    type V = TiledView;

    open spec fn view(&self) -> TiledView {
        TiledView {
            image: DeepView {
                meta: MetaView {
                    data_window: self.data_window,
                    display_window: self.display_window,
                    line_order: self.line_order,
                    compression: self.compression,
                    channels: channel_views(self.channels@),
                },
                pixels: BlockView {
                    counts: self.samples_per_pixel@,
                    planes: plane_views(self.channel_samples@),
                },
                entries: entry_views(self.attributes@),
            },
            tile_x: self.tile_x,
            tile_y: self.tile_y,
        }
    }
}

impl DeepTiledImage {
    pub fn width(&self) -> (r: u32)
        ensures
            r == self.data_window.columns(),
    {
        self.data_window.width()
    }

    pub fn height(&self) -> (r: u32)
        ensures
            r == self.data_window.rows(),
    {
        self.data_window.height()
    }

    pub fn total_samples(&self) -> (r: u64)
        requires
            sum(self.samples_per_pixel@) <= u64::MAX,
        ensures
            r == sum(self.samples_per_pixel@),
    {
        count_samples(self.samples_per_pixel.as_slice())
    }
}

// ----------------------------------------------------------------------
// Reading
// ----------------------------------------------------------------------
/// The grid of an image with the given window and size of tiles.
pub open spec fn grid_of(m: MetaView, size: (u32, u32)) -> Grid {
    Grid {
        width: m.data_window.columns(),
        height: m.data_window.rows(),
        tile_x: size.0,
        tile_y: size.1,
    }
}

/// What a header says of a deep image in tiles at one level, and its grid.
pub open spec fn tiled_meta_of(es: Seq<EntryView>) -> Result<(MetaView, Grid), Fault> {
    tiled_with(es, meta_of(es))
}

/// What a header says of a part of a deep file in tiles at one level, and its
/// grid.
pub open spec fn tiled_part_meta(es: Seq<EntryView>) -> Result<(MetaView, Grid), Fault> {
    tiled_with(es, part_of(es))
}

/// What a header says of tiles at one level, beside what it says of the image.
pub open spec fn tiled_with(es: Seq<EntryView>, meta: Result<(i32, MetaView), Fault>) -> Result<
    (MetaView, Grid),
    Fault,
> {
    match meta {
        Err(e) => Err(e),
        Ok((count, m)) => match tile_size_of(es, 0) {
            Err(e) => Err(e),
            Ok(size) => if size_agrees(m, count, grid_of(m, size).tiles()) {
                Ok((m, grid_of(m, size)))
            } else {
                Err(Fault::Invalid)
            },
        },
    }
}

/// The tiles with the one whose chunk stands at `b`, where that is a chunk of
/// level 0, and the position behind it.
pub open spec fn with_flat_tile(
    s: Seq<u8>,
    b: int,
    g: Grid,
    m: MetaView,
    tiles: Seq<Option<BlockView>>,
) -> Result<(Seq<Option<BlockView>>, int), Fault> {
    if b + 40 > s.len() {
        Err(Fault::Invalid)
    } else if i32_at(s, b + 8) != 0 || i32_at(s, b + 12) != 0 {
        Err(Fault::Unsupported)
    } else {
        match with_tile(s, b, g, m.compression, m.channels, tiles) {
            None => Err(Fault::Invalid),
            Some(r) => Ok(r),
        }
    }
}

/// The tiles after the first `k` chunks from `start` on, and the position
/// behind those chunks.
pub open spec fn tiles_after(s: Seq<u8>, start: int, g: Grid, m: MetaView, k: int) -> Result<
    (Seq<Option<BlockView>>, int),
    Fault,
>
    decreases k,
{
    if k <= 0 {
        Ok((no_tiles(g.tiles()), start))
    } else {
        match tiles_after(s, start, g, m, k - 1) {
            Err(e) => Err(e),
            Ok((tiles, pos)) => with_flat_tile(s, pos, g, m, tiles),
        }
    }
}

/// The deep image in a file with one part that is stored in tiles. Its chunks
/// stand one behind the other; the offset table in front of them is passed
/// over, for it may hold nothing but zeros.
pub open spec fn deep_tiled_of(s: Seq<u8>) -> Result<TiledView, Fault> {
    match single_header_of(s, true) {
        Err(e) => Err(e),
        Ok(h) => if !h.version.non_image {
            Err(Fault::Invalid)
        } else {
            match find_text(h.entries, "type"@) {
                None => Err(Fault::Invalid),
                Some(t) => if t != "deeptile"@ {
                    Err(Fault::Unsupported)
                } else {
                    match tiled_meta_of(h.entries) {
                        Err(e) => Err(e),
                        Ok((m, g)) => if h.end + 8 * g.tiles() > s.len() {
                            Err(Fault::Invalid)
                        } else {
                            match tiles_after(s, h.end + 8 * g.tiles(), g, m, g.tiles()) {
                                Err(e) => Err(e),
                                Ok((tiles, _)) => if is_complete(tiles) {
                                    Ok(
                                        TiledView {
                                            image: DeepView {
                                                meta: m,
                                                pixels: assembled(g, tiles, m.channels.len()),
                                                entries: h.entries,
                                            },
                                            tile_x: g.tile_x,
                                            tile_y: g.tile_y,
                                        },
                                    )
                                } else {
                                    Err(Fault::Invalid)
                                },
                            }
                        },
                    }
                },
            }
        },
    }
}

/// A grid that an image can be read by.
pub open spec fn is_held(g: Grid) -> bool {
    &&& g.is_valid()
    &&& 0 <= g.tiles() <= 0x7fff_ffff
    &&& g.area() <= usize::MAX
}

/// Read what a header says of a deep image in tiles.
pub fn read_tiled_meta(attrs: &[Attribute]) -> (r: Result<(DeepMeta, Grid), ExrError>)
    ensures
        r matches Ok((m, g)) ==> tiled_meta_of(entry_views(attrs@)) == Ok::<(MetaView, Grid), Fault>(
            (m@, g),
        ) && is_held(g),
        r matches Err(e) ==> tiled_meta_of(entry_views(attrs@)) == Err::<(MetaView, Grid), Fault>(
            e.fault(),
        ),
{
    match read_meta(attrs) {
        Ok((count, m)) => read_grid(attrs, count, m),
        Err(e) => Err(e),
    }
}

/// Read what a header says of a part of a deep file in tiles.
pub fn read_tiled_part_meta(attrs: &[Attribute]) -> (r: Result<(DeepMeta, Grid), ExrError>)
    ensures
        r matches Ok((m, g)) ==> tiled_part_meta(entry_views(attrs@)) == Ok::<(MetaView, Grid), Fault>(
            (m@, g),
        ) && is_held(g),
        r matches Err(e) ==> tiled_part_meta(entry_views(attrs@)) == Err::<(MetaView, Grid), Fault>(
            e.fault(),
        ),
{
    match read_part(attrs) {
        Ok((count, m)) => read_grid(attrs, count, m),
        Err(e) => Err(e),
    }
}

/// Read the grid of a deep image with the given number of chunks.
fn read_grid(attrs: &[Attribute], count: i32, m: DeepMeta) -> (r: Result<(DeepMeta, Grid), ExrError>)
    ensures
        r matches Ok((d, g)) ==> tiled_with(
            entry_views(attrs@),
            Ok::<(i32, MetaView), Fault>((count, m@)),
        ) == Ok::<(MetaView, Grid), Fault>((d@, g)) && is_held(g),
        r matches Err(e) ==> tiled_with(
            entry_views(attrs@),
            Ok::<(i32, MetaView), Fault>((count, m@)),
        ) == Err::<(MetaView, Grid), Fault>(e.fault()),
{
    let (tile_x, tile_y) = read_tile_size(
        attrs,
        0,
        "deep tiled file: only tiledesc mode=0x00 (ONE_LEVEL + ROUND_DOWN) is supported",
    )?;
    let w: u32 = m.data_window.width();
    let h: u32 = m.data_window.height();
    if w == 0 || h == 0 {
        return Err(ExrError::invalid("deep tiled dataWindow must not be empty"));
    }
    let g: Grid = Grid { width: w, height: h, tile_x, tile_y };
    let across: u32 = g.columns();
    let down: u32 = g.lines();
    proof {
        lemma_area(down, across);
        lemma_area(w, h);
        assert(h * w == w * h) by (nonlinear_arith);
    }
    if count < 0 || count as u64 != down as u64 * across as u64 {
        return Err(ExrError::invalid("deep tiled chunkCount disagrees with the tile grid"));
    }
    if w as u64 * h as u64 > usize::MAX as u64 {
        return Err(ExrError::invalid("deep tiled dataWindow too large"));
    }
    assert(g == grid_of(m@, (tile_x, tile_y)));
    Ok((m, g))
}

/// Read the tile whose chunk stands at `b`, where that is a chunk of level 0.
pub fn take_flat_tile(s: &[u8], b: usize, g: Grid, m: &DeepMeta, tiles: &mut Vec<Option<DeepBlock>>) -> (r:
    Result<usize, ExrError>)
    requires
        b <= s@.len(),
        g.is_valid(),
        old(tiles)@.len() == g.tiles(),
    ensures
        r matches Ok(end) ==> end <= s@.len() && with_flat_tile(
            s@,
            b as int,
            g,
            m@,
            tile_views(old(tiles)@),
        ) == Ok::<(Seq<Option<BlockView>>, int), Fault>((tile_views(final(tiles)@), end as int)),
        r matches Err(e) ==> with_flat_tile(s@, b as int, g, m@, tile_views(old(tiles)@)) == Err::<
            (Seq<Option<BlockView>>, int),
            Fault,
        >(e.fault()),
{
    let n: usize = s.len();
    if n - b < 40 {
        return Err(ExrError::invalid("deep tile chunk header past EOF"));
    }
    if read_i32(s, b + 8) != 0 || read_i32(s, b + 12) != 0 {
        return Err(ExrError::unsupported("deep tiled chunk of a level other than 0"));
    }
    take_tile(s, b, g, m.compression, m.channels.as_slice(), tiles)
}

/// The tiles keep their sizes while they are read.
pub proof fn lemma_flat_tile_fits(
    s: Seq<u8>,
    b: int,
    g: Grid,
    m: MetaView,
    tiles: Seq<Option<BlockView>>,
)
    requires
        g.is_valid(),
        tiles_fit(g, tiles, m.channels.len()),
    ensures
        with_flat_tile(s, b, g, m, tiles) matches Ok((t, end)) ==> tiles_fit(g, t, m.channels.len()),
{
    lemma_with_tile_fits(s, b, g, m.compression, m.channels, tiles);
}

proof fn lemma_tiles_stop(s: Seq<u8>, start: int, g: Grid, m: MetaView, k: int, n: int)
    requires
        k <= n,
        tiles_after(s, start, g, m, k) is Err,
    ensures
        tiles_after(s, start, g, m, n) == tiles_after(s, start, g, m, k),
    decreases n - k,
{
    if k < n {
        lemma_tiles_stop(s, start, g, m, k, n - 1);
    }
}

/// Read the tiles whose chunks stand from `start` on.
fn read_tiles(s: &[u8], start: usize, g: Grid, m: &DeepMeta) -> (r: Result<
    Vec<Option<DeepBlock>>,
    ExrError,
>)
    requires
        is_held(g),
        start <= s@.len(),
    ensures
        r matches Ok(t) ==> (tiles_after(s@, start as int, g, m@, g.tiles()) matches Ok((tiles, _))
            && tiles == tile_views(t@)) && tiles_fit(g, tile_views(t@), m@.channels.len()),
        r matches Err(e) ==> tiles_after(s@, start as int, g, m@, g.tiles()) == Err::<
            (Seq<Option<BlockView>>, int),
            Fault,
        >(e.fault()),
{
    let across: u32 = g.columns();
    let down: u32 = g.lines();
    proof {
        lemma_area(down, across);
    }
    let n: usize = (down as u64 * across as u64) as usize;
    let mut tiles: Vec<Option<DeepBlock>> = blank_tiles(n);
    assert(tile_views(tiles@).len() == n);
    let mut pos: usize = start;
    let mut k: usize = 0;
    while k < n
        invariant
            k <= n,
            n == g.tiles(),
            is_held(g),
            pos <= s@.len(),
            tiles@.len() == n,
            tiles_fit(g, tile_views(tiles@), m@.channels.len()),
            tiles_after(s@, start as int, g, m@, k as int) == Ok::<
                (Seq<Option<BlockView>>, int),
                Fault,
            >((tile_views(tiles@), pos as int)),
        decreases n - k,
    {
        proof {
            lemma_flat_tile_fits(s@, pos as int, g, m@, tile_views(tiles@));
        }
        match take_flat_tile(s, pos, g, m, &mut tiles) {
            Ok(end) => {
                pos = end;
            },
            Err(e) => {
                proof {
                    lemma_tiles_stop(s@, start as int, g, m@, k + 1, n as int);
                }
                return Err(e);
            },
        }
        assert(tile_views(tiles@).len() == n);
        k = k + 1;
    }
    Ok(tiles)
}

/// Parse a deep file with one part that is stored in tiles at one level.
pub fn parse_exr_deep_tiled(bytes: &[u8]) -> (r: Result<DeepTiledImage, ExrError>)
    ensures
        r matches Ok(v) ==> deep_tiled_of(bytes@) == Ok::<TiledView, Fault>(v@),
        r matches Ok(v) ==> samples_counted(v@.image),
        r matches Err(e) ==> deep_tiled_of(bytes@) == Err::<TiledView, Fault>(e.fault()),
{
    let header: ParsedHeader = parse_single_header(bytes, true)?;
    if !header.version.non_image {
        return Err(ExrError::invalid("parse_exr_deep_tiled called on a flat (non-deep) file"));
    }
    let kind: String = match find_string_attr(header.attributes.as_slice(), "type") {
        Some(t) => t,
        None => {
            return Err(ExrError::invalid("deep tiled file missing required 'type' attribute"));
        },
    };
    if !str_eq(kind.as_str(), "deeptile") {
        return Err(ExrError::unsupported("deep tiled file of a type other than 'deeptile'"));
    }
    let (m, g) = read_tiled_meta(header.attributes.as_slice())?;
    let left: usize = bytes.len() - header.end_offset;
    proof {
        lemma_area(g.down() as u32, g.across() as u32);
    }
    let n: u64 = g.lines() as u64 * g.columns() as u64;
    if (left as u64) / 8 < n {
        return Err(ExrError::invalid("deep tiled offset table runs past EOF"));
    }
    let start: usize = header.end_offset + 8 * n as usize;
    let tiles: Vec<Option<DeepBlock>> = read_tiles(bytes, start, g, &m)?;
    let pixels: DeepPixels = assemble(&g, tiles.as_slice(), m.channels.len())?;
    Ok(
        DeepTiledImage {
            data_window: m.data_window,
            display_window: m.display_window,
            line_order: m.line_order,
            compression: m.compression,
            tile_x: g.tile_x,
            tile_y: g.tile_y,
            channels: m.channels,
            samples_per_pixel: pixels.counts,
            channel_samples: pixels.planes,
            attributes: header.attributes,
        },
    )
}

// ----------------------------------------------------------------------
// Writing
// ----------------------------------------------------------------------
/// A deep image to be written in tiles.
pub struct DeepTiledInput<'a> {
    pub width: u32,
    pub height: u32,
    pub tile_x: u32,
    pub tile_y: u32,
    /// Channels in the order of their names.
    pub channels: Vec<Channel>,
    /// How many samples each pixel has.
    pub samples_per_pixel: &'a [u32],
    /// The samples of each channel, as binary32 bit patterns.
    pub channel_samples: Vec<&'a [u32]>,
    pub compression: Compression,
}

/// What the input of a tile writer stands for.
#[verifier::ext_equal]
pub struct TiledInput {
    pub input: InputView,
    pub tile_x: u32,
    pub tile_y: u32,
}

impl TiledInput {
    pub open spec fn grid(self) -> Grid {
        Grid {
            width: self.input.width,
            height: self.input.height,
            tile_x: self.tile_x,
            tile_y: self.tile_y,
        }
    }
}

impl<'a> View for DeepTiledInput<'a> {
    type V = TiledInput;

    open spec fn view(&self) -> TiledInput {
        TiledInput {
            input: InputView {
                width: self.width,
                height: self.height,
                channels: channel_views(self.channels@),
                counts: self.samples_per_pixel@,
                planes: slice_views(self.channel_samples@),
                compression: self.compression,
            },
            tile_x: self.tile_x,
            tile_y: self.tile_y,
        }
    }
}

/// The first thing that is wrong with an input.
pub open spec fn tiled_fault(v: TiledInput) -> Option<Fault> {
    let x = v.input;
    if !is_deep_method(x.compression) {
        Some(Fault::Unsupported)
    } else if !v.grid().is_valid() || x.counts.len() != x.width * x.height || x.channels.len()
        != x.planes.len() {
        Some(Fault::Invalid)
    } else {
        match planes_fault(x.channels, x.planes, sum(x.counts), 0) {
            Some(f) => Some(f),
            None => if !names_ascend(x.channels) {
                Some(Fault::Invalid)
            } else {
                None
            },
        }
    }
}

/// What the attributes of an image in tiles are made of.
pub open spec fn tile_labels(v: TiledInput) -> DeepLabels {
    DeepLabels {
        chunk_count: v.grid().tiles() as u32,
        width: v.input.width,
        height: v.input.height,
        max_samples: greatest(v.input.counts, v.input.counts.len() as int),
        compression: v.input.compression,
    }
}

/// The description of tiles at one level.
pub open spec fn flat_tiles(tile_x: u32, tile_y: u32) -> TileDesc {
    TileDesc { x_size: tile_x, y_size: tile_y, level_mode: 0, round_mode: 0 }
}

/// The attributes of an image in tiles; of a part, where there is a name.
pub open spec fn tiled_entries(v: TiledInput, name: Option<Seq<char>>) -> Seq<EntryView> {
    deep_entries(
        tile_labels(v),
        v.input.channels,
        name,
        Some(flat_tiles(v.tile_x, v.tile_y)),
        "deeptile"@,
    )
}

/// The header of a deep file in tiles.
pub open spec fn tiled_header(v: TiledInput) -> Seq<u8> {
    header_bytes(DEEP_VERSION, tiled_entries(v, None))
}

/// The file for an input.
pub open spec fn deep_tiled_file(v: TiledInput) -> Result<Seq<u8>, Fault> {
    match tiled_fault(v) {
        Some(f) => Err(f),
        None => if tiles_pack(v.input, v.grid()) {
            Ok(file_bytes(tiled_header(v), tile_chunks(v.input, v.grid(), 0, Seq::empty())))
        } else {
            Err(Fault::Invalid)
        },
    }
}

/// An input whose file reads back: its attributes do, and its tiles and the
/// samples of a pixel can be counted in signed 32-bit integers.
pub open spec fn tiled_readable(v: TiledInput) -> bool {
    &&& labels_readable(tile_labels(v), v.input.channels)
    &&& v.grid().tiles() <= 0x7fff_ffff
    &&& counts_small(v.input.counts)
}

/// What the header of an image that was written says of it.
pub open spec fn written_meta(v: InputView) -> MetaView {
    MetaView {
        data_window: window_of(v.width, v.height),
        display_window: window_of(v.width, v.height),
        line_order: LineOrder::IncreasingY,
        compression: v.compression,
        channels: v.channels,
    }
}

/// The deep image that the file for an input holds.
pub open spec fn tiled_image(v: TiledInput) -> TiledView {
    TiledView {
        image: DeepView {
            meta: written_meta(v.input),
            pixels: stored_pixels(v.input.counts, v.input.planes, v.input.channels),
            entries: tiled_entries(v, None),
        },
        tile_x: v.tile_x,
        tile_y: v.tile_y,
    }
}

/// Check an input.
fn check_tiled(v: &DeepTiledInput) -> (r: Result<(), ExrError>)
    ensures
        r is Ok <==> tiled_fault(v@) is None,
        r matches Err(e) ==> tiled_fault(v@) == Some(e.fault()),
{
    if !deep_method(v.compression) {
        return Err(ExrError::unsupported("deep compression is not one of NONE, RLE and ZIPS"));
    }
    if v.width == 0 || v.height == 0 {
        return Err(ExrError::invalid("deep tiled dataWindow must not be empty"));
    }
    if v.tile_x == 0 || v.tile_y == 0 {
        return Err(ExrError::invalid("deep tile size must be > 0"));
    }
    proof {
        lemma_area(v.width, v.height);
    }
    if v.samples_per_pixel.len() as u64 != v.width as u64 * v.height as u64 {
        return Err(ExrError::invalid("samples_per_pixel does not have width * height items"));
    }
    if v.channels.len() != v.channel_samples.len() {
        return Err(ExrError::invalid("channels and channel_samples differ in number"));
    }
    let n: u128 = sum_counts(v.samples_per_pixel);
    check_planes(v.channels.as_slice(), &v.channel_samples, n)?;
    if !ascending(v.channels.as_slice()) {
        return Err(ExrError::invalid("deep tiled channels not alphabetical"));
    }
    Ok(())
}

pub proof fn lemma_tiled_sound(v: TiledInput)
    requires
        tiled_fault(v) is None,
    ensures
        cuts(v.grid(), v.input),
{
    lemma_no_planes_fault(v.input.channels, v.input.planes, sum(v.input.counts), 0);
}

/// The number of the tiles of a grid.
pub fn count_tiles(g: &Grid) -> (r: u32)
    requires
        g.is_valid(),
        g.tiles() <= u32::MAX,
    ensures
        r == g.tiles(),
{
    let across: u32 = g.columns();
    let down: u32 = g.lines();
    proof {
        lemma_area(down, across);
    }
    (down as u64 * across as u64) as u32
}

/// Write a deep file with one part in tiles at one level. What was written
/// reads back: the samples of HALF and UINT channels as they are stored, those
/// of FLOAT channels bit for bit.
pub fn encode_exr_deep_tiled(input: &DeepTiledInput) -> (r: Result<Vec<u8>, ExrError>)
    requires
        tiled_fault(input@) is None ==> input@.grid().tiles() <= u32::MAX,
    ensures
        r matches Ok(v) ==> deep_tiled_file(input@) == Ok::<Seq<u8>, Fault>(v@),
        r matches Ok(v) ==> tiled_readable(input@) ==> deep_tiled_of(v@) == Ok::<TiledView, Fault>(
            tiled_image(input@),
        ),
        r matches Err(e) ==> deep_tiled_file(input@) == Err::<Seq<u8>, Fault>(e.fault()),
{
    check_tiled(input)?;
    let ghost iv = input@;
    proof {
        lemma_tiled_sound(iv);
    }
    let g: Grid = Grid {
        width: input.width,
        height: input.height,
        tile_x: input.tile_x,
        tile_y: input.tile_y,
    };
    let labels: DeepLabels = DeepLabels {
        chunk_count: count_tiles(&g),
        width: input.width,
        height: input.height,
        max_samples: greatest_count(input.samples_per_pixel),
        compression: input.compression,
    };
    let attributes: Vec<Attribute> = deep_attributes(
        &labels,
        input.channels.as_slice(),
        None,
        Some(TileDesc { x_size: input.tile_x, y_size: input.tile_y, level_mode: 0, round_mode: 0 }),
        "deeptile",
    );
    let header: Vec<u8> = encode_header(
        VersionField::from_u32(DEEP_VERSION),
        attributes.as_slice(),
    );
    let source: LineSource = LineSource {
        width: input.width,
        height: input.height,
        channels: input.channels.as_slice(),
        counts: input.samples_per_pixel,
        planes: &input.channel_samples,
        compression: input.compression,
    };
    assert(source@ == iv.input);
    let prefix: Vec<u8> = Vec::new();
    let chunks: Vec<Vec<u8>> = make_tile_chunks(&source, &g, 0, prefix.as_slice())?;
    let out: Vec<u8> = lay_out(header, chunks.as_slice());
    proof {
        assert(prefix@ =~= Seq::empty());
        assert(out.len() == out@.len());
        assert(input.samples_per_pixel.len() == iv.input.counts.len());
        if tiled_readable(iv) {
            let all = tile_chunks(iv.input, g, 0, Seq::empty());
            lemma_file_parts(tiled_header(iv), all);
            law_chunks_follow(tiled_header(iv), all);
            lemma_tiled_reads_back(iv, out@);
        }
    }
    Ok(out)
}

/// The tiles of an input, one after the other.
proof fn lemma_tiles_read_back(s: Seq<u8>, start: int, v: TiledInput, m: MetaView, k: int)
    requires
        cuts(v.grid(), v.input),
        tiles_pack(v.input, v.grid()),
        tiles_read_back(v.input, v.grid()),
        0 <= k <= v.grid().tiles() <= 0x7fff_ffff,
        m.compression == v.input.compression,
        m.channels == v.input.channels,
        s.len() <= u64::MAX,
        chunks_follow(s, start, tile_chunks(v.input, v.grid(), 0, Seq::empty())),
    ensures
        tiles_after(s, start, v.grid(), m, k) == Ok::<(Seq<Option<BlockView>>, int), Fault>(
            (
                first_tiles(v.input, v.grid(), k),
                chunk_start(start, tile_chunks(v.input, v.grid(), 0, Seq::empty()), k),
            ),
        ),
    decreases k,
{
    let g = v.grid();
    if k == 0 {
        assert(first_tiles(v.input, g, 0) =~= no_tiles(g.tiles()));
    } else {
        lemma_tiles_read_back(s, start, v, m, k - 1);
        let all = tile_chunks(v.input, g, 0, Seq::empty());
        let pos = chunk_start(start, all, k - 1);
        assert(stands_at(s, pos, all[k - 1]));
        assert(all[k - 1] =~= tile_chunk(v.input, g, 0, k - 1));
        assert(crate::deep_tiles::tile_packed(v.input, g, k - 1) is Some);
        assert(crate::deep_tiles::tile_reads_back(v.input, g, k - 1));
        lemma_first_tiles(s, pos, v.input, g, 0, k - 1);
    }
}

/// The attributes of an image in tiles say what it is.
pub proof fn lemma_tiled_entries(v: TiledInput, name: Option<Seq<char>>)
    requires
        cuts(v.grid(), v.input),
        tiled_readable(v),
        v.input.counts.len() <= usize::MAX,
    ensures
        tiled_meta_of(tiled_entries(v, name)) == Ok::<(MetaView, Grid), Fault>(
            (written_meta(v.input), v.grid()),
        ),
        tiled_part_meta(tiled_entries(v, name)) == tiled_meta_of(tiled_entries(v, name)),
        find_text(tiled_entries(v, name), "type"@) == Some("deeptile"@),
        name matches Some(n) ==> find_text(tiled_entries(v, name), "name"@) == Some(n),
{
    law_deep_entries(
        tile_labels(v),
        v.input.channels,
        name,
        Some(flat_tiles(v.tile_x, v.tile_y)),
        "deeptile"@,
    );
    let m = written_meta(v.input);
    assert(m.data_window.columns() == v.input.width);
    assert(m.data_window.rows() == v.input.height);
    assert(grid_of(m, (v.tile_x, v.tile_y)) == v.grid());
    crate::grid::lemma_tile_count(v.grid());
    lemma_part_of(tiled_entries(v, name));
}

proof fn lemma_tiled_header(v: TiledInput, s: Seq<u8>)
    requires
        cuts(v.grid(), v.input),
        labels_readable(tile_labels(v), v.input.channels),
        stands_at(s, 0, tiled_header(v)),
    ensures
        single_header_of(s, true) == Ok::<HeaderView, Fault>(
            HeaderView {
                version: version_of(DEEP_VERSION),
                entries: tiled_entries(v, None),
                end: tiled_header(v).len() as int,
            },
        ),
{
    reveal_strlit("deeptile");
    lemma_ascii_storable("deeptile"@, 31);
    lemma_deep_entries_storable(
        tile_labels(v),
        v.input.channels,
        None,
        Some(flat_tiles(v.tile_x, v.tile_y)),
        "deeptile"@,
    );
    lemma_header_reads_back(s, DEEP_VERSION, tiled_entries(v, None), true);
}

proof fn lemma_tiled_reads_back(v: TiledInput, s: Seq<u8>)
    requires
        cuts(v.grid(), v.input),
        tiles_pack(v.input, v.grid()),
        tiles_read_back(v.input, v.grid()),
        tiled_readable(v),
        stands_at(s, 0, tiled_header(v)),
        chunks_follow(
            s,
            tiled_header(v).len() + 8 * v.grid().tiles(),
            tile_chunks(v.input, v.grid(), 0, Seq::empty()),
        ),
        tiled_header(v).len() + 8 * v.grid().tiles() <= s.len(),
        s.len() <= usize::MAX,
        v.input.counts.len() <= usize::MAX,
    ensures
        deep_tiled_of(s) == Ok::<TiledView, Fault>(tiled_image(v)),
{
    let g = v.grid();
    let m = written_meta(v.input);
    lemma_tiled_header(v, s);
    lemma_tiled_entries(v, None);
    crate::grid::lemma_tile_count(g);
    lemma_tiles_read_back(s, tiled_header(v).len() + 8 * g.tiles(), v, m, g.tiles());
    assert(first_tiles(v.input, g, g.tiles()) =~= stored_tiles(v.input, g));
    law_tiles_assemble(v.input, g);
}

} // verus!
