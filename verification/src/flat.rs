//! Flat images with one part.

use crate::attrs::{find_attribute, find_named};
use crate::b44::LogTable;
use crate::bytes::{i32_at, read_i32, read_u64, slice_range, u64_at};
use crate::deep_block::plane_views;
use crate::deep_meta::{all_full, is_full};
use crate::dwa::{
    chunk_of, join_pieces, lines_of, read_dwa_chunk, ChunkView, DwaChunk, DwaPieces, PiecesView,
};
use crate::dwa_rules::sets_of;
use crate::dwa_tables::PerceptualTables;
use crate::error::{ExrError, Fault};
use crate::flat_image::{
    all_spaced, alloc_planes, blank_planes, chunk_planes, extract_required, is_holdable, is_spaced,
    lemma_chunk_planes, name_planes, named_planes, named_views, place_chunk, plane_len,
    planes_sized, read_chunk, required_of, with_chunk, ExrPlane, PlaneView, RequiredAttrs,
    RequiredView,
};
use crate::flat_tiles::{
    apply_tile, compute_total_tiles, level_tiles, levels_of, list_levels, read_tile_head,
    tile_applied, tile_head_at, LevelShape,
};
use crate::grid::{steps, Grid};
use crate::header::{header_of, parse_header, HeaderView, ParsedHeader};
use crate::types::{
    channel_views, entry_views, sort_by_name, sorted_by_name, Attribute, AttributeValue,
    AttributeView, Box2i, Channel, ChannelView, Compression, EntryView, LineOrder, TileDesc,
};
use vstd::prelude::*;

verus! {

/// A flat image. The planes stand in the order of the channel names.
#[derive(Debug, PartialEq, Eq)]
pub struct ExrImage {
    pub data_window: Box2i,
    pub display_window: Box2i,
    pub line_order: LineOrder,
    pub compression: Compression,
    /// Binary32 bit patterns.
    pub pixel_aspect_ratio: u32,
    pub screen_window_center: (u32, u32),
    pub screen_window_width: u32,
    pub channels: Vec<Channel>,
    pub planes: Vec<ExrPlane>,
    /// All attributes of the header, in the order of the file.
    pub attributes: Vec<Attribute>,
}

/// What an [`ExrImage`] stands for.
#[verifier::ext_equal]
pub struct ImageView {
    pub required: RequiredView,
    pub planes: Seq<PlaneView>,
    pub entries: Seq<EntryView>,
}

impl View for ExrImage {
    type V = ImageView;

    open spec fn view(&self) -> ImageView {
        ImageView {
            required: RequiredView {
                channels: channel_views(self.channels@),
                compression: self.compression,
                data_window: self.data_window,
                display_window: self.display_window,
                line_order: self.line_order,
                pixel_aspect_ratio: self.pixel_aspect_ratio,
                screen_window_center: self.screen_window_center,
                screen_window_width: self.screen_window_width,
            },
            planes: named_views(self.planes@),
            entries: entry_views(self.attributes@),
        }
    }
}

impl Clone for ExrImage {
    fn clone(&self) -> (r: Self)
        ensures
            r@ == self@,
    {
        let r: ExrImage = ExrImage {
            data_window: self.data_window,
            display_window: self.display_window,
            line_order: self.line_order,
            compression: self.compression,
            pixel_aspect_ratio: self.pixel_aspect_ratio,
            screen_window_center: self.screen_window_center,
            screen_window_width: self.screen_window_width,
            channels: self.channels.clone(),
            planes: self.planes.clone(),
            attributes: self.attributes.clone(),
        };
        assert(r@ =~~= self@);
        r
    }
}

impl ExrImage {
    pub fn width(&self) -> (r: u32)
        ensures
            r == self.data_window.columns(),
    {
        self.data_window.width()
    }

    pub fn height(&self) -> (r: u32)
        ensures
            r == self.data_window.rows(),
    {
        self.data_window.height()
    }
}

/// The image with the given header and samples. Its channels stand in the
/// order of their names.
pub open spec fn image_with(m: RequiredView, planes: Seq<Seq<u32>>, entries: Seq<EntryView>) -> ImageView {
    let cs = sort_by_name(m.channels);
    ImageView {
        required: RequiredView { channels: cs, ..m },
        planes: named_planes(cs, planes),
        entries,
    }
}

/// The image with the given header and samples.
pub fn make_image(
    m: RequiredAttrs,
    channels: Vec<Channel>,
    planes: Vec<Vec<u32>>,
    attributes: Vec<Attribute>,
) -> (r: ExrImage)
    requires
        channel_views(channels@) == sort_by_name(m@.channels),
        planes@.len() == channels@.len(),
    ensures
        r@ == image_with(m@, plane_views(planes@), entry_views(attributes@)),
{
    let named: Vec<ExrPlane> = name_planes(channels.as_slice(), planes);
    ExrImage {
        data_window: m.data_window,
        display_window: m.display_window,
        line_order: m.line_order,
        compression: m.compression,
        pixel_aspect_ratio: m.pixel_aspect_ratio,
        screen_window_center: m.screen_window_center,
        screen_window_width: m.screen_window_width,
        channels,
        planes: named,
        attributes,
    }
}

// ----------------------------------------------------------------------
// Lines
// ----------------------------------------------------------------------
/// The number of lines of the chunk that begins at line `row`.
pub open spec fn chunk_lines(method: Compression, height: int, row: int) -> int {
    if height - row < method.block_rows() {
        height - row
    } else {
        method.block_rows() as int
    }
}

/// Planes after a stored chunk of lines is read. `y` is the coordinate of its
/// first line.
pub open spec fn lines_applied(
    planes: Seq<Seq<u32>>,
    cs: Seq<ChannelView>,
    window: Box2i,
    y: i32,
    payload: Seq<u8>,
    method: Compression,
    log: Seq<u16>,
) -> Result<Seq<Seq<u32>>, Fault> {
    let row = y - window.y_min;
    if row < 0 || row >= window.rows() {
        Err(Fault::Invalid)
    } else {
        match chunk_planes(
            payload,
            method,
            cs,
            window.columns() as int,
            row,
            chunk_lines(method, window.rows() as int, row),
            log,
        ) {
            Err(e) => Err(e),
            Ok(chunk) => Ok(with_chunk(planes, cs, window.columns() as int, row, chunk)),
        }
    }
}

/// Read a stored chunk of lines into planes.
pub fn apply_lines(
    planes: &mut Vec<Vec<u32>>,
    channels: &[Channel],
    window: Box2i,
    y: i32,
    payload: &[u8],
    method: Compression,
    log: &LogTable,
) -> (r: Result<(), ExrError>)
    requires
        log.inv(),
        planes_sized(
            plane_views(old(planes)@),
            channel_views(channels@),
            window.columns() as int,
            window.rows() as int,
        ),
    ensures
        r is Ok ==> lines_applied(
            plane_views(old(planes)@),
            channel_views(channels@),
            window,
            y,
            payload@,
            method,
            log@,
        ) == Ok::<Seq<Seq<u32>>, Fault>(plane_views(final(planes)@)) && planes_sized(
            plane_views(final(planes)@),
            channel_views(channels@),
            window.columns() as int,
            window.rows() as int,
        ),
        r matches Err(e) ==> lines_applied(
            plane_views(old(planes)@),
            channel_views(channels@),
            window,
            y,
            payload@,
            method,
            log@,
        ) == Err::<Seq<Seq<u32>>, Fault>(e.fault()),
{
    let ghost cs = channel_views(channels@);
    let width: u32 = window.width();
    let height: u32 = window.height();
    let row: i64 = y as i64 - window.y_min as i64;
    if row < 0 || row >= height as i64 {
        return Err(ExrError::invalid("block outside dataWindow"));
    }
    let y0: u32 = row as u32;
    let rows: u32 = method.scanlines_per_block();
    let n: u32 = if height - y0 < rows {
        height - y0
    } else {
        rows
    };
    let chunk: Vec<Vec<u32>> = match read_chunk(payload, method, channels, width, y0, n, log) {
        Ok(v) => v,
        Err(e) => {
            return Err(e);
        },
    };
    proof {
        let part = plane_views(chunk@);
        assert(part.len() == chunk@.len());
        if cs.len() == 0 {
            lemma_no_channels(payload@, method, cs, width as int, y0 as int, n as int, log@);
        } else {
            lemma_chunk_planes(payload@, method, cs, width as int, y0 as int, n as int, log@, 0);
        }
        assert forall|c: int| 0 <= c < channels@.len() implies (#[trigger] chunk@[c])@.len() == (
        crate::flat_block::tall(channels@[c]@, y0 + n) - crate::flat_block::tall(
            channels@[c]@,
            y0 as int,
        )) * crate::flat_block::wide(channels@[c]@, width as int) by {
            lemma_chunk_planes(payload@, method, cs, width as int, y0 as int, n as int, log@, c);
            assert(part[c] == chunk@[c]@);
            assert(cs[c] == channels@[c]@);
        }
    }
    place_chunk(planes, channels, width, height, y0, n, &chunk);
    Ok(())
}

/// A chunk without channels has no planes.
proof fn lemma_no_channels(
    payload: Seq<u8>,
    method: Compression,
    cs: Seq<ChannelView>,
    width: int,
    y0: int,
    n: int,
    log: Seq<u16>,
)
    requires
        cs.len() == 0,
    ensures
        chunk_planes(payload, method, cs, width, y0, n, log) matches Ok(planes) ==> planes.len() == 0,
{
}

/// The head of the chunk of lines at `off`: the coordinate of its first line,
/// and the positions where its bytes begin and end.
pub open spec fn line_head_at(s: Seq<u8>, off: int) -> Option<(i32, int, int)> {
    if off + 8 > s.len() || i32_at(s, off + 4) < 0 || off + 8 + i32_at(s, off + 4) > s.len() {
        None
    } else {
        Some((i32_at(s, off), off + 8, off + 8 + i32_at(s, off + 4)))
    }
}

/// Read the head of the chunk of lines at `off`.
pub fn read_line_head(bytes: &[u8], off: u64) -> (r: Option<(i32, usize, usize)>)
    ensures
        r is None <==> line_head_at(bytes@, off as int) is None,
        r matches Some((y, a, b)) ==> line_head_at(bytes@, off as int) == Some(
            (y, a as int, b as int),
        ) && a <= b <= bytes@.len(),
{
    assert(bytes.len() == bytes@.len());
    let n: usize = bytes.len();
    if n < 8 || off > (n - 8) as u64 {
        return None;
    }
    let at: usize = off as usize;
    let size: i32 = read_i32(bytes, at + 4);
    if size < 0 || size as u64 > (n - at - 8) as u64 {
        return None;
    }
    Some((read_i32(bytes, at), at + 8, at + 8 + size as usize))
}

/// The samples after the first `k` chunks of the offset table at `base`.
pub open spec fn scanlines_after(
    s: Seq<u8>,
    base: int,
    cs: Seq<ChannelView>,
    window: Box2i,
    method: Compression,
    log: Seq<u16>,
    k: int,
) -> Result<Seq<Seq<u32>>, Fault>
    decreases k,
{
    if k <= 0 {
        Ok(blank_planes(cs, window.columns() as int, window.rows() as int))
    } else {
        match scanlines_after(s, base, cs, window, method, log, k - 1) {
            Err(e) => Err(e),
            Ok(planes) => match line_head_at(s, u64_at(s, base + 8 * (k - 1)) as int) {
                None => Err(Fault::Invalid),
                Some((y, a, b)) => lines_applied(
                    planes,
                    cs,
                    window,
                    y,
                    s.subrange(a, b),
                    method,
                    log,
                ),
            },
        }
    }
}

/// What goes wrong stays wrong.
proof fn lemma_scanlines_stop(
    s: Seq<u8>,
    base: int,
    cs: Seq<ChannelView>,
    window: Box2i,
    method: Compression,
    log: Seq<u16>,
    a: int,
    b: int,
)
    requires
        a <= b,
        scanlines_after(s, base, cs, window, method, log, a) is Err,
    ensures
        scanlines_after(s, base, cs, window, method, log, b) == scanlines_after(
            s,
            base,
            cs,
            window,
            method,
            log,
            a,
        ),
    decreases b - a,
{
    if a < b {
        lemma_scanlines_stop(s, base, cs, window, method, log, a, b - 1);
    }
}

/// The samples of an image that is stored line by line, with its offset table
/// at `base`.
pub open spec fn scanlines_of(
    s: Seq<u8>,
    base: int,
    cs: Seq<ChannelView>,
    window: Box2i,
    method: Compression,
    log: Seq<u16>,
) -> Result<Seq<Seq<u32>>, Fault> {
    let n = steps(window.rows() as int, method.block_rows() as int);
    if base + 8 * n > s.len() || !is_holdable(
        cs,
        window.columns() as int,
        window.rows() as int,
    ) {
        Err(Fault::Invalid)
    } else {
        scanlines_after(s, base, cs, window, method, log, n)
    }
}

/// Blank planes have the samples of their image.
pub proof fn lemma_blank_sized(cs: Seq<ChannelView>, width: int, height: int)
    requires
        0 <= width,
        0 <= height,
    ensures
        planes_sized(blank_planes(cs, width, height), cs, width, height),
{
    assert forall|c: int| 0 <= c < cs.len() implies (#[trigger] blank_planes(cs, width, height)[c]).len()
        == plane_len(cs[c], width, height) by {
        crate::flat_image::lemma_plane_len(cs[c], width, height);
    }
}

/// Read the samples of an image that is stored line by line.
fn read_scanlines(
    bytes: &[u8],
    base: usize,
    channels: &[Channel],
    window: Box2i,
    method: Compression,
    log: &LogTable,
) -> (r: Result<Vec<Vec<u32>>, ExrError>)
    requires
        base <= bytes@.len(),
        log.inv(),
        window.rows() > 0,
    ensures
        r matches Ok(v) ==> scanlines_of(
            bytes@,
            base as int,
            channel_views(channels@),
            window,
            method,
            log@,
        ) == Ok::<Seq<Seq<u32>>, Fault>(plane_views(v@)) && v@.len() == channels@.len(),
        r matches Err(e) ==> scanlines_of(
            bytes@,
            base as int,
            channel_views(channels@),
            window,
            method,
            log@,
        ) == Err::<Seq<Seq<u32>>, Fault>(e.fault()),
{
    let ghost cs = channel_views(channels@);
    let width: u32 = window.width();
    let height: u32 = window.height();
    let rows: u32 = method.scanlines_per_block();
    let n: u64 = (height as u64 + rows as u64 - 1) / rows as u64;
    assert(n == steps(height as int, rows as int));
    assert(bytes.len() == bytes@.len());
    if 8 * (n as u128) > (bytes.len() - base) as u128 {
        return Err(ExrError::invalid("line offset table runs past EOF"));
    }
    let mut planes: Vec<Vec<u32>> = match alloc_planes(channels, width, height) {
        Some(v) => v,
        None => {
            return Err(ExrError::invalid("image too large"));
        },
    };
    proof {
        lemma_blank_sized(cs, width as int, height as int);
    }
    let n: usize = n as usize;
    let mut k: usize = 0;
    while k < n
        invariant
            k <= n,
            base + 8 * n <= bytes@.len(),
            bytes@.len() <= usize::MAX,
            log.inv(),
            cs == channel_views(channels@),
            width == window.columns(),
            height == window.rows(),
            scanlines_of(bytes@, base as int, cs, window, method, log@) == scanlines_after(
                bytes@,
                base as int,
                cs,
                window,
                method,
                log@,
                n as int,
            ),
            planes_sized(plane_views(planes@), cs, width as int, height as int),
            scanlines_after(bytes@, base as int, cs, window, method, log@, k as int) == Ok::<
                Seq<Seq<u32>>,
                Fault,
            >(plane_views(planes@)),
        decreases n - k,
    {
        let off: u64 = read_u64(bytes, base + 8 * k);
        let (y, a, b): (i32, usize, usize) = match read_line_head(bytes, off) {
            Some(h) => h,
            None => {
                proof {
                    lemma_scanlines_stop(
                        bytes@,
                        base as int,
                        cs,
                        window,
                        method,
                        log@,
                        k + 1,
                        n as int,
                    );
                }
                return Err(ExrError::invalid("block runs past EOF"));
            },
        };
        match apply_lines(&mut planes, channels, window, y, slice_range(bytes, a, b), method, log) {
            Ok(_) => {},
            Err(e) => {
                proof {
                    lemma_scanlines_stop(
                        bytes@,
                        base as int,
                        cs,
                        window,
                        method,
                        log@,
                        k + 1,
                        n as int,
                    );
                }
                return Err(e);
            },
        }
        k = k + 1;
    }
    assert(plane_views(planes@).len() == planes@.len());
    Ok(planes)
}

// ----------------------------------------------------------------------
// Tiles
// ----------------------------------------------------------------------
/// The samples of the full level after the first `k` tiles of the offset table
/// at `base`. The tiles of other levels are passed over.
pub open spec fn full_tiles_after(
    s: Seq<u8>,
    base: int,
    cs: Seq<ChannelView>,
    g: Grid,
    method: Compression,
    log: Seq<u16>,
    k: int,
) -> Result<Seq<Seq<u32>>, Fault>
    decreases k,
{
    if k <= 0 {
        Ok(blank_planes(cs, g.width as int, g.height as int))
    } else {
        match full_tiles_after(s, base, cs, g, method, log, k - 1) {
            Err(e) => Err(e),
            Ok(planes) => match tile_head_at(s, u64_at(s, base + 8 * (k - 1)) as int) {
                None => Err(Fault::Invalid),
                Some((tx, ty, lx, ly, a, b)) => if lx != 0 || ly != 0 {
                    Ok(planes)
                } else {
                    tile_applied(planes, cs, g, tx as int, ty as int, s.subrange(a, b), method, log)
                },
            },
        }
    }
}

proof fn lemma_tiles_stop(
    s: Seq<u8>,
    base: int,
    cs: Seq<ChannelView>,
    g: Grid,
    method: Compression,
    log: Seq<u16>,
    a: int,
    b: int,
)
    requires
        a <= b,
        full_tiles_after(s, base, cs, g, method, log, a) is Err,
    ensures
        full_tiles_after(s, base, cs, g, method, log, b) == full_tiles_after(
            s,
            base,
            cs,
            g,
            method,
            log,
            a,
        ),
    decreases b - a,
{
    if a < b {
        lemma_tiles_stop(s, base, cs, g, method, log, a, b - 1);
    }
}

/// The tile description of a header: a known level mode, and tiles that are
/// not empty.
pub open spec fn tile_desc_in(es: Seq<EntryView>) -> Option<TileDesc> {
    match find_named(es, "tiles"@) {
        Some(AttributeView::TileDesc(t)) => if t.level_mode > 2 || t.x_size == 0 || t.y_size == 0 {
            None
        } else {
            Some(t)
        },
        _ => None,
    }
}

/// Read the tile description of a header.
pub fn read_tile_desc(attrs: &[Attribute]) -> (r: Result<TileDesc, ExrError>)
    ensures
        r matches Ok(t) ==> tile_desc_in(entry_views(attrs@)) == Some(t) && t.x_size > 0 && t.y_size
            > 0 && t.level_mode <= 2,
        r matches Err(e) ==> e.fault() == Fault::Invalid && tile_desc_in(entry_views(attrs@)) is None,
{
    match find_attribute(attrs, "tiles") {
        Some(AttributeValue::TileDesc(t)) => {
            if t.level_mode > 2 {
                return Err(ExrError::invalid("tiledesc level_mode unknown"));
            }
            if t.x_size == 0 || t.y_size == 0 {
                return Err(ExrError::invalid("tiledesc x_size and y_size must both be > 0"));
            }
            Ok(*t)
        },
        _ => Err(ExrError::invalid("tiled file missing required `tiles` attribute")),
    }
}

/// The samples of the full level of an image that is stored in tiles, with its
/// offset table at `base`.
pub open spec fn full_tiles_of(
    s: Seq<u8>,
    base: int,
    es: Seq<EntryView>,
    cs: Seq<ChannelView>,
    window: Box2i,
    method: Compression,
    log: Seq<u16>,
) -> Result<Seq<Seq<u32>>, Fault> {
    match tile_desc_in(es) {
        None => Err(Fault::Invalid),
        Some(t) => {
            let (w, h) = (window.columns(), window.rows());
            let levels = levels_of(t.level_mode, w as int, h as int, t.round_mode != 0);
            let n = level_tiles(levels, t.x_size, t.y_size, levels.len() as int);
            if base + 8 * n > s.len() || !is_holdable(cs, w as int, h as int) {
                Err(Fault::Invalid)
            } else {
                full_tiles_after(
                    s,
                    base,
                    cs,
                    Grid { width: w, height: h, tile_x: t.x_size, tile_y: t.y_size },
                    method,
                    log,
                    n,
                )
            }
        },
    }
}

/// Read the full level of an image that is stored in tiles.
fn parse_tiled(
    bytes: &[u8],
    header: &ParsedHeader,
    channels: &[Channel],
    window: Box2i,
    method: Compression,
    log: &LogTable,
) -> (r: Result<Vec<Vec<u32>>, ExrError>)
    requires
        header.end_offset <= bytes@.len(),
        log.inv(),
        window.columns() > 0,
        window.rows() > 0,
        is_full(channel_views(channels@)),
    ensures
        r matches Ok(v) ==> full_tiles_of(
            bytes@,
            header.end_offset as int,
            entry_views(header.attributes@),
            channel_views(channels@),
            window,
            method,
            log@,
        ) == Ok::<Seq<Seq<u32>>, Fault>(plane_views(v@)) && v@.len() == channels@.len(),
        r matches Err(e) ==> full_tiles_of(
            bytes@,
            header.end_offset as int,
            entry_views(header.attributes@),
            channel_views(channels@),
            window,
            method,
            log@,
        ) == Err::<Seq<Seq<u32>>, Fault>(e.fault()),
{
    let ghost cs = channel_views(channels@);
    let base: usize = header.end_offset;
    let t: TileDesc = match read_tile_desc(header.attributes.as_slice()) {
        Ok(t) => t,
        Err(e) => {
            return Err(e);
        },
    };
    let width: u32 = window.width();
    let height: u32 = window.height();
    let levels: Vec<LevelShape> = list_levels(t.level_mode, width, height, t.round_mode != 0);
    let total: u128 = compute_total_tiles(levels.as_slice(), t.x_size, t.y_size);
    assert(bytes.len() == bytes@.len());
    if 8 * total > (bytes.len() - base) as u128 {
        return Err(ExrError::invalid("tile offset table runs past EOF"));
    }
    let mut planes: Vec<Vec<u32>> = match alloc_planes(channels, width, height) {
        Some(v) => v,
        None => {
            return Err(ExrError::invalid("image too large"));
        },
    };
    proof {
        lemma_blank_sized(cs, width as int, height as int);
    }
    let g: Grid = Grid { width, height, tile_x: t.x_size, tile_y: t.y_size };
    let n: usize = total as usize;
    let mut k: usize = 0;
    while k < n
        invariant
            k <= n,
            base + 8 * n <= bytes@.len(),
            bytes@.len() <= usize::MAX,
            log.inv(),
            cs == channel_views(channels@),
            is_full(cs),
            g.is_valid(),
            base == header.end_offset,
            full_tiles_of(
                bytes@,
                base as int,
                entry_views(header.attributes@),
                cs,
                window,
                method,
                log@,
            ) == full_tiles_after(bytes@, base as int, cs, g, method, log@, n as int),
            planes_sized(plane_views(planes@), cs, g.width as int, g.height as int),
            full_tiles_after(bytes@, base as int, cs, g, method, log@, k as int) == Ok::<
                Seq<Seq<u32>>,
                Fault,
            >(plane_views(planes@)),
        decreases n - k,
    {
        let off: u64 = read_u64(bytes, base + 8 * k);
        let head = match read_tile_head(bytes, off) {
            Some(h) => h,
            None => {
                proof {
                    lemma_tiles_stop(bytes@, base as int, cs, g, method, log@, k + 1, n as int);
                }
                return Err(ExrError::invalid("tile runs past EOF"));
            },
        };
        if head.level_x == 0 && head.level_y == 0 {
            let payload: &[u8] = slice_range(bytes, head.start, head.end);
            match apply_tile(&mut planes, channels, g, head.tx, head.ty, payload, method, log) {
                Ok(_) => {},
                Err(e) => {
                    proof {
                        lemma_tiles_stop(bytes@, base as int, cs, g, method, log@, k + 1, n as int);
                    }
                    return Err(e);
                },
            }
        }
        k = k + 1;
    }
    assert(plane_views(planes@).len() == planes@.len());
    Ok(planes)
}

// ----------------------------------------------------------------------
// Files
// ----------------------------------------------------------------------
/// The samples of the image in a file with one part.
pub open spec fn exr_planes_of(s: Seq<u8>, h: HeaderView, m: RequiredView, log: Seq<u16>) -> Result<
    Seq<Seq<u32>>,
    Fault,
> {
    let cs = sort_by_name(m.channels);
    if m.data_window.columns() == 0 || m.data_window.rows() == 0 || !is_spaced(cs) {
        Err(Fault::Invalid)
    } else if !h.version.single_tile {
        scanlines_of(s, h.end, cs, m.data_window, m.compression, log)
    } else if !is_full(cs) {
        Err(Fault::Unsupported)
    } else {
        full_tiles_of(s, h.end, h.entries, cs, m.data_window, m.compression, log)
    }
}

/// The image in a file with one part.
pub open spec fn exr_of(s: Seq<u8>, log: Seq<u16>) -> Result<ImageView, Fault> {
    match header_of(s) {
        Err(e) => Err(e),
        Ok(h) => match required_of(h.entries) {
            None => Err(Fault::Invalid),
            Some(m) => match exr_planes_of(s, h, m, log) {
                Err(e) => Err(e),
                Ok(planes) => Ok(image_with(m, planes, h.entries)),
            },
        },
    }
}

/// Read a file with one part, stored in lines or in tiles. Of several levels,
/// the full one is read.
pub fn parse_exr(bytes: &[u8], log: &LogTable) -> (r: Result<ExrImage, ExrError>)
    requires
        log.inv(),
    ensures
        r matches Ok(v) ==> exr_of(bytes@, log@) == Ok::<ImageView, Fault>(v@),
        r matches Err(e) ==> exr_of(bytes@, log@) == Err::<ImageView, Fault>(e.fault()),
{
    let header: ParsedHeader = match parse_header(bytes) {
        Ok(h) => h,
        Err(e) => {
            return Err(e);
        },
    };
    let m: RequiredAttrs = match extract_required(header.attributes.as_slice()) {
        Ok(m) => m,
        Err(e) => {
            return Err(e);
        },
    };
    if m.data_window.width() == 0 || m.data_window.height() == 0 {
        return Err(ExrError::invalid("dataWindow width and height must both be > 0"));
    }
    let channels: Vec<Channel> = sorted_by_name(m.channels.as_slice());
    if !all_spaced(channels.as_slice()) {
        return Err(ExrError::invalid("channel has non-positive sampling factor"));
    }
    let window: Box2i = m.data_window;
    let method: Compression = m.compression;
    let planes: Vec<Vec<u32>> = if header.version.single_tile {
        if !all_full(channels.as_slice()) {
            return Err(ExrError::unsupported("tiled and sub-sampled channels"));
        }
        match parse_tiled(bytes, &header, channels.as_slice(), window, method, log) {
            Ok(v) => v,
            Err(e) => {
                return Err(e);
            },
        }
    } else {
        match read_scanlines(
            bytes,
            header.end_offset,
            channels.as_slice(),
            window,
            method,
            log,
        ) {
            Ok(v) => v,
            Err(e) => {
                return Err(e);
            },
        }
    };
    Ok(make_image(m, channels, planes, header.attributes))
}

/// Read the samples of a chunk, as many for each channel as its lines hold.
fn read_sized(
    payload: &[u8],
    method: Compression,
    channels: &[Channel],
    width: u32,
    y0: u32,
    n: u32,
    log: &LogTable,
) -> (r: Result<Vec<Vec<u32>>, ExrError>)
    requires
        y0 + n <= u32::MAX,
        log.inv(),
    ensures
        r matches Ok(v) ==> {
            &&& chunk_planes(
                payload@,
                method,
                channel_views(channels@),
                width as int,
                y0 as int,
                n as int,
                log@,
            ) == Ok::<Seq<Seq<u32>>, Fault>(plane_views(v@))
            &&& v@.len() == channels@.len()
            &&& forall|c: int|
                0 <= c < channels@.len() ==> (#[trigger] v@[c])@.len() == (crate::flat_block::tall(
                    channels@[c]@,
                    y0 + n,
                ) - crate::flat_block::tall(channels@[c]@, y0 as int)) * crate::flat_block::wide(
                    channels@[c]@,
                    width as int,
                )
        },
        r matches Err(e) ==> chunk_planes(
            payload@,
            method,
            channel_views(channels@),
            width as int,
            y0 as int,
            n as int,
            log@,
        ) == Err::<Seq<Seq<u32>>, Fault>(e.fault()),
{
    let ghost cs = channel_views(channels@);
    match read_chunk(payload, method, channels, width, y0, n, log) {
        Ok(chunk) => {
            proof {
                let part = plane_views(chunk@);
                let w = width as int;
                assert(part.len() == chunk@.len());
                if cs.len() == 0 {
                    lemma_no_channels(payload@, method, cs, w, y0 as int, n as int, log@);
                } else {
                    lemma_chunk_planes(payload@, method, cs, w, y0 as int, n as int, log@, 0);
                }
                assert forall|c: int| 0 <= c < channels@.len() implies (#[trigger] chunk@[c])@.len()
                    == (crate::flat_block::tall(channels@[c]@, y0 + n) - crate::flat_block::tall(
                    channels@[c]@,
                    y0 as int,
                )) * crate::flat_block::wide(channels@[c]@, w) by {
                    lemma_chunk_planes(payload@, method, cs, w, y0 as int, n as int, log@, c);
                    assert(part[c] == chunk@[c]@);
                    assert(cs[c] == channels@[c]@);
                }
            }
            Ok(chunk)
        },
        Err(e) => Err(e),
    }
}

/// What reading a chunk of lines gives.
#[verifier::ext_equal]
pub enum ReadView {
    Planes(Seq<PlaneView>),
    Lossy(PiecesView),
    Piz,
}

/// What reading a chunk of lines gives.
pub enum ChunkRead {
    /// The planes of an image that ends with the chunk, and is blank above it.
    Planes(Vec<ExrPlane>),
    /// A DWA chunk with lossy channels. Its squares hold coefficients, which the
    /// caller turns into samples: `finish_lossy_chunk` then gives the planes.
    Lossy(DwaPieces),
    /// A PIZ chunk, whose lines the caller unpacks: they are then read as those
    /// of an uncompressed chunk.
    Piz,
}

impl View for ChunkRead {
    type V = ReadView;

    open spec fn view(&self) -> ReadView {
        match self {
            ChunkRead::Planes(v) => ReadView::Planes(named_views(v@)),
            ChunkRead::Lossy(p) => ReadView::Lossy(p@),
            ChunkRead::Piz => ReadView::Piz,
        }
    }
}

/// The planes that a chunk of lines gives: those of an image that ends with
/// the chunk, and is blank above it.
pub open spec fn chunk_image(
    method: Compression,
    payload: Seq<u8>,
    cs: Seq<ChannelView>,
    width: int,
    y0: int,
    n: int,
    log: Seq<u16>,
) -> Result<Seq<PlaneView>, Fault> {
    if !is_spaced(cs) || !is_holdable(cs, width, y0 + n) {
        Err(Fault::Invalid)
    } else {
        match chunk_planes(payload, method, cs, width, y0, n, log) {
            Err(e) => Err(e),
            Ok(chunk) => Ok(
                named_planes(
                    cs,
                    with_chunk(blank_planes(cs, width, y0 + n), cs, width, y0, chunk),
                ),
            ),
        }
    }
}

/// The planes of a DWA chunk whose squares hold samples.
pub open spec fn pieces_image(
    p: PiecesView,
    cs: Seq<ChannelView>,
    width: int,
    y0: int,
    n: int,
    log: Seq<u16>,
    table: Seq<u16>,
) -> Result<Seq<PlaneView>, Fault> {
    chunk_image(
        Compression::Uncompressed,
        lines_of(p, cs, width, y0, n, table),
        cs,
        width,
        y0,
        n,
        log,
    )
}

/// What reading a chunk of lines gives. A DWA chunk is stored as it is, or
/// coded: without lossy channels it gives its planes too.
pub open spec fn chunk_read(
    method: Compression,
    payload: Seq<u8>,
    cs: Seq<ChannelView>,
    width: int,
    y0: int,
    n: int,
    log: Seq<u16>,
    table: Seq<u16>,
) -> Result<ReadView, Fault> {
    if !is_spaced(cs) || !is_holdable(cs, width, y0 + n) {
        Err(Fault::Invalid)
    } else {
        match method {
            Compression::Piz => Ok(ReadView::Piz),
            Compression::Dwaa | Compression::Dwab => match chunk_of(payload, cs, width, y0, n) {
                None => Err(Fault::Invalid),
                Some(ChunkView::Raw(data)) => as_read(
                    chunk_image(Compression::Uncompressed, data, cs, width, y0, n, log),
                ),
                Some(ChunkView::Coded(p)) => if sets_of(cs, p.classes).len() == 0 {
                    as_read(pieces_image(p, cs, width, y0, n, log, table))
                } else {
                    Ok(ReadView::Lossy(p))
                },
            },
            _ => as_read(chunk_image(method, payload, cs, width, y0, n, log)),
        }
    }
}

/// Planes, or why there are none.
pub open spec fn as_read(r: Result<Seq<PlaneView>, Fault>) -> Result<ReadView, Fault> {
    match r {
        Ok(v) => Ok(ReadView::Planes(v)),
        Err(e) => Err(e),
    }
}

/// Read the planes of a chunk that needs no work of the caller.
fn read_image(
    compression: Compression,
    payload: &[u8],
    channels: &[Channel],
    width: u32,
    y0: u32,
    n: u32,
    log: &LogTable,
) -> (r: Result<Vec<ExrPlane>, ExrError>)
    requires
        log.inv(),
        y0 + n <= u32::MAX,
    ensures
        r matches Ok(v) ==> chunk_image(
            compression,
            payload@,
            channel_views(channels@),
            width as int,
            y0 as int,
            n as int,
            log@,
        ) == Ok::<Seq<PlaneView>, Fault>(named_views(v@)),
        r matches Err(e) ==> chunk_image(
            compression,
            payload@,
            channel_views(channels@),
            width as int,
            y0 as int,
            n as int,
            log@,
        ) == Err::<Seq<PlaneView>, Fault>(e.fault()),
{
    let ghost cs = channel_views(channels@);
    if !all_spaced(channels) {
        return Err(ExrError::invalid("channel has non-positive sampling"));
    }
    let height: u32 = y0 + n;
    let mut planes: Vec<Vec<u32>> = match alloc_planes(channels, width, height) {
        Some(v) => v,
        None => {
            return Err(ExrError::invalid("chunk too large"));
        },
    };
    proof {
        lemma_blank_sized(cs, width as int, height as int);
    }
    let chunk: Vec<Vec<u32>> = match read_sized(payload, compression, channels, width, y0, n, log) {
        Ok(v) => v,
        Err(e) => {
            return Err(e);
        },
    };
    place_chunk(&mut planes, channels, width, height, y0, n, &chunk);
    assert(plane_views(planes@).len() == planes@.len());
    Ok(name_planes(channels, planes))
}

/// The planes of a DWA chunk whose squares hold samples: those of an image that
/// ends with the chunk, and is blank above it.
pub fn finish_lossy_chunk(
    p: &DwaPieces,
    sorted_channels: &[Channel],
    width: u32,
    block_y0: u32,
    lines_in_block: usize,
    log: &LogTable,
    tables: &PerceptualTables,
) -> (r: Result<Vec<ExrPlane>, ExrError>)
    requires
        log.inv(),
        tables.inv(),
        block_y0 + lines_in_block <= u32::MAX,
        p.fits(
            channel_views(sorted_channels@),
            width as int,
            block_y0 as int,
            lines_in_block as int,
        ),
    ensures
        r matches Ok(v) ==> pieces_image(
            p@,
            channel_views(sorted_channels@),
            width as int,
            block_y0 as int,
            lines_in_block as int,
            log@,
            tables.linear_codes(),
        ) == Ok::<Seq<PlaneView>, Fault>(named_views(v@)),
        r matches Err(e) ==> pieces_image(
            p@,
            channel_views(sorted_channels@),
            width as int,
            block_y0 as int,
            lines_in_block as int,
            log@,
            tables.linear_codes(),
        ) == Err::<Seq<PlaneView>, Fault>(e.fault()),
{
    let n: u32 = lines_in_block as u32;
    let lines: Vec<u8> = join_pieces(p, sorted_channels, width, block_y0, n, tables);
    read_image(
        Compression::Uncompressed,
        lines.as_slice(),
        sorted_channels,
        width,
        block_y0,
        n,
        log,
    )
}

/// What the caller has to go on with, where the image can be held.
fn handed_back(found: ChunkRead, channels: &[Channel], width: u32, height: u32) -> (r: Result<
    ChunkRead,
    ExrError,
>)
    ensures
        ({
            let cs = channel_views(channels@);
            match r {
                Ok(v) => v == found && is_spaced(cs) && is_holdable(
                    cs,
                    width as int,
                    height as int,
                ),
                Err(e) => e.fault() == Fault::Invalid && (!is_spaced(cs) || !is_holdable(
                    cs,
                    width as int,
                    height as int,
                )),
            }
        }),
{
    if !all_spaced(channels) {
        return Err(ExrError::invalid("channel has non-positive sampling"));
    }
    match alloc_planes(channels, width, height) {
        Some(_) => Ok(found),
        None => Err(ExrError::invalid("chunk too large")),
    }
}

/// Read one chunk of lines. The planes are those of an image that ends with
/// the chunk, and is blank above it. What takes floating-point arithmetic, or
/// the unpacking of PIZ, is left to the caller.
pub fn decode_scanline_chunk(
    compression: Compression,
    payload: &[u8],
    sorted_channels: &[Channel],
    width: u32,
    block_y0: u32,
    lines_in_block: usize,
    log: &LogTable,
    tables: &PerceptualTables,
) -> (r: Result<ChunkRead, ExrError>)
    requires
        log.inv(),
        tables.inv(),
        block_y0 + lines_in_block <= u32::MAX,
    ensures
        r matches Ok(v) ==> chunk_read(
            compression,
            payload@,
            channel_views(sorted_channels@),
            width as int,
            block_y0 as int,
            lines_in_block as int,
            log@,
            tables.linear_codes(),
        ) == Ok::<ReadView, Fault>(v@),
        r matches Ok(ChunkRead::Lossy(p)) ==> p.fits(
            channel_views(sorted_channels@),
            width as int,
            block_y0 as int,
            lines_in_block as int,
        ),
        r matches Err(e) ==> chunk_read(
            compression,
            payload@,
            channel_views(sorted_channels@),
            width as int,
            block_y0 as int,
            lines_in_block as int,
            log@,
            tables.linear_codes(),
        ) == Err::<ReadView, Fault>(e.fault()),
{
    let n: u32 = lines_in_block as u32;
    let planes: Result<Vec<ExrPlane>, ExrError> = match compression {
        Compression::Piz => {
            return handed_back(ChunkRead::Piz, sorted_channels, width, block_y0 + n);
        },
        Compression::Dwaa | Compression::Dwab => match read_dwa_chunk(
            payload,
            sorted_channels,
            width,
            block_y0,
            n,
        ) {
            Ok(DwaChunk::Raw(data)) => read_image(
                Compression::Uncompressed,
                data.as_slice(),
                sorted_channels,
                width,
                block_y0,
                n,
                log,
            ),
            Ok(DwaChunk::Coded(p)) => {
                if p.sets.len() > 0 {
                    return handed_back(
                        ChunkRead::Lossy(p),
                        sorted_channels,
                        width,
                        block_y0 + n,
                    );
                }
                finish_lossy_chunk(
                    &p,
                    sorted_channels,
                    width,
                    block_y0,
                    lines_in_block,
                    log,
                    tables,
                )
            },
            Err(e) => Err(e),
        },
        _ => read_image(compression, payload, sorted_channels, width, block_y0, n, log),
    };
    match planes {
        Ok(v) => Ok(ChunkRead::Planes(v)),
        Err(e) => Err(e),
    }
}

} // verus!
