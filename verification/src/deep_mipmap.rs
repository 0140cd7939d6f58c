//! Deep images that are stored in tiles at several resolutions.

use crate::attrs::{find_string_attr, find_text};
use crate::bytes::{i32_at, read_i32, stands_at};
use crate::deep::{lemma_area, size_agrees, InputView, LineSource, DEEP_VERSION};
use crate::deep_block::{deep_method, is_deep_method, plane_views, BlockView, DeepBlock};
use crate::deep_input::{ascending, slice_views, stored_pixels, sum_counts};
use crate::deep_meta::{
    all_full, deep_attributes, deep_entries, greatest, greatest_count, is_full, labels_readable,
    law_deep_entries, lemma_deep_entries_storable, meta_of, read_meta, read_tile_size, tile_size_of,
    window_of, DeepLabels, DeepMeta, MetaView,
};
use crate::deep_tiled_multi::{all_complete, board_views};
use crate::deep_tiles::{
    assemble, assembled, blank_tiles, block_fits, counts_small, cuts, first_tiles, is_complete,
    law_tiles_assemble, lemma_first_tiles, lemma_with_tile_fits, make_tile_chunks, no_tiles,
    stored_tiles, take_tile, tile_chunk, tile_chunks, tile_views, tiles_fit, tiles_pack,
    tiles_read_back, with_tile,
};
use crate::deep_lines::DeepPixels;
use crate::error::{ExrError, Fault};
use crate::grid::{lemma_tile_count, Grid};
use crate::header::{
    encode_header, header_bytes, lemma_ascii_storable, lemma_header_reads_back, parse_single_header,
    single_header_of, version_of, HeaderView, ParsedHeader, VersionField,
};
use crate::layout::{
    byte_views, chunk_start, chunks_follow, file_bytes, law_chunks_follow, lay_out, lemma_file_parts,
};
use crate::mipmap::{
    law_level_count, law_level_size, level_count, level_size, mipmap_level_count, mipmap_level_dim,
};
use crate::ragged::sum;
use crate::text::str_eq;
use crate::types::{
    channel_views, entry_views, names_ascend, Attribute, Box2i, Channel, ChannelView, Compression,
    EntryView, LineOrder, TileDesc,
};
use vstd::prelude::*;
use vstd::string::*;
use vstd::utf8::*;

verus! {

broadcast use crate::bytes::group_le_len;

/// One resolution of a deep image.
#[derive(Debug, Clone, PartialEq, Eq)]
pub struct DeepTiledMipmapLevel {
    pub width: u32,
    pub height: u32,
    pub samples_per_pixel: Vec<u32>,
    /// Binary32 bit patterns.
    pub channel_samples: Vec<Vec<u32>>,
}

/// What a level stands for.
#[verifier::ext_equal]
pub struct LevelView {
    pub width: u32,
    pub height: u32,
    pub pixels: BlockView,
}

impl View for DeepTiledMipmapLevel {
    type V = LevelView;

    open spec fn view(&self) -> LevelView {
        LevelView {
            width: self.width,
            height: self.height,
            pixels: BlockView {
                counts: self.samples_per_pixel@,
                planes: plane_views(self.channel_samples@),
            },
        }
    }
}

/// The levels that a list of levels stands for.
pub open spec fn level_views(v: Seq<DeepTiledMipmapLevel>) -> Seq<LevelView> {
    Seq::new(v.len(), |i: int| v[i]@)
}

/// A deep image at several resolutions, the full one first.
#[derive(Debug, Clone, PartialEq, Eq)]
pub struct DeepMipmapTiledImage {
    pub data_window: Box2i,
    pub display_window: Box2i,
    pub line_order: LineOrder,
    pub compression: Compression,
    pub tile_x: u32,
    pub tile_y: u32,
    pub channels: Vec<Channel>,
    pub levels: Vec<DeepTiledMipmapLevel>,
    pub attributes: Vec<Attribute>,
}

/// What such an image stands for.
#[verifier::ext_equal]
pub struct MipView {
    pub meta: MetaView,
    pub tile_x: u32,
    pub tile_y: u32,
    pub levels: Seq<LevelView>,
    pub entries: Seq<EntryView>,
}

impl View for DeepMipmapTiledImage {
    type V = MipView;

    open spec fn view(&self) -> MipView {
        MipView {
            meta: MetaView {
                data_window: self.data_window,
                display_window: self.display_window,
                line_order: self.line_order,
                compression: self.compression,
                channels: channel_views(self.channels@),
            },
            tile_x: self.tile_x,
            tile_y: self.tile_y,
            levels: level_views(self.levels@),
            entries: entry_views(self.attributes@),
        }
    }
}

impl DeepMipmapTiledImage {
    pub fn width(&self) -> (r: u32)
        ensures
            r == self.data_window.columns(),
    {
        self.data_window.width()
    }

    pub fn height(&self) -> (r: u32)
        ensures
            r == self.data_window.rows(),
    {
        self.data_window.height()
    }

    pub fn level_count(&self) -> (r: usize)
        ensures
            r == self.levels@.len(),
    {
        self.levels.len()
    }
}

// ----------------------------------------------------------------------
// The levels
// ----------------------------------------------------------------------
/// The larger of two sizes.
pub open spec fn larger(a: u32, b: u32) -> u32 {
    if a < b {
        b
    } else {
        a
    }
}

/// The number of levels of an image.
pub open spec fn levels_of(width: u32, height: u32) -> int {
    level_count(larger(width, height) as int, false)
}

/// The grid of a level.
pub open spec fn level_grid(width: u32, height: u32, size: (u32, u32), level: int) -> Grid {
    Grid {
        width: level_size(width as int, level, false) as u32,
        height: level_size(height as int, level, false) as u32,
        tile_x: size.0,
        tile_y: size.1,
    }
}

/// The grids of all levels.
pub open spec fn level_grids(width: u32, height: u32, size: (u32, u32)) -> Seq<Grid> {
    Seq::new(
        levels_of(width, height) as nat,
        |l: int| level_grid(width, height, size, l),
    )
}

/// The tiles of the first `k` grids.
pub open spec fn grid_tiles(gs: Seq<Grid>, k: int) -> int
    decreases k,
{
    if k <= 0 {
        0
    } else {
        grid_tiles(gs, k - 1) + gs[k - 1].tiles()
    }
}

/// Grids that an image can be read by.
pub open spec fn grids_held(gs: Seq<Grid>) -> bool {
    forall|l: int| 0 <= l < gs.len() ==> (#[trigger] gs[l]).is_valid() && gs[l].area() <= usize::MAX
}

/// Every level has the size that its grid says, and none is larger than the
/// full one.
proof fn lemma_level_grid(width: u32, height: u32, size: (u32, u32), level: int)
    requires
        width > 0,
        height > 0,
        size.0 > 0,
        size.1 > 0,
        level >= 0,
    ensures
        ({
            let g = level_grid(width, height, size, level);
            &&& g.is_valid()
            &&& g.width == level_size(width as int, level, false)
            &&& g.height == level_size(height as int, level, false)
            &&& g.area() <= height * width
        }),
{
    law_level_size(width as int, level, false);
    law_level_size(height as int, level, false);
    let g = level_grid(width, height, size, level);
    assert(g.height * g.width <= height * width) by (nonlinear_arith)
        requires
            0 <= g.width <= width,
            0 <= g.height <= height,
    ;
}

proof fn lemma_grid_tiles(gs: Seq<Grid>, k: int)
    requires
        0 <= k <= gs.len(),
        forall|l: int| 0 <= l < gs.len() ==> (#[trigger] gs[l]).is_valid(),
    ensures
        0 <= grid_tiles(gs, k),
        k > 0 ==> grid_tiles(gs, k) > grid_tiles(gs, k - 1) >= 0,
    decreases k,
{
    if k > 0 {
        lemma_grid_tiles(gs, k - 1);
        lemma_tile_count(gs[k - 1]);
    }
}

/// The tiles of a grid among the tiles of all grids.
proof fn lemma_grid_tiles_order(gs: Seq<Grid>, a: int, b: int)
    requires
        0 <= a <= b <= gs.len(),
        forall|l: int| 0 <= l < gs.len() ==> (#[trigger] gs[l]).is_valid(),
    ensures
        0 <= grid_tiles(gs, a) <= grid_tiles(gs, b),
        a < b ==> grid_tiles(gs, a) + gs[a].tiles() <= grid_tiles(gs, b),
    decreases b - a,
{
    if a < b {
        lemma_grid_tiles(gs, b);
        lemma_grid_tiles_order(gs, a, b - 1);
    } else {
        lemma_grid_tiles(gs, a);
    }
}

// ----------------------------------------------------------------------
// Reading
// ----------------------------------------------------------------------
/// What a header says of a deep image at several resolutions, and the grids
/// of its levels.
pub open spec fn mip_meta_of(es: Seq<EntryView>) -> Result<(MetaView, (u32, u32)), Fault> {
    match meta_of(es) {
        Err(e) => Err(e),
        Ok((count, m)) => match tile_size_of(es, 1) {
            Err(e) => Err(e),
            Ok(size) => {
                let gs = level_grids(m.data_window.columns(), m.data_window.rows(), size);
                if size_agrees(m, count, grid_tiles(gs, gs.len() as int)) {
                    Ok((m, size))
                } else {
                    Err(Fault::Invalid)
                }
            },
        },
    }
}

/// The grids of the levels of an image.
pub open spec fn grids_of(m: MetaView, size: (u32, u32)) -> Seq<Grid> {
    level_grids(m.data_window.columns(), m.data_window.rows(), size)
}

/// The tiles of all levels before any chunk.
pub open spec fn blank_levels(gs: Seq<Grid>) -> Seq<Seq<Option<BlockView>>> {
    Seq::new(gs.len(), |i: int| no_tiles(gs[i].tiles()))
}

/// The tiles of all levels with the one whose chunk stands at `b`, and the
/// position behind it.
pub open spec fn with_level_tile(
    s: Seq<u8>,
    b: int,
    gs: Seq<Grid>,
    m: MetaView,
    boards: Seq<Seq<Option<BlockView>>>,
) -> Option<(Seq<Seq<Option<BlockView>>>, int)> {
    let l = i32_at(s, b + 8) as int;
    if b + 40 > s.len() || l != i32_at(s, b + 12) || l < 0 || l >= gs.len() {
        None
    } else {
        match with_tile(s, b, gs[l], m.compression, m.channels, boards[l]) {
            None => None,
            Some((tiles, end)) => Some((boards.update(l, tiles), end)),
        }
    }
}

/// The tiles of all levels after the first `k` chunks from `start` on, and the
/// position behind those chunks.
pub open spec fn levels_after(s: Seq<u8>, start: int, gs: Seq<Grid>, m: MetaView, k: int) -> Option<
    (Seq<Seq<Option<BlockView>>>, int),
>
    decreases k,
{
    if k <= 0 {
        Some((blank_levels(gs), start))
    } else {
        match levels_after(s, start, gs, m, k - 1) {
            None => None,
            Some((boards, pos)) => with_level_tile(s, pos, gs, m, boards),
        }
    }
}

/// The levels of an image, from their tiles.
pub open spec fn finished_levels(
    gs: Seq<Grid>,
    boards: Seq<Seq<Option<BlockView>>>,
    channels: nat,
) -> Seq<LevelView> {
    Seq::new(
        gs.len(),
        |l: int|
            LevelView {
                width: gs[l].width,
                height: gs[l].height,
                pixels: assembled(gs[l], boards[l], channels),
            },
    )
}

/// The deep image in a file with one part that is stored in tiles at several
/// resolutions. Its chunks stand one behind the other; the offset table in
/// front of them is passed over, for it may hold nothing but zeros.
pub open spec fn deep_mipmap_of(s: Seq<u8>) -> Result<MipView, Fault> {
    match single_header_of(s, true) {
        Err(e) => Err(e),
        Ok(h) => if !h.version.non_image {
            Err(Fault::Invalid)
        } else {
            match find_text(h.entries, "type"@) {
                None => Err(Fault::Invalid),
                Some(t) => if t != "deeptile"@ {
                    Err(Fault::Unsupported)
                } else {
                    match mip_meta_of(h.entries) {
                        Err(e) => Err(e),
                        Ok((m, size)) => {
                            let gs = grids_of(m, size);
                            let n = grid_tiles(gs, gs.len() as int);
                            if h.end + 8 * n > s.len() {
                                Err(Fault::Invalid)
                            } else {
                                match levels_after(s, h.end + 8 * n, gs, m, n) {
                                    None => Err(Fault::Invalid),
                                    Some((boards, _)) => if all_complete(boards) {
                                        Ok(
                                            MipView {
                                                meta: m,
                                                tile_x: size.0,
                                                tile_y: size.1,
                                                levels: finished_levels(
                                                    gs,
                                                    boards,
                                                    m.channels.len(),
                                                ),
                                                entries: h.entries,
                                            },
                                        )
                                    } else {
                                        Err(Fault::Invalid)
                                    },
                                }
                            }
                        },
                    }
                },
            }
        },
    }
}

/// The tiles of every level have the sizes that its grid gives them.
pub open spec fn levels_fit(
    gs: Seq<Grid>,
    boards: Seq<Seq<Option<BlockView>>>,
    channels: nat,
) -> bool {
    &&& boards.len() == gs.len()
    &&& forall|i: int| 0 <= i < gs.len() ==> tiles_fit(gs[i], #[trigger] boards[i], channels)
}

/// The grids of the levels of an image, and the number of their tiles.
fn make_grids(width: u32, height: u32, tile_x: u32, tile_y: u32) -> (r: (Vec<Grid>, u128))
    requires
        width > 0,
        height > 0,
        tile_x > 0,
        tile_y > 0,
    ensures
        r.0@ == level_grids(width, height, (tile_x, tile_y)),
        r.1 == grid_tiles(r.0@, r.0@.len() as int),
        forall|l: int|
            0 <= l < r.0@.len() ==> (#[trigger] r.0@[l]).is_valid() && r.0@[l].area() <= height
                * width,
{
    let ghost gs = level_grids(width, height, (tile_x, tile_y));
    let most: u32 = if width < height {
        height
    } else {
        width
    };
    let n: u32 = mipmap_level_count(most, false);
    proof {
        law_level_count(most as int, false);
    }
    let mut out: Vec<Grid> = Vec::new();
    let mut sum: u128 = 0;
    let mut l: u32 = 0;
    while l < n
        invariant
            l <= n <= 33,
            n == gs.len(),
            width > 0,
            height > 0,
            tile_x > 0,
            tile_y > 0,
            gs == level_grids(width, height, (tile_x, tile_y)),
            out@.len() == l,
            out@ == gs.take(l as int),
            sum == grid_tiles(gs, l as int),
            sum <= 0xffff_ffff_ffff_ffff * l,
            forall|i: int|
                0 <= i < l ==> (#[trigger] gs[i]).is_valid() && gs[i].area() <= height * width,
        decreases n - l,
    {
        proof {
            lemma_level_grid(width, height, (tile_x, tile_y), l as int);
        }
        let g: Grid = Grid {
            width: mipmap_level_dim(width, l, false),
            height: mipmap_level_dim(height, l, false),
            tile_x,
            tile_y,
        };
        assert(g == gs[l as int]);
        let across: u32 = g.columns();
        let down: u32 = g.lines();
        proof {
            lemma_area(down, across);
        }
        sum = sum + (down as u64 * across as u64) as u128;
        out.push(g);
        assert(gs.take(l + 1) =~= gs.take(l as int).push(gs[l as int]));
        l = l + 1;
    }
    proof {
        assert(gs.take(n as int) =~= gs);
    }
    (out, sum)
}

/// Read what a header says of a deep image at several resolutions, the grids
/// of its levels, and the number of their tiles.
fn read_mip_meta(attrs: &[Attribute]) -> (r: Result<(DeepMeta, (u32, u32), Vec<Grid>, u32), ExrError>)
    ensures
        r matches Ok((m, size, gs, n)) ==> {
            &&& mip_meta_of(entry_views(attrs@)) == Ok::<(MetaView, (u32, u32)), Fault>((m@, size))
            &&& gs@ == grids_of(m@, size)
            &&& grids_held(gs@)
            &&& n == grid_tiles(gs@, gs@.len() as int)
        },
        r matches Err(e) ==> mip_meta_of(entry_views(attrs@)) == Err::<
            (MetaView, (u32, u32)),
            Fault,
        >(e.fault()),
{
    let (count, m) = read_meta(attrs)?;
    let (tile_x, tile_y) = read_tile_size(
        attrs,
        1,
        "deep mipmap tiled file: only tiledesc mode=0x01 (MIPMAP_LEVELS + ROUND_DOWN) is supported, ONE_LEVEL routes through parse_exr_deep_tiled",
    )?;
    let w: u32 = m.data_window.width();
    let h: u32 = m.data_window.height();
    if w == 0 || h == 0 {
        return Err(ExrError::invalid("deep mipmap tiled dataWindow must not be empty"));
    }
    proof {
        lemma_area(w, h);
        assert(h * w == w * h) by (nonlinear_arith);
    }
    let (gs, n) = make_grids(w, h, tile_x, tile_y);
    if count < 0 || count as u128 != n {
        return Err(ExrError::invalid("deep mipmap tiled chunkCount disagrees with the pyramid"));
    }
    if w as u64 * h as u64 > usize::MAX as u64 {
        return Err(ExrError::invalid("deep mipmap tiled dataWindow too large"));
    }
    assert forall|l: int| 0 <= l < gs@.len() implies (#[trigger] gs@[l]).is_valid() && gs@[l].area()
        <= usize::MAX by {}
    Ok((m, (tile_x, tile_y), gs, n as u32))
}

/// Lists for the tiles of every level.
fn make_level_boards(gs: &[Grid], Ghost(channels): Ghost<nat>) -> (r: Vec<Vec<Option<DeepBlock>>>)
    requires
        grids_held(gs@),
        grid_tiles(gs@, gs@.len() as int) <= u32::MAX,
    ensures
        board_views(r@) == blank_levels(gs@),
        levels_fit(gs@, board_views(r@), channels),
{
    let mut out: Vec<Vec<Option<DeepBlock>>> = Vec::new();
    let mut i: usize = 0;
    while i < gs.len()
        invariant
            i <= gs@.len(),
            grids_held(gs@),
            grid_tiles(gs@, gs@.len() as int) <= u32::MAX,
            out@.len() == i,
            forall|j: int| 0 <= j < i ==> tile_views((#[trigger] out@[j])@) == blank_levels(gs@)[j],
        decreases gs@.len() - i,
    {
        proof {
            lemma_grid_tiles_order(gs@, i as int, gs@.len() as int);
        }
        let count: u32 = crate::deep_tiled::count_tiles(&gs[i]);
        out.push(blank_tiles(count as usize));
        i = i + 1;
    }
    assert(board_views(out@) =~= blank_levels(gs@));
    assert forall|i: int| 0 <= i < gs@.len() implies tiles_fit(
        gs@[i],
        #[trigger] board_views(out@)[i],
        channels,
    ) by {
        assert(gs@[i].is_valid());
        lemma_tile_count(gs@[i]);
        assert(board_views(out@)[i] == no_tiles(gs@[i].tiles()));
    }
    out
}

/// The tiles of the levels keep their sizes while they are read.
proof fn lemma_level_tile_fits(
    s: Seq<u8>,
    b: int,
    gs: Seq<Grid>,
    m: MetaView,
    boards: Seq<Seq<Option<BlockView>>>,
)
    requires
        grids_held(gs),
        levels_fit(gs, boards, m.channels.len()),
    ensures
        with_level_tile(s, b, gs, m, boards) matches Some((t, end)) ==> levels_fit(
            gs,
            t,
            m.channels.len(),
        ),
{
    if let Some((t, end)) = with_level_tile(s, b, gs, m, boards) {
        let l = i32_at(s, b + 8) as int;
        assert(gs[l].is_valid());
        assert(tiles_fit(gs[l], boards[l], m.channels.len()));
        lemma_with_tile_fits(s, b, gs[l], m.compression, m.channels, boards[l]);
        assert forall|i: int| 0 <= i < gs.len() implies tiles_fit(
            gs[i],
            #[trigger] t[i],
            m.channels.len(),
        ) by {
            if i != l {
                assert(t[i] == boards[i]);
            }
        }
    }
}

/// Read the chunk at `b`.
fn take_level_tile(
    s: &[u8],
    b: usize,
    gs: &[Grid],
    m: &DeepMeta,
    boards: &mut Vec<Vec<Option<DeepBlock>>>,
) -> (r: Result<usize, ExrError>)
    requires
        b <= s@.len(),
        grids_held(gs@),
        levels_fit(gs@, board_views(old(boards)@), m@.channels.len()),
    ensures
        r matches Ok(end) ==> end <= s@.len() && with_level_tile(
            s@,
            b as int,
            gs@,
            m@,
            board_views(old(boards)@),
        ) == Some((board_views(final(boards)@), end as int)),
        r matches Err(e) ==> e.fault() == Fault::Invalid && with_level_tile(
            s@,
            b as int,
            gs@,
            m@,
            board_views(old(boards)@),
        ) is None,
{
    let ghost before = board_views(boards@);
    if s.len() - b < 40 {
        return Err(ExrError::invalid("deep mipmap tile chunk header past EOF"));
    }
    let level: i32 = read_i32(s, b + 8);
    if level != read_i32(s, b + 12) {
        return Err(ExrError::invalid("deep mipmap tile chunk of two different levels"));
    }
    if level < 0 || level as u64 >= gs.len() as u64 {
        return Err(ExrError::invalid("deep mipmap tile chunk of a level outside the pyramid"));
    }
    let l: usize = level as usize;
    proof {
        assert(gs@[l as int].is_valid());
        assert(before[l as int] == tile_views(boards@[l as int]@));
        assert(tiles_fit(gs@[l as int], before[l as int], m@.channels.len()));
    }
    let board: &mut Vec<Option<DeepBlock>> = &mut boards[l];
    let end: usize = take_tile(s, b, gs[l], m.compression, m.channels.as_slice(), board)?;
    assert(board_views(boards@) =~= before.update(l as int, tile_views(boards@[l as int]@)));
    Ok(end)
}

proof fn lemma_levels_stop(s: Seq<u8>, start: int, gs: Seq<Grid>, m: MetaView, k: int, n: int)
    requires
        k <= n,
        levels_after(s, start, gs, m, k) is None,
    ensures
        levels_after(s, start, gs, m, n) is None,
    decreases n - k,
{
    if k < n {
        lemma_levels_stop(s, start, gs, m, k, n - 1);
    }
}

/// Read the tiles of all levels, whose chunks stand from `start` on.
fn read_levels(s: &[u8], start: usize, gs: &[Grid], m: &DeepMeta, n: u32) -> (r: Result<
    Vec<Vec<Option<DeepBlock>>>,
    ExrError,
>)
    requires
        grids_held(gs@),
        n == grid_tiles(gs@, gs@.len() as int),
        start <= s@.len(),
    ensures
        r matches Ok(t) ==> (levels_after(s@, start as int, gs@, m@, n as int) matches Some((b, _))
            && b == board_views(t@)) && levels_fit(gs@, board_views(t@), m@.channels.len()),
        r matches Err(e) ==> e.fault() == Fault::Invalid && levels_after(
            s@,
            start as int,
            gs@,
            m@,
            n as int,
        ) is None,
{
    let mut boards: Vec<Vec<Option<DeepBlock>>> = make_level_boards(
        gs,
        Ghost(m@.channels.len()),
    );
    let mut pos: usize = start;
    let mut k: u32 = 0;
    while k < n
        invariant
            k <= n,
            pos <= s@.len(),
            grids_held(gs@),
            levels_fit(gs@, board_views(boards@), m@.channels.len()),
            levels_after(s@, start as int, gs@, m@, k as int) == Some(
                (board_views(boards@), pos as int),
            ),
        decreases n - k,
    {
        proof {
            lemma_level_tile_fits(s@, pos as int, gs@, m@, board_views(boards@));
        }
        match take_level_tile(s, pos, gs, m, &mut boards) {
            Ok(end) => {
                pos = end;
            },
            Err(e) => {
                proof {
                    lemma_levels_stop(s@, start as int, gs@, m@, k + 1, n as int);
                }
                return Err(e);
            },
        }
        k = k + 1;
    }
    Ok(boards)
}

/// A level has a count for every pixel, and in every channel as many samples
/// as the counts say.
pub open spec fn level_counted(v: LevelView, channels: nat) -> bool {
    block_fits(v.pixels, v.height * v.width, channels)
}

/// Put the tiles of every level together.
fn assemble_levels(gs: &[Grid], boards: &[Vec<Option<DeepBlock>>], channels: usize) -> (r: Result<
    Vec<DeepTiledMipmapLevel>,
    ExrError,
>)
    requires
        grids_held(gs@),
        levels_fit(gs@, board_views(boards@), channels as nat),
    ensures
        r matches Ok(v) ==> all_complete(board_views(boards@)) && level_views(v@)
            == finished_levels(gs@, board_views(boards@), channels as nat) && forall|l: int|
            0 <= l < v@.len() ==> level_counted(#[trigger] level_views(v@)[l], channels as nat),
        r matches Err(e) ==> e.fault() == Fault::Invalid && !all_complete(board_views(boards@)),
{
    let ghost bv = board_views(boards@);
    let mut out: Vec<DeepTiledMipmapLevel> = Vec::new();
    let mut i: usize = 0;
    while i < gs.len()
        invariant
            i <= gs@.len(),
            bv == board_views(boards@),
            grids_held(gs@),
            levels_fit(gs@, bv, channels as nat),
            out@.len() == i,
            forall|j: int| 0 <= j < i ==> is_complete(#[trigger] bv[j]),
            forall|j: int|
                0 <= j < i ==> (#[trigger] out@[j])@ == finished_levels(gs@, bv, channels as nat)[j]
                    && level_counted(out@[j]@, channels as nat),
        decreases gs@.len() - i,
    {
        proof {
            assert(gs@[i as int].is_valid());
            assert(bv[i as int] == tile_views(boards@[i as int]@));
            assert(tiles_fit(gs@[i as int], bv[i as int], channels as nat));
        }
        let pixels: DeepPixels = assemble(&gs[i], boards[i].as_slice(), channels)?;
        out.push(
            DeepTiledMipmapLevel {
                width: gs[i].width,
                height: gs[i].height,
                samples_per_pixel: pixels.counts,
                channel_samples: pixels.planes,
            },
        );
        i = i + 1;
    }
    assert(level_views(out@) =~= finished_levels(gs@, bv, channels as nat));
    Ok(out)
}

/// Parse a deep file with one part that is stored in tiles at several
/// resolutions.
pub fn parse_exr_deep_tiled_mipmap(bytes: &[u8]) -> (r: Result<DeepMipmapTiledImage, ExrError>)
    ensures
        r matches Ok(v) ==> deep_mipmap_of(bytes@) == Ok::<MipView, Fault>(v@),
        r matches Ok(v) ==> forall|l: int|
            0 <= l < v@.levels.len() ==> level_counted(
                #[trigger] v@.levels[l],
                v@.meta.channels.len(),
            ),
        r matches Err(e) ==> deep_mipmap_of(bytes@) == Err::<MipView, Fault>(e.fault()),
{
    let header: ParsedHeader = parse_single_header(bytes, true)?;
    if !header.version.non_image {
        return Err(
            ExrError::invalid("parse_exr_deep_tiled_mipmap called on a flat (non-deep) file"),
        );
    }
    let kind: String = match find_string_attr(header.attributes.as_slice(), "type") {
        Some(t) => t,
        None => {
            return Err(ExrError::invalid("deep mipmap tiled file missing required 'type' attribute"));
        },
    };
    if !str_eq(kind.as_str(), "deeptile") {
        return Err(ExrError::unsupported("deep mipmap tiled file of a type other than 'deeptile'"));
    }
    let (m, size, gs, n) = read_mip_meta(header.attributes.as_slice())?;
    let left: usize = bytes.len() - header.end_offset;
    if (left as u64) < 8 * n as u64 {
        return Err(ExrError::invalid("deep mipmap tiled offset table runs past EOF"));
    }
    let boards: Vec<Vec<Option<DeepBlock>>> = read_levels(
        bytes,
        header.end_offset + 8 * n as usize,
        gs.as_slice(),
        &m,
        n,
    )?;
    let levels: Vec<DeepTiledMipmapLevel> = assemble_levels(
        gs.as_slice(),
        boards.as_slice(),
        m.channels.len(),
    )?;
    Ok(
        DeepMipmapTiledImage {
            data_window: m.data_window,
            display_window: m.display_window,
            line_order: m.line_order,
            compression: m.compression,
            tile_x: size.0,
            tile_y: size.1,
            channels: m.channels,
            levels,
            attributes: header.attributes,
        },
    )
}

// ----------------------------------------------------------------------
// Writing
// ----------------------------------------------------------------------
/// One resolution of a deep image to be written.
pub struct DeepMipmapTiledLevelInput<'a> {
    pub width: u32,
    pub height: u32,
    /// How many samples each pixel has.
    pub samples_per_pixel: &'a [u32],
    /// The samples of each channel, as binary32 bit patterns.
    pub channel_samples: Vec<&'a [u32]>,
}

/// What a level to be written stands for.
#[verifier::ext_equal]
pub struct LevelInput {
    pub width: u32,
    pub height: u32,
    pub counts: Seq<u32>,
    pub planes: Seq<Seq<u32>>,
}

impl<'a> View for DeepMipmapTiledLevelInput<'a> {
    type V = LevelInput;

    open spec fn view(&self) -> LevelInput {
        LevelInput {
            width: self.width,
            height: self.height,
            counts: self.samples_per_pixel@,
            planes: slice_views(self.channel_samples@),
        }
    }
}

/// A deep image to be written in tiles at several resolutions.
pub struct DeepMipmapTiledInput<'a> {
    pub tile_x: u32,
    pub tile_y: u32,
    /// Channels in the order of their names.
    pub channels: Vec<Channel>,
    /// The levels, the full resolution first.
    pub pyramid: Vec<DeepMipmapTiledLevelInput<'a>>,
    pub compression: Compression,
}

/// What such an input stands for.
#[verifier::ext_equal]
pub struct MipInput {
    pub tile_x: u32,
    pub tile_y: u32,
    pub channels: Seq<ChannelView>,
    pub levels: Seq<LevelInput>,
    pub compression: Compression,
}

/// The levels that a list of levels to be written stands for.
pub open spec fn level_inputs(v: Seq<DeepMipmapTiledLevelInput>) -> Seq<LevelInput> {
    Seq::new(v.len(), |i: int| v[i]@)
}

impl<'a> View for DeepMipmapTiledInput<'a> {
    type V = MipInput;

    open spec fn view(&self) -> MipInput {
        MipInput {
            tile_x: self.tile_x,
            tile_y: self.tile_y,
            channels: channel_views(self.channels@),
            levels: level_inputs(self.pyramid@),
            compression: self.compression,
        }
    }
}

impl MipInput {
    /// Level `l` as an image of its own.
    pub open spec fn level(self, l: int) -> InputView {
        InputView {
            width: self.levels[l].width,
            height: self.levels[l].height,
            channels: self.channels,
            counts: self.levels[l].counts,
            planes: self.levels[l].planes,
            compression: self.compression,
        }
    }

    /// The grid of level `l`.
    pub open spec fn grid(self, l: int) -> Grid {
        Grid {
            width: self.levels[l].width,
            height: self.levels[l].height,
            tile_x: self.tile_x,
            tile_y: self.tile_y,
        }
    }

    /// The grids of all levels.
    pub open spec fn grids(self) -> Seq<Grid> {
        Seq::new(self.levels.len(), |l: int| self.grid(l))
    }

    /// Level `l` has the size that its number gives it, and its samples.
    pub open spec fn level_sound(self, l: int) -> bool {
        let x = self.levels[l];
        &&& x.width == level_size(self.levels[0].width as int, l, false)
        &&& x.height == level_size(self.levels[0].height as int, l, false)
        &&& x.counts.len() == x.width * x.height
        &&& x.planes.len() == self.channels.len()
        &&& forall|c: int| 0 <= c < x.planes.len() ==> (#[trigger] x.planes[c]).len() == sum(x.counts)
    }
}

/// The first thing that is wrong with an input.
pub open spec fn mip_fault(v: MipInput) -> Option<Fault> {
    if !is_deep_method(v.compression) {
        Some(Fault::Unsupported)
    } else if v.tile_x == 0 || v.tile_y == 0 || v.levels.len() == 0 {
        Some(Fault::Invalid)
    } else if !is_full(v.channels) {
        Some(Fault::Unsupported)
    } else if !names_ascend(v.channels) || v.levels[0].width == 0 || v.levels[0].height == 0
        || v.levels.len() != levels_of(v.levels[0].width, v.levels[0].height) || !(forall|l: int|
        0 <= l < v.levels.len() ==> #[trigger] v.level_sound(l)) {
        Some(Fault::Invalid)
    } else {
        None
    }
}

/// The greatest number of samples of a pixel in the first `k` levels.
pub open spec fn greatest_level(v: MipInput, k: int) -> u32
    decreases k,
{
    if k <= 0 {
        0
    } else {
        larger(
            greatest_level(v, k - 1),
            greatest(v.levels[k - 1].counts, v.levels[k - 1].counts.len() as int),
        )
    }
}

/// What the attributes of such an image are made of. The number of chunks is
/// given by its low 32 bits.
pub open spec fn mip_labels(v: MipInput) -> DeepLabels {
    DeepLabels {
        chunk_count: (grid_tiles(v.grids(), v.levels.len() as int) % 0x1_0000_0000) as u32,
        width: v.levels[0].width,
        height: v.levels[0].height,
        max_samples: greatest_level(v, v.levels.len() as int),
        compression: v.compression,
    }
}

/// The description of tiles at several resolutions, rounded down.
pub open spec fn mip_tiles(tile_x: u32, tile_y: u32) -> TileDesc {
    TileDesc { x_size: tile_x, y_size: tile_y, level_mode: 1, round_mode: 0 }
}

/// The attributes of such an image.
pub open spec fn mip_entries(v: MipInput) -> Seq<EntryView> {
    deep_entries(
        mip_labels(v),
        v.channels,
        None,
        Some(mip_tiles(v.tile_x, v.tile_y)),
        "deeptile"@,
    )
}

/// The header of a file for such an image.
pub open spec fn mip_header(v: MipInput) -> Seq<u8> {
    header_bytes(DEEP_VERSION, mip_entries(v))
}

/// The chunks of the first `k` levels.
pub open spec fn level_chunks(v: MipInput, k: int) -> Seq<Seq<u8>>
    decreases k,
{
    if k <= 0 {
        Seq::empty()
    } else {
        level_chunks(v, k - 1) + tile_chunks(
            v.level(k - 1),
            v.grid(k - 1),
            (k - 1) as u32,
            Seq::empty(),
        )
    }
}

/// Every level can be stored.
pub open spec fn levels_pack(v: MipInput) -> bool {
    forall|l: int| 0 <= l < v.levels.len() ==> tiles_pack(#[trigger] v.level(l), v.grid(l))
}

/// Every level reads back.
pub open spec fn levels_read_back(v: MipInput) -> bool {
    forall|l: int| 0 <= l < v.levels.len() ==> tiles_read_back(#[trigger] v.level(l), v.grid(l))
}

/// The file for an input.
pub open spec fn deep_mipmap_file(v: MipInput) -> Result<Seq<u8>, Fault> {
    match mip_fault(v) {
        Some(f) => Err(f),
        None => if levels_pack(v) {
            Ok(file_bytes(mip_header(v), level_chunks(v, v.levels.len() as int)))
        } else {
            Err(Fault::Invalid)
        },
    }
}

/// No pixel of any level has more samples than a signed 32-bit integer.
pub open spec fn levels_small(v: MipInput) -> bool {
    forall|l: int| 0 <= l < v.levels.len() ==> counts_small((#[trigger] v.levels[l]).counts)
}

/// An input whose file reads back: its attributes do, and its tiles and the
/// samples of a pixel can be counted in signed 32-bit integers.
pub open spec fn mip_readable(v: MipInput) -> bool {
    &&& labels_readable(mip_labels(v), v.channels)
    &&& grid_tiles(v.grids(), v.levels.len() as int) <= 0x7fff_ffff
    &&& levels_small(v)
}

/// The deep image that the file for an input holds.
pub open spec fn mip_image(v: MipInput) -> MipView {
    MipView {
        meta: MetaView {
            data_window: window_of(v.levels[0].width, v.levels[0].height),
            display_window: window_of(v.levels[0].width, v.levels[0].height),
            line_order: LineOrder::IncreasingY,
            compression: v.compression,
            channels: v.channels,
        },
        tile_x: v.tile_x,
        tile_y: v.tile_y,
        levels: Seq::new(
            v.levels.len(),
            |l: int|
                LevelView {
                    width: v.levels[l].width,
                    height: v.levels[l].height,
                    pixels: stored_pixels(v.levels[l].counts, v.levels[l].planes, v.channels),
                },
        ),
        entries: mip_entries(v),
    }
}

/// An input without faults: every level is sound and its grid cuts it.
pub open spec fn levels_cut(v: MipInput) -> bool {
    forall|l: int| 0 <= l < v.levels.len() ==> cuts(#[trigger] v.grid(l), v.level(l))
}

proof fn lemma_levels_cut(v: MipInput)
    requires
        mip_fault(v) is None,
    ensures
        levels_cut(v),
        v.grids() == level_grids(v.levels[0].width, v.levels[0].height, (v.tile_x, v.tile_y)),
{
    let w = v.levels[0].width;
    let h = v.levels[0].height;
    assert forall|l: int| 0 <= l < v.levels.len() implies cuts(#[trigger] v.grid(l), v.level(l)) by {
        assert(v.level_sound(l));
        law_level_size(w as int, l, false);
        law_level_size(h as int, l, false);
    }
    assert forall|l: int| 0 <= l < v.levels.len() implies v.grids()[l] == level_grid(
        w,
        h,
        (v.tile_x, v.tile_y),
        l,
    ) by {
        assert(v.level_sound(l));
        law_level_size(w as int, l, false);
        law_level_size(h as int, l, false);
    }
    assert(v.grids() =~= level_grids(w, h, (v.tile_x, v.tile_y)));
}

/// Every plane has `n` samples.
fn planes_have(planes: &Vec<&[u32]>, n: u128) -> (r: bool)
    ensures
        r == (forall|c: int|
            0 <= c < planes@.len() ==> (#[trigger] slice_views(planes@)[c]).len() == n),
{
    let ghost pv = slice_views(planes@);
    let mut c: usize = 0;
    while c < planes.len()
        invariant
            c <= planes@.len(),
            pv == slice_views(planes@),
            forall|i: int| 0 <= i < c ==> (#[trigger] pv[i]).len() == n,
        decreases planes@.len() - c,
    {
        let plane: &[u32] = planes[c];
        assert(pv[c as int] == plane@);
        if plane.len() as u128 != n {
            return false;
        }
        c = c + 1;
    }
    true
}

/// Check level `l`.
fn check_level(v: &DeepMipmapTiledInput, l: usize) -> (r: bool)
    requires
        l < v.pyramid@.len() <= 33,
    ensures
        r == v@.level_sound(l as int),
{
    let ghost iv = v@;
    let x: &DeepMipmapTiledLevelInput = &v.pyramid[l];
    proof {
        assert(iv.levels[l as int] == x@);
        assert(iv.levels[0] == v.pyramid@[0]@);
        lemma_area(x.width, x.height);
    }
    if x.width != mipmap_level_dim(v.pyramid[0].width, l as u32, false) {
        return false;
    }
    if x.height != mipmap_level_dim(v.pyramid[0].height, l as u32, false) {
        return false;
    }
    if x.samples_per_pixel.len() as u64 != x.width as u64 * x.height as u64 {
        return false;
    }
    if x.channel_samples.len() != v.channels.len() {
        return false;
    }
    planes_have(&x.channel_samples, sum_counts(x.samples_per_pixel))
}

/// Check all levels.
fn check_levels(v: &DeepMipmapTiledInput) -> (r: bool)
    requires
        v.pyramid@.len() <= 33,
    ensures
        r == (forall|l: int| 0 <= l < v@.levels.len() ==> #[trigger] v@.level_sound(l)),
{
    let ghost iv = v@;
    let mut l: usize = 0;
    while l < v.pyramid.len()
        invariant
            l <= v.pyramid@.len() <= 33,
            iv == v@,
            forall|i: int| 0 <= i < l ==> #[trigger] iv.level_sound(i),
        decreases v.pyramid@.len() - l,
    {
        if !check_level(v, l) {
            assert(!iv.level_sound(l as int));
            return false;
        }
        l = l + 1;
    }
    true
}

/// Check an input.
fn check_mip(v: &DeepMipmapTiledInput) -> (r: Result<(), ExrError>)
    ensures
        r is Ok <==> mip_fault(v@) is None,
        r is Ok ==> v.pyramid@.len() <= 33,
        r matches Err(e) ==> mip_fault(v@) == Some(e.fault()),
{
    let ghost iv = v@;
    if !deep_method(v.compression) {
        return Err(ExrError::unsupported("deep compression is not one of NONE, RLE and ZIPS"));
    }
    if v.tile_x == 0 || v.tile_y == 0 {
        return Err(ExrError::invalid("deep mipmap tile size must be > 0"));
    }
    if v.pyramid.len() == 0 {
        return Err(ExrError::invalid("deep mipmap pyramid must have at least one level"));
    }
    if !all_full(v.channels.as_slice()) {
        return Err(ExrError::unsupported("deep mipmap tiled data with a sub-sampled channel"));
    }
    if !ascending(v.channels.as_slice()) {
        return Err(ExrError::invalid("deep mipmap tiled channels not alphabetical"));
    }
    let width: u32 = v.pyramid[0].width;
    let height: u32 = v.pyramid[0].height;
    assert(iv.levels[0] == v.pyramid@[0]@);
    if width == 0 || height == 0 {
        return Err(ExrError::invalid("deep mipmap tiled level 0 must not be empty"));
    }
    let most: u32 = if width < height {
        height
    } else {
        width
    };
    proof {
        law_level_count(most as int, false);
    }
    if v.pyramid.len() as u64 != mipmap_level_count(most, false) as u64 {
        return Err(ExrError::invalid("deep mipmap pyramid has the wrong number of levels"));
    }
    if !check_levels(v) {
        return Err(ExrError::invalid("deep mipmap level has the wrong size"));
    }
    Ok(())
}

/// The number of all tiles, and the greatest number of samples of a pixel.
fn measure_levels(v: &DeepMipmapTiledInput) -> (r: (u128, u32))
    requires
        v.pyramid@.len() <= 33,
        levels_cut(v@),
    ensures
        r.0 == grid_tiles(v@.grids(), v@.levels.len() as int),
        r.1 == greatest_level(v@, v@.levels.len() as int),
{
    let ghost iv = v@;
    let mut n: u128 = 0;
    let mut most: u32 = 0;
    let mut l: usize = 0;
    while l < v.pyramid.len()
        invariant
            l <= v.pyramid@.len() <= 33,
            iv == v@,
            levels_cut(iv),
            n == grid_tiles(iv.grids(), l as int),
            n <= 0xffff_ffff_ffff_ffff * l,
            most == greatest_level(iv, l as int),
        decreases v.pyramid@.len() - l,
    {
        let x: &DeepMipmapTiledLevelInput = &v.pyramid[l];
        let g: Grid = Grid { width: x.width, height: x.height, tile_x: v.tile_x, tile_y: v.tile_y };
        proof {
            assert(iv.levels[l as int] == x@);
            assert(g == iv.grid(l as int));
            assert(cuts(g, iv.level(l as int)));
        }
        let across: u32 = g.columns();
        let down: u32 = g.lines();
        proof {
            lemma_area(down, across);
        }
        n = n + (down as u64 * across as u64) as u128;
        let count: u32 = greatest_count(x.samples_per_pixel);
        if most < count {
            most = count;
        }
        l = l + 1;
    }
    (n, most)
}

/// Make the chunks of all levels.
fn make_level_chunks(v: &DeepMipmapTiledInput) -> (r: Result<Vec<Vec<u8>>, ExrError>)
    requires
        v.pyramid@.len() <= 33,
        levels_cut(v@),
    ensures
        r matches Ok(chunks) ==> {
            &&& levels_pack(v@)
            &&& byte_views(chunks@) == level_chunks(v@, v@.levels.len() as int)
            &&& levels_small(v@) ==> levels_read_back(v@)
        },
        r matches Err(e) ==> e.fault() == Fault::Invalid && !levels_pack(v@),
{
    let ghost iv = v@;
    let ghost small = levels_small(iv);
    let mut out: Vec<Vec<u8>> = Vec::new();
    let prefix: Vec<u8> = Vec::new();
    assert(prefix@ =~= Seq::empty());
    let mut l: usize = 0;
    assert(byte_views(out@) =~= Seq::empty());
    while l < v.pyramid.len()
        invariant
            l <= v.pyramid@.len() <= 33,
            iv == v@,
            small == levels_small(iv),
            levels_cut(iv),
            prefix@ == Seq::<u8>::empty(),
            byte_views(out@) == level_chunks(iv, l as int),
            forall|i: int| 0 <= i < l ==> tiles_pack(#[trigger] iv.level(i), iv.grid(i)),
            forall|i: int|
                0 <= i < l && small ==> tiles_read_back(#[trigger] iv.level(i), iv.grid(i)),
        decreases v.pyramid@.len() - l,
    {
        let x: &DeepMipmapTiledLevelInput = &v.pyramid[l];
        let g: Grid = Grid { width: x.width, height: x.height, tile_x: v.tile_x, tile_y: v.tile_y };
        let source: LineSource = LineSource {
            width: x.width,
            height: x.height,
            channels: v.channels.as_slice(),
            counts: x.samples_per_pixel,
            planes: &x.channel_samples,
            compression: v.compression,
        };
        proof {
            assert(iv.levels[l as int] == x@);
            assert(g == iv.grid(l as int));
            assert(source@ == iv.level(l as int));
            assert(cuts(g, iv.level(l as int)));
        }
        let ghost before = byte_views(out@);
        match make_tile_chunks(&source, &g, l as u32, prefix.as_slice()) {
            Ok(chunks) => {
                let mut chunks: Vec<Vec<u8>> = chunks;
                let ghost added = chunks@;
                out.append(&mut chunks);
                assert(byte_views(out@) =~= before + byte_views(added));
            },
            Err(e) => {
                assert(!tiles_pack(iv.level(l as int), iv.grid(l as int)));
                return Err(e);
            },
        }
        l = l + 1;
    }
    Ok(out)
}

/// Write a deep file with one part in tiles at several resolutions. What was
/// written reads back: the samples of HALF and UINT channels as they are
/// stored, those of FLOAT channels bit for bit.
pub fn encode_exr_deep_tiled_mipmap(input: &DeepMipmapTiledInput) -> (r: Result<Vec<u8>, ExrError>)
    ensures
        r matches Ok(v) ==> deep_mipmap_file(input@) == Ok::<Seq<u8>, Fault>(v@),
        r matches Ok(v) ==> mip_readable(input@) ==> deep_mipmap_of(v@) == Ok::<MipView, Fault>(
            mip_image(input@),
        ),
        r matches Err(e) ==> deep_mipmap_file(input@) == Err::<Seq<u8>, Fault>(e.fault()),
{
    check_mip(input)?;
    let ghost iv = input@;
    proof {
        lemma_levels_cut(iv);
        assert(iv.levels[0] == input.pyramid@[0]@);
        assert(cuts(iv.grid(0), iv.level(0)));
    }
    let (n, most) = measure_levels(input);
    let labels: DeepLabels = DeepLabels {
        chunk_count: (n % 0x1_0000_0000) as u32,
        width: input.pyramid[0].width,
        height: input.pyramid[0].height,
        max_samples: most,
        compression: input.compression,
    };
    let attributes: Vec<Attribute> = deep_attributes(
        &labels,
        input.channels.as_slice(),
        None,
        Some(TileDesc { x_size: input.tile_x, y_size: input.tile_y, level_mode: 1, round_mode: 0 }),
        "deeptile",
    );
    let header: Vec<u8> = encode_header(
        VersionField::from_u32(DEEP_VERSION),
        attributes.as_slice(),
    );
    let chunks: Vec<Vec<u8>> = make_level_chunks(input)?;
    let out: Vec<u8> = lay_out(header, chunks.as_slice());
    proof {
        assert(out.len() == out@.len());
        assert(input.pyramid@[0].samples_per_pixel.len() == iv.levels[0].counts.len());
        if mip_readable(iv) {
            let all = level_chunks(iv, iv.levels.len() as int);
            lemma_file_parts(mip_header(iv), all);
            law_chunks_follow(mip_header(iv), all);
            lemma_level_chunks_len(iv, iv.levels.len() as int);
            lemma_mip_reads_back(iv, out@);
        }
    }
    Ok(out)
}

// ----------------------------------------------------------------------
// What was written reads back
// ----------------------------------------------------------------------
proof fn lemma_grids_valid(v: MipInput)
    requires
        levels_cut(v),
    ensures
        forall|l: int| 0 <= l < v.grids().len() ==> (#[trigger] v.grids()[l]).is_valid(),
{
    assert forall|l: int| 0 <= l < v.grids().len() implies (#[trigger] v.grids()[l]).is_valid() by {
        assert(cuts(v.grid(l), v.level(l)));
    }
}

proof fn lemma_level_chunks_len(v: MipInput, k: int)
    requires
        0 <= k <= v.levels.len(),
        levels_cut(v),
    ensures
        level_chunks(v, k).len() == grid_tiles(v.grids(), k),
    decreases k,
{
    if k > 0 {
        lemma_level_chunks_len(v, k - 1);
        assert(cuts(v.grid(k - 1), v.level(k - 1)));
        lemma_tile_count(v.grid(k - 1));
    }
}

/// The chunks of the levels stand in the order of the levels.
proof fn lemma_level_chunk(v: MipInput, k: int, l: int, i: int)
    requires
        0 <= l < k <= v.levels.len(),
        levels_cut(v),
        0 <= i < v.grid(l).tiles(),
    ensures
        0 <= grid_tiles(v.grids(), l) + i < level_chunks(v, k).len(),
        level_chunks(v, k)[grid_tiles(v.grids(), l) + i] == tile_chunk(
            v.level(l),
            v.grid(l),
            l as u32,
            i,
        ),
    decreases k,
{
    lemma_level_chunks_len(v, k - 1);
    lemma_level_chunks_len(v, k);
    lemma_grids_valid(v);
    lemma_grid_tiles_order(v.grids(), l, k);
    if l < k - 1 {
        lemma_level_chunk(v, k - 1, l, i);
    } else {
        let body = tile_chunk(v.level(l), v.grid(l), l as u32, i);
        assert(Seq::<u8>::empty() + body =~= body);
    }
}

/// The tiles of the levels when all levels before `p` are complete, and `p`
/// has its first `k` tiles.
pub open spec fn level_progress(v: MipInput, p: int, k: int) -> Seq<Seq<Option<BlockView>>> {
    Seq::new(
        v.levels.len(),
        |l: int|
            first_tiles(
                v.level(l),
                v.grid(l),
                if l < p {
                    v.grid(l).tiles()
                } else if l == p {
                    k
                } else {
                    0
                },
            ),
    )
}

/// Reading the chunk of tile `i` of level `l`.
proof fn lemma_level_tile(s: Seq<u8>, base: int, v: MipInput, m: MetaView, l: int, i: int)
    requires
        s.len() <= u64::MAX,
        levels_cut(v),
        levels_pack(v),
        levels_read_back(v),
        0 <= l < v.levels.len() <= 33,
        0 <= i < v.grid(l).tiles(),
        grid_tiles(v.grids(), v.levels.len() as int) <= 0x7fff_ffff,
        m.compression == v.compression,
        m.channels == v.channels,
        chunks_follow(s, base, level_chunks(v, v.levels.len() as int)),
    ensures
        with_level_tile(
            s,
            chunk_start(
                base,
                level_chunks(v, v.levels.len() as int),
                grid_tiles(v.grids(), l) + i,
            ),
            v.grids(),
            m,
            level_progress(v, l, i),
        ) == Some(
            (
                level_progress(v, l, i + 1),
                chunk_start(
                    base,
                    level_chunks(v, v.levels.len() as int),
                    grid_tiles(v.grids(), l) + i + 1,
                ),
            ),
        ),
{
    let n = v.levels.len() as int;
    let g = v.grid(l);
    let x = v.level(l);
    let at = grid_tiles(v.grids(), l) + i;
    let all = level_chunks(v, n);
    let off = chunk_start(base, all, at);
    lemma_level_chunk(v, n, l, i);
    lemma_grids_valid(v);
    lemma_grid_tiles_order(v.grids(), l, n);
    assert(stands_at(s, off, all[at]));
    assert(cuts(g, x));
    assert(tiles_pack(x, g));
    assert(tiles_read_back(x, g));
    assert(crate::deep_tiles::tile_packed(x, g, i) is Some);
    assert(crate::deep_tiles::tile_reads_back(x, g, i));
    lemma_first_tiles(s, off, x, g, l as u32, i);
    assert(v.grids()[l] == g);
    assert(level_progress(v, l, i)[l] == first_tiles(x, g, i));
    assert(level_progress(v, l, i).update(l, first_tiles(x, g, i + 1)) =~= level_progress(
        v,
        l,
        i + 1,
    ));
}

/// Everything that makes the levels of a file read back.
pub open spec fn levels_stand(s: Seq<u8>, base: int, v: MipInput) -> bool {
    &&& s.len() <= u64::MAX
    &&& levels_cut(v)
    &&& levels_pack(v)
    &&& levels_read_back(v)
    &&& 0 < v.levels.len() <= 33
    &&& grid_tiles(v.grids(), v.levels.len() as int) <= 0x7fff_ffff
    &&& chunks_follow(s, base, level_chunks(v, v.levels.len() as int))
}

proof fn lemma_progress_start(v: MipInput)
    ensures
        level_progress(v, 0, 0) == blank_levels(v.grids()),
{
    assert forall|i: int| 0 <= i < v.levels.len() implies level_progress(v, 0, 0)[i] == blank_levels(
        v.grids(),
    )[i] by {
        assert(level_progress(v, 0, 0)[i] =~= no_tiles(v.grid(i).tiles()));
    }
    assert(level_progress(v, 0, 0) =~= blank_levels(v.grids()));
}

/// A level that is complete, and the next one.
proof fn lemma_progress_next(v: MipInput, l: int)
    requires
        levels_cut(v),
        0 < l < v.levels.len(),
    ensures
        v.grid(l - 1).tiles() >= 0,
        level_progress(v, l - 1, v.grid(l - 1).tiles()) == level_progress(v, l, 0),
        grid_tiles(v.grids(), l - 1) + v.grid(l - 1).tiles() == grid_tiles(v.grids(), l),
{
    assert(cuts(v.grid(l - 1), v.level(l - 1)));
    lemma_tile_count(v.grid(l - 1));
    assert(level_progress(v, l - 1, v.grid(l - 1).tiles()) =~= level_progress(v, l, 0));
}

proof fn lemma_levels_before(v: MipInput, l: int)
    requires
        levels_cut(v),
        0 <= l <= v.levels.len(),
    ensures
        grid_tiles(v.grids(), l) >= 0,
{
    lemma_grids_valid(v);
    lemma_grid_tiles(v.grids(), l);
}

#[verifier::spinoff_prover]
proof fn lemma_level_progress(s: Seq<u8>, base: int, v: MipInput, m: MetaView, l: int, k: int)
    requires
        levels_stand(s, base, v),
        0 <= l < v.levels.len(),
        0 <= k <= v.grid(l).tiles(),
        m.compression == v.compression,
        m.channels == v.channels,
    ensures
        levels_after(s, base, v.grids(), m, grid_tiles(v.grids(), l) + k) == Some(
            (
                level_progress(v, l, k),
                chunk_start(
                    base,
                    level_chunks(v, v.levels.len() as int),
                    grid_tiles(v.grids(), l) + k,
                ),
            ),
        ),
    decreases l, k,
{
    lemma_levels_before(v, l);
    if k > 0 {
        lemma_level_progress(s, base, v, m, l, k - 1);
        lemma_level_tile(s, base, v, m, l, k - 1);
    } else if l > 0 {
        lemma_progress_next(v, l);
        lemma_level_progress(s, base, v, m, l - 1, v.grid(l - 1).tiles());
    } else {
        lemma_progress_start(v);
    }
}

/// All chunks of the levels.
proof fn lemma_levels_read(s: Seq<u8>, base: int, v: MipInput, m: MetaView)
    requires
        s.len() <= u64::MAX,
        levels_cut(v),
        levels_pack(v),
        levels_read_back(v),
        0 < v.levels.len() <= 33,
        grid_tiles(v.grids(), v.levels.len() as int) <= 0x7fff_ffff,
        m.compression == v.compression,
        m.channels == v.channels,
        chunks_follow(s, base, level_chunks(v, v.levels.len() as int)),
    ensures
        levels_after(s, base, v.grids(), m, grid_tiles(v.grids(), v.levels.len() as int)) matches Some(
            (boards, _),
        ) && all_complete(boards) && finished_levels(v.grids(), boards, v.channels.len())
            == mip_image(v).levels,
{
    let n = v.levels.len() as int;
    let last = v.grid(n - 1);
    assert(cuts(last, v.level(n - 1)));
    lemma_tile_count(last);
    lemma_level_progress(s, base, v, m, n - 1, last.tiles());
    assert(v.grids()[n - 1] == last);
    let done = level_progress(v, n - 1, last.tiles());
    let got = finished_levels(v.grids(), done, v.channels.len());
    let want = mip_image(v).levels;
    assert forall|l: int| 0 <= l < n implies is_complete(#[trigger] done[l]) && got[l] == want[l] by {
        let x = v.level(l);
        let g = v.grid(l);
        assert(cuts(g, x));
        assert(first_tiles(x, g, g.tiles()) =~= stored_tiles(x, g));
        assert(done[l] == stored_tiles(x, g));
        law_tiles_assemble(x, g);
    }
    assert(all_complete(done));
    assert forall|l: int| 0 <= l < n implies got[l] == want[l] by {
        assert(is_complete(done[l]));
    }
    assert(got =~= want);
}

proof fn lemma_mip_header(v: MipInput, s: Seq<u8>)
    requires
        mip_fault(v) is None,
        labels_readable(mip_labels(v), v.channels),
        stands_at(s, 0, mip_header(v)),
    ensures
        single_header_of(s, true) == Ok::<HeaderView, Fault>(
            HeaderView {
                version: version_of(DEEP_VERSION),
                entries: mip_entries(v),
                end: mip_header(v).len() as int,
            },
        ),
{
    reveal_strlit("deeptile");
    lemma_ascii_storable("deeptile"@, 31);
    lemma_deep_entries_storable(
        mip_labels(v),
        v.channels,
        None,
        Some(mip_tiles(v.tile_x, v.tile_y)),
        "deeptile"@,
    );
    lemma_header_reads_back(s, DEEP_VERSION, mip_entries(v), true);
}

/// The attributes of such an image say what it is.
proof fn lemma_mip_entries(v: MipInput)
    requires
        mip_fault(v) is None,
        mip_readable(v),
        v.levels[0].counts.len() <= usize::MAX,
    ensures
        mip_meta_of(mip_entries(v)) == Ok::<(MetaView, (u32, u32)), Fault>(
            (mip_image(v).meta, (v.tile_x, v.tile_y)),
        ),
        grids_of(mip_image(v).meta, (v.tile_x, v.tile_y)) == v.grids(),
        find_text(mip_entries(v), "type"@) == Some("deeptile"@),
{
    law_deep_entries(
        mip_labels(v),
        v.channels,
        None,
        Some(mip_tiles(v.tile_x, v.tile_y)),
        "deeptile"@,
    );
    let m = mip_image(v).meta;
    lemma_levels_cut(v);
    lemma_grids_valid(v);
    lemma_grid_tiles(v.grids(), v.levels.len() as int);
    assert(m.data_window.columns() == v.levels[0].width);
    assert(m.data_window.rows() == v.levels[0].height);
    law_level_size(v.levels[0].width as int, 0, false);
    assert(v.level_sound(0));
}

proof fn lemma_mip_reads_back(v: MipInput, s: Seq<u8>)
    requires
        mip_fault(v) is None,
        v.levels.len() <= 33,
        levels_cut(v),
        levels_pack(v),
        levels_read_back(v),
        mip_readable(v),
        stands_at(s, 0, mip_header(v)),
        chunks_follow(
            s,
            mip_header(v).len() + 8 * grid_tiles(v.grids(), v.levels.len() as int),
            level_chunks(v, v.levels.len() as int),
        ),
        mip_header(v).len() + 8 * grid_tiles(v.grids(), v.levels.len() as int) <= s.len(),
        s.len() <= usize::MAX,
        v.levels[0].counts.len() <= usize::MAX,
    ensures
        deep_mipmap_of(s) == Ok::<MipView, Fault>(mip_image(v)),
{
    lemma_mip_header(v, s);
    lemma_mip_entries(v);
    lemma_levels_read(
        s,
        mip_header(v).len() + 8 * grid_tiles(v.grids(), v.levels.len() as int),
        v,
        mip_image(v).meta,
    );
}

} // verus!
