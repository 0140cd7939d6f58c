//! Deep files with several parts, each stored in tiles at one level.

use crate::attrs::{find_string_attr, find_text};
use crate::bytes::{i32_at, lemma_stands_split, read_i32, stands_at};
use crate::deep::{count_samples, lemma_area, samples_counted, DeepView, InputView, LineSource};
use crate::deep_block::{deep_method, is_deep_method, plane_views, BlockView, DeepBlock};
use crate::deep_input::{
    ascending, check_planes, lemma_no_planes_fault, planes_fault, slice_views, stored_pixels,
    sum_counts,
};
use crate::deep_meta::{
    deep_attributes, greatest_count, lemma_deep_entries_storable, DeepLabels, DeepMeta, MetaView,
};
use crate::deep_multi::{
    check_types, clashes, lemma_number_reads_back, name_clashes, str_views,
    types_fault, DEEP_PARTS_VERSION,
};
use crate::deep_tiled::{
    count_tiles, flat_tiles, is_held, lemma_flat_tile_fits, lemma_tiled_entries,
    read_tiled_part_meta, tiled_part_meta, take_flat_tile, tile_labels, tiled_entries,
    tiled_readable, with_flat_tile, written_meta, TiledInput, TiledView,
};
use crate::deep_tiles::{
    assemble, assembled, blank_tiles, block_fits, cuts, first_tiles, is_complete, law_tiles_assemble,
    lemma_first_tiles, make_tile_chunks, no_tiles, stored_tiles, tile_chunk, tile_chunks,
    tile_views, tiles_fit, tiles_pack, tiles_read_back,
};
use crate::deep_lines::DeepPixels;
use crate::error::{ExrError, Fault};
use crate::grid::{lemma_tile_count, Grid};
use crate::header::{
    header_views, length_bytes, lemma_ascii_storable, lemma_multipart_header_reads_back,
    multipart_header_bytes, multipart_headers_of, parse_multipart_headers, put_length, put_magic,
    put_table, reversed, table_bytes, tables_bytes_from, version_of, HeaderView, ParsedHeader,
};
use crate::layout::{
    byte_views, chunk_start, chunks_follow, file_bytes, first_chunk, law_layout, lay_out, lemma_file_parts,
};
use crate::ragged::sum;
use crate::types::{
    channel_views, entry_views, names_ascend, Attribute, Box2i, Channel, Compression, EntryView,
    LineOrder, TileDesc,
};
use vstd::prelude::*;
use vstd::string::*;
use vstd::utf8::*;

verus! {

broadcast use crate::bytes::group_le_len;

/// One part of a deep file, stored in tiles.
#[derive(Debug, Clone, PartialEq, Eq)]
pub struct DeepTiledPart {
    pub name: String,
    pub data_window: Box2i,
    pub display_window: Box2i,
    pub line_order: LineOrder,
    pub compression: Compression,
    pub tile_x: u32,
    pub tile_y: u32,
    pub channels: Vec<Channel>,
    pub samples_per_pixel: Vec<u32>,
    /// Binary32 bit patterns.
    pub channel_samples: Vec<Vec<u32>>,
    pub attributes: Vec<Attribute>,
}

/// What a part stands for.
#[verifier::ext_equal]
pub struct TiledPartView {
    pub name: Seq<char>,
    pub tiled: TiledView,
}

impl View for DeepTiledPart {
    type V = TiledPartView;

    open spec fn view(&self) -> TiledPartView {
        TiledPartView {
            name: self.name@,
            tiled: TiledView {
                image: DeepView {
                    meta: MetaView {
                        data_window: self.data_window,
                        display_window: self.display_window,
                        line_order: self.line_order,
                        compression: self.compression,
                        channels: channel_views(self.channels@),
                    },
                    pixels: BlockView {
                        counts: self.samples_per_pixel@,
                        planes: plane_views(self.channel_samples@),
                    },
                    entries: entry_views(self.attributes@),
                },
                tile_x: self.tile_x,
                tile_y: self.tile_y,
            },
        }
    }
}

/// The parts that a list of [`DeepTiledPart`] stands for.
pub open spec fn tiled_part_views(v: Seq<DeepTiledPart>) -> Seq<TiledPartView> {
    Seq::new(v.len(), |i: int| v[i]@)
}

impl DeepTiledPart {
    pub fn width(&self) -> (r: u32)
        ensures
            r == self.data_window.columns(),
    {
        self.data_window.width()
    }

    pub fn height(&self) -> (r: u32)
        ensures
            r == self.data_window.rows(),
    {
        self.data_window.height()
    }

    pub fn total_samples(&self) -> (r: u64)
        requires
            sum(self.samples_per_pixel@) <= u64::MAX,
        ensures
            r == sum(self.samples_per_pixel@),
    {
        count_samples(self.samples_per_pixel.as_slice())
    }
}

// ----------------------------------------------------------------------
// Reading
// ----------------------------------------------------------------------
/// The name of a part, what its header says of it, and its grid.
#[verifier::ext_equal]
pub struct TiledMetaView {
    pub name: Seq<char>,
    pub meta: MetaView,
    pub grid: Grid,
}

/// What the header of a part says, where the part is stored in tiles.
pub open spec fn tiled_part_of(h: HeaderView) -> Result<TiledMetaView, Fault> {
    match find_text(h.entries, "name"@) {
        None => Err(Fault::Invalid),
        Some(name) => match tiled_part_meta(h.entries) {
            Err(e) => Err(e),
            Ok((meta, grid)) => Ok(TiledMetaView { name, meta, grid }),
        },
    }
}

/// What the headers of the first `k` parts say.
pub open spec fn tiled_parts_of(hs: Seq<HeaderView>, k: int) -> Result<Seq<TiledMetaView>, Fault>
    decreases k,
{
    if k <= 0 {
        Ok(Seq::empty())
    } else {
        match tiled_parts_of(hs, k - 1) {
            Err(e) => Err(e),
            Ok(ms) => match tiled_part_of(hs[k - 1]) {
                Err(e) => Err(e),
                Ok(m) => Ok(ms.push(m)),
            },
        }
    }
}

/// The tiles of the first `k` parts.
pub open spec fn tiles_of(ms: Seq<TiledMetaView>, k: int) -> int
    decreases k,
{
    if k <= 0 {
        0
    } else {
        tiles_of(ms, k - 1) + ms[k - 1].grid.tiles()
    }
}

/// The tiles of all parts before any chunk.
pub open spec fn blank_boards(ms: Seq<TiledMetaView>) -> Seq<Seq<Option<BlockView>>> {
    Seq::new(ms.len(), |i: int| no_tiles(ms[i].grid.tiles()))
}

/// The tiles of all parts with the one whose chunk stands at `pos`, and the
/// position behind it. A chunk begins with the number of its part.
pub open spec fn with_part_tile(
    s: Seq<u8>,
    pos: int,
    ms: Seq<TiledMetaView>,
    boards: Seq<Seq<Option<BlockView>>>,
) -> Result<(Seq<Seq<Option<BlockView>>>, int), Fault> {
    let p = i32_at(s, pos) as int;
    if pos + 44 > s.len() || p < 0 || p >= ms.len() {
        Err(Fault::Invalid)
    } else {
        match with_flat_tile(s, pos + 4, ms[p].grid, ms[p].meta, boards[p]) {
            Err(e) => Err(e),
            Ok((tiles, end)) => Ok((boards.update(p, tiles), end)),
        }
    }
}

/// The tiles of all parts after the first `k` chunks from `start` on, and the
/// position behind those chunks.
pub open spec fn boards_after(s: Seq<u8>, start: int, ms: Seq<TiledMetaView>, k: int) -> Result<
    (Seq<Seq<Option<BlockView>>>, int),
    Fault,
>
    decreases k,
{
    if k <= 0 {
        Ok((blank_boards(ms), start))
    } else {
        match boards_after(s, start, ms, k - 1) {
            Err(e) => Err(e),
            Ok((boards, pos)) => with_part_tile(s, pos, ms, boards),
        }
    }
}

/// No tile of any part is missing.
pub open spec fn all_complete(boards: Seq<Seq<Option<BlockView>>>) -> bool {
    forall|i: int| 0 <= i < boards.len() ==> is_complete(#[trigger] boards[i])
}

/// A part, from what its header says and its tiles.
pub open spec fn finished_part(
    m: TiledMetaView,
    tiles: Seq<Option<BlockView>>,
    entries: Seq<EntryView>,
) -> TiledPartView {
    TiledPartView {
        name: m.name,
        tiled: TiledView {
            image: DeepView {
                meta: m.meta,
                pixels: assembled(m.grid, tiles, m.meta.channels.len()),
                entries,
            },
            tile_x: m.grid.tile_x,
            tile_y: m.grid.tile_y,
        },
    }
}

/// The parts of a deep file whose parts are stored in tiles.
pub open spec fn deep_tiled_multipart_of(s: Seq<u8>) -> Result<Seq<TiledPartView>, Fault> {
    match multipart_headers_of(s) {
        Err(e) => Err(e),
        Ok(hs) => if hs.len() == 0 {
            Err(Fault::Invalid)
        } else {
            match types_fault(hs, "deeptile"@, 0) {
                Some(f) => Err(f),
                None => if !hs[0].version.non_image {
                    Err(Fault::Invalid)
                } else {
                    match tiled_parts_of(hs, hs.len() as int) {
                        Err(e) => Err(e),
                        Ok(ms) => {
                            let n = tiles_of(ms, ms.len() as int);
                            let start = hs[hs.len() - 1].end + 8 * n;
                            if start > s.len() {
                                Err(Fault::Invalid)
                            } else {
                                match boards_after(s, start, ms, n) {
                                    Err(e) => Err(e),
                                    Ok((boards, _)) => if all_complete(boards) {
                                        Ok(
                                            Seq::new(
                                                ms.len(),
                                                |i: int|
                                                    finished_part(ms[i], boards[i], hs[i].entries),
                                            ),
                                        )
                                    } else {
                                        Err(Fault::Invalid)
                                    },
                                }
                            }
                        },
                    }
                },
            }
        },
    }
}

/// The name of a part, what its header says of it, and its grid.
pub struct TiledMeta {
    pub name: String,
    pub meta: DeepMeta,
    pub grid: Grid,
}

impl View for TiledMeta {
    type V = TiledMetaView;

    open spec fn view(&self) -> TiledMetaView {
        TiledMetaView { name: self.name@, meta: self.meta@, grid: self.grid }
    }
}

pub open spec fn tiled_meta_views(v: Seq<TiledMeta>) -> Seq<TiledMetaView> {
    Seq::new(v.len(), |i: int| v[i]@)
}

/// The tiles that lists of blocks stand for.
pub open spec fn board_views(v: Seq<Vec<Option<DeepBlock>>>) -> Seq<Seq<Option<BlockView>>> {
    Seq::new(v.len(), |i: int| tile_views(v[i]@))
}

/// Every grid can be read by.
pub open spec fn grids_held(ms: Seq<TiledMetaView>) -> bool {
    forall|i: int| 0 <= i < ms.len() ==> is_held((#[trigger] ms[i]).grid)
}

/// The tiles of every part have the sizes that its grid gives them.
pub open spec fn boards_fit(ms: Seq<TiledMetaView>, boards: Seq<Seq<Option<BlockView>>>) -> bool {
    &&& boards.len() == ms.len()
    &&& forall|i: int|
        0 <= i < ms.len() ==> tiles_fit(
            ms[i].grid,
            #[trigger] boards[i],
            ms[i].meta.channels.len(),
        )
}

/// Read what the header of a part says.
fn read_tiled_part(h: &ParsedHeader) -> (r: Result<TiledMeta, ExrError>)
    ensures
        r matches Ok(m) ==> tiled_part_of(h@) == Ok::<TiledMetaView, Fault>(m@) && is_held(m.grid),
        r matches Err(e) ==> tiled_part_of(h@) == Err::<TiledMetaView, Fault>(e.fault()),
{
    let name: String = match find_string_attr(h.attributes.as_slice(), "name") {
        Some(t) => t,
        None => {
            return Err(ExrError::invalid("multi-part deep tiled part without a 'name' attribute"));
        },
    };
    let (meta, grid) = read_tiled_part_meta(h.attributes.as_slice())?;
    Ok(TiledMeta { name, meta, grid })
}

proof fn lemma_metas_stop(hs: Seq<HeaderView>, k: int, n: int)
    requires
        k <= n,
        tiled_parts_of(hs, k) is Err,
    ensures
        tiled_parts_of(hs, n) == tiled_parts_of(hs, k),
    decreases n - k,
{
    if k < n {
        lemma_metas_stop(hs, k, n - 1);
    }
}

fn read_tiled_parts(hs: &[ParsedHeader]) -> (r: Result<Vec<TiledMeta>, ExrError>)
    ensures
        r matches Ok(ms) ==> tiled_parts_of(header_views(hs@), hs@.len() as int) == Ok::<
            Seq<TiledMetaView>,
            Fault,
        >(tiled_meta_views(ms@)) && ms@.len() == hs@.len() && grids_held(tiled_meta_views(ms@)),
        r matches Err(e) ==> tiled_parts_of(header_views(hs@), hs@.len() as int) == Err::<
            Seq<TiledMetaView>,
            Fault,
        >(e.fault()),
{
    let ghost hv = header_views(hs@);
    let mut out: Vec<TiledMeta> = Vec::new();
    let mut i: usize = 0;
    assert(tiled_meta_views(out@) =~= Seq::empty());
    while i < hs.len()
        invariant
            i <= hs@.len(),
            hv == header_views(hs@),
            out@.len() == i,
            grids_held(tiled_meta_views(out@)),
            tiled_parts_of(hv, i as int) == Ok::<Seq<TiledMetaView>, Fault>(tiled_meta_views(out@)),
        decreases hs@.len() - i,
    {
        assert(hv[i as int] == hs@[i as int]@);
        let ghost before = tiled_meta_views(out@);
        match read_tiled_part(&hs[i]) {
            Ok(m) => {
                let ghost mv = m@;
                out.push(m);
                proof {
                    assert(tiled_meta_views(out@) =~= before.push(mv));
                    assert forall|j: int| 0 <= j < i + 1 implies is_held(
                        (#[trigger] tiled_meta_views(out@)[j]).grid,
                    ) by {
                        if j < i {
                            assert(before[j] == tiled_meta_views(out@)[j]);
                        }
                    }
                }
            },
            Err(e) => {
                proof {
                    lemma_metas_stop(hv, i + 1, hs@.len() as int);
                }
                return Err(e);
            },
        }
        i = i + 1;
    }
    Ok(out)
}

/// Lists for the tiles of every part, and the number of all tiles.
fn make_boards(ms: &[TiledMeta]) -> (r: (Vec<Vec<Option<DeepBlock>>>, u128))
    requires
        grids_held(tiled_meta_views(ms@)),
    ensures
        board_views(r.0@) == blank_boards(tiled_meta_views(ms@)),
        boards_fit(tiled_meta_views(ms@), board_views(r.0@)),
        r.1 == tiles_of(tiled_meta_views(ms@), ms@.len() as int),
{
    let ghost mv = tiled_meta_views(ms@);
    let mut out: Vec<Vec<Option<DeepBlock>>> = Vec::new();
    let mut n: u128 = 0;
    let mut i: usize = 0;
    let ghost len = ms.len();
    while i < ms.len()
        invariant
            i <= ms@.len(),
            len == ms@.len(),
            mv == tiled_meta_views(ms@),
            grids_held(mv),
            out@.len() == i,
            n == tiles_of(mv, i as int),
            n <= 0xffff_ffff * i,
            forall|j: int| 0 <= j < i ==> tile_views((#[trigger] out@[j])@) == blank_boards(mv)[j],
        decreases ms@.len() - i,
    {
        assert(mv[i as int] == ms@[i as int]@);
        let count: u32 = count_tiles(&ms[i].grid);
        out.push(blank_tiles(count as usize));
        n = n + count as u128;
        i = i + 1;
    }
    assert(board_views(out@) =~= blank_boards(mv));
    assert forall|i: int| 0 <= i < mv.len() implies tiles_fit(
        mv[i].grid,
        #[trigger] board_views(out@)[i],
        mv[i].meta.channels.len(),
    ) by {
        assert(is_held(mv[i].grid));
        assert(board_views(out@)[i] == no_tiles(mv[i].grid.tiles()));
    }
    (out, n)
}

proof fn lemma_boards_stop(s: Seq<u8>, start: int, ms: Seq<TiledMetaView>, k: int, n: int)
    requires
        k <= n,
        boards_after(s, start, ms, k) is Err,
    ensures
        boards_after(s, start, ms, n) == boards_after(s, start, ms, k),
    decreases n - k,
{
    if k < n {
        lemma_boards_stop(s, start, ms, k, n - 1);
    }
}

/// The tiles of the parts keep their sizes while they are read.
proof fn lemma_part_tile_fits(
    s: Seq<u8>,
    pos: int,
    ms: Seq<TiledMetaView>,
    boards: Seq<Seq<Option<BlockView>>>,
)
    requires
        grids_held(ms),
        boards_fit(ms, boards),
    ensures
        with_part_tile(s, pos, ms, boards) matches Ok((b, end)) ==> boards_fit(ms, b),
{
    if let Ok((b, end)) = with_part_tile(s, pos, ms, boards) {
        let p = i32_at(s, pos) as int;
        assert(is_held(ms[p].grid));
        assert(tiles_fit(ms[p].grid, boards[p], ms[p].meta.channels.len()));
        lemma_flat_tile_fits(s, pos + 4, ms[p].grid, ms[p].meta, boards[p]);
        assert forall|i: int| 0 <= i < ms.len() implies tiles_fit(
            ms[i].grid,
            #[trigger] b[i],
            ms[i].meta.channels.len(),
        ) by {
            if i != p {
                assert(b[i] == boards[i]);
            }
        }
    }
}

/// Read the chunk at `pos`.
fn take_part_tile(s: &[u8], pos: usize, ms: &[TiledMeta], boards: &mut Vec<Vec<Option<DeepBlock>>>) -> (r:
    Result<usize, ExrError>)
    requires
        pos <= s@.len(),
        grids_held(tiled_meta_views(ms@)),
        boards_fit(tiled_meta_views(ms@), board_views(old(boards)@)),
    ensures
        r matches Ok(end) ==> end <= s@.len() && with_part_tile(
            s@,
            pos as int,
            tiled_meta_views(ms@),
            board_views(old(boards)@),
        ) == Ok::<(Seq<Seq<Option<BlockView>>>, int), Fault>(
            (board_views(final(boards)@), end as int),
        ),
        r matches Err(e) ==> with_part_tile(
            s@,
            pos as int,
            tiled_meta_views(ms@),
            board_views(old(boards)@),
        ) == Err::<(Seq<Seq<Option<BlockView>>>, int), Fault>(e.fault()),
{
    let ghost mv = tiled_meta_views(ms@);
    let ghost before = board_views(boards@);
    let n: usize = s.len();
    if n - pos < 44 {
        return Err(ExrError::invalid("multi-part deep tiled: unexpected EOF at a chunk"));
    }
    let p: i32 = read_i32(s, pos);
    if p < 0 || p as u64 >= ms.len() as u64 {
        return Err(ExrError::invalid("multi-part deep tiled: part number out of range"));
    }
    let i: usize = p as usize;
    proof {
        assert(mv[i as int] == ms@[i as int]@);
        assert(is_held(mv[i as int].grid));
        assert(before[i as int] == tile_views(boards@[i as int]@));
        assert(tiles_fit(mv[i as int].grid, before[i as int], mv[i as int].meta.channels.len()));
    }
    let board: &mut Vec<Option<DeepBlock>> = &mut boards[i];
    let end: usize = take_flat_tile(s, pos + 4, ms[i].grid, &ms[i].meta, board)?;
    assert(board_views(boards@) =~= before.update(i as int, tile_views(boards@[i as int]@)));
    Ok(end)
}

fn read_boards(
    s: &[u8],
    start: usize,
    ms: &[TiledMeta],
    blank: Vec<Vec<Option<DeepBlock>>>,
    n: u128,
) -> (r: Result<Vec<Vec<Option<DeepBlock>>>, ExrError>)
    requires
        start <= s@.len(),
        grids_held(tiled_meta_views(ms@)),
        board_views(blank@) == blank_boards(tiled_meta_views(ms@)),
        boards_fit(tiled_meta_views(ms@), board_views(blank@)),
    ensures
        r matches Ok(v) ==> boards_fit(tiled_meta_views(ms@), board_views(v@)) && (boards_after(
            s@,
            start as int,
            tiled_meta_views(ms@),
            n as int,
        ) matches Ok((boards, pos)) && boards == board_views(v@)),
        r matches Err(e) ==> boards_after(s@, start as int, tiled_meta_views(ms@), n as int) == Err::<
            (Seq<Seq<Option<BlockView>>>, int),
            Fault,
        >(e.fault()),
{
    let ghost mv = tiled_meta_views(ms@);
    let mut boards: Vec<Vec<Option<DeepBlock>>> = blank;
    let mut pos: usize = start;
    let mut k: u128 = 0;
    while k < n
        invariant
            k <= n,
            mv == tiled_meta_views(ms@),
            grids_held(mv),
            pos <= s@.len(),
            boards_fit(mv, board_views(boards@)),
            boards_after(s@, start as int, mv, k as int) == Ok::<
                (Seq<Seq<Option<BlockView>>>, int),
                Fault,
            >((board_views(boards@), pos as int)),
        decreases n - k,
    {
        proof {
            lemma_part_tile_fits(s@, pos as int, mv, board_views(boards@));
        }
        match take_part_tile(s, pos, ms, &mut boards) {
            Ok(end) => {
                pos = end;
            },
            Err(e) => {
                proof {
                    lemma_boards_stop(s@, start as int, mv, k + 1, n as int);
                }
                return Err(e);
            },
        }
        k = k + 1;
    }
    Ok(boards)
}

/// Put the tiles of every part together.
fn assemble_boards(ms: &[TiledMeta], boards: &[Vec<Option<DeepBlock>>]) -> (r: Result<
    Vec<DeepPixels>,
    ExrError,
>)
    requires
        grids_held(tiled_meta_views(ms@)),
        boards_fit(tiled_meta_views(ms@), board_views(boards@)),
    ensures
        r matches Ok(v) ==> all_complete(board_views(boards@)) && v@.len() == ms@.len() && forall|i: int|
            0 <= i < ms@.len() ==> (#[trigger] v@[i])@ == assembled(
                ms@[i].grid,
                board_views(boards@)[i],
                ms@[i]@.meta.channels.len(),
            ) && block_fits(v@[i]@, ms@[i].grid.area(), ms@[i]@.meta.channels.len()),
        r matches Err(e) ==> e.fault() == Fault::Invalid && !all_complete(board_views(boards@)),
{
    let ghost mv = tiled_meta_views(ms@);
    let ghost bv = board_views(boards@);
    let mut out: Vec<DeepPixels> = Vec::new();
    let mut i: usize = 0;
    while i < ms.len()
        invariant
            i <= ms@.len(),
            mv == tiled_meta_views(ms@),
            bv == board_views(boards@),
            grids_held(mv),
            boards_fit(mv, bv),
            out@.len() == i,
            forall|j: int| 0 <= j < i ==> is_complete(#[trigger] bv[j]),
            forall|j: int|
                0 <= j < i ==> (#[trigger] out@[j])@ == assembled(
                    ms@[j].grid,
                    bv[j],
                    ms@[j]@.meta.channels.len(),
                ) && block_fits(out@[j]@, ms@[j].grid.area(), ms@[j]@.meta.channels.len()),
        decreases ms@.len() - i,
    {
        proof {
            assert(mv[i as int] == ms@[i as int]@);
            assert(is_held(mv[i as int].grid));
            assert(bv[i as int] == tile_views(boards@[i as int]@));
            assert(tiles_fit(mv[i as int].grid, bv[i as int], mv[i as int].meta.channels.len()));
        }
        let pixels: DeepPixels = assemble(
            &ms[i].grid,
            boards[i].as_slice(),
            ms[i].meta.channels.len(),
        )?;
        out.push(pixels);
        i = i + 1;
    }
    Ok(out)
}

/// Put what was read of the parts together.
fn join_tiled_parts(hs: Vec<ParsedHeader>, ms: Vec<TiledMeta>, pixels: Vec<DeepPixels>) -> (r: Vec<
    DeepTiledPart,
>)
    requires
        hs@.len() == ms@.len() == pixels@.len(),
    ensures
        tiled_part_views(r@) == Seq::new(
            ms@.len(),
            |i: int|
                TiledPartView {
                    name: ms@[i]@.name,
                    tiled: TiledView {
                        image: DeepView {
                            meta: ms@[i]@.meta,
                            pixels: pixels@[i]@,
                            entries: hs@[i]@.entries,
                        },
                        tile_x: ms@[i].grid.tile_x,
                        tile_y: ms@[i].grid.tile_y,
                    },
                },
        ),
{
    let ghost n = ms@.len();
    let ghost (h0, m0, p0) = (hs@, ms@, pixels@);
    let mut hs: Vec<ParsedHeader> = hs;
    let mut ms: Vec<TiledMeta> = ms;
    let mut pixels: Vec<DeepPixels> = pixels;
    let mut out: Vec<DeepTiledPart> = Vec::new();
    while ms.len() > 0
        invariant
            hs@.len() == ms@.len() == pixels@.len(),
            ms@.len() + out@.len() == n,
            n == h0.len() == m0.len() == p0.len(),
            forall|i: int|
                #![trigger hs@[i]]
                #![trigger ms@[i]]
                #![trigger pixels@[i]]
                0 <= i < ms@.len() ==> hs@[i] == h0[i] && ms@[i] == m0[i] && pixels@[i] == p0[i],
            forall|i: int|
                0 <= i < out@.len() ==> (#[trigger] out@[i])@ == (TiledPartView {
                    name: m0[n - 1 - i]@.name,
                    tiled: TiledView {
                        image: DeepView {
                            meta: m0[n - 1 - i]@.meta,
                            pixels: p0[n - 1 - i]@,
                            entries: h0[n - 1 - i]@.entries,
                        },
                        tile_x: m0[n - 1 - i].grid.tile_x,
                        tile_y: m0[n - 1 - i].grid.tile_y,
                    },
                }),
        decreases ms@.len(),
    {
        let ghost k = ms@.len() - 1;
        assert(hs@[k] == h0[k] && ms@[k] == m0[k] && pixels@[k] == p0[k]);
        if let (Some(h), Some(m), Some(p)) = (hs.pop(), ms.pop(), pixels.pop()) {
            out.push(
                DeepTiledPart {
                    name: m.name,
                    data_window: m.meta.data_window,
                    display_window: m.meta.display_window,
                    line_order: m.meta.line_order,
                    compression: m.meta.compression,
                    tile_x: m.grid.tile_x,
                    tile_y: m.grid.tile_y,
                    channels: m.meta.channels,
                    samples_per_pixel: p.counts,
                    channel_samples: p.planes,
                    attributes: h.attributes,
                },
            );
        }
    }
    let r: Vec<DeepTiledPart> = reversed(out);
    assert(tiled_part_views(r@) =~= Seq::new(
        n,
        |i: int|
            TiledPartView {
                name: m0[i]@.name,
                tiled: TiledView {
                    image: DeepView { meta: m0[i]@.meta, pixels: p0[i]@, entries: h0[i]@.entries },
                    tile_x: m0[i].grid.tile_x,
                    tile_y: m0[i].grid.tile_y,
                },
            },
    ));
    r
}

/// The grid of a part covers its window.
proof fn lemma_tiled_parts_of(hs: Seq<HeaderView>, k: int)
    requires
        k <= hs.len(),
    ensures
        tiled_parts_of(hs, k) matches Ok(ms) ==> forall|i: int|
            0 <= i < ms.len() ==> (#[trigger] ms[i]).grid.width == ms[i].meta.data_window.columns()
                && ms[i].grid.height == ms[i].meta.data_window.rows(),
    decreases k,
{
    if k > 0 {
        lemma_tiled_parts_of(hs, k - 1);
    }
}

/// Parse a deep file with several parts that are stored in tiles.
pub fn parse_exr_multipart_deep_tiled(bytes: &[u8]) -> (r: Result<Vec<DeepTiledPart>, ExrError>)
    ensures
        r matches Ok(v) ==> deep_tiled_multipart_of(bytes@) == Ok::<Seq<TiledPartView>, Fault>(
            tiled_part_views(v@),
        ),
        r matches Ok(v) ==> forall|i: int|
            0 <= i < v@.len() ==> samples_counted(#[trigger] tiled_part_views(v@)[i].tiled.image),
        r matches Err(e) ==> deep_tiled_multipart_of(bytes@) == Err::<Seq<TiledPartView>, Fault>(
            e.fault(),
        ),
{
    let headers: Vec<ParsedHeader> = parse_multipart_headers(bytes)?;
    let ghost hv = header_views(headers@);
    let n: usize = headers.len();
    if n == 0 {
        return Err(ExrError::invalid("multi-part deep tiled file has no parts"));
    }
    check_types(headers.as_slice(), "deeptile")?;
    proof {
        assert(hv[0] == headers@[0]@);
        assert(hv[n - 1] == headers@[n - 1]@);
    }
    if !headers[0].version.non_image {
        return Err(ExrError::invalid("multi-part file without the deep version bit"));
    }
    let metas: Vec<TiledMeta> = read_tiled_parts(headers.as_slice())?;
    let (blank, count) = make_boards(metas.as_slice());
    let end: usize = headers[n - 1].end_offset;
    let left: usize = bytes.len() - end;
    if count > left as u128 / 8 {
        return Err(ExrError::invalid("multi-part deep tiled offset tables run past EOF"));
    }
    let start: usize = end + 8 * count as usize;
    let boards: Vec<Vec<Option<DeepBlock>>> = read_boards(
        bytes,
        start,
        metas.as_slice(),
        blank,
        count,
    )?;
    let ghost mv = tiled_meta_views(metas@);
    let ghost bv = board_views(boards@);
    let pixels: Vec<DeepPixels> = assemble_boards(metas.as_slice(), boards.as_slice())?;
    let ghost (h0, m0, p0) = (headers@, metas@, pixels@);
    let parts: Vec<DeepTiledPart> = join_tiled_parts(headers, metas, pixels);
    proof {
        let want = Seq::new(mv.len(), |i: int| finished_part(mv[i], bv[i], hv[i].entries));
        assert forall|i: int| 0 <= i < mv.len() implies tiled_part_views(parts@)[i] == want[i] by {
            assert(mv[i] == m0[i]@);
            assert(hv[i] == h0[i]@);
            assert(p0[i]@ == assembled(m0[i].grid, bv[i], m0[i]@.meta.channels.len()));
        }
        assert(tiled_part_views(parts@) =~= want);
        assert forall|i: int| 0 <= i < parts@.len() implies samples_counted(
            #[trigger] tiled_part_views(parts@)[i].tiled.image,
        ) by {
            assert(tiled_part_views(parts@)[i] == want[i]);
            assert(mv[i] == m0[i]@);
            assert(block_fits(p0[i]@, m0[i].grid.area(), m0[i]@.meta.channels.len()));
            lemma_tiled_parts_of(hv, hv.len() as int);
        }
    }
    Ok(parts)
}

// ----------------------------------------------------------------------
// Writing
// ----------------------------------------------------------------------
/// One part of a deep file to be written in tiles.
pub struct MultipartDeepTiledPart<'a> {
    /// The name of the part, which no other part of the file has.
    pub name: String,
    pub width: u32,
    pub height: u32,
    pub tile_x: u32,
    pub tile_y: u32,
    /// Channels in the order of their names.
    pub channels: Vec<Channel>,
    /// How many samples each pixel has.
    pub samples_per_pixel: &'a [u32],
    /// The samples of each channel, as binary32 bit patterns.
    pub channel_samples: Vec<&'a [u32]>,
    pub compression: Compression,
}

/// What a part to be written stands for.
#[verifier::ext_equal]
pub struct NamedTiled {
    pub name: Seq<char>,
    pub tiled: TiledInput,
}

impl<'a> View for MultipartDeepTiledPart<'a> {
    type V = NamedTiled;

    open spec fn view(&self) -> NamedTiled {
        NamedTiled {
            name: self.name@,
            tiled: TiledInput {
                input: InputView {
                    width: self.width,
                    height: self.height,
                    channels: channel_views(self.channels@),
                    counts: self.samples_per_pixel@,
                    planes: slice_views(self.channel_samples@),
                    compression: self.compression,
                },
                tile_x: self.tile_x,
                tile_y: self.tile_y,
            },
        }
    }
}

/// The parts that a list of parts to be written stands for.
pub open spec fn tiled_input_views(v: Seq<MultipartDeepTiledPart>) -> Seq<NamedTiled> {
    Seq::new(v.len(), |i: int| v[i]@)
}

/// The first fault of a part, apart from its name.
pub open spec fn tiled_part_fault(v: TiledInput) -> Option<Fault> {
    let x = v.input;
    if !is_deep_method(x.compression) {
        Some(Fault::Unsupported)
    } else if !v.grid().is_valid() || x.counts.len() != x.width * x.height || x.channels.len()
        != x.planes.len() || !names_ascend(x.channels) {
        Some(Fault::Invalid)
    } else {
        planes_fault(x.channels, x.planes, sum(x.counts), 0)
    }
}

/// The names of the parts.
pub open spec fn tiled_names(v: Seq<NamedTiled>) -> Seq<Seq<char>> {
    Seq::new(v.len(), |i: int| v[i].name)
}

/// The first fault of the parts from `i` on.
pub open spec fn tiled_parts_fault(v: Seq<NamedTiled>, i: int) -> Option<Fault>
    decreases v.len() - i,
{
    if i >= v.len() {
        None
    } else if name_clashes(tiled_names(v), i) {
        Some(Fault::Invalid)
    } else {
        match tiled_part_fault(v[i].tiled) {
            Some(f) => Some(f),
            None => tiled_parts_fault(v, i + 1),
        }
    }
}

/// Every part is sound, and its grid cuts it.
pub open spec fn parts_cut(v: Seq<NamedTiled>) -> bool {
    forall|i: int| 0 <= i < v.len() ==> cuts((#[trigger] v[i]).tiled.grid(), v[i].tiled.input)
}

proof fn lemma_no_tiled_fault(v: Seq<NamedTiled>, i: int)
    requires
        0 <= i,
        tiled_parts_fault(v, i) is None,
    ensures
        forall|k: int| i <= k < v.len() ==> cuts((#[trigger] v[k]).tiled.grid(), v[k].tiled.input),
    decreases v.len() - i,
{
    if i < v.len() {
        let x = v[i].tiled.input;
        lemma_no_planes_fault(x.channels, x.planes, sum(x.counts), 0);
        lemma_no_tiled_fault(v, i + 1);
    }
}

/// The attribute tables of all parts.
pub open spec fn tiled_tables(v: Seq<NamedTiled>) -> Seq<Seq<EntryView>> {
    Seq::new(v.len(), |i: int| tiled_entries(v[i].tiled, Some(v[i].name)))
}

/// The header of a deep file with several parts in tiles.
pub open spec fn tiled_parts_header(v: Seq<NamedTiled>) -> Seq<u8> {
    multipart_header_bytes(DEEP_PARTS_VERSION, tiled_tables(v))
}

/// The chunks of part `i`, each behind the number of the part.
pub open spec fn numbered_tiles(v: TiledInput, i: int) -> Seq<Seq<u8>> {
    tile_chunks(v.input, v.grid(), 0, length_bytes(i as nat))
}

/// The chunks of the first `k` parts.
pub open spec fn all_tiles(v: Seq<NamedTiled>, k: int) -> Seq<Seq<u8>>
    decreases k,
{
    if k <= 0 {
        Seq::empty()
    } else {
        all_tiles(v, k - 1) + numbered_tiles(v[k - 1].tiled, k - 1)
    }
}

/// Every part can be stored.
pub open spec fn tiled_parts_pack(v: Seq<NamedTiled>) -> bool {
    forall|i: int| 0 <= i < v.len() ==> tiles_pack((#[trigger] v[i]).tiled.input, v[i].tiled.grid())
}

/// The file for the parts.
pub open spec fn deep_tiled_multipart_file(v: Seq<NamedTiled>) -> Result<Seq<u8>, Fault> {
    if v.len() == 0 {
        Err(Fault::Invalid)
    } else {
        match tiled_parts_fault(v, 0) {
            Some(f) => Err(f),
            None => if tiled_parts_pack(v) {
                Ok(file_bytes(tiled_parts_header(v), all_tiles(v, v.len() as int)))
            } else {
                Err(Fault::Invalid)
            },
        }
    }
}

/// Parts whose file reads back: each would alone, its name is not too long,
/// and the parts can be counted in a signed 32-bit integer.
pub open spec fn tiled_parts_readable(v: Seq<NamedTiled>) -> bool {
    &&& v.len() <= 0x7fff_ffff
    &&& forall|i: int|
        0 <= i < v.len() ==> tiled_readable((#[trigger] v[i]).tiled) && encode_utf8(v[i].name).len()
            < 0x8000_0000
}

/// What the file for the parts holds.
pub open spec fn tiled_part_images(v: Seq<NamedTiled>) -> Seq<TiledPartView> {
    Seq::new(
        v.len(),
        |i: int|
            TiledPartView {
                name: v[i].name,
                tiled: TiledView {
                    image: DeepView {
                        meta: written_meta(v[i].tiled.input),
                        pixels: stored_pixels(
                            v[i].tiled.input.counts,
                            v[i].tiled.input.planes,
                            v[i].tiled.input.channels,
                        ),
                        entries: tiled_entries(v[i].tiled, Some(v[i].name)),
                    },
                    tile_x: v[i].tiled.tile_x,
                    tile_y: v[i].tiled.tile_y,
                },
            },
    )
}

/// The names of the parts, in a list.
fn list_names<'b>(parts: &'b [MultipartDeepTiledPart]) -> (r: Vec<&'b str>)
    ensures
        str_views(r@) == tiled_names(tiled_input_views(parts@)),
{
    let mut r: Vec<&'b str> = Vec::new();
    let mut i: usize = 0;
    while i < parts.len()
        invariant
            i <= parts@.len(),
            r@.len() == i,
            forall|j: int| 0 <= j < i ==> (#[trigger] r@[j])@ == parts@[j].name@,
        decreases parts@.len() - i,
    {
        r.push(parts[i].name.as_str());
        i = i + 1;
    }
    assert(str_views(r@) =~= tiled_names(tiled_input_views(parts@)));
    r
}

/// Check a part, apart from its name.
fn check_tiled_part(v: &MultipartDeepTiledPart) -> (r: Result<(), ExrError>)
    ensures
        r is Ok <==> tiled_part_fault(v@.tiled) is None,
        r matches Err(e) ==> tiled_part_fault(v@.tiled) == Some(e.fault()),
{
    if !deep_method(v.compression) {
        return Err(ExrError::unsupported("deep compression is not one of NONE, RLE and ZIPS"));
    }
    if v.width == 0 || v.height == 0 {
        return Err(ExrError::invalid("deep tiled part: dataWindow must not be empty"));
    }
    if v.tile_x == 0 || v.tile_y == 0 {
        return Err(ExrError::invalid("deep tiled part: tile size must be > 0"));
    }
    proof {
        lemma_area(v.width, v.height);
    }
    if v.samples_per_pixel.len() as u64 != v.width as u64 * v.height as u64 {
        return Err(
            ExrError::invalid("deep tiled part: samples_per_pixel does not have width * height items"),
        );
    }
    if v.channels.len() != v.channel_samples.len() {
        return Err(ExrError::invalid("deep tiled part: channels and channel_samples differ in number"));
    }
    if !ascending(v.channels.as_slice()) {
        return Err(ExrError::invalid("deep tiled part: channels not alphabetical"));
    }
    let n: u128 = sum_counts(v.samples_per_pixel);
    check_planes(v.channels.as_slice(), &v.channel_samples, n)
}

fn check_tiled_parts(parts: &[MultipartDeepTiledPart]) -> (r: Result<(), ExrError>)
    ensures
        r is Ok <==> tiled_parts_fault(tiled_input_views(parts@), 0) is None,
        r matches Err(e) ==> tiled_parts_fault(tiled_input_views(parts@), 0) == Some(e.fault()),
{
    let ghost pv = tiled_input_views(parts@);
    let names: Vec<&str> = list_names(parts);
    let mut i: usize = 0;
    assert(str_views(names@).len() == parts@.len());
    while i < parts.len()
        invariant
            i <= parts@.len(),
            pv == tiled_input_views(parts@),
            names@.len() == parts@.len(),
            str_views(names@) == tiled_names(pv),
            tiled_parts_fault(pv, 0) == tiled_parts_fault(pv, i as int),
        decreases parts@.len() - i,
    {
        assert(pv[i as int] == parts@[i as int]@);
        if clashes(&names, i) {
            return Err(ExrError::invalid("deep tiled part: empty or duplicate name"));
        }
        check_tiled_part(&parts[i])?;
        i = i + 1;
    }
    Ok(())
}

/// The grid of a part.
fn part_grid(p: &MultipartDeepTiledPart) -> (g: Grid)
    ensures
        g == p@.tiled.grid(),
{
    Grid { width: p.width, height: p.height, tile_x: p.tile_x, tile_y: p.tile_y }
}

/// Append the attribute table of one part.
fn put_tiled_table(out: &mut Vec<u8>, p: &MultipartDeepTiledPart)
    requires
        p@.tiled.grid().is_valid(),
        p@.tiled.grid().tiles() <= u32::MAX,
    ensures
        final(out)@ == old(out)@ + table_bytes(tiled_entries(p@.tiled, Some(p@.name))),
{
    let g: Grid = part_grid(p);
    let labels: DeepLabels = DeepLabels {
        chunk_count: count_tiles(&g),
        width: p.width,
        height: p.height,
        max_samples: greatest_count(p.samples_per_pixel),
        compression: p.compression,
    };
    let attributes: Vec<Attribute> = deep_attributes(
        &labels,
        p.channels.as_slice(),
        Some(p.name.as_str()),
        Some(TileDesc { x_size: p.tile_x, y_size: p.tile_y, level_mode: 0, round_mode: 0 }),
        "deeptile",
    );
    put_table(out, attributes.as_slice());
}

/// The tiles of every part can be counted.
pub open spec fn tiles_countable(v: Seq<NamedTiled>) -> bool {
    forall|i: int| 0 <= i < v.len() ==> (#[trigger] v[i]).tiled.grid().tiles() <= u32::MAX
}

/// The header of a file with several parts.
fn make_tiled_header(parts: &[MultipartDeepTiledPart]) -> (out: Vec<u8>)
    requires
        parts_cut(tiled_input_views(parts@)),
        tiles_countable(tiled_input_views(parts@)),
    ensures
        out@ == tiled_parts_header(tiled_input_views(parts@)),
{
    let ghost pv = tiled_input_views(parts@);
    let ghost ts = tiled_tables(pv);
    let mut out: Vec<u8> = Vec::new();
    put_magic(&mut out, DEEP_PARTS_VERSION);
    let mut i: usize = 0;
    assert(out@ + tables_bytes_from(ts, 0) =~= tiled_parts_header(pv));
    while i < parts.len()
        invariant
            i <= parts@.len(),
            pv == tiled_input_views(parts@),
            ts == tiled_tables(pv),
            parts_cut(pv),
            tiles_countable(pv),
            tiled_parts_header(pv) == out@ + tables_bytes_from(ts, i as int),
        decreases parts@.len() - i,
    {
        let ghost before = out@;
        assert(pv[i as int] == parts@[i as int]@);
        put_tiled_table(&mut out, &parts[i]);
        proof {
            assert(ts[i as int] == tiled_entries(pv[i as int].tiled, Some(pv[i as int].name)));
            assert(before + (table_bytes(ts[i as int]) + tables_bytes_from(ts, i + 1)) =~= out@
                + tables_bytes_from(ts, i + 1));
        }
        i = i + 1;
    }
    let ghost before = out@;
    out.push(0);
    assert(out@ =~= before + seq![0u8]);
    out
}

/// Make the chunks of one part, each behind the number of the part.
fn make_numbered_tiles(p: &MultipartDeepTiledPart, i: usize) -> (r: Result<Vec<Vec<u8>>, ExrError>)
    requires
        cuts(p@.tiled.grid(), p@.tiled.input),
    ensures
        r matches Ok(chunks) ==> {
            &&& tiles_pack(p@.tiled.input, p@.tiled.grid())
            &&& byte_views(chunks@) == numbered_tiles(p@.tiled, i as int)
            &&& tiled_readable(p@.tiled) ==> tiles_read_back(p@.tiled.input, p@.tiled.grid())
        },
        r matches Err(e) ==> e.fault() == Fault::Invalid && !tiles_pack(
            p@.tiled.input,
            p@.tiled.grid(),
        ),
{
    let g: Grid = part_grid(p);
    let source: LineSource = LineSource {
        width: p.width,
        height: p.height,
        channels: p.channels.as_slice(),
        counts: p.samples_per_pixel,
        planes: &p.channel_samples,
        compression: p.compression,
    };
    assert(source@ == p@.tiled.input);
    let mut prefix: Vec<u8> = Vec::new();
    put_length(&mut prefix, i);
    assert(prefix@ =~= length_bytes(i as nat));
    make_tile_chunks(&source, &g, 0, prefix.as_slice())
}

/// Make the chunks of all parts.
fn make_tiled_chunks(parts: &[MultipartDeepTiledPart]) -> (r: Result<Vec<Vec<u8>>, ExrError>)
    requires
        parts_cut(tiled_input_views(parts@)),
    ensures
        r matches Ok(chunks) ==> {
            let pv = tiled_input_views(parts@);
            &&& tiled_parts_pack(pv)
            &&& byte_views(chunks@) == all_tiles(pv, pv.len() as int)
            &&& forall|i: int|
                0 <= i < pv.len() && tiled_readable((#[trigger] pv[i]).tiled) ==> tiles_read_back(
                    pv[i].tiled.input,
                    pv[i].tiled.grid(),
                )
        },
        r matches Err(e) ==> e.fault() == Fault::Invalid && !tiled_parts_pack(
            tiled_input_views(parts@),
        ),
{
    let ghost pv = tiled_input_views(parts@);
    let mut out: Vec<Vec<u8>> = Vec::new();
    let mut i: usize = 0;
    assert(byte_views(out@) =~= Seq::empty());
    while i < parts.len()
        invariant
            i <= parts@.len(),
            pv == tiled_input_views(parts@),
            parts_cut(pv),
            byte_views(out@) == all_tiles(pv, i as int),
            forall|j: int|
                0 <= j < i ==> tiles_pack((#[trigger] pv[j]).tiled.input, pv[j].tiled.grid()),
            forall|j: int|
                0 <= j < i && tiled_readable((#[trigger] pv[j]).tiled) ==> tiles_read_back(
                    pv[j].tiled.input,
                    pv[j].tiled.grid(),
                ),
        decreases parts@.len() - i,
    {
        assert(pv[i as int] == parts@[i as int]@);
        let ghost before = byte_views(out@);
        let mut chunks: Vec<Vec<u8>> = make_numbered_tiles(&parts[i], i)?;
        let ghost added = chunks@;
        out.append(&mut chunks);
        proof {
            assert(byte_views(out@) =~= before + byte_views(added));
        }
        i = i + 1;
    }
    Ok(out)
}

/// Write a deep file with several parts in tiles. What was written reads back.
pub fn encode_exr_multipart_deep_tiled(parts: &[MultipartDeepTiledPart]) -> (r: Result<
    Vec<u8>,
    ExrError,
>)
    requires
        tiled_parts_fault(tiled_input_views(parts@), 0) is None ==> tiles_countable(
            tiled_input_views(parts@),
        ),
    ensures
        r matches Ok(v) ==> deep_tiled_multipart_file(tiled_input_views(parts@)) == Ok::<
            Seq<u8>,
            Fault,
        >(v@),
        r matches Ok(v) ==> tiled_parts_readable(tiled_input_views(parts@))
            ==> deep_tiled_multipart_of(v@) == Ok::<Seq<TiledPartView>, Fault>(
            tiled_part_images(tiled_input_views(parts@)),
        ),
        r matches Err(e) ==> deep_tiled_multipart_file(tiled_input_views(parts@)) == Err::<
            Seq<u8>,
            Fault,
        >(e.fault()),
{
    let ghost pv = tiled_input_views(parts@);
    if parts.len() == 0 {
        return Err(ExrError::invalid("at least one part required"));
    }
    check_tiled_parts(parts)?;
    proof {
        lemma_no_tiled_fault(pv, 0);
    }
    let header: Vec<u8> = make_tiled_header(parts);
    let chunks: Vec<Vec<u8>> = make_tiled_chunks(parts)?;
    let out: Vec<u8> = lay_out(header, chunks.as_slice());
    proof {
        assert(out.len() == out@.len());
        if tiled_parts_readable(pv) {
            assert forall|i: int| 0 <= i < pv.len() implies tiled_reads_back((#[trigger] pv[i]).tiled) by {
                assert(pv[i] == parts@[i]@);
                assert(tiled_readable(pv[i].tiled));
                assert(parts@[i].samples_per_pixel.len() == parts@[i].samples_per_pixel@.len());
            }
            let all = all_tiles(pv, pv.len() as int);
            lemma_file_parts(tiled_parts_header(pv), all);
            lemma_all_tiles_len(pv, pv.len() as int);
            assert forall|i: int| 0 <= i < all.len() implies stands_at(
                out@,
                chunk_start(first_chunk(tiled_parts_header(pv), all), all, i),
                #[trigger] all[i],
            ) by {
                law_layout(tiled_parts_header(pv), all, i);
            }
            lemma_tiled_parts_read_back(pv, out@);
        }
    }
    Ok(out)
}

/// Everything that makes a part read back.
pub open spec fn tiled_reads_back(v: TiledInput) -> bool {
    &&& cuts(v.grid(), v.input)
    &&& tiles_pack(v.input, v.grid())
    &&& tiles_read_back(v.input, v.grid())
    &&& tiled_readable(v)
    &&& v.input.counts.len() <= usize::MAX
}

/// Every part reads back.
pub open spec fn all_read_back(v: Seq<NamedTiled>) -> bool {
    forall|i: int| 0 <= i < v.len() ==> tiled_reads_back((#[trigger] v[i]).tiled)
}

/// The tiles of the first `k` parts.
pub open spec fn input_tiles(v: Seq<NamedTiled>, k: int) -> int
    decreases k,
{
    if k <= 0 {
        0
    } else {
        input_tiles(v, k - 1) + v[k - 1].tiled.grid().tiles()
    }
}

proof fn lemma_all_tiles_len(v: Seq<NamedTiled>, k: int)
    requires
        0 <= k <= v.len(),
        parts_cut(v),
    ensures
        all_tiles(v, k).len() == input_tiles(v, k),
        input_tiles(v, k) >= 0,
    decreases k,
{
    if k > 0 {
        lemma_all_tiles_len(v, k - 1);
        assert(cuts(v[k - 1].tiled.grid(), v[k - 1].tiled.input));
        lemma_tile_count(v[k - 1].tiled.grid());
    }
}

/// The chunks of the parts stand in the order of the parts.
proof fn lemma_all_tiles(v: Seq<NamedTiled>, k: int, p: int, i: int)
    requires
        0 <= p < k <= v.len(),
        parts_cut(v),
        0 <= i < v[p].tiled.grid().tiles(),
    ensures
        all_tiles(v, k).len() == input_tiles(v, k),
        0 <= input_tiles(v, p) <= input_tiles(v, p) + i < input_tiles(v, k),
        all_tiles(v, k)[input_tiles(v, p) + i] == length_bytes(p as nat) + tile_chunk(
            v[p].tiled.input,
            v[p].tiled.grid(),
            0,
            i,
        ),
    decreases k,
{
    lemma_all_tiles_len(v, k - 1);
    lemma_all_tiles_len(v, k);
    if p < k - 1 {
        lemma_all_tiles(v, k - 1, p, i);
    }
}

/// What the headers of the parts say.
pub open spec fn tiled_image_metas(v: Seq<NamedTiled>) -> Seq<TiledMetaView> {
    Seq::new(
        v.len(),
        |i: int|
            TiledMetaView {
                name: v[i].name,
                meta: written_meta(v[i].tiled.input),
                grid: v[i].tiled.grid(),
            },
    )
}

/// The tiles of the parts when all parts before `p` are complete, and `p` has
/// its first `k` tiles.
pub open spec fn progress(v: Seq<NamedTiled>, p: int, k: int) -> Seq<Seq<Option<BlockView>>> {
    Seq::new(
        v.len(),
        |i: int|
            first_tiles(
                v[i].tiled.input,
                v[i].tiled.grid(),
                if i < p {
                    v[i].tiled.grid().tiles()
                } else if i == p {
                    k
                } else {
                    0
                },
            ),
    )
}

/// The chunk of tile `i` of part `p`.
proof fn lemma_part_chunk(s: Seq<u8>, v: Seq<NamedTiled>, base: int, p: int, i: int)
    requires
        v.len() <= 0x7fff_ffff,
        parts_cut(v),
        0 <= p < v.len(),
        0 <= i < v[p].tiled.grid().tiles(),
        chunks_follow(s, base, all_tiles(v, v.len() as int)),
    ensures
        ({
            let chunks = all_tiles(v, v.len() as int);
            let g = input_tiles(v, p) + i;
            let pos = chunk_start(base, chunks, g);
            let body = tile_chunk(v[p].tiled.input, v[p].tiled.grid(), 0, i);
            &&& 0 <= g
            &&& i32_at(s, pos) == p
            &&& stands_at(s, pos + 4, body)
            &&& chunk_start(base, chunks, g + 1) == pos + 4 + body.len()
        }),
{
    let chunks = all_tiles(v, v.len() as int);
    lemma_all_tiles(v, v.len() as int, p, i);
    let g = input_tiles(v, p) + i;
    let pos = chunk_start(base, chunks, g);
    let head = length_bytes(p as nat);
    let body = tile_chunk(v[p].tiled.input, v[p].tiled.grid(), 0, i);
    assert(stands_at(s, pos, chunks[g]));
    assert(chunks[g] == head + body);
    lemma_stands_split(s, pos, head, body);
    lemma_number_reads_back(s, pos, p);
    assert(head.len() == 4);
    assert(chunk_start(base, chunks, g + 1) == pos + chunks[g].len());
}

/// Reading the chunk of tile `i` of part `p`.
proof fn lemma_part_tile(s: Seq<u8>, v: Seq<NamedTiled>, base: int, p: int, i: int)
    requires
        s.len() <= u64::MAX,
        v.len() <= 0x7fff_ffff,
        parts_cut(v),
        0 <= p < v.len(),
        tiled_reads_back(v[p].tiled),
        0 <= i < v[p].tiled.grid().tiles(),
        chunks_follow(s, base, all_tiles(v, v.len() as int)),
    ensures
        ({
            let chunks = all_tiles(v, v.len() as int);
            let g = input_tiles(v, p) + i;
            let pos = chunk_start(base, chunks, g);
            let x = v[p].tiled;
            &&& 0 <= g
            &&& pos + 44 <= s.len()
            &&& i32_at(s, pos) == p
            &&& with_flat_tile(
                s,
                pos + 4,
                x.grid(),
                written_meta(x.input),
                first_tiles(x.input, x.grid(), i),
            ) == Ok::<(Seq<Option<BlockView>>, int), Fault>(
                (first_tiles(x.input, x.grid(), i + 1), chunk_start(base, chunks, g + 1)),
            )
        }),
{
    let chunks = all_tiles(v, v.len() as int);
    let x = v[p].tiled;
    lemma_part_chunk(s, v, base, p, i);
    let pos = chunk_start(base, chunks, input_tiles(v, p) + i);
    assert(crate::deep_tiles::tile_packed(x.input, x.grid(), i) is Some);
    assert(crate::deep_tiles::tile_reads_back(x.input, x.grid(), i));
    lemma_first_tiles(s, pos + 4, x.input, x.grid(), 0, i);
}

/// One chunk more.
proof fn lemma_boards_step(
    s: Seq<u8>,
    start: int,
    ms: Seq<TiledMetaView>,
    k: int,
    before: (Seq<Seq<Option<BlockView>>>, int),
    p: int,
    found: (Seq<Option<BlockView>>, int),
)
    requires
        0 < k,
        boards_after(s, start, ms, k - 1) == Ok::<(Seq<Seq<Option<BlockView>>>, int), Fault>(before),
        before.1 + 44 <= s.len(),
        i32_at(s, before.1) == p,
        0 <= p < ms.len(),
        with_flat_tile(s, before.1 + 4, ms[p].grid, ms[p].meta, before.0[p]) == Ok::<
            (Seq<Option<BlockView>>, int),
            Fault,
        >(found),
    ensures
        boards_after(s, start, ms, k) == Ok::<(Seq<Seq<Option<BlockView>>>, int), Fault>(
            (before.0.update(p, found.0), found.1),
        ),
{
}

#[verifier::spinoff_prover]
#[verifier::rlimit(40)]
proof fn lemma_progress(s: Seq<u8>, v: Seq<NamedTiled>, base: int, p: int, k: int)
    requires
        s.len() <= u64::MAX,
        v.len() <= 0x7fff_ffff,
        parts_cut(v),
        all_read_back(v),
        0 <= p < v.len(),
        0 <= k <= v[p].tiled.grid().tiles(),
        chunks_follow(s, base, all_tiles(v, v.len() as int)),
    ensures
        boards_after(s, base, tiled_image_metas(v), input_tiles(v, p) + k) == Ok::<
            (Seq<Seq<Option<BlockView>>>, int),
            Fault,
        >(
            (
                progress(v, p, k),
                chunk_start(base, all_tiles(v, v.len() as int), input_tiles(v, p) + k),
            ),
        ),
    decreases p, k,
{
    let ms = tiled_image_metas(v);
    lemma_all_tiles_len(v, p);
    if k > 0 {
        let x = v[p].tiled;
        assert(tiled_reads_back(x));
        lemma_progress(s, v, base, p, k - 1);
        lemma_part_tile(s, v, base, p, k - 1);
        assert(progress(v, p, k - 1).update(p, first_tiles(x.input, x.grid(), k)) =~= progress(
            v,
            p,
            k,
        ));
        assert(ms[p].meta == written_meta(x.input) && ms[p].grid == x.grid());
        assert(progress(v, p, k - 1)[p] == first_tiles(x.input, x.grid(), k - 1));
        let chunks = all_tiles(v, v.len() as int);
        let g = input_tiles(v, p) + k;
        lemma_boards_step(
            s,
            base,
            ms,
            g,
            (progress(v, p, k - 1), chunk_start(base, chunks, g - 1)),
            p,
            (first_tiles(x.input, x.grid(), k), chunk_start(base, chunks, g)),
        );
    } else if p > 0 {
        let n = v[p - 1].tiled.grid().tiles();
        assert(cuts(v[p - 1].tiled.grid(), v[p - 1].tiled.input));
        lemma_tile_count(v[p - 1].tiled.grid());
        lemma_progress(s, v, base, p - 1, n);
        assert(progress(v, p - 1, n) =~= progress(v, p, 0));
    } else {
        assert forall|i: int| 0 <= i < v.len() implies progress(v, 0, 0)[i] == blank_boards(ms)[i] by {
            assert(progress(v, 0, 0)[i] =~= no_tiles(v[i].tiled.grid().tiles()));
        }
        assert(progress(v, 0, 0) =~= blank_boards(ms));
    }
}

proof fn lemma_tiled_metas(v: Seq<NamedTiled>, hs: Seq<HeaderView>, k: int)
    requires
        0 <= k <= v.len() == hs.len(),
        forall|i: int|
            0 <= i < v.len() ==> (#[trigger] hs[i]).entries == tiled_entries(
                v[i].tiled,
                Some(v[i].name),
            ),
        all_read_back(v),
    ensures
        tiled_parts_of(hs, k) == Ok::<Seq<TiledMetaView>, Fault>(tiled_image_metas(v).take(k)),
        tiles_of(tiled_image_metas(v), k) == input_tiles(v, k),
    decreases k,
{
    let ms = tiled_image_metas(v);
    if k > 0 {
        lemma_tiled_metas(v, hs, k - 1);
        let x = v[k - 1];
        assert(tiled_reads_back(x.tiled));
        assert(hs[k - 1].entries == tiled_entries(x.tiled, Some(x.name)));
        lemma_tiled_entries(x.tiled, Some(x.name));
        assert(ms.take(k - 1).push(ms[k - 1]) =~= ms.take(k));
    } else {
        assert(ms.take(0) =~= Seq::empty());
    }
}

proof fn lemma_tiled_types(v: Seq<NamedTiled>, hs: Seq<HeaderView>, k: int)
    requires
        0 <= k <= v.len() == hs.len(),
        forall|i: int|
            0 <= i < v.len() ==> (#[trigger] hs[i]).entries == tiled_entries(
                v[i].tiled,
                Some(v[i].name),
            ),
        all_read_back(v),
    ensures
        types_fault(hs, "deeptile"@, k) is None,
    decreases v.len() - k,
{
    if k < v.len() {
        lemma_tiled_types(v, hs, k + 1);
        let x = v[k];
        assert(tiled_reads_back(x.tiled));
        assert(hs[k].entries == tiled_entries(x.tiled, Some(x.name)));
        lemma_tiled_entries(x.tiled, Some(x.name));
    }
}

proof fn lemma_tiled_headers(v: Seq<NamedTiled>, s: Seq<u8>)
    requires
        tiled_parts_readable(v),
        all_read_back(v),
        stands_at(s, 0, tiled_parts_header(v)),
    ensures
        multipart_headers_of(s) matches Ok(hs) && {
            &&& hs.len() == v.len()
            &&& forall|i: int|
                0 <= i < v.len() ==> (#[trigger] hs[i]).entries == tiled_entries(
                    v[i].tiled,
                    Some(v[i].name),
                ) && hs[i].end == tiled_parts_header(v).len() && hs[i].version == version_of(
                    DEEP_PARTS_VERSION,
                )
        },
{
    let ts = tiled_tables(v);
    reveal_strlit("deeptile");
    lemma_ascii_storable("deeptile"@, 31);
    assert forall|k: int| 0 <= k < ts.len() implies (#[trigger] ts[k]).len() > 0
        && crate::header::entries_storable(ts[k], version_of(DEEP_PARTS_VERSION).name_limit()) by {
        let x = v[k];
        assert(tiled_reads_back(x.tiled));
        assert(tiled_readable(x.tiled));
        lemma_deep_entries_storable(
            tile_labels(x.tiled),
            x.tiled.input.channels,
            Some(x.name),
            Some(flat_tiles(x.tiled.tile_x, x.tiled.tile_y)),
            "deeptile"@,
        );
    }
    lemma_multipart_header_reads_back(s, DEEP_PARTS_VERSION, ts);
}

proof fn lemma_tiled_scan(v: Seq<NamedTiled>, s: Seq<u8>, base: int)
    requires
        0 < v.len() <= 0x7fff_ffff,
        parts_cut(v),
        all_read_back(v),
        chunks_follow(s, base, all_tiles(v, v.len() as int)),
        s.len() <= u64::MAX,
    ensures
        boards_after(s, base, tiled_image_metas(v), input_tiles(v, v.len() as int)) matches Ok(
            (boards, pos),
        ) && boards.len() == v.len() && forall|i: int|
            0 <= i < v.len() ==> #[trigger] boards[i] == stored_tiles(
                v[i].tiled.input,
                v[i].tiled.grid(),
            ),
{
    let n = v.len() as int;
    let last = v[n - 1].tiled.grid();
    assert(cuts(last, v[n - 1].tiled.input));
    lemma_tile_count(last);
    lemma_progress(s, v, base, n - 1, last.tiles());
    let done = progress(v, n - 1, last.tiles());
    assert forall|i: int| 0 <= i < n implies #[trigger] done[i] == stored_tiles(
        v[i].tiled.input,
        v[i].tiled.grid(),
    ) by {
        let x = v[i].tiled;
        assert(first_tiles(x.input, x.grid(), x.grid().tiles()) =~= stored_tiles(x.input, x.grid()));
    }
}

proof fn lemma_tiled_parts_read_back(v: Seq<NamedTiled>, s: Seq<u8>)
    requires
        v.len() > 0,
        tiled_parts_readable(v),
        parts_cut(v),
        all_read_back(v),
        stands_at(s, 0, tiled_parts_header(v)),
        chunks_follow(
            s,
            tiled_parts_header(v).len() + 8 * input_tiles(v, v.len() as int),
            all_tiles(v, v.len() as int),
        ),
        tiled_parts_header(v).len() + 8 * input_tiles(v, v.len() as int) <= s.len(),
        s.len() <= usize::MAX,
    ensures
        deep_tiled_multipart_of(s) == Ok::<Seq<TiledPartView>, Fault>(tiled_part_images(v)),
{
    let n = v.len() as int;
    let header = tiled_parts_header(v);
    let base = header.len() + 8 * input_tiles(v, n);
    lemma_tiled_headers(v, s);
    let hs = multipart_headers_of(s)->Ok_0;
    lemma_tiled_types(v, hs, 0);
    lemma_tiled_metas(v, hs, n);
    let ms = tiled_image_metas(v);
    assert(ms.take(n) =~= ms);
    lemma_tiled_scan(v, s, base);
    let done = (boards_after(s, base, ms, input_tiles(v, n))->Ok_0).0;
    let got = Seq::new(ms.len(), |i: int| finished_part(ms[i], done[i], hs[i].entries));
    assert forall|i: int| 0 <= i < n implies is_complete(#[trigger] done[i]) && got[i]
        == tiled_part_images(v)[i] by {
        let x = v[i].tiled;
        assert(hs[i].entries == tiled_entries(x, Some(v[i].name)));
        assert(done[i] == stored_tiles(x.input, x.grid()));
        assert(tiled_reads_back(x));
        law_tiles_assemble(x.input, x.grid());
    }
    assert(all_complete(done));
    assert forall|i: int| 0 <= i < n implies got[i] == tiled_part_images(v)[i] by {
        assert(is_complete(done[i]));
    }
    assert(got =~= tiled_part_images(v));
    assert(hs[0].version.non_image);
    assert(hs[n - 1].end == header.len());
}

} // verus!
