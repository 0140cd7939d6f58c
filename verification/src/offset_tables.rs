//! Files whose chunks are read one behind the other: their offset tables are
//! passed over, and may hold anything.

use crate::attrs::count_from;
use crate::bytes::{agree, i32_at, lemma_slice_agree, lemma_u32_agree, lemma_u64_agree, u64_at};
use crate::deep::line_at;
use crate::deep_block::{BlockShape, BlockView};
use crate::deep_input::record_block;
use crate::deep_meta::MetaView;
use crate::deep_mipmap::{deep_mipmap_of, grid_tiles, grids_of, levels_after, mip_meta_of};
use crate::deep_multi::{
    deep_multipart_of, part_metas_of, parts_after, rows_of, with_part_line, PartMetaView,
};
use crate::deep_tiled::{deep_tiled_of, tiled_meta_of, tiles_after};
use crate::deep_tiled_multi::{boards_after, deep_tiled_multipart_of, tiles_of, TiledMetaView};
use crate::deep_tiles::with_tile;
use crate::error::Fault;
use crate::flat::line_head_at;
use crate::flat_image::RequiredView;
use crate::flat_multi::{
    chunks_in, counts_stated, multipart_of, part_lines_after, part_lines_applied,
};
use crate::flat_multi_tiled::{
    multipart_multilevel_of, multipart_tiled_of, part_tile_applied, part_tiles_after,
    tiled_parts_in,
};
use crate::flat_tiles::tile_head_at;
use crate::grid::Grid;
use crate::header::{multipart_headers_of, single_header_of, HeaderView};
use crate::header_laws::{
    law_part_headers_agree, law_single_header_agrees, lemma_part_headers_bound,
    lemma_single_header_bound,
};
use crate::types::{ChannelView, Compression, EntryView, TileDesc};
use vstd::prelude::*;

verus! {

/// Two files are as long as each other, and differ from `a` up to `b` at most.
pub open spec fn same_but(s: Seq<u8>, t: Seq<u8>, a: int, b: int) -> bool {
    &&& s.len() == t.len()
    &&& agree(s, t, 0, a)
    &&& agree(s, t, b, s.len() as int)
}

/// Two files are as long as each other, and the same from `start` on.
spec fn same_from(s: Seq<u8>, t: Seq<u8>, start: int) -> bool {
    &&& 0 <= start
    &&& s.len() == t.len()
    &&& agree(s, t, start, s.len() as int)
}

// ----------------------------------------------------------------------
// Flat files
// ----------------------------------------------------------------------
proof fn lemma_line_head(s: Seq<u8>, t: Seq<u8>, start: int, off: int)
    requires
        same_from(s, t, start),
        start <= off,
    ensures
        line_head_at(s, off) == line_head_at(t, off),
        line_head_at(s, off) matches Some((y, a, b)) ==> off <= b && s.subrange(a, b) == t.subrange(
            a,
            b,
        ),
{
    let n = s.len() as int;
    if off + 8 <= n {
        lemma_u32_agree(s, t, start, n, off);
        lemma_u32_agree(s, t, start, n, off + 4);
        if let Some((y, a, b)) = line_head_at(s, off) {
            lemma_slice_agree(s, t, start, n, a, b);
        }
    }
}

proof fn lemma_flat_chunk(
    parts: Seq<Seq<Seq<u32>>>,
    s: Seq<u8>,
    t: Seq<u8>,
    start: int,
    pos: int,
    ms: Seq<RequiredView>,
    log: Seq<u16>,
)
    requires
        same_from(s, t, start),
        start <= pos,
    ensures
        part_lines_applied(parts, s, pos, ms, log) == part_lines_applied(parts, t, pos, ms, log),
        part_lines_applied(parts, s, pos, ms, log) matches Ok((p, end)) ==> pos <= end,
{
    if pos + 12 <= s.len() {
        lemma_u32_agree(s, t, start, s.len() as int, pos);
        lemma_line_head(s, t, start, pos + 4);
    }
}

proof fn lemma_flat_chunks(
    s: Seq<u8>,
    t: Seq<u8>,
    start: int,
    ms: Seq<RequiredView>,
    log: Seq<u16>,
    k: int,
)
    requires
        same_from(s, t, start),
    ensures
        part_lines_after(s, start, ms, log, k) == part_lines_after(t, start, ms, log, k),
        part_lines_after(s, start, ms, log, k) matches Ok((parts, pos)) ==> start <= pos,
    decreases k,
{
    if k > 0 {
        lemma_flat_chunks(s, t, start, ms, log, k - 1);
        if let Ok((parts, pos)) = part_lines_after(s, start, ms, log, k - 1) {
            lemma_flat_chunk(parts, s, t, start, pos, ms, log);
        }
    }
}

proof fn lemma_chunks_in(hs: Seq<HeaderView>, k: int)
    requires
        counts_stated(hs),
        k <= hs.len(),
    ensures
        chunks_in(hs, k) >= 0,
    decreases k,
{
    if k > 0 {
        lemma_chunks_in(hs, k - 1);
        assert(count_from(hs[k - 1].entries, 0) is Some);
        lemma_count(hs[k - 1].entries, 0);
    }
}

proof fn lemma_count(es: Seq<EntryView>, i: int)
    ensures
        count_from(es, i) matches Some(v) ==> v >= 0,
    decreases es.len() - i,
{
    if i < es.len() {
        lemma_count(es, i + 1);
    }
}

/// What the offset tables of a flat file with parts of lines hold does not
/// matter.
pub proof fn law_flat_tables(s: Seq<u8>, t: Seq<u8>, hs: Seq<HeaderView>, log: Seq<u16>)
    requires
        multipart_headers_of(s) == Ok::<Seq<HeaderView>, Fault>(hs),
        hs.len() > 0,
        same_but(s, t, hs.last().end, hs.last().end + 8 * chunks_in(hs, hs.len() as int)),
    ensures
        multipart_of(t, log) == multipart_of(s, log),
{
    lemma_part_headers_bound(s);
    law_part_headers_agree(s, t);
    if counts_stated(hs) {
        let n = chunks_in(hs, hs.len() as int);
        lemma_chunks_in(hs, hs.len() as int);
        if let Ok(ms) = crate::flat_multi::flat_parts_of(hs, hs.len() as int) {
            lemma_flat_chunks(s, t, hs.last().end + 8 * n, ms, log, n);
        }
    }
}

proof fn lemma_tile_head(s: Seq<u8>, t: Seq<u8>, start: int, off: int)
    requires
        same_from(s, t, start),
        start <= off,
    ensures
        tile_head_at(s, off) == tile_head_at(t, off),
        tile_head_at(s, off) matches Some((tx, ty, lx, ly, a, b)) ==> off <= b && s.subrange(a, b)
            == t.subrange(a, b),
{
    let n = s.len() as int;
    if off + 20 <= n {
        lemma_u32_agree(s, t, start, n, off);
        lemma_u32_agree(s, t, start, n, off + 4);
        lemma_u32_agree(s, t, start, n, off + 8);
        lemma_u32_agree(s, t, start, n, off + 12);
        lemma_u32_agree(s, t, start, n, off + 16);
        if let Some((tx, ty, lx, ly, a, b)) = tile_head_at(s, off) {
            lemma_slice_agree(s, t, start, n, a, b);
        }
    }
}

proof fn lemma_flat_tile(
    parts: Seq<Seq<Seq<Seq<u32>>>>,
    s: Seq<u8>,
    t: Seq<u8>,
    start: int,
    pos: int,
    ms: Seq<(RequiredView, TileDesc)>,
    single: bool,
    log: Seq<u16>,
)
    requires
        same_from(s, t, start),
        start <= pos,
    ensures
        part_tile_applied(parts, s, pos, ms, single, log) == part_tile_applied(
            parts,
            t,
            pos,
            ms,
            single,
            log,
        ),
        part_tile_applied(parts, s, pos, ms, single, log) matches Ok((p, end)) ==> pos <= end,
{
    let n = s.len() as int;
    if pos + 24 <= n {
        lemma_u32_agree(s, t, start, n, pos);
        lemma_u32_agree(s, t, start, n, pos + 12);
        lemma_u32_agree(s, t, start, n, pos + 16);
        lemma_u32_agree(s, t, start, n, pos + 20);
        lemma_tile_head(s, t, start, pos + 4);
    }
}

proof fn lemma_flat_tiles(
    s: Seq<u8>,
    t: Seq<u8>,
    start: int,
    ms: Seq<(RequiredView, TileDesc)>,
    single: bool,
    log: Seq<u16>,
    k: int,
)
    requires
        same_from(s, t, start),
    ensures
        part_tiles_after(s, start, ms, single, log, k) == part_tiles_after(
            t,
            start,
            ms,
            single,
            log,
            k,
        ),
        part_tiles_after(s, start, ms, single, log, k) matches Ok((parts, pos)) ==> start <= pos,
    decreases k,
{
    if k > 0 {
        lemma_flat_tiles(s, t, start, ms, single, log, k - 1);
        if let Ok((parts, pos)) = part_tiles_after(s, start, ms, single, log, k - 1) {
            lemma_flat_tile(parts, s, t, start, pos, ms, single, log);
        }
    }
}

/// What the offset tables of a flat file with parts of tiles hold does not
/// matter, at one level or at many.
pub proof fn law_flat_tile_tables(s: Seq<u8>, t: Seq<u8>, hs: Seq<HeaderView>, log: Seq<u16>)
    requires
        multipart_headers_of(s) == Ok::<Seq<HeaderView>, Fault>(hs),
        hs.len() > 0,
        same_but(s, t, hs.last().end, hs.last().end + 8 * chunks_in(hs, hs.len() as int)),
    ensures
        multipart_tiled_of(t, log) == multipart_tiled_of(s, log),
        multipart_multilevel_of(t, log) == multipart_multilevel_of(s, log),
{
    lemma_tiled_parts(s, t, hs, true, log);
    lemma_tiled_parts(s, t, hs, false, log);
}

proof fn lemma_tiled_parts(
    s: Seq<u8>,
    t: Seq<u8>,
    hs: Seq<HeaderView>,
    single: bool,
    log: Seq<u16>,
)
    requires
        multipart_headers_of(s) == Ok::<Seq<HeaderView>, Fault>(hs),
        hs.len() > 0,
        same_but(s, t, hs.last().end, hs.last().end + 8 * chunks_in(hs, hs.len() as int)),
    ensures
        tiled_parts_in(t, single, log) == tiled_parts_in(s, single, log),
{
    lemma_part_headers_bound(s);
    law_part_headers_agree(s, t);
    if counts_stated(hs) {
        let n = chunks_in(hs, hs.len() as int);
        lemma_chunks_in(hs, hs.len() as int);
        if let Ok(ms) = crate::flat_multi_tiled::tiled_parts_of(hs, single, hs.len() as int) {
            lemma_flat_tiles(s, t, hs.last().end + 8 * n, ms, single, log, n);
        }
    }
}

// ----------------------------------------------------------------------
// Deep files
// ----------------------------------------------------------------------
proof fn lemma_record(
    s: Seq<u8>,
    t: Seq<u8>,
    start: int,
    b: int,
    shape: BlockShape,
    c: Compression,
    cs: Seq<ChannelView>,
)
    requires
        same_from(s, t, start),
        start <= b,
    ensures
        record_block(s, b, shape, c, cs) == record_block(t, b, shape, c, cs),
        record_block(s, b, shape, c, cs) matches Some((v, end)) ==> b <= end,
{
    let n = s.len() as int;
    if b + 24 <= n {
        lemma_u64_agree(s, t, start, n, b);
        lemma_u64_agree(s, t, start, n, b + 8);
        lemma_u64_agree(s, t, start, n, b + 16);
        let x = b + 24 + u64_at(s, b);
        let y = x + u64_at(s, b + 8);
        if y <= n {
            lemma_slice_agree(s, t, start, n, b + 24, x);
            lemma_slice_agree(s, t, start, n, x, y);
        }
    }
}

proof fn lemma_deep_line(
    s: Seq<u8>,
    t: Seq<u8>,
    start: int,
    pos: int,
    ms: Seq<PartMetaView>,
    parts: Seq<Seq<Option<BlockView>>>,
)
    requires
        same_from(s, t, start),
        start <= pos,
    ensures
        with_part_line(s, pos, ms, parts) == with_part_line(t, pos, ms, parts),
        with_part_line(s, pos, ms, parts) matches Some((p, end)) ==> pos <= end,
{
    let n = s.len() as int;
    if pos + 4 <= n {
        lemma_u32_agree(s, t, start, n, pos);
        let p = i32_at(s, pos) as int;
        if 0 <= p < ms.len() && pos + 32 <= n {
            let m = ms[p].meta;
            lemma_u32_agree(s, t, start, n, pos + 4);
            lemma_record(
                s,
                t,
                start,
                pos + 8,
                crate::deep_block::plain_shape(1, m.data_window.columns()),
                m.compression,
                m.channels,
            );
            assert(line_at(s, pos + 4, m) == line_at(t, pos + 4, m));
        }
    }
}

proof fn lemma_deep_lines(s: Seq<u8>, t: Seq<u8>, start: int, ms: Seq<PartMetaView>, k: int)
    requires
        same_from(s, t, start),
    ensures
        parts_after(s, start, ms, k) == parts_after(t, start, ms, k),
        parts_after(s, start, ms, k) matches Some((parts, pos)) ==> start <= pos,
    decreases k,
{
    if k > 0 {
        lemma_deep_lines(s, t, start, ms, k - 1);
        if let Some((parts, pos)) = parts_after(s, start, ms, k - 1) {
            lemma_deep_line(s, t, start, pos, ms, parts);
        }
    }
}

proof fn lemma_rows_of(ms: Seq<PartMetaView>, k: int)
    ensures
        rows_of(ms, k) >= 0,
    decreases k,
{
    if k > 0 {
        lemma_rows_of(ms, k - 1);
    }
}

/// What the offset tables of a deep file with parts of lines hold does not
/// matter.
pub proof fn law_deep_tables(s: Seq<u8>, t: Seq<u8>, hs: Seq<HeaderView>, ms: Seq<PartMetaView>)
    requires
        multipart_headers_of(s) == Ok::<Seq<HeaderView>, Fault>(hs),
        hs.len() > 0,
        part_metas_of(hs, hs.len() as int) == Ok::<Seq<PartMetaView>, Fault>(ms),
        same_but(s, t, hs.last().end, hs.last().end + 8 * rows_of(ms, ms.len() as int)),
    ensures
        deep_multipart_of(t) == deep_multipart_of(s),
{
    lemma_part_headers_bound(s);
    law_part_headers_agree(s, t);
    let n = rows_of(ms, ms.len() as int);
    lemma_rows_of(ms, ms.len() as int);
    lemma_deep_lines(s, t, hs.last().end + 8 * n, ms, n);
}

proof fn lemma_deep_tile(
    s: Seq<u8>,
    t: Seq<u8>,
    start: int,
    b: int,
    g: Grid,
    c: Compression,
    cs: Seq<ChannelView>,
    tiles: Seq<Option<BlockView>>,
)
    requires
        same_from(s, t, start),
        start <= b,
    ensures
        with_tile(s, b, g, c, cs, tiles) == with_tile(t, b, g, c, cs, tiles),
        with_tile(s, b, g, c, cs, tiles) matches Some((v, end)) ==> b <= end,
        b + 40 <= s.len() ==> i32_at(s, b + 8) == i32_at(t, b + 8) && i32_at(s, b + 12) == i32_at(
            t,
            b + 12,
        ),
{
    let n = s.len() as int;
    if b + 40 <= n {
        lemma_u32_agree(s, t, start, n, b);
        lemma_u32_agree(s, t, start, n, b + 4);
        lemma_u32_agree(s, t, start, n, b + 8);
        lemma_u32_agree(s, t, start, n, b + 12);
        lemma_u64_agree(s, t, start, n, b + 16);
        let shape = crate::deep_tiles::tile_shape(
            g,
            i32_at(s, b) as int,
            i32_at(s, b + 4) as int,
            c,
            u64_at(s, b + 16) as int,
        );
        lemma_record(s, t, start, b + 16, shape, c, cs);
    }
}

proof fn lemma_deep_tiles(s: Seq<u8>, t: Seq<u8>, start: int, g: Grid, m: MetaView, k: int)
    requires
        same_from(s, t, start),
    ensures
        tiles_after(s, start, g, m, k) == tiles_after(t, start, g, m, k),
        tiles_after(s, start, g, m, k) matches Ok((tiles, pos)) ==> start <= pos,
    decreases k,
{
    if k > 0 {
        lemma_deep_tiles(s, t, start, g, m, k - 1);
        if let Ok((tiles, pos)) = tiles_after(s, start, g, m, k - 1) {
            lemma_deep_tile(s, t, start, pos, g, m.compression, m.channels, tiles);
        }
    }
}

/// What the offset table of a deep file in tiles holds does not matter.
pub proof fn law_deep_tile_table(s: Seq<u8>, t: Seq<u8>, h: HeaderView, m: MetaView, g: Grid)
    requires
        single_header_of(s, true) == Ok::<HeaderView, Fault>(h),
        tiled_meta_of(h.entries) == Ok::<(MetaView, Grid), Fault>((m, g)),
        same_but(s, t, h.end, h.end + 8 * g.tiles()),
    ensures
        deep_tiled_of(t) == deep_tiled_of(s),
{
    lemma_single_header_bound(s, true);
    law_single_header_agrees(s, t, true);
    lemma_deep_tiles(s, t, h.end + 8 * g.tiles(), g, m, g.tiles());
}

proof fn lemma_deep_levels(
    s: Seq<u8>,
    t: Seq<u8>,
    start: int,
    gs: Seq<Grid>,
    m: MetaView,
    k: int,
)
    requires
        same_from(s, t, start),
    ensures
        levels_after(s, start, gs, m, k) == levels_after(t, start, gs, m, k),
        levels_after(s, start, gs, m, k) matches Some((boards, pos)) ==> start <= pos,
    decreases k,
{
    if k > 0 {
        lemma_deep_levels(s, t, start, gs, m, k - 1);
        if let Some((boards, pos)) = levels_after(s, start, gs, m, k - 1) {
            let n = s.len() as int;
            if pos + 40 <= n {
                lemma_u32_agree(s, t, start, n, pos + 8);
                lemma_u32_agree(s, t, start, n, pos + 12);
                let l = i32_at(s, pos + 8) as int;
                lemma_deep_tile(
                    s,
                    t,
                    start,
                    pos,
                    gs[l],
                    m.compression,
                    m.channels,
                    boards[l],
                );
            }
        }
    }
}

/// What the offset table of a deep file in tiles at several resolutions holds
/// does not matter.
pub proof fn law_deep_level_table(
    s: Seq<u8>,
    t: Seq<u8>,
    h: HeaderView,
    m: MetaView,
    size: (u32, u32),
)
    requires
        single_header_of(s, true) == Ok::<HeaderView, Fault>(h),
        mip_meta_of(h.entries) == Ok::<(MetaView, (u32, u32)), Fault>((m, size)),
        same_but(
            s,
            t,
            h.end,
            h.end + 8 * grid_tiles(grids_of(m, size), grids_of(m, size).len() as int),
        ),
    ensures
        deep_mipmap_of(t) == deep_mipmap_of(s),
{
    let gs = grids_of(m, size);
    let n = grid_tiles(gs, gs.len() as int);
    lemma_single_header_bound(s, true);
    law_single_header_agrees(s, t, true);
    if n > 0 {
        lemma_deep_levels(s, t, h.end + 8 * n, gs, m, n);
    }
}

proof fn lemma_deep_boards(s: Seq<u8>, t: Seq<u8>, start: int, ms: Seq<TiledMetaView>, k: int)
    requires
        same_from(s, t, start),
    ensures
        boards_after(s, start, ms, k) == boards_after(t, start, ms, k),
        boards_after(s, start, ms, k) matches Ok((boards, pos)) ==> start <= pos,
    decreases k,
{
    if k > 0 {
        lemma_deep_boards(s, t, start, ms, k - 1);
        if let Ok((boards, pos)) = boards_after(s, start, ms, k - 1) {
            let n = s.len() as int;
            if pos + 44 <= n {
                lemma_u32_agree(s, t, start, n, pos);
                let p = i32_at(s, pos) as int;
                lemma_deep_tile(
                    s,
                    t,
                    start,
                    pos + 4,
                    ms[p].grid,
                    ms[p].meta.compression,
                    ms[p].meta.channels,
                    boards[p],
                );
            }
        }
    }
}

/// What the offset tables of a deep file with parts of tiles hold does not
/// matter.
pub proof fn law_deep_board_tables(
    s: Seq<u8>,
    t: Seq<u8>,
    hs: Seq<HeaderView>,
    ms: Seq<TiledMetaView>,
)
    requires
        multipart_headers_of(s) == Ok::<Seq<HeaderView>, Fault>(hs),
        hs.len() > 0,
        crate::deep_tiled_multi::tiled_parts_of(hs, hs.len() as int) == Ok::<
            Seq<TiledMetaView>,
            Fault,
        >(ms),
        same_but(s, t, hs.last().end, hs.last().end + 8 * tiles_of(ms, ms.len() as int)),
    ensures
        deep_tiled_multipart_of(t) == deep_tiled_multipart_of(s),
{
    let n = tiles_of(ms, ms.len() as int);
    lemma_part_headers_bound(s);
    law_part_headers_agree(s, t);
    if n > 0 {
        lemma_deep_boards(s, t, hs.last().end + 8 * n, ms, n);
    }
}

} // verus!
