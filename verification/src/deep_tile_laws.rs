//! Which bytes of a deep file in tiles the samples of its pixels come from.

use crate::deep_block::{BlockShape, BlockView};
use crate::deep_input::record_block;
use crate::deep_laws::{record_chunk_at, record_end};
use crate::deep_meta::MetaView;
use crate::deep_mipmap::{
    deep_mipmap_of, grid_tiles, grids_of, level_grids, levels_after, mip_meta_of, MipView,
};
use crate::deep_tiled::{deep_tiled_of, tiled_meta_of, tiles_after, TiledView};
use crate::deep_tiled_multi::{
    boards_after, deep_tiled_multipart_of, tiled_part_of, tiled_parts_of, tiles_of, TiledMetaView,
    TiledPartView,
};
use crate::deep_tiles::{
    assembled, is_complete, law_assembled, lemma_tile_fits, lemma_with_tile_fits, no_tiles,
    pixel_samples, tiles_fit, with_tile,
};
use crate::error::Fault;
use crate::format_laws::{law_numbers, number_at, signed_at};
use crate::grid::{lemma_pixel_home, lemma_position, lemma_step, lemma_tile_index, Grid};
use crate::header::{multipart_headers_of, single_header_of, HeaderView};
use crate::level_laws::law_deep_levels;
use crate::ragged::piece;
use crate::types::{ChannelView, Compression};
use vstd::arithmetic::div_mod::{lemma_div_pos_is_pos, lemma_fundamental_div_mod_converse};
use vstd::prelude::*;

verus! {

// ----------------------------------------------------------------------
// A tile
// ----------------------------------------------------------------------
/// How much of `n` is left for piece `q` of pieces of `t`, and at most `t`.
pub open spec fn extent(n: int, t: int, q: int) -> int {
    if n < q * t + t {
        n - q * t
    } else {
        t
    }
}

/// How the record of the tile whose chunk stands at `at` is laid out. A table that is
/// not packed may have the size of a whole tile where the tile is cut off at an edge.
pub open spec fn shape_at(s: Seq<u8>, at: int, g: Grid, c: Compression) -> BlockShape {
    let w = extent(g.width as int, g.tile_x as int, signed_at(s, at)) as u32;
    let h = extent(g.height as int, g.tile_y as int, signed_at(s, at + 4)) as u32;
    if c == Compression::Uncompressed && number_at(s, at + 16, 8) == 4 * (g.tile_y * g.tile_x) {
        BlockShape { rows: h, cols: w, table_rows: g.tile_y, stride: g.tile_x }
    } else {
        BlockShape { rows: h, cols: w, table_rows: h, stride: w }
    }
}

/// The tile whose chunk stands at `at`: the column and the row of the tile, the two
/// numbers of its level, each in four bytes, and a record.
pub open spec fn tile_record(
    s: Seq<u8>,
    at: int,
    g: Grid,
    c: Compression,
    cs: Seq<ChannelView>,
) -> Option<(BlockView, int)> {
    record_block(s, at + 16, shape_at(s, at, g, c), c, cs)
}

/// The chunk at `at` says that it is tile (`tx`, `ty`) of level `level`.
pub open spec fn is_tile(s: Seq<u8>, at: int, tx: int, ty: int, level: int) -> bool {
    &&& signed_at(s, at) == tx
    &&& signed_at(s, at + 4) == ty
    &&& signed_at(s, at + 8) == level
    &&& signed_at(s, at + 12) == level
}

proof fn lemma_tile_taken(
    s: Seq<u8>,
    at: int,
    g: Grid,
    c: Compression,
    cs: Seq<ChannelView>,
    tiles: Seq<Option<BlockView>>,
    tx: int,
    ty: int,
)
    requires
        g.is_valid(),
        tiles_fit(g, tiles, cs.len()),
        with_tile(s, at, g, c, cs, tiles) is Some,
        0 <= tx < g.across(),
        0 <= ty < g.down(),
    ensures
        ({
            let (after, end) = with_tile(s, at, g, c, cs, tiles)->Some_0;
            let i = ty * g.across() + tx;
            &&& end == record_end(s, at + 16)
            &&& tiles_fit(g, after, cs.len())
            &&& if signed_at(s, at) == tx && signed_at(s, at + 4) == ty {
                tiles[i] is None && (tile_record(s, at, g, c, cs) matches Some((block, stop))
                    && after[i] == Some(block))
            } else {
                after[i] == tiles[i]
            }
        }),
{
    law_numbers(s, at);
    law_numbers(s, at + 4);
    law_numbers(s, at + 16);
    law_numbers(s, at + 24);
    lemma_with_tile_fits(s, at, g, c, cs, tiles);
    lemma_tile_fits(s, at, g, c, cs);
    lemma_tile_index(g, tx, ty);
    lemma_tile_index(g, signed_at(s, at), signed_at(s, at + 4));
    lemma_step(g.width as int, g.tile_x as int, signed_at(s, at));
    lemma_step(g.height as int, g.tile_y as int, signed_at(s, at + 4));
}

/// What is known of a tile after the first `k` chunks, where `named` says which of them
/// say that they are that tile, and `read` what they hold: no two of them are that
/// tile, and the tile is there if one of them is it, and then from that one.
pub open spec fn tile_held(
    tile: Option<BlockView>,
    named: spec_fn(int) -> bool,
    read: spec_fn(int) -> Option<(BlockView, int)>,
    k: int,
) -> bool {
    &&& forall|i: int, j: int|
        #![trigger named(i), named(j)]
        0 <= i < j < k ==> !(named(i) && named(j))
    &&& forall|j: int|
        #![trigger named(j)]
        0 <= j < k && named(j) ==> (read(j) matches Some((block, end)) && tile == Some(block))
    &&& tile is Some ==> exists|j: int| 0 <= j < k && #[trigger] named(j)
}

proof fn lemma_tile_held(
    before: Option<BlockView>,
    after: Option<BlockView>,
    named: spec_fn(int) -> bool,
    read: spec_fn(int) -> Option<(BlockView, int)>,
    k: int,
)
    requires
        0 <= k,
        tile_held(before, named, read, k),
        if named(k) {
            before is None && (read(k) matches Some((block, end)) && after == Some(block))
        } else {
            after == before
        },
    ensures
        tile_held(after, named, read, k + 1),
{
    if after is Some && !named(k) {
        let j = choose|j: int| 0 <= j < k && #[trigger] named(j);
        assert(named(j) && 0 <= j < k + 1);
    }
}

proof fn lemma_pixel_of_tiles(
    g: Grid,
    tiles: Seq<Option<BlockView>>,
    channels: nat,
    c: int,
    y: int,
    x: int,
)
    requires
        g.is_valid(),
        tiles_fit(g, tiles, channels),
        is_complete(tiles),
        0 <= c < channels,
        0 <= y < g.height,
        0 <= x < g.width,
    ensures
        ({
            let (tx, ty) = (x / g.tile_x as int, y / g.tile_y as int);
            &&& 0 <= tx < g.across()
            &&& 0 <= ty < g.down()
            &&& 0 <= ty * g.across() + tx < tiles.len()
            &&& tiles[ty * g.across() + tx] matches Some(block) && pixel_from(
                assembled(g, tiles, channels),
                g,
                block,
                c,
                y,
                x,
            )
        }),
{
    let p = y * g.width + x;
    lemma_fundamental_div_mod_converse(p, g.width as int, y, x);
    assert(0 <= p < g.height * g.width) by (nonlinear_arith)
        requires
            p == y * g.width + x,
            0 <= y < g.height,
            0 <= x < g.width,
    ;
    lemma_pixel_home(g, p);
    law_assembled(g, tiles, channels, c);
    lemma_step(g.width as int, g.tile_x as int, x / g.tile_x as int);
    assert(tiles[g.tile_of(p)] is Some);
    let v = assembled(g, tiles, channels);
    assert(piece(v.planes[c], v.counts, p) == pixel_samples(g, tiles, c, p));
}

/// Pixel (`x`, `y`) of an image in tiles is the one at its place in a tile: that many
/// columns and rows from the corner of the tile, in a tile with rows as wide as the
/// tile is in the image.
pub open spec fn pixel_from(
    v: BlockView,
    g: Grid,
    block: BlockView,
    c: int,
    y: int,
    x: int,
) -> bool {
    let w = extent(g.width as int, g.tile_x as int, x / g.tile_x as int);
    let j = (y % g.tile_y as int) * w + x % g.tile_x as int;
    &&& v.counts[y * g.width + x] == block.counts[j]
    &&& piece(v.planes[c], v.counts, y * g.width + x) == piece(block.planes[c], block.counts, j)
}

// ----------------------------------------------------------------------
// One image
// ----------------------------------------------------------------------
/// Which chunks of a file of one image are tile (`tx`, `ty`).
pub open spec fn tile_named(s: Seq<u8>, start: int, tx: int, ty: int, level: int) -> spec_fn(
    int,
) -> bool {
    |k: int| is_tile(s, record_chunk_at(s, start, 16, k), tx, ty, level)
}

/// What the chunks of such a file hold.
pub open spec fn tile_read(
    s: Seq<u8>,
    start: int,
    g: Grid,
    c: Compression,
    cs: Seq<ChannelView>,
) -> spec_fn(int) -> Option<(BlockView, int)> {
    |k: int| tile_record(s, record_chunk_at(s, start, 16, k), g, c, cs)
}

proof fn lemma_tiles_held(
    s: Seq<u8>,
    start: int,
    g: Grid,
    m: MetaView,
    k: int,
    tx: int,
    ty: int,
)
    requires
        g.is_valid(),
        0 <= k,
        tiles_after(s, start, g, m, k) is Ok,
        0 <= tx < g.across(),
        0 <= ty < g.down(),
    ensures
        ({
            let (tiles, at) = tiles_after(s, start, g, m, k)->Ok_0;
            &&& at == record_chunk_at(s, start, 16, k)
            &&& tiles_fit(g, tiles, m.channels.len())
            &&& tile_held(
                tiles[ty * g.across() + tx],
                tile_named(s, start, tx, ty, 0),
                tile_read(s, start, g, m.compression, m.channels),
                k,
            )
        }),
    decreases k,
{
    lemma_tile_index(g, tx, ty);
    if k > 0 {
        lemma_tiles_held(s, start, g, m, k - 1, tx, ty);
        let (before, at) = tiles_after(s, start, g, m, k - 1)->Ok_0;
        let (after, end) = tiles_after(s, start, g, m, k)->Ok_0;
        law_numbers(s, at + 8);
        law_numbers(s, at + 12);
        lemma_tile_taken(s, at, g, m.compression, m.channels, before, tx, ty);
        lemma_tile_held(
            before[ty * g.across() + tx],
            after[ty * g.across() + tx],
            tile_named(s, start, tx, ty, 0),
            tile_read(s, start, g, m.compression, m.channels),
            k - 1,
        );
    }
}

/// A deep file in tiles: every pixel comes from the one chunk that says it is the tile
/// of the pixel. The chunks stand one behind the other behind the offset table, which
/// has eight bytes for each.
pub proof fn law_deep_tiles(
    s: Seq<u8>,
    h: HeaderView,
    m: MetaView,
    g: Grid,
    v: TiledView,
    c: int,
    y: int,
    x: int,
)
    requires
        single_header_of(s, true) == Ok::<HeaderView, Fault>(h),
        tiled_meta_of(h.entries) == Ok::<(MetaView, Grid), Fault>((m, g)),
        deep_tiled_of(s) == Ok::<TiledView, Fault>(v),
        0 <= c < m.channels.len(),
        0 <= y < m.data_window.rows(),
        0 <= x < m.data_window.columns(),
    ensures
        v.image.meta == m,
        g.width == m.data_window.columns(),
        g.height == m.data_window.rows(),
        v.tile_x == g.tile_x,
        v.tile_y == g.tile_y,
        ({
            let start = h.end + 8 * g.tiles();
            let named = tile_named(s, start, x / g.tile_x as int, y / g.tile_y as int, 0);
            &&& exists|k: int| 0 <= k < g.tiles() && #[trigger] named(k)
            &&& forall|i: int, j: int|
                #![trigger named(i), named(j)]
                0 <= i < j < g.tiles() ==> !(named(i) && named(j))
            &&& forall|k: int|
                #![trigger named(k)]
                0 <= k < g.tiles() && named(k) ==> (tile_record(
                    s,
                    record_chunk_at(s, start, 16, k),
                    g,
                    m.compression,
                    m.channels,
                ) matches Some((block, end)) && pixel_from(v.image.pixels, g, block, c, y, x))
        }),
{
    let n = g.tiles();
    let start = h.end + 8 * n;
    let (tiles, at) = tiles_after(s, start, g, m, n)->Ok_0;
    let (tx, ty) = (x / g.tile_x as int, y / g.tile_y as int);
    lemma_position(g.width as int, g.tile_x as int, x);
    lemma_position(g.height as int, g.tile_y as int, y);
    lemma_tile_index(g, tx, ty);
    lemma_tiles_held(s, start, g, m, n, tx, ty);
    lemma_pixel_of_tiles(g, tiles, m.channels.len(), c, y, x);
    let named = tile_named(s, start, tx, ty, 0);
    let read = tile_read(s, start, g, m.compression, m.channels);
    assert(tile_held(tiles[ty * g.across() + tx], named, read, n));
}

// ----------------------------------------------------------------------
// Several resolutions
// ----------------------------------------------------------------------
proof fn lemma_levels_held(
    s: Seq<u8>,
    start: int,
    gs: Seq<Grid>,
    m: MetaView,
    k: int,
    l: int,
    tx: int,
    ty: int,
)
    requires
        0 <= l < gs.len(),
        gs[l].is_valid(),
        0 <= k,
        levels_after(s, start, gs, m, k) is Some,
        0 <= tx < gs[l].across(),
        0 <= ty < gs[l].down(),
    ensures
        ({
            let (boards, at) = levels_after(s, start, gs, m, k)->Some_0;
            &&& at == record_chunk_at(s, start, 16, k)
            &&& boards.len() == gs.len()
            &&& tiles_fit(gs[l], boards[l], m.channels.len())
            &&& tile_held(
                boards[l][ty * gs[l].across() + tx],
                tile_named(s, start, tx, ty, l),
                tile_read(s, start, gs[l], m.compression, m.channels),
                k,
            )
        }),
    decreases k,
{
    let g = gs[l];
    lemma_tile_index(g, tx, ty);
    if k > 0 {
        lemma_levels_held(s, start, gs, m, k - 1, l, tx, ty);
        let (before, at) = levels_after(s, start, gs, m, k - 1)->Some_0;
        let (after, end) = levels_after(s, start, gs, m, k)->Some_0;
        let q = signed_at(s, at + 8);
        law_numbers(s, at + 8);
        law_numbers(s, at + 12);
        law_numbers(s, at + 16);
        law_numbers(s, at + 24);
        assert(end == record_end(s, at + 16));
        if q == l {
            lemma_tile_taken(s, at, g, m.compression, m.channels, before[l], tx, ty);
        }
        lemma_tile_held(
            before[l][ty * g.across() + tx],
            after[l][ty * g.across() + tx],
            tile_named(s, start, tx, ty, l),
            tile_read(s, start, g, m.compression, m.channels),
            k - 1,
        );
    } else {
        assert(levels_after(s, start, gs, m, k)->Some_0.0[l] == no_tiles(g.tiles()));
    }
}

/// A deep file at several resolutions: every pixel of level `l` comes from the one
/// chunk that says it is the tile of the pixel in that level.
pub proof fn law_deep_mipmap(
    s: Seq<u8>,
    h: HeaderView,
    m: MetaView,
    size: (u32, u32),
    v: MipView,
    l: int,
    c: int,
    y: int,
    x: int,
)
    requires
        single_header_of(s, true) == Ok::<HeaderView, Fault>(h),
        mip_meta_of(h.entries) == Ok::<(MetaView, (u32, u32)), Fault>((m, size)),
        deep_mipmap_of(s) == Ok::<MipView, Fault>(v),
        0 <= l < v.levels.len(),
        0 <= c < m.channels.len(),
        0 <= y < v.levels[l].height,
        0 <= x < v.levels[l].width,
    ensures
        v.meta == m,
        v.tile_x == size.0,
        v.tile_y == size.1,
        v.levels.len() == level_grids(
            m.data_window.columns(),
            m.data_window.rows(),
            size,
        ).len(),
        ({
            let gs = level_grids(m.data_window.columns(), m.data_window.rows(), size);
            let g = gs[l];
            let n = grid_tiles(gs, gs.len() as int);
            let start = h.end + 8 * n;
            let named = tile_named(s, start, x / size.0 as int, y / size.1 as int, l);
            &&& v.levels[l].width == g.width
            &&& v.levels[l].height == g.height
            &&& exists|k: int| 0 <= k < n && #[trigger] named(k)
            &&& forall|i: int, j: int|
                #![trigger named(i), named(j)]
                0 <= i < j < n ==> !(named(i) && named(j))
            &&& forall|k: int|
                #![trigger named(k)]
                0 <= k < n && named(k) ==> (tile_record(
                    s,
                    record_chunk_at(s, start, 16, k),
                    g,
                    m.compression,
                    m.channels,
                ) matches Some((block, end)) && pixel_from(v.levels[l].pixels, g, block, c, y, x))
        }),
{
    let gs = grids_of(m, size);
    let n = grid_tiles(gs, gs.len() as int);
    let start = h.end + 8 * n;
    let g = gs[l];
    law_deep_levels(m.data_window.columns(), m.data_window.rows(), size);
    lemma_grid_tiles_positive(gs, gs.len() as int);
    let (boards, at) = levels_after(s, start, gs, m, n)->Some_0;
    let (tx, ty) = (x / g.tile_x as int, y / g.tile_y as int);
    lemma_position(g.width as int, g.tile_x as int, x);
    lemma_position(g.height as int, g.tile_y as int, y);
    lemma_tile_index(g, tx, ty);
    lemma_levels_held(s, start, gs, m, n, l, tx, ty);
    assert(is_complete(boards[l]));
    lemma_pixel_of_tiles(g, boards[l], m.channels.len(), c, y, x);
    let named = tile_named(s, start, tx, ty, l);
    let read = tile_read(s, start, g, m.compression, m.channels);
    assert(tile_held(boards[l][ty * g.across() + tx], named, read, n));
}

proof fn lemma_grid_tiles_positive(gs: Seq<Grid>, k: int)
    requires
        k <= gs.len(),
        forall|i: int| 0 <= i < gs.len() ==> (#[trigger] gs[i]).tile_x > 0 && gs[i].tile_y > 0,
    ensures
        grid_tiles(gs, k) >= 0,
    decreases k,
{
    if k > 0 {
        lemma_grid_tiles_positive(gs, k - 1);
        let g = gs[k - 1];
        let (a, b) = (g.across(), g.down());
        assert(a >= 0 && b >= 0) by {
            lemma_div_pos_is_pos(g.width + g.tile_x - 1, g.tile_x as int);
            lemma_div_pos_is_pos(g.height + g.tile_y - 1, g.tile_y as int);
        }
        assert(b * a >= 0) by (nonlinear_arith)
            requires
                a >= 0,
                b >= 0,
        ;
    }
}

// ----------------------------------------------------------------------
// Several parts
// ----------------------------------------------------------------------
/// Which chunks of a file of several parts are tile (`tx`, `ty`) of part `p`: in front
/// of the head of a tile stands the number of the part, in four bytes.
pub open spec fn part_tile_named(s: Seq<u8>, start: int, p: int, tx: int, ty: int) -> spec_fn(
    int,
) -> bool {
    |k: int|
        {
            let at = record_chunk_at(s, start, 20, k);
            signed_at(s, at) == p && is_tile(s, at + 4, tx, ty, 0)
        }
}

/// What the chunks of such a file hold.
pub open spec fn part_tile_read(
    s: Seq<u8>,
    start: int,
    g: Grid,
    c: Compression,
    cs: Seq<ChannelView>,
) -> spec_fn(int) -> Option<(BlockView, int)> {
    |k: int| tile_record(s, record_chunk_at(s, start, 20, k) + 4, g, c, cs)
}

proof fn lemma_boards_held(
    s: Seq<u8>,
    start: int,
    ms: Seq<TiledMetaView>,
    k: int,
    p: int,
    tx: int,
    ty: int,
)
    requires
        0 <= p < ms.len(),
        ms[p].grid.is_valid(),
        0 <= k,
        boards_after(s, start, ms, k) is Ok,
        0 <= tx < ms[p].grid.across(),
        0 <= ty < ms[p].grid.down(),
    ensures
        ({
            let (boards, at) = boards_after(s, start, ms, k)->Ok_0;
            let g = ms[p].grid;
            let m = ms[p].meta;
            &&& at == record_chunk_at(s, start, 20, k)
            &&& boards.len() == ms.len()
            &&& tiles_fit(g, boards[p], m.channels.len())
            &&& tile_held(
                boards[p][ty * g.across() + tx],
                part_tile_named(s, start, p, tx, ty),
                part_tile_read(s, start, g, m.compression, m.channels),
                k,
            )
        }),
    decreases k,
{
    let g = ms[p].grid;
    let m = ms[p].meta;
    lemma_tile_index(g, tx, ty);
    if k > 0 {
        lemma_boards_held(s, start, ms, k - 1, p, tx, ty);
        let (before, at) = boards_after(s, start, ms, k - 1)->Ok_0;
        let (after, end) = boards_after(s, start, ms, k)->Ok_0;
        law_numbers(s, at);
        law_numbers(s, at + 12);
        law_numbers(s, at + 16);
        law_numbers(s, at + 20);
        law_numbers(s, at + 28);
        assert(end == record_end(s, at + 20));
        if signed_at(s, at) == p {
            lemma_tile_taken(s, at + 4, g, m.compression, m.channels, before[p], tx, ty);
        }
        lemma_tile_held(
            before[p][ty * g.across() + tx],
            after[p][ty * g.across() + tx],
            part_tile_named(s, start, p, tx, ty),
            part_tile_read(s, start, g, m.compression, m.channels),
            k - 1,
        );
    } else {
        assert(boards_after(s, start, ms, k)->Ok_0.0[p] == no_tiles(g.tiles()));
    }
}

pub proof fn lemma_tiled_part_metas(hs: Seq<HeaderView>, k: int, p: int)
    requires
        0 <= p < k <= hs.len(),
        tiled_parts_of(hs, k) is Ok,
    ensures
        tiled_parts_of(hs, k)->Ok_0.len() == k,
        tiled_part_of(hs[p]) == Ok::<TiledMetaView, Fault>(tiled_parts_of(hs, k)->Ok_0[p]),
    decreases k,
{
    reveal_with_fuel(tiled_parts_of, 2);
    if k > 1 {
        lemma_tiled_part_metas(
            hs,
            k - 1,
            if p < k - 1 {
                p
            } else {
                0
            },
        );
    }
}

/// The grid of the tiles of a part.
pub open spec fn part_grid(v: TiledPartView) -> Grid {
    Grid {
        width: v.tiled.image.meta.data_window.columns(),
        height: v.tiled.image.meta.data_window.rows(),
        tile_x: v.tiled.tile_x,
        tile_y: v.tiled.tile_y,
    }
}

/// How many tiles the first `k` parts have together.
pub open spec fn tiles_before(v: Seq<TiledPartView>, k: int) -> int
    decreases k,
{
    if k <= 0 {
        0
    } else {
        tiles_before(v, k - 1) + part_grid(v[k - 1]).tiles()
    }
}

proof fn lemma_tiles_before(ms: Seq<TiledMetaView>, v: Seq<TiledPartView>, k: int)
    requires
        k <= v.len(),
        forall|i: int|
            0 <= i < v.len() ==> part_grid(#[trigger] v[i]) == ms[i].grid && ms[i].grid.is_valid(),
    ensures
        tiles_of(ms, k) == tiles_before(v, k),
        tiles_of(ms, k) >= 0,
    decreases k,
{
    if k > 0 {
        lemma_tiles_before(ms, v, k - 1);
        assert(part_grid(v[k - 1]) == ms[k - 1].grid);
        let g = ms[k - 1].grid;
        lemma_position(g.width as int, g.tile_x as int, 0);
        lemma_position(g.height as int, g.tile_y as int, 0);
        lemma_tile_index(g, 0int / g.tile_x as int, 0int / g.tile_y as int);
    }
}

/// A deep file of several parts in tiles: every pixel of a part comes from the one
/// chunk that says it is the tile of the pixel in that part.
pub proof fn law_deep_tiled_parts(
    s: Seq<u8>,
    hs: Seq<HeaderView>,
    v: Seq<TiledPartView>,
    p: int,
    c: int,
    y: int,
    x: int,
)
    requires
        multipart_headers_of(s) == Ok::<Seq<HeaderView>, Fault>(hs),
        deep_tiled_multipart_of(s) == Ok::<Seq<TiledPartView>, Fault>(v),
        0 <= p < v.len(),
        0 <= c < v[p].tiled.image.meta.channels.len(),
        0 <= y < v[p].tiled.image.meta.data_window.rows(),
        0 <= x < v[p].tiled.image.meta.data_window.columns(),
    ensures
        v.len() == hs.len(),
        ({
            let m = v[p].tiled.image.meta;
            let g = part_grid(v[p]);
            let n = tiles_before(v, v.len() as int);
            let start = hs.last().end + 8 * n;
            let named = part_tile_named(s, start, p, x / g.tile_x as int, y / g.tile_y as int);
            &&& exists|k: int| 0 <= k < n && #[trigger] named(k)
            &&& forall|i: int, j: int|
                #![trigger named(i), named(j)]
                0 <= i < j < n ==> !(named(i) && named(j))
            &&& forall|k: int|
                #![trigger named(k)]
                0 <= k < n && named(k) ==> (tile_record(
                    s,
                    record_chunk_at(s, start, 20, k) + 4,
                    g,
                    m.compression,
                    m.channels,
                ) matches Some((block, end)) && pixel_from(
                    v[p].tiled.image.pixels,
                    g,
                    block,
                    c,
                    y,
                    x,
                ))
        }),
{
    let ms = tiled_parts_of(hs, hs.len() as int)->Ok_0;
    lemma_tiled_part_metas(hs, hs.len() as int, 0);
    assert forall|i: int| 0 <= i < v.len() implies part_grid(#[trigger] v[i]) == ms[i].grid
        && ms[i].grid.is_valid() by {
        lemma_tiled_part_metas(hs, hs.len() as int, i);
    }
    lemma_tiles_before(ms, v, v.len() as int);
    let n = tiles_of(ms, ms.len() as int);
    let start = hs.last().end + 8 * n;
    let g = part_grid(v[p]);
    let m = v[p].tiled.image.meta;
    let (boards, at) = boards_after(s, start, ms, n)->Ok_0;
    let (tx, ty) = (x / g.tile_x as int, y / g.tile_y as int);
    lemma_position(g.width as int, g.tile_x as int, x);
    lemma_position(g.height as int, g.tile_y as int, y);
    lemma_tile_index(g, tx, ty);
    lemma_boards_held(s, start, ms, n, p, tx, ty);
    assert(is_complete(boards[p]));
    lemma_pixel_of_tiles(g, boards[p], m.channels.len(), c, y, x);
    let named = part_tile_named(s, start, p, tx, ty);
    let read = part_tile_read(s, start, g, m.compression, m.channels);
    assert(tile_held(boards[p][ty * g.across() + tx], named, read, n));
}

} // verus!
