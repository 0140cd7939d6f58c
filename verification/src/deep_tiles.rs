//! Tiles of deep pixels: reading and writing one tile, and putting the tiles
//! of an image together.
//!
//! The chunk of a tile begins with its column, its row and its level, twice.
//! Behind them stands the record of a block.

use crate::bytes::{
    i32_at, i32_le, i32_of_u32, lemma_i32_reads_back, lemma_stands_split, put_i32, read_i32,
    read_u64, stands_at, to_signed, u64_at,
};
use crate::deep::{is_sound, InputView, LineSource};
use crate::deep_block::{
    block_packed, lemma_cell, pack_block, plain_shape, plane_views, put_record, reads_back,
    record_bytes, row_sum, sums_fit, BlockShape, BlockView, DeepBlock, PackedBlock, PackedView,
};
use crate::deep_input::{
    copy_samples, lemma_record_reads_back, read_record, record_block, stored_pixels,
};
use crate::deep_lines::DeepPixels;
use crate::error::{ExrError, Fault};
use crate::grid::{
    lemma_pixel_home, lemma_position, lemma_step, lemma_tile_index, lemma_tile_pixel,
    lemma_tile_split, Grid,
};
use crate::layout::byte_views;
use crate::ragged::{
    join, lemma_join_len, lemma_join_mapped, lemma_join_of_pieces, lemma_join_same,
    lemma_piece_of_join, lemma_total_bound, lemma_total_monotonic, mapped, piece, sum, total,
};
use crate::samples::stored_plane;
use crate::types::{channel_views, Channel, ChannelView, Compression};
use vstd::prelude::*;

verus! {

broadcast use crate::bytes::group_le_len;

// ----------------------------------------------------------------------
// Reading
// ----------------------------------------------------------------------
/// The shape of the block of a tile. A table that is not compressed may be
/// stored for a full tile also where the tile is smaller.
pub open spec fn tile_shape(g: Grid, tx: int, ty: int, c: Compression, stored: int) -> BlockShape {
    let w = g.tile_w(tx) as u32;
    let h = g.tile_h(ty) as u32;
    if c == Compression::Uncompressed && stored == 4 * (g.tile_y * g.tile_x) {
        BlockShape { rows: h, cols: w, table_rows: g.tile_y, stride: g.tile_x }
    } else {
        plain_shape(h, w)
    }
}

/// The number of the tile whose chunk stands at `b`, its block, and the
/// position behind it.
pub open spec fn tile_at(s: Seq<u8>, b: int, g: Grid, c: Compression, cs: Seq<ChannelView>) -> Option<
    (int, BlockView, int),
> {
    let tx = i32_at(s, b) as int;
    let ty = i32_at(s, b + 4) as int;
    if b + 40 > s.len() || tx < 0 || ty < 0 || tx >= g.across() || ty >= g.down() {
        None
    } else {
        match record_block(s, b + 16, tile_shape(g, tx, ty, c, u64_at(s, b + 16) as int), c, cs) {
            None => None,
            Some((block, end)) => Some((ty * g.across() + tx, block, end)),
        }
    }
}

/// The tiles with the tile whose chunk stands at `b`, which they did not have
/// before, and the position behind it.
pub open spec fn with_tile(
    s: Seq<u8>,
    b: int,
    g: Grid,
    c: Compression,
    cs: Seq<ChannelView>,
    tiles: Seq<Option<BlockView>>,
) -> Option<(Seq<Option<BlockView>>, int)> {
    match tile_at(s, b, g, c, cs) {
        None => None,
        Some((i, block, end)) => if tiles[i] is Some {
            None
        } else {
            Some((tiles.update(i, Some(block)), end))
        },
    }
}

/// No tiles of `n`.
pub open spec fn no_tiles(n: int) -> Seq<Option<BlockView>> {
    Seq::new(n as nat, |i: int| None::<BlockView>)
}

/// The block of the tile that holds pixel `p`.
pub open spec fn home(g: Grid, tiles: Seq<Option<BlockView>>, p: int) -> BlockView {
    tiles[g.tile_of(p)]->Some_0
}

/// The samples of pixel `p` in channel `c`.
pub open spec fn pixel_samples(g: Grid, tiles: Seq<Option<BlockView>>, c: int, p: int) -> Seq<u32> {
    piece(home(g, tiles, p).planes[c], home(g, tiles, p).counts, g.cell_of(p))
}

/// The pixels of an image, from its tiles.
pub open spec fn assembled(g: Grid, tiles: Seq<Option<BlockView>>, channels: nat) -> BlockView {
    BlockView {
        counts: Seq::new(g.area() as nat, |p: int| home(g, tiles, p).counts[g.cell_of(p)]),
        planes: Seq::new(
            channels,
            |c: int| join(|p: int| pixel_samples(g, tiles, c, p), g.area()),
        ),
    }
}

/// No tile is missing.
pub open spec fn is_complete(tiles: Seq<Option<BlockView>>) -> bool {
    forall|i: int| 0 <= i < tiles.len() ==> #[trigger] tiles[i] is Some
}

/// A block of `n` pixels in the given number of channels.
pub open spec fn block_fits(b: BlockView, n: int, channels: nat) -> bool {
    &&& b.counts.len() == n
    &&& b.planes.len() == channels
    &&& forall|c: int| 0 <= c < channels ==> (#[trigger] b.planes[c]).len() == sum(b.counts)
}

/// Every tile has the size that the grid gives it.
pub open spec fn tiles_fit(g: Grid, tiles: Seq<Option<BlockView>>, channels: nat) -> bool {
    &&& tiles.len() == g.tiles()
    &&& forall|i: int|
        #![trigger tiles[i]]
        0 <= i < tiles.len() ==> (tiles[i] matches Some(b) ==> block_fits(
            b,
            g.cells(i % g.across(), i / g.across()),
            channels,
        ))
}

/// The tiles that a list of blocks stands for.
pub open spec fn tile_views(v: Seq<Option<DeepBlock>>) -> Seq<Option<BlockView>> {
    Seq::new(
        v.len(),
        |i: int|
            match v[i] {
                Some(b) => Some(b@),
                None => None,
            },
    )
}

pub proof fn lemma_block_fits(
    s: Seq<u8>,
    b: int,
    shape: BlockShape,
    c: Compression,
    cs: Seq<ChannelView>,
)
    ensures
        record_block(s, b, shape, c, cs) matches Some((v, end)) ==> block_fits(
            v,
            shape.cells(),
            cs.len(),
        ),
{
    if let Some((v, end)) = record_block(s, b, shape, c, cs) {
        lemma_total_bound(v.counts, v.counts.len() as int);
        let w = shape.cols as int;
        let h = shape.rows as int;
        assert(h * w >= 0) by (nonlinear_arith)
            requires
                h >= 0,
                w >= 0,
        ;
    }
}

/// A tile that was read has the size that the grid gives it.
pub proof fn lemma_tile_fits(s: Seq<u8>, b: int, g: Grid, c: Compression, cs: Seq<ChannelView>)
    requires
        g.is_valid(),
    ensures
        tile_at(s, b, g, c, cs) matches Some((i, block, end)) ==> 0 <= i < g.tiles() && block_fits(
            block,
            g.cells(i % g.across(), i / g.across()),
            cs.len(),
        ),
{
    if let Some((i, block, end)) = tile_at(s, b, g, c, cs) {
        let tx = i32_at(s, b) as int;
        let ty = i32_at(s, b + 4) as int;
        let shape = tile_shape(g, tx, ty, c, u64_at(s, b + 16) as int);
        lemma_tile_index(g, tx, ty);
        lemma_step(g.width as int, g.tile_x as int, tx);
        lemma_step(g.height as int, g.tile_y as int, ty);
        lemma_block_fits(s, b + 16, shape, c, cs);
    }
}

/// The tiles keep their sizes while they are read.
pub proof fn lemma_with_tile_fits(
    s: Seq<u8>,
    b: int,
    g: Grid,
    c: Compression,
    cs: Seq<ChannelView>,
    tiles: Seq<Option<BlockView>>,
)
    requires
        g.is_valid(),
        tiles_fit(g, tiles, cs.len()),
    ensures
        with_tile(s, b, g, c, cs, tiles) matches Some((t, end)) ==> tiles_fit(g, t, cs.len()),
{
    lemma_tile_fits(s, b, g, c, cs);
}

/// Read the tile whose chunk stands at `b`, and take it among the tiles.
pub fn take_tile(
    s: &[u8],
    b: usize,
    g: Grid,
    c: Compression,
    channels: &[Channel],
    tiles: &mut Vec<Option<DeepBlock>>,
) -> (r: Result<usize, ExrError>)
    requires
        b + 40 <= s@.len(),
        g.is_valid(),
        old(tiles)@.len() == g.tiles(),
    ensures
        r matches Ok(end) ==> end <= s@.len() && with_tile(
            s@,
            b as int,
            g,
            c,
            channel_views(channels@),
            tile_views(old(tiles)@),
        ) == Some((tile_views(final(tiles)@), end as int)),
        r matches Err(e) ==> e.fault() == Fault::Invalid && with_tile(
            s@,
            b as int,
            g,
            c,
            channel_views(channels@),
            tile_views(old(tiles)@),
        ) is None,
{
    assert(s.len() == s@.len());
    let tx: i32 = read_i32(s, b);
    let ty: i32 = read_i32(s, b + 4);
    let across: u32 = g.columns();
    if tx < 0 || ty < 0 || tx as u32 >= across || ty as u32 >= g.lines() {
        return Err(ExrError::invalid("deep tile outside the grid"));
    }
    let w: u32 = g.tile_width(tx as u32);
    let h: u32 = g.tile_height(ty as u32);
    let stored: u64 = read_u64(s, b + 16);
    proof {
        assert(g.tile_y * g.tile_x <= 0xffff_ffff * 0xffff_ffff) by (nonlinear_arith)
            requires
                g.tile_x <= 0xffff_ffff,
                g.tile_y <= 0xffff_ffff,
        ;
    }
    let full: u128 = 4 * (g.tile_y as u128 * g.tile_x as u128);
    let shape: BlockShape = if c == Compression::Uncompressed && stored as u128 == full {
        BlockShape { rows: h, cols: w, table_rows: g.tile_y, stride: g.tile_x }
    } else {
        BlockShape { rows: h, cols: w, table_rows: h, stride: w }
    };
    assert(shape == tile_shape(g, tx as int, ty as int, c, stored as int));
    let (block, end) = read_record(s, b + 16, shape, c, channels)?;
    proof {
        lemma_tile_index(g, tx as int, ty as int);
        assert(tiles.len() == tiles@.len());
        assert(0 <= ty * across) by (nonlinear_arith)
            requires
                ty >= 0,
                across >= 0,
        ;
    }
    let i: usize = ty as usize * across as usize + tx as usize;
    assert(tile_views(tiles@)[i as int] == (match tiles@[i as int] {
        Some(b) => Some(b@),
        None => None,
    }));
    if tiles[i].is_some() {
        return Err(ExrError::invalid("deep tile appears more than once"));
    }
    let ghost before = tile_views(tiles@);
    let ghost view = block@;
    tiles.set(i, Some(block));
    assert(tile_views(tiles@) =~= before.update(i as int, Some(view)));
    Ok(end)
}

/// A list for `n` tiles.
pub fn blank_tiles(n: usize) -> (r: Vec<Option<DeepBlock>>)
    ensures
        tile_views(r@) == no_tiles(n as int),
{
    let mut r: Vec<Option<DeepBlock>> = Vec::new();
    let mut i: usize = 0;
    while i < n
        invariant
            i <= n,
            r@.len() == i,
            forall|j: int| 0 <= j < i ==> #[trigger] r@[j] is None,
        decreases n - i,
    {
        r.push(None);
        i = i + 1;
    }
    assert(tile_views(r@) =~= no_tiles(n as int));
    r
}

/// The sums of the first counts: none of them, one of them, and so on.
pub fn running_totals(counts: &[u32]) -> (r: Vec<u128>)
    ensures
        r@.len() == counts@.len() + 1,
        forall|i: int| 0 <= i <= counts@.len() ==> #[trigger] r@[i] == total(counts@, i),
{
    let mut r: Vec<u128> = Vec::new();
    r.push(0);
    let mut acc: u128 = 0;
    let mut i: usize = 0;
    let ghost len = counts.len();
    while i < counts.len()
        invariant
            i <= counts@.len(),
            len == counts@.len(),
            acc == total(counts@, i as int),
            r@.len() == i + 1,
            forall|j: int| 0 <= j <= i ==> #[trigger] r@[j] == total(counts@, j),
        decreases counts@.len() - i,
    {
        proof {
            lemma_total_bound(counts@, i as int);
        }
        acc = acc + counts[i] as u128;
        r.push(acc);
        i = i + 1;
    }
    r
}

/// The tile that holds the pixel in row `y` and column `x`, and the place of
/// the pixel in it.
fn locate(g: &Grid, across: u32, x: u32, y: u32) -> (r: (usize, usize))
    requires
        g.is_valid(),
        across == g.across(),
        x < g.width,
        y < g.height,
        g.tiles() <= usize::MAX,
        g.area() <= usize::MAX,
    ensures
        0 <= y * g.width + x < g.area(),
        r.0 == g.tile_of(y * g.width + x),
        r.1 == g.cell_of(y * g.width + x),
{
    let tx: u32 = x / g.tile_x;
    let ty: u32 = y / g.tile_y;
    proof {
        lemma_cell(y as int, x as int, g.width as int);
        let p = y * g.width + x;
        assert(0 <= p < g.height * g.width) by (nonlinear_arith)
            requires
                p == y * g.width + x,
                0 <= x < g.width,
                0 <= y < g.height,
        ;
        lemma_position(g.width as int, g.tile_x as int, x as int);
        lemma_position(g.height as int, g.tile_y as int, y as int);
        lemma_pixel_home(*g, p);
        lemma_step(g.width as int, g.tile_x as int, tx as int);
        lemma_step(g.height as int, g.tile_y as int, ty as int);
        let c = g.cells(tx as int, ty as int);
        assert(c <= g.height * g.width) by (nonlinear_arith)
            requires
                c == g.tile_h(ty as int) * g.tile_w(tx as int),
                0 < g.tile_h(ty as int) <= g.height,
                0 < g.tile_w(tx as int) <= g.width,
        ;
        assert(0 <= ty * across) by (nonlinear_arith);
        assert(0 <= (y % g.tile_y) * g.tile_w(tx as int)) by (nonlinear_arith)
            requires
                0 <= y % g.tile_y,
                0 < g.tile_w(tx as int),
        ;
    }
    let t: usize = ty as usize * across as usize + tx as usize;
    let j: usize = (y % g.tile_y) as usize * g.tile_width(tx) as usize + (x % g.tile_x) as usize;
    (t, j)
}

/// The running totals of every tile.
fn tile_totals(tiles: &[Option<DeepBlock>]) -> (r: Vec<Vec<u128>>)
    requires
        is_complete(tile_views(tiles@)),
    ensures
        r@.len() == tiles@.len(),
        forall|t: int, j: int|
            #![trigger r@[t]@[j]]
            0 <= t < tiles@.len() && 0 <= j <= (tile_views(tiles@)[t]->Some_0).counts.len()
                ==> r@[t]@.len() == (tile_views(tiles@)[t]->Some_0).counts.len() + 1 && r@[t]@[j]
                == total((tile_views(tiles@)[t]->Some_0).counts, j),
        forall|t: int|
            0 <= t < tiles@.len() ==> (#[trigger] r@[t])@.len() == (tile_views(
                tiles@,
            )[t]->Some_0).counts.len() + 1,
{
    let ghost tv = tile_views(tiles@);
    let mut r: Vec<Vec<u128>> = Vec::new();
    let mut i: usize = 0;
    while i < tiles.len()
        invariant
            i <= tiles@.len(),
            tv == tile_views(tiles@),
            is_complete(tv),
            r@.len() == i,
            forall|t: int, j: int|
                #![trigger r@[t]@[j]]
                0 <= t < i && 0 <= j <= (tv[t]->Some_0).counts.len() ==> r@[t]@[j] == total(
                    (tv[t]->Some_0).counts,
                    j,
                ),
            forall|t: int|
                0 <= t < i ==> (#[trigger] r@[t])@.len() == (tv[t]->Some_0).counts.len() + 1,
        decreases tiles@.len() - i,
    {
        assert(tv[i as int] is Some);
        if let Some(b) = &tiles[i] {
            r.push(running_totals(b.counts.as_slice()));
        }
        i = i + 1;
    }
    r
}

/// The pixel behind pixel `y * w + x`, in the order of the pixels.
proof fn lemma_next_row(y: int, w: int)
    ensures
        (y + 1) * w == y * w + w,
        0 * w == 0,
{
    assert((y + 1) * w == y * w + w) by (nonlinear_arith);
}

/// The counts of all pixels.
fn assemble_counts(g: &Grid, tiles: &[Option<DeepBlock>], channels: usize) -> (r: Vec<u32>)
    requires
        g.is_valid(),
        g.area() <= usize::MAX,
        tiles_fit(*g, tile_views(tiles@), channels as nat),
        is_complete(tile_views(tiles@)),
    ensures
        r@ == assembled(*g, tile_views(tiles@), channels as nat).counts,
{
    let ghost tv = tile_views(tiles@);
    let ghost want = assembled(*g, tv, channels as nat).counts;
    let across: u32 = g.columns();
    let mut r: Vec<u32> = Vec::new();
    let mut y: u32 = 0;
    assert(tiles.len() == tiles@.len());
    proof {
        lemma_next_row(0, g.width as int);
    }
    while y < g.height
        invariant
            y <= g.height,
            g.is_valid(),
            across == g.across(),
            g.area() <= usize::MAX,
            g.tiles() <= usize::MAX,
            tv == tile_views(tiles@),
            tiles_fit(*g, tv, channels as nat),
            is_complete(tv),
            want == assembled(*g, tv, channels as nat).counts,
            r@.len() == y * g.width,
            forall|p: int| 0 <= p < r@.len() ==> r@[p] == want[p],
        decreases g.height - y,
    {
        let mut x: u32 = 0;
        while x < g.width
            invariant
                x <= g.width,
                y < g.height,
                g.is_valid(),
                across == g.across(),
                g.area() <= usize::MAX,
                g.tiles() <= usize::MAX,
                tv == tile_views(tiles@),
                tiles_fit(*g, tv, channels as nat),
                is_complete(tv),
                want == assembled(*g, tv, channels as nat).counts,
                r@.len() == y * g.width + x,
                forall|p: int| 0 <= p < r@.len() ==> r@[p] == want[p],
            decreases g.width - x,
        {
            let (t, j) = locate(g, across, x, y);
            proof {
                lemma_pixel_home(*g, y * g.width + x);
                assert(tv[t as int] is Some);
            }
            if let Some(b) = &tiles[t] {
                r.push(b.counts[j]);
            }
            x = x + 1;
        }
        proof {
            lemma_next_row(y as int, g.width as int);
        }
        y = y + 1;
    }
    assert(r@ =~= want);
    r
}

/// The samples of all pixels in channel `c`.
fn assemble_plane(
    g: &Grid,
    tiles: &[Option<DeepBlock>],
    totals: &Vec<Vec<u128>>,
    channels: usize,
    c: usize,
) -> (r: Vec<u32>)
    requires
        g.is_valid(),
        g.area() <= usize::MAX,
        c < channels,
        tiles_fit(*g, tile_views(tiles@), channels as nat),
        is_complete(tile_views(tiles@)),
        totals@.len() == tiles@.len(),
        forall|t: int, j: int|
            #![trigger totals@[t]@[j]]
            0 <= t < tiles@.len() && 0 <= j <= (tile_views(tiles@)[t]->Some_0).counts.len()
                ==> totals@[t]@[j] == total((tile_views(tiles@)[t]->Some_0).counts, j),
        forall|t: int|
            0 <= t < tiles@.len() ==> (#[trigger] totals@[t])@.len() == (tile_views(
                tiles@,
            )[t]->Some_0).counts.len() + 1,
    ensures
        r@ == assembled(*g, tile_views(tiles@), channels as nat).planes[c as int],
{
    let ghost tv = tile_views(tiles@);
    let ghost f = |p: int| pixel_samples(*g, tv, c as int, p);
    let across: u32 = g.columns();
    let mut r: Vec<u32> = Vec::new();
    let mut y: u32 = 0;
    assert(tiles.len() == tiles@.len());
    proof {
        lemma_next_row(0, g.width as int);
    }
    while y < g.height
        invariant
            y <= g.height,
            g.is_valid(),
            across == g.across(),
            g.area() <= usize::MAX,
            g.tiles() <= usize::MAX,
            c < channels,
            tv == tile_views(tiles@),
            tiles_fit(*g, tv, channels as nat),
            is_complete(tv),
            totals@.len() == tiles@.len(),
            forall|t: int, j: int|
                #![trigger totals@[t]@[j]]
                0 <= t < tiles@.len() && 0 <= j <= (tv[t]->Some_0).counts.len() ==> totals@[t]@[j]
                    == total((tv[t]->Some_0).counts, j),
            forall|t: int|
                0 <= t < tiles@.len() ==> (#[trigger] totals@[t])@.len() == (
                tv[t]->Some_0).counts.len() + 1,
            f == (|p: int| pixel_samples(*g, tv, c as int, p)),
            r@ == join(f, y * g.width),
        decreases g.height - y,
    {
        let mut x: u32 = 0;
        while x < g.width
            invariant
                x <= g.width,
                y < g.height,
                g.is_valid(),
                across == g.across(),
                g.area() <= usize::MAX,
                g.tiles() <= usize::MAX,
                c < channels,
                tv == tile_views(tiles@),
                tiles_fit(*g, tv, channels as nat),
                is_complete(tv),
                totals@.len() == tiles@.len(),
                forall|t: int, j: int|
                    #![trigger totals@[t]@[j]]
                    0 <= t < tiles@.len() && 0 <= j <= (tv[t]->Some_0).counts.len()
                        ==> totals@[t]@[j] == total((tv[t]->Some_0).counts, j),
                forall|t: int|
                    0 <= t < tiles@.len() ==> (#[trigger] totals@[t])@.len() == (
                    tv[t]->Some_0).counts.len() + 1,
                f == (|p: int| pixel_samples(*g, tv, c as int, p)),
                r@ == join(f, y * g.width + x),
            decreases g.width - x,
        {
            let (t, j) = locate(g, across, x, y);
            let ghost p = y * g.width + x;
            proof {
                lemma_pixel_home(*g, p);
                assert(tv[t as int] is Some);
                let b = tv[t as int]->Some_0;
                lemma_total_monotonic(b.counts, j as int, j + 1);
                lemma_total_monotonic(b.counts, j + 1, b.counts.len() as int);
                assert(b.planes[c as int].len() == sum(b.counts));
            }
            if let Some(b) = &tiles[t] {
                assert(b@ == home(*g, tv, p));
                assert(b.planes@[c as int]@ == b@.planes[c as int]);
                assert(b.counts.len() == b.counts@.len());
                assert(totals@[t as int]@[j as int] == total(b@.counts, j as int));
                assert(totals@[t as int]@[j + 1] == total(b@.counts, j + 1));
                let from: u128 = totals[t][j];
                let to: u128 = totals[t][j + 1];
                let plane: &Vec<u32> = &b.planes[c];
                assert(plane.len() == plane@.len());
                let part: Vec<u32> = copy_samples(plane.as_slice(), from as usize, to as usize);
                r.extend_from_slice(part.as_slice());
                assert(r@ =~= join(f, p) + f(p));
                assert(join(f, p + 1) == join(f, p) + f(p));
            }
            x = x + 1;
        }
        proof {
            lemma_next_row(y as int, g.width as int);
        }
        y = y + 1;
    }
    r
}

/// Put the tiles of an image together.
pub fn assemble(g: &Grid, tiles: &[Option<DeepBlock>], channels: usize) -> (r: Result<
    DeepPixels,
    ExrError,
>)
    requires
        g.is_valid(),
        g.area() <= usize::MAX,
        tiles_fit(*g, tile_views(tiles@), channels as nat),
    ensures
        r matches Ok(v) ==> is_complete(tile_views(tiles@)) && v@ == assembled(
            *g,
            tile_views(tiles@),
            channels as nat,
        ) && block_fits(v@, g.area(), channels as nat),
        r matches Err(e) ==> e.fault() == Fault::Invalid && !is_complete(tile_views(tiles@)),
{
    let ghost tv = tile_views(tiles@);
    let mut i: usize = 0;
    while i < tiles.len()
        invariant
            i <= tiles@.len(),
            tv == tile_views(tiles@),
            forall|j: int| 0 <= j < i ==> #[trigger] tv[j] is Some,
        decreases tiles@.len() - i,
    {
        assert(tv[i as int] is Some <==> tiles@[i as int] is Some);
        if tiles[i].is_none() {
            return Err(ExrError::invalid("deep tile grid missing one or more tiles"));
        }
        i = i + 1;
    }
    let counts: Vec<u32> = assemble_counts(g, tiles, channels);
    let totals: Vec<Vec<u128>> = tile_totals(tiles);
    let mut planes: Vec<Vec<u32>> = Vec::new();
    let mut c: usize = 0;
    while c < channels
        invariant
            c <= channels,
            g.is_valid(),
            g.area() <= usize::MAX,
            tv == tile_views(tiles@),
            tiles_fit(*g, tv, channels as nat),
            is_complete(tv),
            totals@.len() == tiles@.len(),
            forall|t: int, j: int|
                #![trigger totals@[t]@[j]]
                0 <= t < tiles@.len() && 0 <= j <= (tv[t]->Some_0).counts.len() ==> totals@[t]@[j]
                    == total((tv[t]->Some_0).counts, j),
            forall|t: int|
                0 <= t < tiles@.len() ==> (#[trigger] totals@[t])@.len() == (
                tv[t]->Some_0).counts.len() + 1,
            planes@.len() == c,
            forall|i: int|
                0 <= i < c ==> (#[trigger] planes@[i])@ == assembled(*g, tv, channels as nat).planes[i],
        decreases channels - c,
    {
        planes.push(assemble_plane(g, tiles, &totals, channels, c));
        c = c + 1;
    }
    let ghost all = assembled(*g, tv, channels as nat);
    proof {
        assert(plane_views(planes@) =~= all.planes);
        assert(counts.len() == g.area());
        assert forall|c: int| 0 <= c < channels implies (#[trigger] all.planes[c]).len() == sum(
            all.counts,
        ) by {
            law_assembled(*g, tv, channels as nat, c);
        }
    }
    Ok(DeepPixels { counts, planes })
}

/// In the pixels of an image in tiles, the samples of each channel are as many
/// as the counts say, and those of a pixel begin behind those of all pixels in
/// front of it, row by row.
pub proof fn law_assembled(g: Grid, tiles: Seq<Option<BlockView>>, channels: nat, c: int)
    requires
        g.is_valid(),
        tiles_fit(g, tiles, channels),
        is_complete(tiles),
        0 <= c < channels,
    ensures
        ({
            let v = assembled(g, tiles, channels);
            &&& v.counts.len() == g.area()
            &&& v.planes[c].len() == sum(v.counts)
            &&& forall|p: int|
                0 <= p < g.area() ==> #[trigger] piece(v.planes[c], v.counts, p) == pixel_samples(
                    g,
                    tiles,
                    c,
                    p,
                )
        }),
{
    let v = assembled(g, tiles, channels);
    let f = |p: int| pixel_samples(g, tiles, c, p);
    let n = g.area();
    assert(n >= 0) by (nonlinear_arith)
        requires
            n == g.height * g.width,
    ;
    assert forall|p: int| #![trigger f(p)] 0 <= p < n implies f(p).len() == v.counts[p] by {
        lemma_pixel_home(g, p);
        let b = home(g, tiles, p);
        let j = g.cell_of(p);
        assert(tiles[g.tile_of(p)] is Some);
        lemma_total_monotonic(b.counts, 0, j);
        lemma_total_monotonic(b.counts, j, j + 1);
        lemma_total_monotonic(b.counts, j + 1, b.counts.len() as int);
    }
    lemma_join_len(f, v.counts, n);
    assert forall|p: int| 0 <= p < n implies #[trigger] piece(v.planes[c], v.counts, p)
        == pixel_samples(g, tiles, c, p) by {
        lemma_piece_of_join(f, v.counts, n, p);
        assert(f(p) == pixel_samples(g, tiles, c, p));
    }
}

// ----------------------------------------------------------------------
// Writing
// ----------------------------------------------------------------------
/// The sum of the counts in the row of cell `k`, up to and with that cell,
/// where the counts are taken as signed 32-bit integers.
pub open spec fn signed_sum(counts: Seq<u32>, cols: int, k: int) -> int
    decreases k,
{
    if k <= 0 || k % cols == 0 {
        i32_of_u32(counts[k]) as int
    } else {
        signed_sum(counts, cols, k - 1) + i32_of_u32(counts[k])
    }
}

/// No such sum leaves the signed 32-bit integers.
pub open spec fn sums_hold(counts: Seq<u32>, cols: int) -> bool {
    forall|k: int|
        0 <= k < counts.len() ==> -0x8000_0000 <= #[trigger] signed_sum(counts, cols, k)
            <= 0x7fff_ffff
}

/// Where no count is above the signed 32-bit integers, sums that hold fit.
pub proof fn lemma_sums_hold(counts: Seq<u32>, cols: int)
    requires
        sums_hold(counts, cols),
        forall|i: int| 0 <= i < counts.len() ==> counts[i] <= 0x7fff_ffff,
    ensures
        sums_fit(counts, cols),
{
    assert forall|k: int| 0 <= k < counts.len() implies #[trigger] row_sum(counts, cols, k)
        <= 0x7fff_ffff by {
        lemma_signed_sum(counts, cols, k);
        assert(signed_sum(counts, cols, k) <= 0x7fff_ffff);
    }
}

proof fn lemma_signed_sum(counts: Seq<u32>, cols: int, k: int)
    requires
        0 <= k < counts.len(),
        forall|i: int| 0 <= i < counts.len() ==> counts[i] <= 0x7fff_ffff,
    ensures
        signed_sum(counts, cols, k) == row_sum(counts, cols, k),
    decreases k,
{
    assert(i32_of_u32(counts[k]) == counts[k]);
    if k > 0 && k % cols != 0 {
        lemma_signed_sum(counts, cols, k - 1);
    }
}

/// Check that the sums of the counts hold.
fn check_sums(counts: &[u32], rows: u32, cols: u32) -> (r: bool)
    requires
        cols > 0,
        counts@.len() == rows * cols,
    ensures
        r == sums_hold(counts@, cols as int),
{
    let ghost w = cols as int;
    let mut y: u32 = 0;
    let mut k: usize = 0;
    assert(counts.len() == counts@.len());
    assert(0 * w == 0);
    while y < rows
        invariant
            y <= rows,
            cols > 0,
            w == cols,
            counts@.len() == rows * w,
            counts@.len() <= usize::MAX,
            k == y * w,
            forall|i: int|
                0 <= i < k ==> -0x8000_0000 <= #[trigger] signed_sum(counts@, w, i) <= 0x7fff_ffff,
        decreases rows - y,
    {
        let mut acc: i64 = 0;
        let mut x: u32 = 0;
        proof {
            lemma_next_row(y as int, w);
            assert(y * w + w <= rows * w) by (nonlinear_arith)
                requires
                    y + 1 <= rows,
                    w > 0,
            ;
        }
        while x < cols
            invariant
                x <= cols,
                y < rows,
                w == cols,
                cols > 0,
                counts@.len() == rows * w,
                counts@.len() <= usize::MAX,
                y * w + w <= rows * w,
                k == y * w + x,
                x == 0 ==> acc == 0,
                x > 0 ==> acc == signed_sum(counts@, w, k - 1) && -0x8000_0000 <= acc
                    <= 0x7fff_ffff,
                forall|i: int|
                    0 <= i < k ==> -0x8000_0000 <= #[trigger] signed_sum(counts@, w, i)
                        <= 0x7fff_ffff,
            decreases cols - x,
        {
            proof {
                lemma_cell(y as int, x as int, w);
                if k == 0 {
                    assert(x == 0) by (nonlinear_arith)
                        requires
                            y * w + x == 0,
                            y >= 0,
                            w > 0,
                            x >= 0,
                    ;
                }
            }
            acc = acc + to_signed(counts[k]) as i64;
            assert(acc == signed_sum(counts@, w, k as int));
            if acc < -0x8000_0000 || acc > 0x7fff_ffff {
                return false;
            }
            k = k + 1;
            x = x + 1;
        }
        y = y + 1;
    }
    true
}

/// The counts of a tile.
pub open spec fn tile_counts(v: InputView, g: Grid, tx: int, ty: int) -> Seq<u32> {
    Seq::new(g.cells(tx, ty) as nat, |j: int| v.counts[g.pixel(tx, ty, j)])
}

/// The samples of the pixel at place `j` of a tile, in channel `c`.
pub open spec fn cell_samples(v: InputView, g: Grid, tx: int, ty: int, c: int, j: int) -> Seq<u32> {
    piece(v.planes[c], v.counts, g.pixel(tx, ty, j))
}

/// The samples of a tile.
pub open spec fn tile_planes(v: InputView, g: Grid, tx: int, ty: int) -> Seq<Seq<u32>> {
    Seq::new(
        v.channels.len(),
        |c: int| join(|j: int| cell_samples(v, g, tx, ty, c, j), g.cells(tx, ty)),
    )
}

/// How tile `i` is stored; nothing where the sums of its counts do not hold
/// or the entropy coder fails.
pub open spec fn tile_packed(v: InputView, g: Grid, i: int) -> Option<PackedView> {
    let tx = i % g.across();
    let ty = i / g.across();
    let counts = tile_counts(v, g, tx, ty);
    if sums_hold(counts, g.tile_w(tx)) {
        block_packed(counts, g.tile_w(tx), tile_planes(v, g, tx, ty), v.compression, v.channels)
    } else {
        None
    }
}

/// The chunk of tile `i` of a level.
#[verifier::opaque]
pub open spec fn tile_chunk(v: InputView, g: Grid, level: u32, i: int) -> Seq<u8> {
    i32_le(i32_of_u32((i % g.across()) as u32)) + (i32_le(i32_of_u32((i / g.across()) as u32)) + (
    i32_le(i32_of_u32(level)) + (i32_le(i32_of_u32(level)) + record_bytes(
        tile_packed(v, g, i)->Some_0,
    ))))
}

/// Every tile can be stored.
pub open spec fn tiles_pack(v: InputView, g: Grid) -> bool {
    forall|i: int| 0 <= i < g.tiles() ==> #[trigger] tile_packed(v, g, i) is Some
}

/// Tile `i` reads back.
pub open spec fn tile_reads_back(v: InputView, g: Grid, i: int) -> bool {
    let tx = i % g.across();
    let ty = i / g.across();
    reads_back(
        tile_packed(v, g, i)->Some_0,
        g.tile_h(ty) as u32,
        g.tile_w(tx) as u32,
        tile_counts(v, g, tx, ty),
        tile_planes(v, g, tx, ty),
        v.compression,
        v.channels,
    )
}

/// Every tile reads back.
pub open spec fn tiles_read_back(v: InputView, g: Grid) -> bool {
    forall|i: int| 0 <= i < g.tiles() ==> #[trigger] tile_reads_back(v, g, i)
}

/// The grid cuts the input.
pub open spec fn cuts(g: Grid, v: InputView) -> bool {
    &&& g.is_valid()
    &&& g.width == v.width
    &&& g.height == v.height
    &&& is_sound(v)
}

/// No count is above the signed 32-bit integers.
pub open spec fn counts_small(counts: Seq<u32>) -> bool {
    forall|i: int| 0 <= i < counts.len() ==> #[trigger] counts[i] <= 0x7fff_ffff
}

/// The pixels of an input are those of its grid, and their samples lie in its
/// planes.
pub proof fn lemma_pixel_of(v: InputView, g: Grid, p: int)
    requires
        cuts(g, v),
        0 <= p < g.area(),
    ensures
        g.area() == v.counts.len(),
        0 <= total(v.counts, p) <= total(v.counts, p + 1) <= sum(v.counts),
        total(v.counts, p + 1) - total(v.counts, p) == v.counts[p],
{
    assert(g.height * g.width == g.width * g.height) by (nonlinear_arith);
    lemma_total_monotonic(v.counts, p, p + 1);
    lemma_total_monotonic(v.counts, p + 1, v.counts.len() as int);
}

/// The counts of a tile, in a list.
fn cut_counts(v: &LineSource, g: &Grid, tx: u32, ty: u32) -> (r: Vec<u32>)
    requires
        cuts(*g, v@),
        tx < g.across(),
        ty < g.down(),
    ensures
        r@ == tile_counts(v@, *g, tx as int, ty as int),
{
    let ghost iv = v@;
    let w: u32 = g.tile_width(tx);
    let h: u32 = g.tile_height(ty);
    let mut r: Vec<u32> = Vec::new();
    let mut y: u32 = 0;
    assert(v.counts.len() == v.counts@.len());
    assert(0 * (w as int) == 0);
    while y < h
        invariant
            y <= h,
            iv == v@,
            cuts(*g, iv),
            tx < g.across(),
            ty < g.down(),
            w == g.tile_w(tx as int),
            h == g.tile_h(ty as int),
            w > 0,
            iv.counts.len() <= usize::MAX,
            ty * g.tile_y + h <= g.height,
            tx * g.tile_x + w <= g.width,
            r@.len() == y * w,
            forall|j: int|
                0 <= j < r@.len() ==> r@[j] == iv.counts[#[trigger] g.pixel(tx as int, ty as int, j)],
        decreases h - y,
    {
        let mut x: u32 = 0;
        while x < w
            invariant
                x <= w,
                y < h,
                iv == v@,
                cuts(*g, iv),
                tx < g.across(),
                ty < g.down(),
                w == g.tile_w(tx as int),
                h == g.tile_h(ty as int),
                w > 0,
                iv.counts.len() <= usize::MAX,
                ty * g.tile_y + h <= g.height,
                tx * g.tile_x + w <= g.width,
                r@.len() == y * w + x,
                forall|j: int|
                    0 <= j < r@.len() ==> r@[j] == iv.counts[#[trigger] g.pixel(
                        tx as int,
                        ty as int,
                        j,
                    )],
            decreases w - x,
        {
            proof {
                lemma_place(*g, iv, tx as int, ty as int, x as int, y as int);
            }
            let p: usize = (ty * g.tile_y + y) as usize * g.width as usize + (tx * g.tile_x
                + x) as usize;
            r.push(v.counts[p]);
            x = x + 1;
        }
        proof {
            lemma_next_row(y as int, w as int);
        }
        y = y + 1;
    }
    assert(r@ =~= tile_counts(iv, *g, tx as int, ty as int));
    r
}

/// The pixel in row `y` and column `x` of a tile.
proof fn lemma_place(g: Grid, v: InputView, tx: int, ty: int, x: int, y: int)
    requires
        cuts(g, v),
        0 <= tx < g.across(),
        0 <= ty < g.down(),
        0 <= x < g.tile_w(tx),
        0 <= y < g.tile_h(ty),
    ensures
        ({
            let j = y * g.tile_w(tx) + x;
            let p = (ty * g.tile_y + y) * g.width + (tx * g.tile_x + x);
            &&& 0 <= j < g.cells(tx, ty)
            &&& g.pixel(tx, ty, j) == p
            &&& 0 <= p < g.area()
            &&& g.area() == v.counts.len()
            &&& 0 <= ty * g.tile_y
            &&& 0 <= tx * g.tile_x
            &&& 0 <= (ty * g.tile_y + y) * g.width <= p
        }),
{
    let w = g.tile_w(tx);
    let j = y * w + x;
    assert(0 <= j < g.tile_h(ty) * w) by (nonlinear_arith)
        requires
            j == y * w + x,
            0 <= x < w,
            0 <= y < g.tile_h(ty),
    ;
    lemma_cell(y, x, w);
    lemma_tile_pixel(g, tx, ty, j);
    lemma_step(g.width as int, g.tile_x as int, tx);
    lemma_step(g.height as int, g.tile_y as int, ty);
    assert(0 <= (ty * g.tile_y + y) * g.width) by (nonlinear_arith)
        requires
            0 <= ty * g.tile_y + y,
            0 <= g.width,
    ;
    assert(g.height * g.width == g.width * g.height) by (nonlinear_arith);
}

/// The samples of a tile in channel `c`, in a list.
fn cut_plane(v: &LineSource, g: &Grid, totals: &Vec<u128>, tx: u32, ty: u32, c: usize) -> (r: Vec<u32>)
    requires
        cuts(*g, v@),
        tx < g.across(),
        ty < g.down(),
        c < v@.planes.len(),
        totals@.len() == v.counts@.len() + 1,
        forall|i: int| 0 <= i <= v.counts@.len() ==> #[trigger] totals@[i] == total(v.counts@, i),
    ensures
        r@ == tile_planes(v@, *g, tx as int, ty as int)[c as int],
{
    let ghost iv = v@;
    let ghost f = |j: int| cell_samples(iv, *g, tx as int, ty as int, c as int, j);
    let w: u32 = g.tile_width(tx);
    let h: u32 = g.tile_height(ty);
    let plane: &[u32] = v.planes[c];
    let mut r: Vec<u32> = Vec::new();
    let mut y: u32 = 0;
    assert(v.counts.len() == v.counts@.len());
    assert(plane.len() == plane@.len());
    assert(iv.planes[c as int] == plane@);
    assert(iv.planes[c as int].len() == sum(iv.counts));
    assert(0 * (w as int) == 0);
    while y < h
        invariant
            y <= h,
            iv == v@,
            cuts(*g, iv),
            tx < g.across(),
            ty < g.down(),
            w == g.tile_w(tx as int),
            h == g.tile_h(ty as int),
            w > 0,
            iv.counts.len() <= usize::MAX,
            ty * g.tile_y + h <= g.height,
            tx * g.tile_x + w <= g.width,
            plane@ == iv.planes[c as int],
            plane@.len() == sum(iv.counts),
            plane@.len() <= usize::MAX,
            totals@.len() == iv.counts.len() + 1,
            forall|i: int| 0 <= i <= iv.counts.len() ==> #[trigger] totals@[i] == total(iv.counts, i),
            f == (|j: int| cell_samples(iv, *g, tx as int, ty as int, c as int, j)),
            r@ == join(f, y * w),
        decreases h - y,
    {
        let mut x: u32 = 0;
        while x < w
            invariant
                x <= w,
                y < h,
                iv == v@,
                cuts(*g, iv),
                tx < g.across(),
                ty < g.down(),
                w == g.tile_w(tx as int),
                h == g.tile_h(ty as int),
                w > 0,
                iv.counts.len() <= usize::MAX,
                ty * g.tile_y + h <= g.height,
                tx * g.tile_x + w <= g.width,
                plane@ == iv.planes[c as int],
                plane@.len() == sum(iv.counts),
                plane@.len() <= usize::MAX,
                totals@.len() == iv.counts.len() + 1,
                forall|i: int|
                    0 <= i <= iv.counts.len() ==> #[trigger] totals@[i] == total(iv.counts, i),
                f == (|j: int| cell_samples(iv, *g, tx as int, ty as int, c as int, j)),
                r@ == join(f, y * w + x),
            decreases w - x,
        {
            proof {
                lemma_place(*g, iv, tx as int, ty as int, x as int, y as int);
            }
            let p: usize = (ty * g.tile_y + y) as usize * g.width as usize + (tx * g.tile_x
                + x) as usize;
            proof {
                lemma_pixel_of(iv, *g, p as int);
                assert(totals@[p as int] == total(iv.counts, p as int));
                assert(totals@[p + 1] == total(iv.counts, p + 1));
            }
            let part: Vec<u32> = copy_samples(plane, totals[p] as usize, totals[p + 1] as usize);
            r.extend_from_slice(part.as_slice());
            proof {
                let j = y * w + x;
                assert(f(j) == piece(iv.planes[c as int], iv.counts, p as int));
                assert(r@ =~= join(f, j) + f(j));
                assert(join(f, j + 1) == join(f, j) + f(j));
            }
            x = x + 1;
        }
        proof {
            lemma_next_row(y as int, w as int);
        }
        y = y + 1;
    }
    r
}

/// The samples of a tile are as many as its counts say.
pub proof fn lemma_tile_plane_len(v: InputView, g: Grid, tx: int, ty: int, c: int)
    requires
        cuts(g, v),
        0 <= tx < g.across(),
        0 <= ty < g.down(),
        0 <= c < v.planes.len(),
    ensures
        forall|j: int|
            #![trigger cell_samples(v, g, tx, ty, c, j)]
            0 <= j < g.cells(tx, ty) ==> cell_samples(v, g, tx, ty, c, j).len() == tile_counts(
                v,
                g,
                tx,
                ty,
            )[j],
        tile_planes(v, g, tx, ty)[c].len() == sum(tile_counts(v, g, tx, ty)),
        tile_counts(v, g, tx, ty).len() == g.cells(tx, ty),
{
    let counts = tile_counts(v, g, tx, ty);
    let f = |j: int| cell_samples(v, g, tx, ty, c, j);
    let n = g.cells(tx, ty);
    lemma_step(g.width as int, g.tile_x as int, tx);
    lemma_step(g.height as int, g.tile_y as int, ty);
    assert(n >= 0) by (nonlinear_arith)
        requires
            n == g.tile_h(ty) * g.tile_w(tx),
            g.tile_h(ty) > 0,
            g.tile_w(tx) > 0,
    ;
    assert(v.planes[c].len() == sum(v.counts));
    assert forall|j: int| #![trigger cell_samples(v, g, tx, ty, c, j)] 0 <= j < n implies cell_samples(
        v,
        g,
        tx,
        ty,
        c,
        j,
    ).len() == counts[j] by {
        lemma_tile_pixel(g, tx, ty, j);
        lemma_pixel_of(v, g, g.pixel(tx, ty, j));
    }
    assert forall|j: int| #![trigger f(j)] 0 <= j < n implies f(j).len() == counts[j] by {
        assert(f(j) == cell_samples(v, g, tx, ty, c, j));
    }
    lemma_join_len(f, counts, n);
}

/// Make the chunk of a tile, behind `prefix`.
fn make_tile_chunk(
    v: &LineSource,
    g: &Grid,
    totals: &Vec<u128>,
    tx: u32,
    ty: u32,
    level: u32,
    prefix: &[u8],
) -> (r: Result<Vec<u8>, ExrError>)
    requires
        cuts(*g, v@),
        tx < g.across(),
        ty < g.down(),
        totals@.len() == v.counts@.len() + 1,
        forall|i: int| 0 <= i <= v.counts@.len() ==> #[trigger] totals@[i] == total(v.counts@, i),
    ensures
        r matches Ok(chunk) ==> {
            let i = ty * g.across() + tx;
            &&& tile_packed(v@, *g, i) is Some
            &&& chunk@ == prefix@ + tile_chunk(v@, *g, level, i)
            &&& counts_small(v.counts@) ==> tile_reads_back(v@, *g, i)
        },
        r matches Err(e) ==> e.fault() == Fault::Invalid && tile_packed(
            v@,
            *g,
            ty * g.across() + tx,
        ) is None,
{
    let ghost iv = v@;
    let ghost i = ty * g.across() + tx;
    let counts: Vec<u32> = cut_counts(v, g, tx, ty);
    let w: u32 = g.tile_width(tx);
    let h: u32 = g.tile_height(ty);
    proof {
        lemma_tile_index(*g, tx as int, ty as int);
        assert(h * w >= 0) by (nonlinear_arith)
            requires
                h > 0,
                w > 0,
        ;
    }
    if !check_sums(counts.as_slice(), h, w) {
        return Err(ExrError::invalid("deep tile: sum of the counts of a row overflows"));
    }
    let mut planes: Vec<Vec<u32>> = Vec::new();
    let mut c: usize = 0;
    while c < v.channels.len()
        invariant
            c <= v.channels@.len(),
            iv == v@,
            cuts(*g, iv),
            tx < g.across(),
            ty < g.down(),
            totals@.len() == v.counts@.len() + 1,
            forall|i: int| 0 <= i <= v.counts@.len() ==> #[trigger] totals@[i] == total(v.counts@, i),
            planes@.len() == c,
            forall|k: int|
                0 <= k < c ==> (#[trigger] planes@[k])@ == tile_planes(iv, *g, tx as int, ty as int)[k]
                    && planes@[k]@.len() == sum(tile_counts(iv, *g, tx as int, ty as int)),
        decreases v.channels@.len() - c,
    {
        proof {
            lemma_tile_plane_len(iv, *g, tx as int, ty as int, c as int);
        }
        planes.push(cut_plane(v, g, totals, tx, ty, c));
        c = c + 1;
    }
    proof {
        assert(plane_views(planes@) =~= tile_planes(iv, *g, tx as int, ty as int));
    }
    let packed: PackedBlock = pack_block(
        counts.as_slice(),
        h,
        w,
        planes.as_slice(),
        v.compression,
        v.channels,
    )?;
    let mut chunk: Vec<u8> = Vec::new();
    crate::bytes::put_bytes(&mut chunk, prefix);
    put_i32(&mut chunk, to_signed(tx));
    put_i32(&mut chunk, to_signed(ty));
    put_i32(&mut chunk, to_signed(level));
    put_i32(&mut chunk, to_signed(level));
    put_record(&mut chunk, &packed);
    proof {
        reveal(tile_chunk);
        assert(tile_packed(iv, *g, i) == Some(packed@));
        assert(chunk@ =~= prefix@ + tile_chunk(iv, *g, level, i));
        if counts_small(iv.counts) {
            assert forall|j: int| 0 <= j < counts@.len() implies counts@[j] <= 0x7fff_ffff by {
                lemma_tile_pixel(*g, tx as int, ty as int, j);
                lemma_pixel_of(iv, *g, g.pixel(tx as int, ty as int, j));
            }
            lemma_sums_hold(counts@, w as int);
        }
    }
    Ok(chunk)
}

/// The chunks of all tiles of a level, each behind `prefix`.
pub open spec fn tile_chunks(v: InputView, g: Grid, level: u32, prefix: Seq<u8>) -> Seq<Seq<u8>> {
    Seq::new(g.tiles() as nat, |i: int| prefix + tile_chunk(v, g, level, i))
}

/// Make the chunks of all tiles, each behind `prefix`.
pub fn make_tile_chunks(v: &LineSource, g: &Grid, level: u32, prefix: &[u8]) -> (r: Result<
    Vec<Vec<u8>>,
    ExrError,
>)
    requires
        cuts(*g, v@),
    ensures
        r matches Ok(chunks) ==> {
            &&& tiles_pack(v@, *g)
            &&& byte_views(chunks@) == tile_chunks(v@, *g, level, prefix@)
            &&& counts_small(v.counts@) ==> tiles_read_back(v@, *g)
        },
        r matches Err(e) ==> e.fault() == Fault::Invalid && !tiles_pack(v@, *g),
{
    let ghost iv = v@;
    let ghost small = counts_small(v.counts@);
    let across: u32 = g.columns();
    let down: u32 = g.lines();
    let totals: Vec<u128> = running_totals(v.counts);
    let mut chunks: Vec<Vec<u8>> = Vec::new();
    let mut ty: u32 = 0;
    assert(0 * (across as int) == 0);
    while ty < down
        invariant
            ty <= down,
            down == g.down(),
            across == g.across(),
            iv == v@,
            small == counts_small(v.counts@),
            cuts(*g, iv),
            totals@.len() == v.counts@.len() + 1,
            forall|i: int| 0 <= i <= v.counts@.len() ==> #[trigger] totals@[i] == total(v.counts@, i),
            chunks@.len() == ty * across,
            forall|i: int|
                0 <= i < chunks@.len() ==> (#[trigger] chunks@[i])@ == prefix@ + tile_chunk(
                    iv,
                    *g,
                    level,
                    i,
                ),
            forall|i: int| 0 <= i < chunks@.len() ==> #[trigger] tile_packed(iv, *g, i) is Some,
            forall|i: int|
                small && 0 <= i < chunks@.len() ==> #[trigger] tile_reads_back(iv, *g, i),
        decreases down - ty,
    {
        let mut tx: u32 = 0;
        while tx < across
            invariant
                tx <= across,
                ty < down,
                down == g.down(),
                across == g.across(),
                iv == v@,
                small == counts_small(v.counts@),
                cuts(*g, iv),
                totals@.len() == v.counts@.len() + 1,
                forall|i: int|
                    0 <= i <= v.counts@.len() ==> #[trigger] totals@[i] == total(v.counts@, i),
                chunks@.len() == ty * across + tx,
                forall|i: int|
                    0 <= i < chunks@.len() ==> (#[trigger] chunks@[i])@ == prefix@ + tile_chunk(
                        iv,
                        *g,
                        level,
                        i,
                    ),
                forall|i: int| 0 <= i < chunks@.len() ==> #[trigger] tile_packed(iv, *g, i) is Some,
                forall|i: int|
                    small && 0 <= i < chunks@.len() ==> #[trigger] tile_reads_back(iv, *g, i),
            decreases across - tx,
        {
            proof {
                lemma_tile_index(*g, tx as int, ty as int);
            }
            let chunk: Vec<u8> = make_tile_chunk(v, g, &totals, tx, ty, level, prefix)?;
            chunks.push(chunk);
            tx = tx + 1;
        }
        proof {
            lemma_next_row(ty as int, across as int);
        }
        ty = ty + 1;
    }
    proof {
        assert(byte_views(chunks@) =~= tile_chunks(iv, *g, level, prefix@));
    }
    Ok(chunks)
}

// ----------------------------------------------------------------------
// What was written reads back
// ----------------------------------------------------------------------
/// What tile `i` of an input is read back as.
pub open spec fn stored_tile(v: InputView, g: Grid, i: int) -> BlockView {
    stored_pixels(
        tile_counts(v, g, i % g.across(), i / g.across()),
        tile_planes(v, g, i % g.across(), i / g.across()),
        v.channels,
    )
}

/// A table for a whole tile is as long as one for the block of the tile only
/// where the tile is full.
proof fn lemma_full_tile(g: Grid, tx: int, ty: int)
    requires
        g.is_valid(),
        0 <= tx < g.across(),
        0 <= ty < g.down(),
        g.cells(tx, ty) == g.tile_y * g.tile_x,
    ensures
        g.tile_w(tx) == g.tile_x,
        g.tile_h(ty) == g.tile_y,
{
    lemma_step(g.width as int, g.tile_x as int, tx);
    lemma_step(g.height as int, g.tile_y as int, ty);
    let w = g.tile_w(tx);
    let h = g.tile_h(ty);
    assert(w == g.tile_x && h == g.tile_y) by (nonlinear_arith)
        requires
            h * w == g.tile_y * g.tile_x,
            0 < w <= g.tile_x,
            0 < h <= g.tile_y,
    ;
}

/// The table of a stored tile has an entry for each of its pixels where it is
/// not compressed.
proof fn lemma_table_plain(v: InputView, g: Grid, i: int)
    requires
        cuts(g, v),
        0 <= i < g.tiles(),
        v.compression == Compression::Uncompressed,
        tile_packed(v, g, i) is Some,
    ensures
        (tile_packed(v, g, i)->Some_0).table.len() == 4 * g.cells(i % g.across(), i / g.across()),
{
    lemma_tile_split(g, i);
    let tx = i % g.across();
    let ty = i / g.across();
    let counts = tile_counts(v, g, tx, ty);
    lemma_step(g.width as int, g.tile_x as int, tx);
    lemma_step(g.height as int, g.tile_y as int, ty);
    let n = g.cells(tx, ty);
    assert(n >= 0) by (nonlinear_arith)
        requires
            n == g.tile_h(ty) * g.tile_w(tx),
            g.tile_h(ty) > 0,
            g.tile_w(tx) > 0,
    ;
    crate::deep_block::lemma_count_table_len(counts, g.tile_w(tx), counts.len() as int);
}

/// The shape by which the chunk of a tile is read is that by which it was
/// written.
proof fn lemma_stored_shape(v: InputView, g: Grid, i: int)
    requires
        cuts(g, v),
        0 <= i < g.tiles(),
        tile_packed(v, g, i) is Some,
    ensures
        ({
            let tx = i % g.across();
            let ty = i / g.across();
            tile_shape(
                g,
                tx,
                ty,
                v.compression,
                (tile_packed(v, g, i)->Some_0).table.len() as int,
            ) == plain_shape(g.tile_h(ty) as u32, g.tile_w(tx) as u32)
        }),
{
    lemma_tile_split(g, i);
    let tx = i % g.across();
    let ty = i / g.across();
    let n = (tile_packed(v, g, i)->Some_0).table.len() as int;
    if v.compression == Compression::Uncompressed && n == 4 * (g.tile_y * g.tile_x) {
        lemma_table_plain(v, g, i);
        lemma_full_tile(g, tx, ty);
    }
}

/// The head of the chunk of a tile, and what stands behind it.
proof fn lemma_tile_head(s: Seq<u8>, b: int, v: InputView, g: Grid, level: u32, i: int)
    requires
        stands_at(s, b, tile_chunk(v, g, level, i)),
    ensures
        i32_at(s, b) == i32_of_u32((i % g.across()) as u32),
        i32_at(s, b + 4) == i32_of_u32((i / g.across()) as u32),
        i32_at(s, b + 8) == i32_of_u32(level),
        i32_at(s, b + 12) == i32_of_u32(level),
        stands_at(s, b + 16, record_bytes(tile_packed(v, g, i)->Some_0)),
        tile_chunk(v, g, level, i).len() == 16 + record_bytes(tile_packed(v, g, i)->Some_0).len(),
{
    reveal(tile_chunk);
    let x = i32_le(i32_of_u32((i % g.across()) as u32));
    let y = i32_le(i32_of_u32((i / g.across()) as u32));
    let l = i32_le(i32_of_u32(level));
    let r = record_bytes(tile_packed(v, g, i)->Some_0);
    lemma_stands_split(s, b, x, y + (l + (l + r)));
    lemma_stands_split(s, b + 4, y, l + (l + r));
    lemma_stands_split(s, b + 8, l, l + r);
    lemma_stands_split(s, b + 12, l, r);
    lemma_i32_reads_back(s, b, i32_of_u32((i % g.across()) as u32));
    lemma_i32_reads_back(s, b + 4, i32_of_u32((i / g.across()) as u32));
    lemma_i32_reads_back(s, b + 8, i32_of_u32(level));
    lemma_i32_reads_back(s, b + 12, i32_of_u32(level));
}

/// The chunk of a tile reads back as that tile.
pub proof fn lemma_tile_reads_back(s: Seq<u8>, b: int, v: InputView, g: Grid, level: u32, i: int)
    requires
        s.len() <= u64::MAX,
        cuts(g, v),
        0 <= i < g.tiles() <= 0x7fff_ffff,
        tile_packed(v, g, i) is Some,
        tile_reads_back(v, g, i),
        stands_at(s, b, tile_chunk(v, g, level, i)),
    ensures
        tile_at(s, b, g, v.compression, v.channels) == Some(
            (i, stored_tile(v, g, i), b + tile_chunk(v, g, level, i).len()),
        ),
        b + 40 <= s.len(),
        i32_at(s, b + 8) == i32_of_u32(level),
        i32_at(s, b + 12) == i32_of_u32(level),
{
    let tx = i % g.across();
    let ty = i / g.across();
    let p = tile_packed(v, g, i)->Some_0;
    lemma_tile_split(g, i);
    assert(0 <= tx <= i && 0 <= ty <= i) by (nonlinear_arith)
        requires
            ty * g.across() + tx == i,
            0 <= tx,
            0 <= ty,
            g.across() > 0,
    ;
    lemma_tile_head(s, b, v, g, level, i);
    lemma_record_head(s, b + 16, p);
    lemma_stored_shape(v, g, i);
    lemma_record_reads_back(
        s,
        b + 16,
        p,
        g.tile_h(ty) as u32,
        g.tile_w(tx) as u32,
        tile_counts(v, g, tx, ty),
        tile_planes(v, g, tx, ty),
        v.compression,
        v.channels,
    );
}

/// A record begins with the length of its table.
proof fn lemma_record_head(s: Seq<u8>, b: int, p: PackedView)
    requires
        s.len() <= u64::MAX,
        stands_at(s, b, record_bytes(p)),
    ensures
        u64_at(s, b) == p.table.len(),
        b + 24 <= s.len(),
        record_bytes(p).len() >= 24,
{
    let t = p.table.len() as u64;
    let rest = crate::bytes::u64_le(p.data.len() as u64) + (crate::bytes::u64_le(p.size) + (p.table
        + p.data));
    lemma_stands_split(s, b, crate::bytes::u64_le(t), rest);
    crate::bytes::lemma_u64_reads_back(s, b, t);
}

/// The tiles of an input as they are read back.
pub open spec fn stored_tiles(v: InputView, g: Grid) -> Seq<Option<BlockView>> {
    Seq::new(g.tiles() as nat, |i: int| Some(stored_tile(v, g, i)))
}

/// The first `k` tiles of an input as they are read back.
pub open spec fn first_tiles(v: InputView, g: Grid, k: int) -> Seq<Option<BlockView>> {
    Seq::new(
        g.tiles() as nat,
        |i: int|
            if i < k {
                Some(stored_tile(v, g, i))
            } else {
                None
            },
    )
}

/// Taking the next tile of an input.
pub proof fn lemma_first_tiles(s: Seq<u8>, b: int, v: InputView, g: Grid, level: u32, k: int)
    requires
        s.len() <= u64::MAX,
        cuts(g, v),
        0 <= k < g.tiles() <= 0x7fff_ffff,
        tile_packed(v, g, k) is Some,
        tile_reads_back(v, g, k),
        stands_at(s, b, tile_chunk(v, g, level, k)),
    ensures
        with_tile(s, b, g, v.compression, v.channels, first_tiles(v, g, k)) == Some(
            (first_tiles(v, g, k + 1), b + tile_chunk(v, g, level, k).len()),
        ),
        b + 40 <= s.len(),
        i32_at(s, b + 8) == i32_of_u32(level),
        i32_at(s, b + 12) == i32_of_u32(level),
{
    lemma_tile_reads_back(s, b, v, g, level, k);
    assert(first_tiles(v, g, k).update(k, Some(stored_tile(v, g, k))) =~= first_tiles(v, g, k + 1));
}

/// The samples of a pixel, from the tile that holds it.
proof fn lemma_stored_samples(v: InputView, g: Grid, c: int, p: int)
    requires
        cuts(g, v),
        0 <= c < v.channels.len(),
        0 <= p < g.area(),
    ensures
        pixel_samples(g, stored_tiles(v, g), c, p) == stored_plane(
            v.channels[c].pixel_type,
            piece(v.planes[c], v.counts, p),
        ),
        home(g, stored_tiles(v, g), p).counts[g.cell_of(p)] == v.counts[p],
{
    lemma_pixel_home(g, p);
    let i = g.tile_of(p);
    let j = g.cell_of(p);
    let tx = i % g.across();
    let ty = i / g.across();
    let counts = tile_counts(v, g, tx, ty);
    let plane = tile_planes(v, g, tx, ty)[c];
    let f = |j: int| cell_samples(v, g, tx, ty, c, j);
    let t = v.channels[c].pixel_type;
    lemma_tile_plane_len(v, g, tx, ty, c);
    assert forall|k: int| #![trigger f(k)] 0 <= k < g.cells(tx, ty) implies f(k).len() == counts[k] by {
        assert(f(k) == cell_samples(v, g, tx, ty, c, k));
    }
    lemma_piece_of_join(f, counts, g.cells(tx, ty), j);
    assert(home(g, stored_tiles(v, g), p) == stored_tile(v, g, i));
    assert(piece(stored_plane(t, plane), counts, j) =~= stored_plane(t, piece(plane, counts, j)));
}

/// The tiles of an input make up its pixels.
pub proof fn law_tiles_assemble(v: InputView, g: Grid)
    requires
        cuts(g, v),
    ensures
        is_complete(stored_tiles(v, g)),
        assembled(g, stored_tiles(v, g), v.channels.len()) == stored_pixels(
            v.counts,
            v.planes,
            v.channels,
        ),
{
    let tiles = stored_tiles(v, g);
    let got = assembled(g, tiles, v.channels.len());
    let want = stored_pixels(v.counts, v.planes, v.channels);
    assert(g.height * g.width == g.width * g.height) by (nonlinear_arith);
    let n = g.area();
    assert forall|p: int| 0 <= p < n implies got.counts[p] == want.counts[p] by {
        lemma_stored_counts(v, g, p);
    }
    assert(got.counts =~= want.counts);
    assert forall|c: int| 0 <= c < v.channels.len() implies got.planes[c] == want.planes[c] by {
        let t = v.channels[c].pixel_type;
        let f = |p: int| pixel_samples(g, tiles, c, p);
        let pieces = |p: int| piece(v.planes[c], v.counts, p);
        let q = |x: u32| crate::samples::stored_value(t, x);
        let h = |p: int| mapped(pieces(p), q);
        assert forall|p: int| #![trigger f(p)] 0 <= p < n implies f(p) == h(p) by {
            lemma_stored_samples(v, g, c, p);
            assert(stored_plane(t, pieces(p)) =~= mapped(pieces(p), q));
        }
        lemma_join_same(f, h, n);
        lemma_join_mapped(pieces, q, n);
        assert(v.planes[c].len() == sum(v.counts));
        lemma_join_of_pieces(v.planes[c], v.counts, n);
        assert(v.planes[c].take(sum(v.counts)) =~= v.planes[c]);
        assert(mapped(v.planes[c], q) =~= stored_plane(t, v.planes[c]));
    }
    assert(got.planes =~= want.planes);
}

proof fn lemma_stored_counts(v: InputView, g: Grid, p: int)
    requires
        cuts(g, v),
        0 <= p < g.area(),
    ensures
        home(g, stored_tiles(v, g), p).counts[g.cell_of(p)] == v.counts[p],
{
    lemma_pixel_home(g, p);
    assert(home(g, stored_tiles(v, g), p) == stored_tile(v, g, g.tile_of(p)));
}

} // verus!
