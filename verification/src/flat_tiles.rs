//! Tiles of flat images, and the levels that an image may have.

use crate::b44::LogTable;
use crate::bytes::{i32_at, read_i32, slice_range};
use crate::deep::overwritten;
use crate::deep_block::plane_views;
use crate::deep_meta::is_full;
use crate::error::{ExrError, Fault};
use crate::flat_image::{
    chunk_planes, lemma_chunk_planes, plane_len, planes_sized, read_chunk, write_over,
};
use crate::grid::{lemma_step, Grid};
use crate::mipmap::{
    law_level_count, law_level_size, level_count, level_size, mipmap_level_count, mipmap_level_dim,
};
use crate::types::{channel_views, Channel, ChannelView, Compression};
use vstd::arithmetic::div_mod::*;
use vstd::prelude::*;

verus! {

// ----------------------------------------------------------------------
// Levels
// ----------------------------------------------------------------------
/// A level of an image: its place in the two directions, and its size.
#[derive(Debug, Clone, Copy, PartialEq, Eq, Structural)]
pub struct LevelShape {
    pub level_x: u32,
    pub level_y: u32,
    pub width: u32,
    pub height: u32,
}

/// The level at the given place.
pub open spec fn level_at(lx: int, ly: int, width: int, height: int, round_up: bool) -> LevelShape {
    LevelShape {
        level_x: lx as u32,
        level_y: ly as u32,
        width: level_size(width, lx, round_up) as u32,
        height: level_size(height, ly, round_up) as u32,
    }
}

/// The larger of two sizes.
pub open spec fn larger(a: int, b: int) -> int {
    if a > b {
        a
    } else {
        b
    }
}

/// The levels of an image: one level, the levels of a pyramid, or all pairs of
/// a level in one direction and a level in the other.
pub open spec fn levels_of(mode: u8, width: int, height: int, round_up: bool) -> Seq<LevelShape> {
    if mode == 0 {
        seq![level_at(0, 0, width, height, round_up)]
    } else if mode == 1 {
        Seq::new(
            level_count(larger(width, height), round_up) as nat,
            |l: int| level_at(l, l, width, height, round_up),
        )
    } else {
        let across = level_count(width, round_up);
        Seq::new(
            (level_count(height, round_up) * across) as nat,
            |i: int| level_at(i % across, i / across, width, height, round_up),
        )
    }
}

fn make_level(lx: u32, ly: u32, width: u32, height: u32, round_up: bool) -> (r: LevelShape)
    requires
        width > 0,
        height > 0,
    ensures
        r == level_at(lx as int, ly as int, width as int, height as int, round_up),
        0 < r.width <= width,
        0 < r.height <= height,
{
    proof {
        law_level_size(width as int, lx as int, round_up);
        law_level_size(height as int, ly as int, round_up);
    }
    LevelShape {
        level_x: lx,
        level_y: ly,
        width: mipmap_level_dim(width, lx, round_up),
        height: mipmap_level_dim(height, ly, round_up),
    }
}

/// All levels are no larger than the image.
pub open spec fn levels_fit(levels: Seq<LevelShape>, width: int, height: int) -> bool {
    forall|i: int|
        0 <= i < levels.len() ==> 0 < (#[trigger] levels[i]).width <= width && 0 < levels[i].height
            <= height
}

/// The levels of an image.
pub fn list_levels(mode: u8, width: u32, height: u32, round_up: bool) -> (r: Vec<LevelShape>)
    requires
        mode <= 2,
        width > 0,
        height > 0,
    ensures
        r@ == levels_of(mode, width as int, height as int, round_up),
        levels_fit(r@, width as int, height as int),
        0 < r@.len() <= 33 * 33,
{
    let ghost all = levels_of(mode, width as int, height as int, round_up);
    let mut r: Vec<LevelShape> = Vec::new();
    proof {
        law_level_count(width as int, round_up);
        law_level_count(height as int, round_up);
    }
    if mode == 0 {
        r.push(make_level(0, 0, width, height, round_up));
        assert(r@ =~= all);
        return r;
    }
    if mode == 1 {
        let n: u32 = mipmap_level_count(
            if width > height {
                width
            } else {
                height
            },
            round_up,
        );
        let mut l: u32 = 0;
        while l < n
            invariant
                l <= n,
                width > 0,
                height > 0,
                all == levels_of(1, width as int, height as int, round_up),
                all.len() == n,
                r@ == all.take(l as int),
                levels_fit(r@, width as int, height as int),
            decreases n - l,
        {
            r.push(make_level(l, l, width, height, round_up));
            l = l + 1;
            assert(r@ =~= all.take(l as int));
        }
        assert(r@ =~= all);
        return r;
    }
    let nx: u32 = mipmap_level_count(width, round_up);
    let ny: u32 = mipmap_level_count(height, round_up);
    assert(0 < ny * nx <= 33 * 33) by (nonlinear_arith)
        requires
            1 <= nx <= 33,
            1 <= ny <= 33,
    ;
    let total: u32 = ny * nx;
    let mut i: u32 = 0;
    while i < total
        invariant
            i <= total,
            0 < nx,
            width > 0,
            height > 0,
            all == levels_of(mode, width as int, height as int, round_up),
            mode == 2,
            nx == level_count(width as int, round_up),
            all.len() == total,
            r@ == all.take(i as int),
            levels_fit(r@, width as int, height as int),
        decreases total - i,
    {
        r.push(make_level(i % nx, i / nx, width, height, round_up));
        i = i + 1;
        assert(r@ =~= all.take(i as int));
    }
    assert(r@ =~= all);
    r
}

/// A level cut into tiles.
pub open spec fn level_grid(level: LevelShape, tile_x: u32, tile_y: u32) -> Grid {
    Grid { width: level.width, height: level.height, tile_x, tile_y }
}

/// The number of tiles of the first `k` levels.
pub open spec fn level_tiles(levels: Seq<LevelShape>, tile_x: u32, tile_y: u32, k: int) -> int
    decreases k,
{
    if k <= 0 {
        0
    } else {
        level_tiles(levels, tile_x, tile_y, k - 1) + level_grid(
            levels[k - 1],
            tile_x,
            tile_y,
        ).tiles()
    }
}

proof fn lemma_grid_bound(g: Grid)
    requires
        g.is_valid(),
    ensures
        0 < g.tiles() <= 0xffff_ffff * 0xffff_ffff,
        0 < g.across() <= g.width,
        0 < g.down() <= g.height,
{
    crate::grid::lemma_tile_count(g);
    let (a, d) = (g.across(), g.down());
    lemma_steps_bound(g.width as int, g.tile_x as int);
    lemma_steps_bound(g.height as int, g.tile_y as int);
    assert(d * a <= 0xffff_ffff * 0xffff_ffff) by (nonlinear_arith)
        requires
            0 < a <= 0xffff_ffff,
            0 < d <= 0xffff_ffff,
    ;
}

proof fn lemma_steps_bound(n: int, t: int)
    requires
        n > 0,
        t > 0,
    ensures
        crate::grid::steps(n, t) <= n,
{
    let q = crate::grid::steps(n, t);
    lemma_fundamental_div_mod(n + t - 1, t);
    lemma_mod_bound(n + t - 1, t);
    assert(q <= n) by (nonlinear_arith)
        requires
            t * q <= n + t - 1,
            n >= 1,
            t >= 1,
    ;
}

/// The number of tiles of all levels.
pub fn compute_total_tiles(levels: &[LevelShape], tile_x: u32, tile_y: u32) -> (r: u128)
    requires
        tile_x > 0,
        tile_y > 0,
        levels@.len() <= 33 * 33,
        levels_fit(levels@, u32::MAX as int, u32::MAX as int),
    ensures
        r == level_tiles(levels@, tile_x, tile_y, levels@.len() as int),
        r <= 33 * 33 * 0xffff_ffff_ffff_ffff,
{
    let mut total: u128 = 0;
    let mut k: usize = 0;
    while k < levels.len()
        invariant
            k <= levels@.len(),
            tile_x > 0,
            tile_y > 0,
            levels@.len() <= 33 * 33,
            levels_fit(levels@, u32::MAX as int, u32::MAX as int),
            total == level_tiles(levels@, tile_x, tile_y, k as int),
            total <= k * 0xffff_ffff_ffff_ffff,
        decreases levels@.len() - k,
    {
        let level: LevelShape = levels[k];
        let g: Grid = Grid { width: level.width, height: level.height, tile_x, tile_y };
        assert(levels@[k as int].width > 0);
        proof {
            lemma_grid_bound(g);
        }
        let n: u64 = g.lines() as u64 * g.columns() as u64;
        total = total + n as u128;
        k = k + 1;
    }
    total
}

// ----------------------------------------------------------------------
// Tiles
// ----------------------------------------------------------------------
/// `plane` with the samples of an area written over its own.
pub open spec fn with_area(
    plane: Seq<u32>,
    width: int,
    x0: int,
    y0: int,
    tw: int,
    th: int,
    part: Seq<u32>,
) -> Seq<u32> {
    Seq::new(
        plane.len(),
        |p: int|
            {
                let (y, x) = (p / width, p % width);
                if x0 <= x < x0 + tw && y0 <= y < y0 + th {
                    part[(y - y0) * tw + (x - x0)]
                } else {
                    plane[p]
                }
            },
    )
}

/// Planes with the samples of a tile written over their own.
pub open spec fn with_tile(planes: Seq<Seq<u32>>, g: Grid, tx: int, ty: int, part: Seq<Seq<u32>>) -> Seq<
    Seq<u32>,
> {
    Seq::new(
        planes.len(),
        |c: int|
            with_area(
                planes[c],
                g.width as int,
                tx * g.tile_x,
                ty * g.tile_y,
                g.tile_w(tx),
                g.tile_h(ty),
                part[c],
            ),
    )
}

/// Planes after a stored tile is read.
pub open spec fn tile_applied(
    planes: Seq<Seq<u32>>,
    cs: Seq<ChannelView>,
    g: Grid,
    tx: int,
    ty: int,
    payload: Seq<u8>,
    method: Compression,
    log: Seq<u16>,
) -> Result<Seq<Seq<u32>>, Fault> {
    if tx < 0 || ty < 0 || tx >= g.across() || ty >= g.down() {
        Err(Fault::Invalid)
    } else {
        match chunk_planes(payload, method, cs, g.tile_w(tx), 0, g.tile_h(ty), log) {
            Err(e) => Err(e),
            Ok(part) => Ok(with_tile(planes, g, tx, ty, part)),
        }
    }
}

/// A row more of an area.
proof fn lemma_area_row(
    plane: Seq<u32>,
    width: int,
    height: int,
    x0: int,
    y0: int,
    tw: int,
    r: int,
    part: Seq<u32>,
)
    requires
        0 < width,
        plane.len() == height * width,
        0 <= x0,
        0 <= tw,
        x0 + tw <= width,
        0 <= y0,
        0 <= r,
        y0 + r < height,
        part.len() >= r * tw + tw,
    ensures
        0 <= r * tw,
        0 <= (y0 + r) * width + x0,
        (y0 + r) * width + x0 + tw <= plane.len(),
        overwritten(
            with_area(plane, width, x0, y0, tw, r, part),
            (y0 + r) * width + x0,
            part.subrange(r * tw, r * tw + tw),
        ) == with_area(plane, width, x0, y0, tw, r + 1, part),
{
    let row = y0 + r;
    let at = row * width + x0;
    assert(0 <= r * tw) by (nonlinear_arith)
        requires
            0 <= r,
            0 <= tw,
    ;
    assert(0 <= row * width && row * width + width <= height * width) by (nonlinear_arith)
        requires
            0 <= row,
            row + 1 <= height,
            0 < width,
    ;
    let before = with_area(plane, width, x0, y0, tw, r, part);
    let line = part.subrange(r * tw, r * tw + tw);
    let after = overwritten(before, at, line);
    let want = with_area(plane, width, x0, y0, tw, r + 1, part);
    assert forall|p: int| 0 <= p < plane.len() implies after[p] == want[p] by {
        let (y, x) = (p / width, p % width);
        lemma_fundamental_div_mod(p, width);
        lemma_mod_bound(p, width);
        assert(p == y * width + x) by (nonlinear_arith)
            requires
                p == width * y + x,
        ;
        if at <= p < at + tw {
            lemma_fundamental_div_mod_converse(p, width, row, p - row * width);
            assert(y == row);
            assert(x - x0 == p - at);
            assert(line[p - at] == part[r * tw + (x - x0)]);
        } else if y == row {
            assert(!(x0 <= x < x0 + tw));
        }
    }
    assert(after =~= want);
}

/// Write the samples of an area over those of a plane.
fn write_area(
    plane: &mut Vec<u32>,
    width: u32,
    Ghost(height): Ghost<int>,
    x0: u32,
    y0: u32,
    tw: u32,
    th: u32,
    part: &[u32],
)
    requires
        0 < width,
        old(plane)@.len() == height * width,
        x0 + tw <= width,
        y0 + th <= height <= u32::MAX,
        part@.len() == th * tw,
    ensures
        final(plane)@ == with_area(
            old(plane)@,
            width as int,
            x0 as int,
            y0 as int,
            tw as int,
            th as int,
            part@,
        ),
{
    let ghost before = plane@;
    let mut r: u32 = 0;
    assert(with_area(before, width as int, x0 as int, y0 as int, tw as int, 0, part@) =~= before);
    while r < th
        invariant
            r <= th,
            0 < width,
            before.len() == height * width,
            x0 + tw <= width,
            y0 + th <= height <= u32::MAX,
            part@.len() == th * tw,
            plane@ == with_area(
                before,
                width as int,
                x0 as int,
                y0 as int,
                tw as int,
                r as int,
                part@,
            ),
        decreases th - r,
    {
        assert(plane.len() == plane@.len());
        assert(part.len() == part@.len());
        assert(r * tw + tw <= th * tw && 0 <= r * tw) by (nonlinear_arith)
            requires
                r + 1 <= th,
        ;
        proof {
            lemma_area_row(
                before,
                width as int,
                height,
                x0 as int,
                y0 as int,
                tw as int,
                r as int,
                part@,
            );
            assert(0 <= (y0 + r) * width) by (nonlinear_arith)
                requires
                    0 <= y0 + r,
                    0 < width,
            ;
        }
        let at: usize = (y0 as usize + r as usize) * width as usize + x0 as usize;
        let from: usize = r as usize * tw as usize;
        write_over(plane, at, slice_range(part, from, from + tw as usize));
        r = r + 1;
    }
}

/// Read a stored tile into planes.
pub fn apply_tile(
    planes: &mut Vec<Vec<u32>>,
    channels: &[Channel],
    g: Grid,
    tx: i32,
    ty: i32,
    payload: &[u8],
    method: Compression,
    log: &LogTable,
) -> (r: Result<(), ExrError>)
    requires
        g.is_valid(),
        log.inv(),
        is_full(channel_views(channels@)),
        planes_sized(
            plane_views(old(planes)@),
            channel_views(channels@),
            g.width as int,
            g.height as int,
        ),
    ensures
        r is Ok ==> tile_applied(
            plane_views(old(planes)@),
            channel_views(channels@),
            g,
            tx as int,
            ty as int,
            payload@,
            method,
            log@,
        ) == Ok::<Seq<Seq<u32>>, Fault>(plane_views(final(planes)@)) && planes_sized(
            plane_views(final(planes)@),
            channel_views(channels@),
            g.width as int,
            g.height as int,
        ),
        r matches Err(e) ==> tile_applied(
            plane_views(old(planes)@),
            channel_views(channels@),
            g,
            tx as int,
            ty as int,
            payload@,
            method,
            log@,
        ) == Err::<Seq<Seq<u32>>, Fault>(e.fault()),
{
    let ghost cs = channel_views(channels@);
    let ghost before = planes@;
    if tx < 0 || ty < 0 || tx as u32 >= g.columns() || ty as u32 >= g.lines() {
        return Err(ExrError::invalid("tile outside tile grid"));
    }
    let (tx, ty): (u32, u32) = (tx as u32, ty as u32);
    let tw: u32 = g.tile_width(tx);
    let th: u32 = g.tile_height(ty);
    let part: Vec<Vec<u32>> = match read_chunk(payload, method, channels, tw, 0, th, log) {
        Ok(v) => v,
        Err(e) => {
            return Err(e);
        },
    };
    proof {
        lemma_step(g.width as int, g.tile_x as int, tx as int);
        lemma_step(g.height as int, g.tile_y as int, ty as int);
    }
    let x0: u32 = tx * g.tile_x;
    let y0: u32 = ty * g.tile_y;
    let ghost want = with_tile(plane_views(before), g, tx as int, ty as int, plane_views(part@));
    let mut k: usize = 0;
    assert(plane_views(before).len() == before.len());
    proof {
        if cs.len() > 0 {
            lemma_chunk_planes(payload@, method, cs, tw as int, 0, th as int, log@, 0);
        }
        assert(plane_views(part@).len() == part@.len());
    }
    while k < channels.len()
        invariant
            k <= channels@.len(),
            cs == channel_views(channels@),
            is_full(cs),
            g.is_valid(),
            planes@.len() == cs.len(),
            before.len() == cs.len(),
            part@.len() == cs.len() || cs.len() == 0,
            x0 == tx * g.tile_x,
            y0 == ty * g.tile_y,
            tw == g.tile_w(tx as int),
            th == g.tile_h(ty as int),
            x0 + tw <= g.width,
            y0 + th <= g.height,
            planes_sized(plane_views(before), cs, g.width as int, g.height as int),
            chunk_planes(payload@, method, cs, tw as int, 0, th as int, log@) == Ok::<
                Seq<Seq<u32>>,
                Fault,
            >(plane_views(part@)),
            want == with_tile(plane_views(before), g, tx as int, ty as int, plane_views(part@)),
            forall|c: int| 0 <= c < k ==> (#[trigger] planes@[c])@ == want[c],
            forall|c: int| k <= c < cs.len() ==> planes@[c] == before[c],
        decreases channels@.len() - k,
    {
        proof {
            lemma_chunk_planes(payload@, method, cs, tw as int, 0, th as int, log@, k as int);
            assert(cs[k as int].x_sampling == 1 && cs[k as int].y_sampling == 1);
            assert(plane_views(before)[k as int] == before[k as int]@);
            assert(plane_views(part@)[k as int] == part@[k as int]@);
            assert(plane_len(cs[k as int], g.width as int, g.height as int) == g.height * g.width);
        }
        let plane: &mut Vec<u32> = &mut planes[k];
        write_area(
            plane,
            g.width,
            Ghost(g.height as int),
            x0,
            y0,
            tw,
            th,
            part[k].as_slice(),
        );
        k = k + 1;
    }
    assert(plane_views(planes@) =~= want);
    Ok(())
}

// ----------------------------------------------------------------------
// The head of a stored tile
// ----------------------------------------------------------------------
/// What stands in front of the bytes of a tile.
#[derive(Debug, Clone, Copy, PartialEq, Eq, Structural)]
pub struct TileHead {
    pub tx: i32,
    pub ty: i32,
    pub level_x: i32,
    pub level_y: i32,
    /// Where the bytes begin and end.
    pub start: usize,
    pub end: usize,
}

/// The head of the tile at `off`, and the positions where its bytes begin and
/// end.
pub open spec fn tile_head_at(s: Seq<u8>, off: int) -> Option<(i32, i32, i32, i32, int, int)> {
    if off + 20 > s.len() || i32_at(s, off + 16) < 0 || off + 20 + i32_at(s, off + 16) > s.len() {
        None
    } else {
        Some(
            (
                i32_at(s, off),
                i32_at(s, off + 4),
                i32_at(s, off + 8),
                i32_at(s, off + 12),
                off + 20,
                off + 20 + i32_at(s, off + 16),
            ),
        )
    }
}

impl TileHead {
    pub open spec fn fields(self) -> (i32, i32, i32, i32, int, int) {
        (self.tx, self.ty, self.level_x, self.level_y, self.start as int, self.end as int)
    }
}

/// Read the head of the tile at `off`.
pub fn read_tile_head(bytes: &[u8], off: u64) -> (r: Option<TileHead>)
    ensures
        r is None <==> tile_head_at(bytes@, off as int) is None,
        r matches Some(h) ==> tile_head_at(bytes@, off as int) == Some(h.fields()) && h.start <= h.end
            <= bytes@.len(),
{
    assert(bytes.len() == bytes@.len());
    let n: usize = bytes.len();
    if n < 20 || off > (n - 20) as u64 {
        return None;
    }
    let at: usize = off as usize;
    let size: i32 = read_i32(bytes, at + 16);
    if size < 0 || size as u64 > (n - at - 20) as u64 {
        return None;
    }
    Some(
        TileHead {
            tx: read_i32(bytes, at),
            ty: read_i32(bytes, at + 4),
            level_x: read_i32(bytes, at + 8),
            level_y: read_i32(bytes, at + 12),
            start: at + 20,
            end: at + 20 + size as usize,
        },
    )
}

} // verus!
