//! Which bytes of a file the samples of tiles come from.

use crate::attrs::find_named;
use crate::bytes::u64_at;
use crate::deep_meta::is_full;
use crate::error::Fault;
use crate::flat::{exr_of, full_tiles_after, ImageView};
use crate::flat_block::lines_in;
use crate::flat_image::{
    blank_planes, chunk_planes, plane_len, planes_sized, required_of, RequiredView,
};
use crate::flat_laws::{
    bytes_before, entry_of, lemma_full_lines, lemma_full_rows, pattern_at, width_of,
};
use crate::flat_levels::{
    blank_levels, frame_of, level_applied, level_index, levels_after, levels_sized,
    multilevel_meta_of, multilevel_of, FrameView, LevelView, MultilevelView,
};
use crate::flat_tiles::{
    larger, level_grid, level_tiles, levels_fit, levels_of, tile_applied, tile_head_at, LevelShape,
};
use crate::format_laws::{law_numbers, signed_at};
use crate::grid::{steps, Grid};
use crate::header::{header_of, HeaderView};
use crate::mipmap::{law_level_count, law_level_size, level_count};
use crate::types::{sort_by_name, AttributeView, ChannelView, Compression, TileDesc};
use vstd::prelude::*;

verus! {

/// The chunk of a tile begins with the column and the row of the tile, then the
/// two numbers of its level, then the number of its bytes, each in four bytes.
pub proof fn law_tile_head(s: Seq<u8>, off: int)
    requires
        0 <= off,
    ensures
        match tile_head_at(s, off) {
            Some((tx, ty, lx, ly, start, end)) => {
                &&& tx == signed_at(s, off)
                &&& ty == signed_at(s, off + 4)
                &&& lx == signed_at(s, off + 8)
                &&& ly == signed_at(s, off + 12)
                &&& start == off + 20
                &&& end == start + signed_at(s, off + 16)
                &&& start <= end <= s.len()
            },
            None => off + 20 > s.len() || signed_at(s, off + 16) < 0 || off + 20 + signed_at(
                s,
                off + 16,
            ) > s.len(),
        },
{
    law_numbers(s, off);
    law_numbers(s, off + 4);
    law_numbers(s, off + 8);
    law_numbers(s, off + 12);
    law_numbers(s, off + 16);
}

/// The part of a tile of size `t` along an axis of size `n`, from `at` on, that
/// lies in the image.
pub open spec fn part_of_tile(n: int, t: int, at: int) -> int {
    if at + t <= n {
        t
    } else {
        n - at
    }
}

/// An uncompressed tile fills the pixels from `tx` tiles to the right and `ty`
/// tiles down on, as far as they lie in the image, and no others: line by line,
/// in each line channel by channel.
pub proof fn law_tile_placed(
    planes: Seq<Seq<u32>>,
    cs: Seq<ChannelView>,
    g: Grid,
    tx: int,
    ty: int,
    payload: Seq<u8>,
    log: Seq<u16>,
    c: int,
    y: int,
    x: int,
)
    requires
        is_full(cs),
        g.is_valid(),
        planes.len() == cs.len(),
        0 <= c < cs.len(),
        0 <= y < g.height,
        0 <= x < g.width,
        planes[c].len() == g.height * g.width,
        0 <= tx,
        0 <= ty,
        tx * g.tile_x < g.width,
        ty * g.tile_y < g.height,
        payload.len() <= u64::MAX,
        payload.len() == part_of_tile(g.height as int, g.tile_y as int, ty * g.tile_y) * (
        part_of_tile(g.width as int, g.tile_x as int, tx * g.tile_x) * bytes_before(
            cs,
            cs.len() as int,
        )),
    ensures
        tile_applied(planes, cs, g, tx, ty, payload, Compression::Uncompressed, log) matches Ok(
            v,
        ) && v.len() == cs.len() && v[c].len() == planes[c].len() && ({
            let (x0, y0) = (tx * g.tile_x, ty * g.tile_y);
            let w = part_of_tile(g.width as int, g.tile_x as int, x0);
            v[c][y * g.width + x] == if x0 <= x < x0 + g.tile_x && y0 <= y < y0 + g.tile_y {
                pattern_at(
                    cs[c].pixel_type,
                    payload,
                    (y - y0) * (w * bytes_before(cs, cs.len() as int)) + w * bytes_before(cs, c) + (
                    x - x0) * width_of(cs[c].pixel_type),
                )
            } else {
                planes[c][y * g.width + x]
            }
        }),
{
    let (x0, y0) = (tx * g.tile_x, ty * g.tile_y);
    let (w, h) = (g.tile_w(tx), g.tile_h(ty));
    assert(w == part_of_tile(g.width as int, g.tile_x as int, x0));
    assert(h == part_of_tile(g.height as int, g.tile_y as int, y0));
    lemma_tile_inside(g.width as int, g.tile_x as int, tx);
    lemma_tile_inside(g.height as int, g.tile_y as int, ty);
    lemma_full_lines(cs, w, 0, h);
    let part = lines_in(payload, cs, w, 0, false, h);
    assert(chunk_planes(payload, Compression::Uncompressed, cs, w, 0, h, log) == Ok::<
        Seq<Seq<u32>>,
        Fault,
    >(part));
    lemma_full_rows(payload, cs, w, 0, h, c);
    let p = y * g.width + x;
    assert(0 <= y * g.width && p < g.height * g.width) by (nonlinear_arith)
        requires
            p == y * g.width + x,
            0 <= y < g.height,
            0 <= x < g.width,
    ;
    vstd::arithmetic::div_mod::lemma_fundamental_div_mod_converse(
        p,
        g.width as int,
        y,
        x,
    );
    if x0 <= x < x0 + w && y0 <= y < y0 + h {
        let (j, i) = (y - y0, x - x0);
        assert(part[c][j * w + i] == part[c][j * w + i]);
    }
}

/// A tile that begins in the image is one of its tiles.
pub proof fn lemma_tile_inside(n: int, t: int, q: int)
    requires
        0 < n,
        0 < t,
        0 <= q,
        q * t < n,
    ensures
        q < steps(n, t),
{
    vstd::arithmetic::div_mod::lemma_fundamental_div_mod(n + t - 1, t);
    vstd::arithmetic::div_mod::lemma_mod_bound(n + t - 1, t);
    let (a, r) = (steps(n, t), (n + t - 1) % t);
    assert(q < a) by (nonlinear_arith)
        requires
            n + t - 1 == t * a + r,
            0 <= r < t,
            q * t < n,
            0 < t,
    ;
}

/// A tile that begins outside the image is refused.
pub proof fn law_tile_outside(
    planes: Seq<Seq<u32>>,
    cs: Seq<ChannelView>,
    g: Grid,
    tx: int,
    ty: int,
    payload: Seq<u8>,
    method: Compression,
    log: Seq<u16>,
)
    requires
        g.is_valid(),
        tx < 0 || ty < 0 || tx * g.tile_x >= g.width || ty * g.tile_y >= g.height,
    ensures
        tile_applied(planes, cs, g, tx, ty, payload, method, log) == Err::<
            Seq<Seq<u32>>,
            Fault,
        >(Fault::Invalid),
{
    if tx >= 0 && tx * g.tile_x >= g.width {
        lemma_tile_beyond(g.width as int, g.tile_x as int, tx);
    }
    if ty >= 0 && ty * g.tile_y >= g.height {
        lemma_tile_beyond(g.height as int, g.tile_y as int, ty);
    }
}

pub proof fn lemma_tile_beyond(n: int, t: int, q: int)
    requires
        0 < n,
        0 < t,
        0 <= q,
        n <= q * t,
    ensures
        steps(n, t) <= q,
{
    vstd::arithmetic::div_mod::lemma_fundamental_div_mod(n + t - 1, t);
    vstd::arithmetic::div_mod::lemma_mod_bound(n + t - 1, t);
    let (a, r) = (steps(n, t), (n + t - 1) % t);
    assert(a <= q) by (nonlinear_arith)
        requires
            n + t - 1 == t * a + r,
            0 <= r < t,
            n <= q * t,
            0 < t,
    ;
}

/// An image has as many tiles as rows and columns of tiles that begin in it.
pub proof fn law_tile_count(g: Grid)
    requires
        g.is_valid(),
    ensures
        (g.across() - 1) * g.tile_x < g.width <= g.across() * g.tile_x,
        (g.down() - 1) * g.tile_y < g.height <= g.down() * g.tile_y,
        g.tiles() == g.across() * g.down(),
{
    lemma_steps_bounds(g.width as int, g.tile_x as int);
    lemma_steps_bounds(g.height as int, g.tile_y as int);
    assert(g.across() * g.down() == g.down() * g.across()) by (nonlinear_arith);
}

proof fn lemma_steps_bounds(n: int, t: int)
    requires
        0 < n,
        0 < t,
    ensures
        (steps(n, t) - 1) * t < n <= steps(n, t) * t,
{
    vstd::arithmetic::div_mod::lemma_fundamental_div_mod(n + t - 1, t);
    vstd::arithmetic::div_mod::lemma_mod_bound(n + t - 1, t);
    let (a, r) = (steps(n, t), (n + t - 1) % t);
    assert((a - 1) * t < n && n <= a * t) by (nonlinear_arith)
        requires
            n + t - 1 == t * a + r,
            0 <= r < t,
    ;
}

/// A tile fills the level with its two numbers, and no other.
pub proof fn law_tile_of_level(
    planes: Seq<Seq<Seq<u32>>>,
    f: FrameView,
    tx: int,
    ty: int,
    i: int,
    j: int,
    payload: Seq<u8>,
    log: Seq<u16>,
)
    requires
        planes.len() == f.levels.len(),
        0 <= i < f.levels.len(),
        0 <= j < f.levels.len(),
        forall|k: int|
            0 <= k < i ==> (#[trigger] f.levels[k]).level_x != f.levels[i].level_x
                || f.levels[k].level_y != f.levels[i].level_y,
    ensures
        ({
            let l = f.levels[i];
            let g = Grid { width: l.width, height: l.height, tile_x: f.tile_x, tile_y: f.tile_y };
            let r = level_applied(
                planes,
                f,
                tx,
                ty,
                l.level_x as int,
                l.level_y as int,
                payload,
                log,
            );
            match tile_applied(planes[i], f.channels, g, tx, ty, payload, f.compression, log) {
                Ok(p) => r matches Ok(v) && v.len() == planes.len() && v[i] == p && (j != i ==> v[j]
                    == planes[j]),
                Err(e) => r == Err::<Seq<Seq<Seq<u32>>>, Fault>(e),
            }
        }),
{
    lemma_level_found(f, i, 0);
}

proof fn lemma_level_found(f: FrameView, i: int, k: int)
    requires
        0 <= k <= i < f.levels.len(),
        forall|q: int|
            0 <= q < i ==> (#[trigger] f.levels[q]).level_x != f.levels[i].level_x
                || f.levels[q].level_y != f.levels[i].level_y,
    ensures
        level_index(f.levels, f.levels[i].level_x as int, f.levels[i].level_y as int, k) == Some(i),
    decreases i - k,
{
    if k < i {
        assert(f.levels[k].level_x != f.levels[i].level_x || f.levels[k].level_y
            != f.levels[i].level_y);
        lemma_level_found(f, i, k + 1);
    }
}

// ----------------------------------------------------------------------
// Files of tiles
// ----------------------------------------------------------------------
/// The chunk at `off` is the tile of pixel (`x`, `y`) of the level with the given
/// numbers.
pub open spec fn holds_pixel(s: Seq<u8>, off: int, size: (u32, u32), lx: int, ly: int, y: int, x: int) -> bool {
    &&& signed_at(s, off + 8) == lx
    &&& signed_at(s, off + 12) == ly
    &&& signed_at(s, off) * size.0 <= x < (signed_at(s, off) + 1) * size.0
    &&& signed_at(s, off + 4) * size.1 <= y < (signed_at(s, off + 4) + 1) * size.1
}

/// The last of the first `n` chunks in the table at `base` that hold a pixel is
/// chunk `k`.
pub open spec fn is_last_of_pixel(
    s: Seq<u8>,
    base: int,
    size: (u32, u32),
    lx: int,
    ly: int,
    y: int,
    x: int,
    k: int,
    n: int,
) -> bool {
    &&& 0 <= k < n
    &&& holds_pixel(s, entry_of(s, base, k), size, lx, ly, y, x)
    &&& forall|j: int|
        k < j < n ==> !holds_pixel(s, #[trigger] entry_of(s, base, j), size, lx, ly, y, x)
}

/// The samples of the tile at `off` of a level of the given size, line by line.
pub open spec fn tile_samples(
    s: Seq<u8>,
    off: int,
    cs: Seq<ChannelView>,
    width: int,
    height: int,
    size: (u32, u32),
    method: Compression,
    log: Seq<u16>,
) -> Result<Seq<Seq<u32>>, Fault> {
    chunk_planes(
        s.subrange(off + 20, off + 20 + signed_at(s, off + 16)),
        method,
        cs,
        part_of_tile(width, size.0 as int, signed_at(s, off) * size.0),
        0,
        part_of_tile(height, size.1 as int, signed_at(s, off + 4) * size.1),
        log,
    )
}

/// Where pixel (`x`, `y`) stands among the samples of the tile at `off`.
pub open spec fn place_in_tile(s: Seq<u8>, off: int, width: int, size: (u32, u32), y: int, x: int) -> int {
    let (x0, y0) = (signed_at(s, off) * size.0, signed_at(s, off + 4) * size.1);
    (y - y0) * part_of_tile(width, size.0 as int, x0) + (x - x0)
}

/// What a tile does to a plane: it fills its pixels, and leaves the others.
proof fn lemma_tile_fills(
    before: Seq<Seq<u32>>,
    cs: Seq<ChannelView>,
    g: Grid,
    tx: int,
    ty: int,
    payload: Seq<u8>,
    method: Compression,
    log: Seq<u16>,
    after: Seq<Seq<u32>>,
    c: int,
    y: int,
    x: int,
)
    requires
        is_full(cs),
        g.is_valid(),
        tile_applied(before, cs, g, tx, ty, payload, method, log) == Ok::<Seq<Seq<u32>>, Fault>(
            after,
        ),
        before.len() == cs.len(),
        0 <= c < cs.len(),
        before[c].len() == g.height * g.width,
        0 <= y < g.height,
        0 <= x < g.width,
    ensures
        after.len() == cs.len(),
        after[c].len() == before[c].len(),
        ({
            let (x0, y0) = (tx * g.tile_x, ty * g.tile_y);
            let w = part_of_tile(g.width as int, g.tile_x as int, x0);
            let h = part_of_tile(g.height as int, g.tile_y as int, y0);
            chunk_planes(payload, method, cs, w, 0, h, log) matches Ok(part) && after[c][y * g.width
                + x] == if x0 <= x < (tx + 1) * g.tile_x && y0 <= y < (ty + 1) * g.tile_y {
                part[c][(y - y0) * w + (x - x0)]
            } else {
                before[c][y * g.width + x]
            }
        }),
{
    let (x0, y0) = (tx * g.tile_x, ty * g.tile_y);
    assert((tx + 1) * g.tile_x == x0 + g.tile_x && (ty + 1) * g.tile_y == y0 + g.tile_y)
        by (nonlinear_arith)
        requires
            x0 == tx * g.tile_x,
            y0 == ty * g.tile_y,
    ;
    let p = y * g.width + x;
    assert(0 <= y * g.width && p < g.height * g.width) by (nonlinear_arith)
        requires
            p == y * g.width + x,
            0 <= y < g.height,
            0 <= x < g.width,
    ;
    vstd::arithmetic::div_mod::lemma_fundamental_div_mod_converse(p, g.width as int, y, x);
}

/// No two levels have the same numbers.
proof fn lemma_levels_distinct(mode: u8, width: int, height: int, round_up: bool, i: int, j: int)
    requires
        1 <= width <= u32::MAX,
        1 <= height <= u32::MAX,
        0 <= i < j < levels_of(mode, width, height, round_up).len(),
    ensures
        ({
            let levels = levels_of(mode, width, height, round_up);
            levels[i].level_x != levels[j].level_x || levels[i].level_y != levels[j].level_y
        }),
{
    let across = level_count(width, round_up);
    let down = level_count(height, round_up);
    law_level_count(width, round_up);
    law_level_count(height, round_up);
    law_level_count(larger(width, height), round_up);
    if mode > 1 {
        vstd::arithmetic::div_mod::lemma_fundamental_div_mod(i, across);
        vstd::arithmetic::div_mod::lemma_fundamental_div_mod(j, across);
        vstd::arithmetic::div_mod::lemma_mod_bound(i, across);
        vstd::arithmetic::div_mod::lemma_mod_bound(j, across);
        assert(0 <= i / across < 33 && 0 <= j / across < 33) by {
            lemma_row_bound(i, across, down);
            lemma_row_bound(j, across, down);
        }
        if i / across == j / across {
            assert(i % across != j % across);
        }
    }
}

proof fn lemma_row_bound(i: int, across: int, down: int)
    requires
        1 <= across,
        1 <= down <= 33,
        0 <= i < down * across,
    ensures
        0 <= i / across < 33,
{
    vstd::arithmetic::div_mod::lemma_fundamental_div_mod(i, across);
    vstd::arithmetic::div_mod::lemma_mod_bound(i, across);
    let (q, r) = (i / across, i % across);
    assert(0 <= q < down) by (nonlinear_arith)
        requires
            i == across * q + r,
            0 <= r < across,
            0 <= i < down * across,
    ;
}

/// Every level has a pixel, and none is larger than the image.
pub proof fn lemma_levels_fit(mode: u8, width: int, height: int, round_up: bool)
    requires
        1 <= width <= u32::MAX,
        1 <= height <= u32::MAX,
    ensures
        levels_fit(levels_of(mode, width, height, round_up), width, height),
        levels_of(mode, width, height, round_up).len() > 0,
{
    let levels = levels_of(mode, width, height, round_up);
    let across = level_count(width, round_up);
    let down = level_count(height, round_up);
    law_level_count(width, round_up);
    law_level_count(height, round_up);
    law_level_count(larger(width, height), round_up);
    assert(1 <= down * across) by (nonlinear_arith)
        requires
            1 <= down,
            1 <= across,
    ;
    assert forall|i: int| 0 <= i < levels.len() implies 0 < (#[trigger] levels[i]).width <= width && 0
        < levels[i].height <= height by {
        let (lx, ly) = if mode == 0 {
            (0int, 0int)
        } else if mode == 1 {
            (i, i)
        } else {
            (i % across, i / across)
        };
        if mode > 1 {
            vstd::arithmetic::div_mod::lemma_mod_bound(i, across);
            lemma_row_bound(i, across, down);
        }
        law_level_size(width, lx, round_up);
        law_level_size(height, ly, round_up);
    }
}

/// A frame whose levels are those of its size.
pub open spec fn frame_sound(f: FrameView, mode: u8, width: int, height: int, round_up: bool) -> bool {
    &&& is_full(f.channels)
    &&& f.tile_x > 0
    &&& f.tile_y > 0
    &&& 1 <= width <= u32::MAX
    &&& 1 <= height <= u32::MAX
    &&& f.levels == levels_of(mode, width, height, round_up)
}

pub proof fn lemma_level_step(
    before: Seq<Seq<Seq<u32>>>,
    f: FrameView,
    mode: u8,
    width: int,
    height: int,
    round_up: bool,
    s: Seq<u8>,
    off: int,
    log: Seq<u16>,
    after: Seq<Seq<Seq<u32>>>,
    i: int,
    c: int,
    y: int,
    x: int,
)
    requires
        frame_sound(f, mode, width, height, round_up),
        0 <= off,
        tile_head_at(s, off) matches Some((tx, ty, lx, ly, a, b)) && level_applied(
            before,
            f,
            tx as int,
            ty as int,
            lx as int,
            ly as int,
            s.subrange(a, b),
            log,
        ) == Ok::<Seq<Seq<Seq<u32>>>, Fault>(after),
        levels_sized(before, f),
        0 <= i < f.levels.len(),
        0 <= c < f.channels.len(),
        0 <= y < f.levels[i].height,
        0 <= x < f.levels[i].width,
    ensures
        levels_sized(after, f),
        ({
            let l = f.levels[i];
            let size = (f.tile_x, f.tile_y);
            after[i][c][y * l.width + x] == if holds_pixel(
                s,
                off,
                size,
                l.level_x as int,
                l.level_y as int,
                y,
                x,
            ) {
                tile_samples(
                    s,
                    off,
                    f.channels,
                    l.width as int,
                    l.height as int,
                    size,
                    f.compression,
                    log,
                )->Ok_0[c][place_in_tile(s, off, l.width as int, size, y, x)]
            } else {
                before[i][c][y * l.width + x]
            }
        }),
        holds_pixel(
            s,
            off,
            (f.tile_x, f.tile_y),
            f.levels[i].level_x as int,
            f.levels[i].level_y as int,
            y,
            x,
        ) ==> tile_samples(
            s,
            off,
            f.channels,
            f.levels[i].width as int,
            f.levels[i].height as int,
            (f.tile_x, f.tile_y),
            f.compression,
            log,
        ) is Ok,
{
    law_tile_head(s, off);
    let (tx, ty, lx, ly, a, b) = tile_head_at(s, off)->Some_0;
    let payload = s.subrange(a, b);
    let q = level_index(f.levels, lx as int, ly as int, 0)->Some_0;
    lemma_level_is(f.levels, lx as int, ly as int, 0);
    let l = f.levels[i];
    lemma_levels_fit(mode, width, height, round_up);
    assert(levels_fit(f.levels, width, height));
    assert(0 < f.levels[q].width && 0 < f.levels[q].height);
    let g = level_grid(f.levels[q], f.tile_x, f.tile_y);
    assert(g.is_valid());
    assert(planes_sized(before[q], f.channels, g.width as int, g.height as int));
    assert forall|d: int| 0 <= d < f.channels.len() implies (#[trigger] before[q][d]).len()
        == g.height * g.width by {
        assert(plane_len(f.channels[d], g.width as int, g.height as int) == g.height * g.width);
    }
    assert forall|n: int| 0 <= n < after.len() implies planes_sized(
        #[trigger] after[n],
        f.channels,
        f.levels[n].width as int,
        f.levels[n].height as int,
    ) by {
        if n == q {
            assert forall|d: int| 0 <= d < f.channels.len() implies (#[trigger] after[q][d]).len()
                == plane_len(f.channels[d], g.width as int, g.height as int) by {
                lemma_tile_fills(
                    before[q],
                    f.channels,
                    g,
                    tx as int,
                    ty as int,
                    payload,
                    f.compression,
                    log,
                    after[q],
                    d,
                    0,
                    0,
                );
                assert(before[q][d].len() == g.height * g.width);
            }
        } else {
            assert(after[n] == before[n]);
        }
    }
    if q == i {
        lemma_tile_fills(
            before[q],
            f.channels,
            g,
            tx as int,
            ty as int,
            payload,
            f.compression,
            log,
            after[q],
            c,
            y,
            x,
        );
    } else {
        if q < i {
            lemma_levels_distinct(mode, width, height, round_up, q, i);
        } else {
            lemma_levels_distinct(mode, width, height, round_up, i, q);
        }
    }
}

proof fn lemma_level_is(levels: Seq<LevelShape>, lx: int, ly: int, k: int)
    requires
        0 <= k <= levels.len(),
    ensures
        level_index(levels, lx, ly, k) matches Some(i) ==> k <= i < levels.len() && levels[i].level_x
            == lx && levels[i].level_y == ly,
    decreases levels.len() - k,
{
    if k < levels.len() {
        lemma_level_is(levels, lx, ly, k + 1);
    }
}

pub proof fn lemma_blank_levels_sized(f: FrameView)
    ensures
        levels_sized(blank_levels(f), f),
{
    assert forall|i: int| 0 <= i < f.levels.len() implies planes_sized(
        #[trigger] blank_levels(f)[i],
        f.channels,
        f.levels[i].width as int,
        f.levels[i].height as int,
    ) by {
        let (w, h) = (f.levels[i].width as int, f.levels[i].height as int);
        assert forall|c: int| 0 <= c < f.channels.len() implies (#[trigger] blank_planes(
            f.channels,
            w,
            h,
        )[c]).len() == plane_len(f.channels[c], w, h) by {
            crate::flat_image::lemma_plane_len(f.channels[c], w, h);
        }
    }
}

proof fn lemma_levels_sized_after(
    s: Seq<u8>,
    base: int,
    f: FrameView,
    mode: u8,
    width: int,
    height: int,
    round_up: bool,
    log: Seq<u16>,
    k: int,
)
    requires
        frame_sound(f, mode, width, height, round_up),
        0 <= base,
        0 <= k,
        levels_after(s, base, f, log, k) is Ok,
        f.levels.len() > 0,
        f.channels.len() > 0,
        f.levels[0].width > 0,
        f.levels[0].height > 0,
    ensures
        levels_sized(levels_after(s, base, f, log, k)->Ok_0, f),
    decreases k,
{
    if k > 0 {
        lemma_levels_sized_after(s, base, f, mode, width, height, round_up, log, k - 1);
        let before = levels_after(s, base, f, log, k - 1)->Ok_0;
        let after = levels_after(s, base, f, log, k)->Ok_0;
        let off = entry_of(s, base, k - 1);
        law_numbers(s, base + 8 * (k - 1));
        assert(off == u64_at(s, base + 8 * (k - 1)));
        lemma_level_step(
            before,
            f,
            mode,
            width,
            height,
            round_up,
            s,
            off,
            log,
            after,
            0,
            0,
            0,
            0,
        );
    } else {
        lemma_blank_levels_sized(f);
    }
}

proof fn lemma_pixel_found(
    s: Seq<u8>,
    base: int,
    f: FrameView,
    mode: u8,
    width: int,
    height: int,
    round_up: bool,
    log: Seq<u16>,
    i: int,
    c: int,
    y: int,
    x: int,
    k: int,
    n: int,
)
    requires
        frame_sound(f, mode, width, height, round_up),
        0 <= base,
        levels_after(s, base, f, log, n) is Ok,
        0 <= i < f.levels.len(),
        0 <= c < f.channels.len(),
        0 <= y < f.levels[i].height,
        0 <= x < f.levels[i].width,
        is_last_of_pixel(
            s,
            base,
            (f.tile_x, f.tile_y),
            f.levels[i].level_x as int,
            f.levels[i].level_y as int,
            y,
            x,
            k,
            n,
        ),
    ensures
        ({
            let l = f.levels[i];
            let size = (f.tile_x, f.tile_y);
            let off = entry_of(s, base, k);
            tile_samples(
                s,
                off,
                f.channels,
                l.width as int,
                l.height as int,
                size,
                f.compression,
                log,
            ) matches Ok(part) && levels_after(s, base, f, log, n)->Ok_0[i][c][y * l.width + x]
                == part[c][place_in_tile(s, off, l.width as int, size, y, x)]
        }),
    decreases n,
{
    let before = levels_after(s, base, f, log, n - 1)->Ok_0;
    let after = levels_after(s, base, f, log, n)->Ok_0;
    let off = entry_of(s, base, n - 1);
    law_numbers(s, base + 8 * (n - 1));
    assert(off == u64_at(s, base + 8 * (n - 1)));
    lemma_levels_fit(mode, width, height, round_up);
    assert(levels_fit(f.levels, width, height));
    assert(0 < f.levels[0].width);
    lemma_levels_sized_after(s, base, f, mode, width, height, round_up, log, n - 1);
    lemma_level_step(
        before,
        f,
        mode,
        width,
        height,
        round_up,
        s,
        off,
        log,
        after,
        i,
        c,
        y,
        x,
    );
    if k < n - 1 {
        lemma_pixel_found(s, base, f, mode, width, height, round_up, log, i, c, y, x, k, n - 1);
    }
}

/// The file of an image that is stored in tiles of several levels: pixel (`x`,
/// `y`) of a level comes from the last chunk that says it is the tile of that
/// pixel in that level.
pub proof fn law_file_of_levels(
    s: Seq<u8>,
    log: Seq<u16>,
    h: HeaderView,
    v: MultilevelView,
    i: int,
    c: int,
    y: int,
    x: int,
    k: int,
    n: int,
)
    requires
        header_of(s) == Ok::<HeaderView, Fault>(h),
        multilevel_of(s, log) == Ok::<MultilevelView, Fault>(v),
        0 <= h.end,
        0 <= i < v.levels.len(),
        0 <= c < v.channels.len(),
        0 <= y < v.levels[i].shape.height,
        0 <= x < v.levels[i].shape.width,
        n == tile_total(v.levels, v.tiles.x_size as int, v.tiles.y_size as int, v.levels.len() as int),
        is_last_of_pixel(
            s,
            h.end,
            (v.tiles.x_size, v.tiles.y_size),
            v.levels[i].shape.level_x as int,
            v.levels[i].shape.level_y as int,
            y,
            x,
            k,
            n,
        ),
    ensures
        ({
            let l = v.levels[i].shape;
            let size = (v.tiles.x_size, v.tiles.y_size);
            let off = entry_of(s, h.end, k);
            &&& v.levels[i].planes.len() == v.channels.len()
            &&& v.levels[i].planes[c].name == v.channels[c].name
            &&& tile_samples(
                s,
                off,
                v.channels,
                l.width as int,
                l.height as int,
                size,
                v.compression,
                log,
            ) matches Ok(part) && v.levels[i].planes[c].samples[y * l.width + x]
                == part[c][place_in_tile(s, off, l.width as int, size, y, x)]
        }),
{
    let (m, t) = multilevel_meta_of(h.entries)->Ok_0;
    let f = frame_of(m, t);
    let (w, e) = (m.data_window.columns() as int, m.data_window.rows() as int);
    assert(frame_sound(f, t.level_mode, w, e, t.round_mode != 0));
    lemma_tile_total(v.levels, f.levels, t.x_size, t.y_size, f.levels.len() as int);
    lemma_pixel_found(
        s,
        h.end,
        f,
        t.level_mode,
        w,
        e,
        t.round_mode != 0,
        log,
        i,
        c,
        y,
        x,
        k,
        n,
    );
}

/// The tiles of the first `k` levels: as many rows times as many columns of tiles
/// as cover each.
pub open spec fn tile_total(levels: Seq<LevelView>, tile_x: int, tile_y: int, k: int) -> int
    decreases k,
{
    if k <= 0 {
        0
    } else {
        tile_total(levels, tile_x, tile_y, k - 1) + ((levels[k - 1].shape.width - 1) / tile_x + 1) * ((
        levels[k - 1].shape.height - 1) / tile_y + 1)
    }
}

proof fn lemma_tile_total(
    levels: Seq<LevelView>,
    shapes: Seq<LevelShape>,
    tile_x: u32,
    tile_y: u32,
    k: int,
)
    requires
        0 <= k <= levels.len() == shapes.len(),
        tile_x > 0,
        tile_y > 0,
        forall|i: int| 0 <= i < levels.len() ==> (#[trigger] levels[i]).shape == shapes[i],
    ensures
        tile_total(levels, tile_x as int, tile_y as int, k) == level_tiles(shapes, tile_x, tile_y, k),
    decreases k,
{
    if k > 0 {
        lemma_tile_total(levels, shapes, tile_x, tile_y, k - 1);
        let l = shapes[k - 1];
        assert(levels[k - 1].shape == l);
        lemma_steps_of(l.width as int, tile_x as int);
        lemma_steps_of(l.height as int, tile_y as int);
        let (a, d) = (steps(l.width as int, tile_x as int), steps(l.height as int, tile_y as int));
        assert(d * a == a * d) by (nonlinear_arith);
    }
}

proof fn lemma_steps_of(n: int, t: int)
    requires
        0 <= n,
        0 < t,
    ensures
        steps(n, t) == (n - 1) / t + 1,
{
    vstd::arithmetic::div_mod::lemma_div_plus_one(n - 1, t);
}

/// What one chunk of a file of tiles does to the image of full size.
proof fn lemma_full_step(
    s: Seq<u8>,
    base: int,
    cs: Seq<ChannelView>,
    g: Grid,
    method: Compression,
    log: Seq<u16>,
    k: int,
    c: int,
    y: int,
    x: int,
)
    requires
        is_full(cs),
        g.is_valid(),
        0 <= base,
        0 < k,
        full_tiles_after(s, base, cs, g, method, log, k) is Ok,
        0 <= c < cs.len(),
        0 <= y < g.height,
        0 <= x < g.width,
    ensures
        ({
            let off = entry_of(s, base, k - 1);
            let size = (g.tile_x, g.tile_y);
            let before = full_tiles_after(s, base, cs, g, method, log, k - 1)->Ok_0;
            let after = full_tiles_after(s, base, cs, g, method, log, k)->Ok_0;
            &&& full_tiles_after(s, base, cs, g, method, log, k - 1) is Ok
            &&& after.len() == cs.len()
            &&& after[c].len() == g.height * g.width
            &&& if holds_pixel(s, off, size, 0, 0, y, x) {
                tile_samples(
                    s,
                    off,
                    cs,
                    g.width as int,
                    g.height as int,
                    size,
                    method,
                    log,
                ) matches Ok(part) && after[c][y * g.width + x] == part[c][place_in_tile(
                    s,
                    off,
                    g.width as int,
                    size,
                    y,
                    x,
                )]
            } else {
                after[c][y * g.width + x] == before[c][y * g.width + x]
            }
        }),
    decreases k,
{
    let off = entry_of(s, base, k - 1);
    law_numbers(s, base + 8 * (k - 1));
    assert(off == u64_at(s, base + 8 * (k - 1)));
    law_tile_head(s, off);
    let before = full_tiles_after(s, base, cs, g, method, log, k - 1)->Ok_0;
    let after = full_tiles_after(s, base, cs, g, method, log, k)->Ok_0;
    if k > 1 {
        lemma_full_step(s, base, cs, g, method, log, k - 1, c, y, x);
    } else {
        crate::flat_image::lemma_plane_len(cs[c], g.width as int, g.height as int);
        assert(plane_len(cs[c], g.width as int, g.height as int) == g.height * g.width);
    }
    let (tx, ty, lx, ly, a, b) = tile_head_at(s, off)->Some_0;
    if lx == 0 && ly == 0 {
        lemma_tile_fills(
            before,
            cs,
            g,
            tx as int,
            ty as int,
            s.subrange(a, b),
            method,
            log,
            after,
            c,
            y,
            x,
        );
    }
}

proof fn lemma_full_pixel_found(
    s: Seq<u8>,
    base: int,
    cs: Seq<ChannelView>,
    g: Grid,
    method: Compression,
    log: Seq<u16>,
    c: int,
    y: int,
    x: int,
    k: int,
    n: int,
)
    requires
        is_full(cs),
        g.is_valid(),
        0 <= base,
        full_tiles_after(s, base, cs, g, method, log, n) is Ok,
        0 <= c < cs.len(),
        0 <= y < g.height,
        0 <= x < g.width,
        is_last_of_pixel(s, base, (g.tile_x, g.tile_y), 0, 0, y, x, k, n),
    ensures
        ({
            let off = entry_of(s, base, k);
            let size = (g.tile_x, g.tile_y);
            tile_samples(s, off, cs, g.width as int, g.height as int, size, method, log) matches Ok(
                part,
            ) && full_tiles_after(s, base, cs, g, method, log, n)->Ok_0[c][y * g.width + x]
                == part[c][place_in_tile(s, off, g.width as int, size, y, x)]
        }),
    decreases n,
{
    lemma_full_step(s, base, cs, g, method, log, n, c, y, x);
    if k < n - 1 {
        assert(!holds_pixel(s, entry_of(s, base, n - 1), (g.tile_x, g.tile_y), 0, 0, y, x));
        lemma_full_pixel_found(s, base, cs, g, method, log, c, y, x, k, n - 1);
    }
}

/// The image of full size in a file of tiles: pixel (`x`, `y`) comes from the
/// last chunk that says it is the tile of that pixel in the level of full size.
/// Chunks of other levels are passed over.
pub proof fn law_file_of_tiles(
    s: Seq<u8>,
    log: Seq<u16>,
    h: HeaderView,
    m: RequiredView,
    t: TileDesc,
    v: ImageView,
    c: int,
    y: int,
    x: int,
    k: int,
    n: int,
)
    requires
        header_of(s) == Ok::<HeaderView, Fault>(h),
        required_of(h.entries) == Some(m),
        find_named(h.entries, "tiles"@) == Some(AttributeView::TileDesc(t)),
        exr_of(s, log) == Ok::<ImageView, Fault>(v),
        h.version.single_tile,
        0 <= h.end,
        0 <= c < m.channels.len(),
        0 <= y < m.data_window.rows(),
        0 <= x < m.data_window.columns(),
        n == level_tiles(
            levels_of(
                t.level_mode,
                m.data_window.columns() as int,
                m.data_window.rows() as int,
                t.round_mode != 0,
            ),
            t.x_size,
            t.y_size,
            levels_of(
                t.level_mode,
                m.data_window.columns() as int,
                m.data_window.rows() as int,
                t.round_mode != 0,
            ).len() as int,
        ),
        is_last_of_pixel(s, h.end, (t.x_size, t.y_size), 0, 0, y, x, k, n),
    ensures
        ({
            let cs = sort_by_name(m.channels);
            let (w, e) = (m.data_window.columns() as int, m.data_window.rows() as int);
            let size = (t.x_size, t.y_size);
            let off = entry_of(s, h.end, k);
            &&& v.planes.len() == cs.len()
            &&& v.planes[c].name == cs[c].name
            &&& tile_samples(s, off, cs, w, e, size, m.compression, log) matches Ok(part)
                && v.planes[c].samples[y * w + x] == part[c][place_in_tile(s, off, w, size, y, x)]
        }),
{
    let cs = sort_by_name(m.channels);
    crate::types::law_sort_by_name(m.channels);
    let g = Grid {
        width: m.data_window.columns(),
        height: m.data_window.rows(),
        tile_x: t.x_size,
        tile_y: t.y_size,
    };
    lemma_full_pixel_found(s, h.end, cs, g, m.compression, log, c, y, x, k, n);
}

} // verus!
