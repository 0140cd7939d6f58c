//! Which bytes of a file with several parts the samples of its images come from.

use crate::deep_meta::is_full;
use crate::error::Fault;
use crate::flat::ImageView;
use crate::flat_image::{plane_len, RequiredView};
use crate::flat_laws::{chunk_samples, holds_line, lemma_lines_step};
use crate::flat_levels::{blank_levels, frame_of, level_applied, levels_sized};
use crate::flat_multi::{
    blank_part, chunks_in, flat_part_of, flat_parts_of, multipart_of, part_lines_after,
};
use crate::flat_multi_tiled::{
    part_tile_applied, part_tiles_after, tiled_part_of, tiled_parts_in, tiled_parts_of,
    TiledPartsView,
};
use crate::flat_tiles::tile_head_at;
use crate::format_laws::{law_numbers, signed_at};
use crate::header::{multipart_headers_of, HeaderView};
use crate::tile_laws::{
    frame_sound, holds_pixel, law_tile_head, lemma_blank_levels_sized, lemma_level_step,
    place_in_tile, tile_samples,
};
use crate::types::{sort_by_name, TileDesc};
use vstd::prelude::*;

verus! {

// ----------------------------------------------------------------------
// Lines
// ----------------------------------------------------------------------
/// Where chunk `k` of the parts stands, the first being at `start`: a chunk is
/// the number of its part, its coordinate and the number of its bytes, each in
/// four bytes, and those bytes.
pub open spec fn line_chunk_at(s: Seq<u8>, start: int, k: int) -> int
    decreases k,
{
    if k <= 0 {
        start
    } else {
        let at = line_chunk_at(s, start, k - 1);
        at + 12 + signed_at(s, at + 8)
    }
}

/// Chunk `k` holds line `y` of part `p`.
pub open spec fn holds_part_line(
    s: Seq<u8>,
    start: int,
    m: RequiredView,
    p: int,
    y: int,
    k: int,
) -> bool {
    let at = line_chunk_at(s, start, k);
    signed_at(s, at) == p && holds_line(s, at + 4, m.data_window, m.compression, y)
}

/// The last of the first `n` chunks that hold a line of a part is chunk `k`.
pub open spec fn is_last_of_part_line(
    s: Seq<u8>,
    start: int,
    m: RequiredView,
    p: int,
    y: int,
    k: int,
    n: int,
) -> bool {
    &&& 0 <= k < n
    &&& holds_part_line(s, start, m, p, y, k)
    &&& forall|j: int| k < j < n ==> !(#[trigger] holds_part_line(s, start, m, p, y, j))
}

proof fn lemma_part_step(
    s: Seq<u8>,
    start: int,
    ms: Seq<RequiredView>,
    log: Seq<u16>,
    k: int,
    p: int,
    c: int,
    y: int,
    x: int,
)
    requires
        0 <= start,
        0 < k,
        part_lines_after(s, start, ms, log, k) is Ok,
        0 <= p < ms.len(),
        is_full(sort_by_name(ms[p].channels)),
        0 <= c < sort_by_name(ms[p].channels).len(),
        0 <= y < ms[p].data_window.rows(),
        0 <= x < ms[p].data_window.columns(),
    ensures
        ({
            let (before, at) = part_lines_after(s, start, ms, log, k - 1)->Ok_0;
            let (after, end) = part_lines_after(s, start, ms, log, k)->Ok_0;
            let m = ms[p];
            let w = m.data_window.columns() as int;
            let cs = sort_by_name(m.channels);
            &&& part_lines_after(s, start, ms, log, k - 1) is Ok
            &&& at == line_chunk_at(s, start, k - 1)
            &&& end == line_chunk_at(s, start, k)
            &&& at >= 0
            &&& end >= 0
            &&& after.len() == ms.len()
            &&& after[p].len() == cs.len()
            &&& after[p][c].len() == m.data_window.rows() * w
            &&& if holds_part_line(s, start, m, p, y, k - 1) {
                chunk_samples(s, at + 4, cs, m.data_window, m.compression, log) matches Ok(chunk)
                    && after[p][c][y * w + x] == chunk[c][(y - (signed_at(s, at + 4)
                    - m.data_window.y_min)) * w + x]
            } else {
                after[p][c][y * w + x] == before[p][c][y * w + x]
            }
        }),
    decreases k,
{
    let (before, at) = part_lines_after(s, start, ms, log, k - 1)->Ok_0;
    let (after, end) = part_lines_after(s, start, ms, log, k)->Ok_0;
    let m = ms[p];
    let cs = sort_by_name(m.channels);
    let (w, h) = (m.data_window.columns() as int, m.data_window.rows() as int);
    if k > 1 {
        lemma_part_step(s, start, ms, log, k - 1, p, c, y, x);
    } else {
        assert(before[p] == blank_part(m));
        assert(plane_len(cs[c], w, h) == h * w);
        assert(0 <= h * w) by (nonlinear_arith)
            requires
                0 <= h,
                0 <= w,
        ;
    }
    law_numbers(s, at);
    law_numbers(s, at + 4);
    law_numbers(s, at + 8);
    if signed_at(s, at) == p {
        lemma_lines_step(
            before[p],
            s,
            at + 4,
            cs,
            m.data_window,
            m.compression,
            log,
            after[p],
            c,
            y,
            x,
        );
    }
}

proof fn lemma_part_line_found(
    s: Seq<u8>,
    start: int,
    ms: Seq<RequiredView>,
    log: Seq<u16>,
    p: int,
    c: int,
    y: int,
    x: int,
    k: int,
    n: int,
)
    requires
        0 <= start,
        part_lines_after(s, start, ms, log, n) is Ok,
        0 <= p < ms.len(),
        is_full(sort_by_name(ms[p].channels)),
        0 <= c < sort_by_name(ms[p].channels).len(),
        0 <= y < ms[p].data_window.rows(),
        0 <= x < ms[p].data_window.columns(),
        is_last_of_part_line(s, start, ms[p], p, y, k, n),
    ensures
        ({
            let m = ms[p];
            let w = m.data_window.columns() as int;
            let at = line_chunk_at(s, start, k);
            chunk_samples(
                s,
                at + 4,
                sort_by_name(m.channels),
                m.data_window,
                m.compression,
                log,
            ) matches Ok(chunk) && part_lines_after(s, start, ms, log, n)->Ok_0.0[p][c][y * w + x]
                == chunk[c][(y - (signed_at(s, at + 4) - m.data_window.y_min)) * w + x]
        }),
    decreases n,
{
    lemma_part_step(s, start, ms, log, n, p, c, y, x);
    if k < n - 1 {
        assert(!holds_part_line(s, start, ms[p], p, y, n - 1));
        lemma_part_line_found(s, start, ms, log, p, c, y, x, k, n - 1);
    }
}

pub proof fn lemma_part_metas(hs: Seq<HeaderView>, k: int, p: int)
    requires
        0 <= p < k <= hs.len(),
        flat_parts_of(hs, k) is Ok,
    ensures
        flat_parts_of(hs, k)->Ok_0.len() == k,
        flat_part_of(hs[p]) == Ok::<RequiredView, Fault>(flat_parts_of(hs, k)->Ok_0[p]),
    decreases k,
{
    reveal_with_fuel(flat_parts_of, 2);
    if k > 1 {
        lemma_part_metas(
            hs,
            k - 1,
            if p < k - 1 {
                p
            } else {
                0
            },
        );
    }
}

/// A file whose parts are stored in lines: line `y` of part `p` comes from the
/// last chunk that says it is of that part and holds that line. The chunks stand
/// one behind the other behind the offset tables, which have eight bytes for each.
pub proof fn law_file_of_parts(
    s: Seq<u8>,
    log: Seq<u16>,
    hs: Seq<HeaderView>,
    m: RequiredView,
    v: Seq<ImageView>,
    p: int,
    c: int,
    y: int,
    x: int,
    k: int,
)
    requires
        multipart_headers_of(s) == Ok::<Seq<HeaderView>, Fault>(hs),
        multipart_of(s, log) == Ok::<Seq<ImageView>, Fault>(v),
        0 <= p < hs.len(),
        flat_part_of(hs[p]) == Ok::<RequiredView, Fault>(m),
        0 <= hs.last().end,
        is_full(sort_by_name(m.channels)),
        0 <= c < sort_by_name(m.channels).len(),
        0 <= y < m.data_window.rows(),
        0 <= x < m.data_window.columns(),
        is_last_of_part_line(
            s,
            hs.last().end + 8 * chunks_in(hs, hs.len() as int),
            m,
            p,
            y,
            k,
            chunks_in(hs, hs.len() as int),
        ),
    ensures
        ({
            let cs = sort_by_name(m.channels);
            let w = m.data_window.columns() as int;
            let at = line_chunk_at(s, hs.last().end + 8 * chunks_in(hs, hs.len() as int), k);
            &&& v.len() == hs.len()
            &&& v[p].planes.len() == cs.len()
            &&& v[p].planes[c].name == cs[c].name
            &&& chunk_samples(s, at + 4, cs, m.data_window, m.compression, log) matches Ok(chunk)
                && v[p].planes[c].samples[y * w + x] == chunk[c][(y - (signed_at(s, at + 4)
                - m.data_window.y_min)) * w + x]
        }),
{
    let n = chunks_in(hs, hs.len() as int);
    let start = hs.last().end + 8 * n;
    let ms = flat_parts_of(hs, hs.len() as int)->Ok_0;
    lemma_part_metas(hs, hs.len() as int, p);
    lemma_part_line_found(s, start, ms, log, p, c, y, x, k, n);
}

// ----------------------------------------------------------------------
// Tiles
// ----------------------------------------------------------------------
/// Where chunk `k` of the parts stands, the first being at `start`: a chunk is
/// the number of its part, the column and row of its tile, the two numbers of its
/// level and the number of its bytes, each in four bytes, and those bytes.
pub open spec fn tile_chunk_at(s: Seq<u8>, start: int, k: int) -> int
    decreases k,
{
    if k <= 0 {
        start
    } else {
        let at = tile_chunk_at(s, start, k - 1);
        at + 24 + signed_at(s, at + 20)
    }
}

/// Chunk `k` holds pixel (`x`, `y`) of a level of part `p`.
pub open spec fn holds_part_pixel(
    s: Seq<u8>,
    start: int,
    t: TileDesc,
    p: int,
    lx: int,
    ly: int,
    y: int,
    x: int,
    k: int,
) -> bool {
    let at = tile_chunk_at(s, start, k);
    signed_at(s, at) == p && holds_pixel(s, at + 4, (t.x_size, t.y_size), lx, ly, y, x)
}

/// The last of the first `n` chunks that hold a pixel of a part is chunk `k`.
pub open spec fn is_last_of_part_pixel(
    s: Seq<u8>,
    start: int,
    t: TileDesc,
    p: int,
    lx: int,
    ly: int,
    y: int,
    x: int,
    k: int,
    n: int,
) -> bool {
    &&& 0 <= k < n
    &&& holds_part_pixel(s, start, t, p, lx, ly, y, x, k)
    &&& forall|j: int|
        k < j < n ==> !(#[trigger] holds_part_pixel(s, start, t, p, lx, ly, y, x, j))
}

proof fn lemma_part_tile_placed(
    parts: Seq<Seq<Seq<Seq<u32>>>>,
    s: Seq<u8>,
    at: int,
    ms: Seq<(RequiredView, TileDesc)>,
    single: bool,
    log: Seq<u16>,
)
    requires
        0 <= at,
        parts.len() == ms.len(),
        part_tile_applied(parts, s, at, ms, single, log) is Ok,
    ensures
        ({
            let (after, end) = part_tile_applied(parts, s, at, ms, single, log)->Ok_0;
            let p = signed_at(s, at);
            &&& at + 24 <= end <= s.len()
            &&& end == at + 24 + signed_at(s, at + 20)
            &&& 0 <= p < ms.len()
            &&& after.len() == parts.len()
            &&& forall|q: int| 0 <= q < parts.len() && q != p ==> after[q] == parts[q]
            &&& tile_head_at(s, at + 4) matches Some((tx, ty, lx, ly, a, b)) && level_applied(
                parts[p],
                frame_of(ms[p].0, ms[p].1),
                tx as int,
                ty as int,
                lx as int,
                ly as int,
                s.subrange(a, b),
                log,
            ) == Ok::<Seq<Seq<Seq<u32>>>, Fault>(after[p])
        }),
{
    law_numbers(s, at);
    law_numbers(s, at + 20);
    law_tile_head(s, at + 4);
}

proof fn lemma_part_tile_pixel(
    before: Seq<Seq<Seq<Seq<u32>>>>,
    s: Seq<u8>,
    at: int,
    ms: Seq<(RequiredView, TileDesc)>,
    single: bool,
    log: Seq<u16>,
    p: int,
    i: int,
    c: int,
    y: int,
    x: int,
)
    requires
        0 <= at,
        before.len() == ms.len(),
        part_tile_applied(before, s, at, ms, single, log) is Ok,
        0 <= p < ms.len(),
        part_sound(ms[p]),
        levels_sized(before[p], frame_of(ms[p].0, ms[p].1)),
        0 <= i < frame_of(ms[p].0, ms[p].1).levels.len(),
        0 <= c < frame_of(ms[p].0, ms[p].1).channels.len(),
        0 <= y < frame_of(ms[p].0, ms[p].1).levels[i].height,
        0 <= x < frame_of(ms[p].0, ms[p].1).levels[i].width,
    ensures
        ({
            let after = part_tile_applied(before, s, at, ms, single, log)->Ok_0.0;
            levels_sized(after[p], frame_of(ms[p].0, ms[p].1)) && pixel_step(
                before[p],
                after[p],
                s,
                at,
                ms[p],
                signed_at(s, at) == p,
                log,
                i,
                c,
                y,
                x,
            )
        }),
{
    let after = part_tile_applied(before, s, at, ms, single, log)->Ok_0.0;
    let (m, t) = ms[p];
    lemma_part_tile_placed(before, s, at, ms, single, log);
    if signed_at(s, at) == p {
        lemma_level_step(
            before[p],
            frame_of(m, t),
            t.level_mode,
            m.data_window.columns() as int,
            m.data_window.rows() as int,
            t.round_mode != 0,
            s,
            at + 4,
            log,
            after[p],
            i,
            c,
            y,
            x,
        );
    }
}

/// The levels of a part can be filled with tiles.
pub open spec fn part_sound(part: (RequiredView, TileDesc)) -> bool {
    frame_sound(
        frame_of(part.0, part.1),
        part.1.level_mode,
        part.0.data_window.columns() as int,
        part.0.data_window.rows() as int,
        part.1.round_mode != 0,
    )
}

/// A pixel of a part before and after a chunk at `at`, which is of that part or not.
pub open spec fn pixel_step(
    before: Seq<Seq<Seq<u32>>>,
    after: Seq<Seq<Seq<u32>>>,
    s: Seq<u8>,
    at: int,
    part: (RequiredView, TileDesc),
    same: bool,
    log: Seq<u16>,
    i: int,
    c: int,
    y: int,
    x: int,
) -> bool {
    let f = frame_of(part.0, part.1);
    let l = f.levels[i];
    let (w, h) = (l.width as int, l.height as int);
    let size = (f.tile_x, f.tile_y);
    if same && holds_pixel(s, at + 4, size, l.level_x as int, l.level_y as int, y, x) {
        tile_samples(s, at + 4, f.channels, w, h, size, f.compression, log) matches Ok(tile)
            && after[i][c][y * w + x] == tile[c][place_in_tile(s, at + 4, w, size, y, x)]
    } else {
        after[i][c][y * w + x] == before[i][c][y * w + x]
    }
}

proof fn lemma_part_tile_step(
    s: Seq<u8>,
    start: int,
    ms: Seq<(RequiredView, TileDesc)>,
    single: bool,
    log: Seq<u16>,
    k: int,
    p: int,
    i: int,
    c: int,
    y: int,
    x: int,
)
    requires
        0 <= start,
        0 < k,
        part_tiles_after(s, start, ms, single, log, k) is Ok,
        0 <= p < ms.len(),
        part_sound(ms[p]),
        0 <= i < frame_of(ms[p].0, ms[p].1).levels.len(),
        0 <= c < frame_of(ms[p].0, ms[p].1).channels.len(),
        0 <= y < frame_of(ms[p].0, ms[p].1).levels[i].height,
        0 <= x < frame_of(ms[p].0, ms[p].1).levels[i].width,
    ensures
        part_tiles_after(s, start, ms, single, log, k - 1) is Ok,
        ({
            let (before, at) = part_tiles_after(s, start, ms, single, log, k - 1)->Ok_0;
            let (after, end) = part_tiles_after(s, start, ms, single, log, k)->Ok_0;
            &&& at == tile_chunk_at(s, start, k - 1)
            &&& end == tile_chunk_at(s, start, k)
            &&& at >= 0
            &&& end >= 0
            &&& after.len() == ms.len()
            &&& levels_sized(after[p], frame_of(ms[p].0, ms[p].1))
            &&& pixel_step(
                before[p],
                after[p],
                s,
                at,
                ms[p],
                signed_at(s, at) == p,
                log,
                i,
                c,
                y,
                x,
            )
        }),
    decreases k,
{
    let (before, at) = part_tiles_after(s, start, ms, single, log, k - 1)->Ok_0;
    let f = frame_of(ms[p].0, ms[p].1);
    if k > 1 {
        lemma_part_tile_step(s, start, ms, single, log, k - 1, p, i, c, y, x);
    } else {
        lemma_blank_levels_sized(f);
        assert(part_tiles_after(s, start, ms, single, log, 0)->Ok_0.0[p] == blank_levels(f));
    }
    lemma_part_tile_placed(before, s, at, ms, single, log);
    lemma_part_tile_pixel(before, s, at, ms, single, log, p, i, c, y, x);
}

proof fn lemma_part_pixel_found(
    s: Seq<u8>,
    start: int,
    ms: Seq<(RequiredView, TileDesc)>,
    single: bool,
    log: Seq<u16>,
    p: int,
    i: int,
    c: int,
    y: int,
    x: int,
    k: int,
    n: int,
)
    requires
        0 <= start,
        part_tiles_after(s, start, ms, single, log, n) is Ok,
        0 <= p < ms.len(),
        part_sound(ms[p]),
        0 <= i < frame_of(ms[p].0, ms[p].1).levels.len(),
        0 <= c < frame_of(ms[p].0, ms[p].1).channels.len(),
        0 <= y < frame_of(ms[p].0, ms[p].1).levels[i].height,
        0 <= x < frame_of(ms[p].0, ms[p].1).levels[i].width,
        is_last_of_part_pixel(
            s,
            start,
            ms[p].1,
            p,
            frame_of(ms[p].0, ms[p].1).levels[i].level_x as int,
            frame_of(ms[p].0, ms[p].1).levels[i].level_y as int,
            y,
            x,
            k,
            n,
        ),
    ensures
        ({
            let f = frame_of(ms[p].0, ms[p].1);
            let l = f.levels[i];
            let size = (f.tile_x, f.tile_y);
            let at = tile_chunk_at(s, start, k);
            tile_samples(
                s,
                at + 4,
                f.channels,
                l.width as int,
                l.height as int,
                size,
                f.compression,
                log,
            ) matches Ok(part) && part_tiles_after(s, start, ms, single, log, n)->Ok_0.0[p][i][c][y
                * l.width + x] == part[c][place_in_tile(s, at + 4, l.width as int, size, y, x)]
        }),
    decreases n,
{
    lemma_part_tile_step(s, start, ms, single, log, n, p, i, c, y, x);
    if k < n - 1 {
        let l = frame_of(ms[p].0, ms[p].1).levels[i];
        assert(!holds_part_pixel(
            s,
            start,
            ms[p].1,
            p,
            l.level_x as int,
            l.level_y as int,
            y,
            x,
            n - 1,
        ));
        lemma_part_pixel_found(s, start, ms, single, log, p, i, c, y, x, k, n - 1);
    }
}

proof fn lemma_tiled_metas(hs: Seq<HeaderView>, single: bool, k: int, p: int)
    requires
        0 <= p < k <= hs.len(),
        tiled_parts_of(hs, single, k) is Ok,
    ensures
        tiled_parts_of(hs, single, k)->Ok_0.len() == k,
        tiled_part_of(hs[p], single) == Ok::<(RequiredView, TileDesc), Fault>(
            tiled_parts_of(hs, single, k)->Ok_0[p],
        ),
    decreases k,
{
    reveal_with_fuel(tiled_parts_of, 2);
    if k > 1 {
        lemma_tiled_metas(
            hs,
            single,
            k - 1,
            if p < k - 1 {
                p
            } else {
                0
            },
        );
    }
}

/// A file whose parts are stored in tiles: pixel (`x`, `y`) of a level of part `p`
/// comes from the last chunk that says it is the tile of that pixel in that level
/// of that part.
pub proof fn law_file_of_tiled_parts(
    s: Seq<u8>,
    single: bool,
    log: Seq<u16>,
    v: TiledPartsView,
    p: int,
    i: int,
    c: int,
    y: int,
    x: int,
    k: int,
)
    requires
        tiled_parts_in(s, single, log) == Ok::<TiledPartsView, Fault>(v),
        0 <= p < v.headers.len(),
        0 <= v.headers.last().end,
        0 <= i < frame_of(v.metas[p].0, v.metas[p].1).levels.len(),
        0 <= c < frame_of(v.metas[p].0, v.metas[p].1).channels.len(),
        0 <= y < frame_of(v.metas[p].0, v.metas[p].1).levels[i].height,
        0 <= x < frame_of(v.metas[p].0, v.metas[p].1).levels[i].width,
        is_last_of_part_pixel(
            s,
            v.headers.last().end + 8 * chunks_in(v.headers, v.headers.len() as int),
            v.metas[p].1,
            p,
            frame_of(v.metas[p].0, v.metas[p].1).levels[i].level_x as int,
            frame_of(v.metas[p].0, v.metas[p].1).levels[i].level_y as int,
            y,
            x,
            k,
            chunks_in(v.headers, v.headers.len() as int),
        ),
    ensures
        multipart_headers_of(s) == Ok::<Seq<HeaderView>, Fault>(v.headers),
        tiled_part_of(v.headers[p], single) == Ok::<(RequiredView, TileDesc), Fault>(v.metas[p]),
        ({
            let f = frame_of(v.metas[p].0, v.metas[p].1);
            let l = f.levels[i];
            let size = (f.tile_x, f.tile_y);
            let start = v.headers.last().end + 8 * chunks_in(v.headers, v.headers.len() as int);
            let at = tile_chunk_at(s, start, k);
            tile_samples(
                s,
                at + 4,
                f.channels,
                l.width as int,
                l.height as int,
                size,
                f.compression,
                log,
            ) matches Ok(part) && v.samples[p][i][c][y * l.width + x] == part[c][place_in_tile(
                s,
                at + 4,
                l.width as int,
                size,
                y,
                x,
            )]
        }),
{
    let hs = v.headers;
    let n = chunks_in(hs, hs.len() as int);
    let start = hs.last().end + 8 * n;
    lemma_tiled_metas(hs, single, hs.len() as int, p);
    assert(part_sound(v.metas[p]));
    lemma_part_pixel_found(s, start, v.metas, single, log, p, i, c, y, x, k, n);
}

} // verus!
