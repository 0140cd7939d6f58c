//! What the images that are read say of their files.

use crate::attrs::{count_from, find_text};
use crate::deep::deep_scanline_of;
use crate::deep_laws::lemma_deep_part_metas;
use crate::deep_meta::{is_full, meta_of, part_of};
use crate::deep_mipmap::deep_mipmap_of;
use crate::deep_multi::deep_multipart_of;
use crate::deep_tile_laws::lemma_tiled_part_metas;
use crate::deep_tiled::deep_tiled_of;
use crate::deep_tiled_multi::deep_tiled_multipart_of;
use crate::dwa::{chunk_of, lines_of, ChunkView};
use crate::dwa_rules::sets_of;
use crate::error::Fault;
use crate::flat::{chunk_image, chunk_read, exr_of, ImageView, ReadView};
use crate::flat_block::lines_size;
use crate::flat_image::{
    chunk_planes, is_holdable, is_spaced, lemma_chunk_planes, plane_len, required_of, PlaneView,
    RequiredView,
};
use crate::flat_levels::{frame_of, multilevel_of, MultilevelView};
use crate::flat_multi::{flat_part_of, multipart_of};
use crate::flat_multi_tiled::{
    multipart_multilevel_of, multipart_tiled_of, tiled_part_of, tiled_parts_in, MultilevelPartView,
    TiledPartsView,
};
use crate::header::{header_of, multipart_headers_of, single_header_of, HeaderView};
use crate::part_laws::lemma_part_metas;
use crate::types::{sort_by_name, AttributeView, ChannelView, Compression, TileDesc};
use vstd::prelude::*;

verus! {

// ----------------------------------------------------------------------
// Descriptions
// ----------------------------------------------------------------------
/// An image has the attributes of its file, and says of itself what they say; its channels are
/// sorted by their names, and each has a plane of its name.
pub proof fn law_image_described(s: Seq<u8>, log: Seq<u16>, v: ImageView, c: int)
    requires
        exr_of(s, log) == Ok::<ImageView, Fault>(v),
        0 <= c < v.planes.len(),
    ensures
        header_of(s) matches Ok(h) && v.entries == h.entries && (required_of(h.entries) matches Some(m)
            && is_described(v, m, c)),
{
}

/// An image says of itself what its attributes say.
pub open spec fn is_described(v: ImageView, m: RequiredView, c: int) -> bool {
    &&& v.required.channels == sort_by_name(m.channels)
    &&& v.required.compression == m.compression
    &&& v.required.data_window == m.data_window
    &&& v.required.display_window == m.display_window
    &&& v.required.line_order == m.line_order
    &&& v.required.pixel_aspect_ratio == m.pixel_aspect_ratio
    &&& v.required.screen_window_center == m.screen_window_center
    &&& v.required.screen_window_width == m.screen_window_width
    &&& v.planes.len() == v.required.channels.len()
    &&& v.planes[c].name == v.required.channels[c].name
}

/// So do the images of several parts, in the order of their headers.
pub proof fn law_parts_described(s: Seq<u8>, log: Seq<u16>, v: Seq<ImageView>, p: int, c: int)
    requires
        multipart_of(s, log) == Ok::<Seq<ImageView>, Fault>(v),
        0 <= p < v.len(),
        0 <= c < v[p].planes.len(),
    ensures
        multipart_headers_of(s) matches Ok(hs) && hs.len() == v.len() && v[p].entries == hs[p].entries
            && (required_of(hs[p].entries) matches Some(m) && is_described(v[p], m, c)) && count_from(
            hs[p].entries,
            0,
        ) is Some,
{
    let hs = multipart_headers_of(s)->Ok_0;
    lemma_part_metas(hs, hs.len() as int, 0);
    lemma_part_metas(hs, hs.len() as int, p);
}

/// An image of several levels says of itself what its attributes say.
pub proof fn law_levels_described(s: Seq<u8>, log: Seq<u16>, v: MultilevelView)
    requires
        multilevel_of(s, log) == Ok::<MultilevelView, Fault>(v),
    ensures
        header_of(s) matches Ok(h) && h.version.single_tile && (required_of(h.entries) matches Some(m)
            && v.data_window == m.data_window && v.display_window == m.display_window && v.channels
            == sort_by_name(m.channels) && v.compression == m.compression) && crate::attrs::find_named(
            h.entries,
            "tiles"@,
        ) == Some(AttributeView::TileDesc(v.tiles)) && v.tiles.x_size > 0 && v.tiles.y_size > 0
            && v.tiles.level_mode <= 2,
{
}

/// The images of several parts in tiles hold the samples that were read for the level of full
/// size of each part.
pub proof fn law_tiled_parts_described(
    s: Seq<u8>,
    log: Seq<u16>,
    t: TiledPartsView,
    v: Seq<ImageView>,
    p: int,
    c: int,
)
    requires
        tiled_parts_in(s, true, log) == Ok::<TiledPartsView, Fault>(t),
        multipart_tiled_of(s, log) == Ok::<Seq<ImageView>, Fault>(v),
        0 <= p < v.len(),
        0 <= c < v[p].planes.len(),
    ensures
        v.len() == t.metas.len(),
        v[p].entries == t.headers[p].entries,
        is_described(v[p], t.metas[p].0, c),
        v[p].planes[c].samples == t.samples[p][0][c],
{
}

/// With all levels each part holds the samples that were read for each level.
pub proof fn law_multilevel_parts_described(
    s: Seq<u8>,
    log: Seq<u16>,
    t: TiledPartsView,
    v: Seq<MultilevelPartView>,
    p: int,
    l: int,
    c: int,
)
    requires
        tiled_parts_in(s, false, log) == Ok::<TiledPartsView, Fault>(t),
        multipart_multilevel_of(s, log) == Ok::<Seq<MultilevelPartView>, Fault>(v),
        0 <= p < v.len(),
        0 <= l < v[p].image.levels.len(),
        0 <= c < v[p].image.channels.len(),
    ensures
        v.len() == t.metas.len(),
        v[p].entries == t.headers[p].entries,
        v[p].image.tiles == t.metas[p].1,
        v[p].image.data_window == t.metas[p].0.data_window,
        v[p].image.display_window == t.metas[p].0.display_window,
        v[p].image.compression == t.metas[p].0.compression,
        v[p].image.channels == sort_by_name(t.metas[p].0.channels),
        v[p].image.levels[l].shape == frame_of(t.metas[p].0, t.metas[p].1).levels[l],
        v[p].image.levels[l].planes[c].name == v[p].image.channels[c].name,
        v[p].image.levels[l].planes[c].samples == t.samples[p][l][c],
{
}

/// A part in tiles is described by its attributes. Where only one level is asked for, it must
/// have no more; and it must state as many chunks as it has tiles.
pub proof fn law_tiled_part(h: HeaderView, single: bool, m: RequiredView, t: TileDesc)
    requires
        tiled_part_of(h, single) == Ok::<(RequiredView, TileDesc), Fault>((m, t)),
    ensures
        required_of(h.entries) == Some(m),
        crate::attrs::find_named(h.entries, "tiles"@) == Some(AttributeView::TileDesc(t)),
        t.x_size > 0,
        t.y_size > 0,
        t.level_mode <= 2,
        single ==> t.level_mode == 0,
        is_full(sort_by_name(m.channels)),
        m.compression.code() != 4 && m.compression.code() < 8,
        m.data_window.columns() > 0,
        m.data_window.rows() > 0,
        count_from(h.entries, 0) matches Some(n) && n == crate::flat_tiles::level_tiles(
            frame_of(m, t).levels,
            t.x_size,
            t.y_size,
            frame_of(m, t).levels.len() as int,
        ),
{
}

/// A part of lines is described by its attributes.
pub proof fn law_flat_part(h: HeaderView)
    ensures
        flat_part_of(h) matches Ok(m) ==> required_of(h.entries) == Some(m) && m.compression.code() != 4
            && m.compression.code() < 8 && m.data_window.columns() > 0 && m.data_window.rows() > 0,
        required_of(h.entries) is None ==> flat_part_of(h) == Err::<RequiredView, Fault>(Fault::Invalid),
        required_of(h.entries) matches Some(m) ==> (m.compression.code() == 4 || m.compression.code()
            >= 8 ==> flat_part_of(h) == Err::<RequiredView, Fault>(Fault::Unsupported)),
{
}

// ----------------------------------------------------------------------
// Chunks by themselves
// ----------------------------------------------------------------------
/// A chunk that is read by itself gives an image that ends with it: the lines above the chunk
/// are blank, and those of the chunk stand where they belong.
pub proof fn law_chunk_image(
    method: Compression,
    payload: Seq<u8>,
    cs: Seq<ChannelView>,
    width: int,
    y0: int,
    n: int,
    log: Seq<u16>,
    v: Seq<PlaneView>,
    c: int,
    y: int,
    x: int,
)
    requires
        chunk_image(method, payload, cs, width, y0, n, log) == Ok::<Seq<PlaneView>, Fault>(v),
        is_full(cs),
        0 <= y0,
        0 <= n,
        0 <= c < cs.len(),
        0 <= y < y0 + n,
        0 <= x < width,
    ensures
        v.len() == cs.len(),
        v[c].name == cs[c].name,
        v[c].samples.len() == (y0 + n) * width,
        y < y0 ==> v[c].samples[y * width + x] == 0,
        y >= y0 ==> (chunk_planes(payload, method, cs, width, y0, n, log) matches Ok(planes)
            && v[c].samples[y * width + x] == planes[c][(y - y0) * width + x]),
{
    lemma_chunk_planes(payload, method, cs, width, y0, n, log, c);
    assert(cs[c].x_sampling == 1 && cs[c].y_sampling == 1);
    assert(plane_len(cs[c], width, y0 + n) == (y0 + n) * width);
    let p = y * width + x;
    assert((y0 + n - y0) * width == n * width);
    assert(0 <= p < (y0 + n) * width && (y < y0 <==> p < y0 * width) && p - y0 * width == (y - y0)
        * width + x && (y >= y0 ==> p < y0 * width + n * width)) by (nonlinear_arith)
        requires
            p == y * width + x,
            0 <= y < y0 + n,
            0 <= x < width,
            0 <= y0,
            0 <= n,
    ;
}

/// A chunk is read by its compression. One that was transformed is read where nothing of it was
/// lost, and handed back in pieces where something was; one of wavelets is handed back.
pub proof fn law_chunk_read(
    method: Compression,
    payload: Seq<u8>,
    cs: Seq<ChannelView>,
    width: int,
    y0: int,
    n: int,
    log: Seq<u16>,
    table: Seq<u16>,
)
    requires
        is_spaced(cs),
        is_holdable(cs, width, y0 + n),
    ensures
        ({
            let r = chunk_read(method, payload, cs, width, y0, n, log, table);
            let plain = |data: Seq<u8>|
                match chunk_image(Compression::Uncompressed, data, cs, width, y0, n, log) {
                    Ok(v) => Ok::<ReadView, Fault>(ReadView::Planes(v)),
                    Err(e) => Err::<ReadView, Fault>(e),
                };
            let transformed = method.code() == 8 || method.code() == 9;
            &&& method.code() == 4 <==> r == Ok::<ReadView, Fault>(ReadView::Piz)
            &&& transformed && payload.len() == lines_size(cs, width, y0, false, n) ==> r == plain(
                payload,
            )
            &&& transformed ==> match chunk_of(payload, cs, width, y0, n) {
                None => r == Err::<ReadView, Fault>(Fault::Invalid),
                Some(ChunkView::Raw(data)) => r == plain(data),
                Some(ChunkView::Coded(p)) => if sets_of(cs, p.classes).len() == 0 {
                    r == plain(lines_of(p, cs, width, y0, n, table))
                } else {
                    r == Ok::<ReadView, Fault>(ReadView::Lossy(p))
                },
            }
            &&& method.code() != 4 && !transformed ==> (r matches Ok(q) ==> q is Planes && chunk_image(
                method,
                payload,
                cs,
                width,
                y0,
                n,
                log,
            ) == Ok::<Seq<PlaneView>, Fault>(q->Planes_0)) && (r matches Err(e) ==> chunk_image(
                method,
                payload,
                cs,
                width,
                y0,
                n,
                log,
            ) == Err::<Seq<PlaneView>, Fault>(e))
        }),
{
}

// ----------------------------------------------------------------------
// Deep images
// ----------------------------------------------------------------------
/// A deep image has the attributes of its file, and says of itself what they say.
pub proof fn law_deep_described(s: Seq<u8>)
    ensures
        deep_scanline_of(s) matches Ok(v) ==> (single_header_of(s, true) matches Ok(h) && v.entries
            == h.entries && (meta_of(h.entries) matches Ok((n, m)) && v.meta == m)),
        deep_tiled_of(s) matches Ok(v) ==> (single_header_of(s, true) matches Ok(h) && v.image.entries
            == h.entries && (meta_of(h.entries) matches Ok((n, m)) && v.image.meta == m)
            && crate::deep_meta::tile_size_of(h.entries, 0) == Ok::<(u32, u32), Fault>(
            (v.tile_x, v.tile_y),
        )),
        deep_mipmap_of(s) matches Ok(v) ==> (single_header_of(s, true) matches Ok(h) && v.entries
            == h.entries && (meta_of(h.entries) matches Ok((n, m)) && v.meta == m)
            && crate::deep_meta::tile_size_of(h.entries, 1) == Ok::<(u32, u32), Fault>(
            (v.tile_x, v.tile_y),
        )),
{
}

/// So do the parts of deep files, which have names.
pub proof fn law_deep_parts_described(s: Seq<u8>, p: int)
    ensures
        deep_multipart_of(s) matches Ok(v) ==> (0 <= p < v.len() ==> (multipart_headers_of(s)
            matches Ok(hs) && v.len() == hs.len() && v[p].image.entries == hs[p].entries && find_text(
            hs[p].entries,
            "name"@,
        ) == Some(v[p].name) && (part_of(hs[p].entries) matches Ok((n, m)) && v[p].image.meta == m))),
        deep_tiled_multipart_of(s) matches Ok(v) ==> (0 <= p < v.len() ==> (multipart_headers_of(s)
            matches Ok(hs) && v.len() == hs.len() && v[p].tiled.image.entries == hs[p].entries
            && find_text(hs[p].entries, "name"@) == Some(v[p].name) && (part_of(hs[p].entries)
            matches Ok((n, m)) && v[p].tiled.image.meta == m) && crate::deep_meta::tile_size_of(
            hs[p].entries,
            0,
        ) == Ok::<(u32, u32), Fault>((v[p].tiled.tile_x, v[p].tiled.tile_y)))),
{
    if let Ok(v) = deep_multipart_of(s) {
        let hs = multipart_headers_of(s)->Ok_0;
        lemma_deep_part_metas(hs, hs.len() as int, 0);
        if 0 <= p < v.len() {
            lemma_deep_part_metas(hs, hs.len() as int, p);
        }
    }
    if let Ok(v) = deep_tiled_multipart_of(s) {
        let hs = multipart_headers_of(s)->Ok_0;
        lemma_tiled_part_metas(hs, hs.len() as int, 0);
        if 0 <= p < v.len() {
            lemma_tiled_part_metas(hs, hs.len() as int, p);
        }
    }
}

} // verus!
