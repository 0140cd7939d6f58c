//! What stands in the headers of files that are written.

use crate::attrs::find_entry;
use crate::bytes::{i32_le, i32_of_u32, u32_le, u64_le};
use crate::deep::{
    deep_scanline_file, line_labels, row_chunk, row_chunks, row_packed, scanline_header, InputView,
};
use crate::deep_block::{record_bytes, PackedView};
use crate::deep_input::planes_fault;
use crate::deep_meta::{
    deep_entries, greatest, leading_entries, name_entries, screen_entries, tile_entries,
    trailing_entries, window_of, DeepLabels,
};
use crate::deep_mipmap::{
    deep_mipmap_file, greatest_level, level_grids, mip_fault, mip_labels, MipInput,
};
use crate::deep_multi::{deep_multipart_file, name_clashes, named_fault, parts_fault, NamedInput};
use crate::deep_tiled::{deep_tiled_file, tile_labels, TiledInput};
use crate::deep_tiled_multi::{deep_tiled_multipart_file, NamedTiled};
use crate::deep_tiles::{tile_chunk, tile_chunks, tile_packed};
use crate::error::Fault;
use crate::flat_encode::{
    chunk_packed, flat_chunks, flat_file, rgba_channels, rgba_entries, rgba_input, FlatInput,
};
use crate::flat_laws::chunk_height;
use crate::format_laws::{law_written_numbers, number_at, signed_at};
use crate::grid::{lemma_tile_index, Grid};
use crate::header::{header_bytes, magic_bytes, multipart_header_bytes, value_of, ValueKind};
use crate::layout::file_bytes;
use crate::level_laws::{is_pyramid, law_deep_levels};
use crate::luma_chroma::find_primaries;
use crate::text::small;
use crate::types::{AttributeView, ChannelView, Compression, EntryView, PixelType, TileDesc};
use vstd::prelude::*;

verus! {

// ----------------------------------------------------------------------
// Versions
// ----------------------------------------------------------------------
/// A file begins with the four bytes of every file and a version field.
pub open spec fn begins_with(b: Seq<u8>, version: int) -> bool {
    &&& b.len() >= 8
    &&& b[0] == 0x76 && b[1] == 0x2f && b[2] == 0x31 && b[3] == 0x01
    &&& number_at(b, 4, 4) == version
}

proof fn lemma_begins(head: Seq<u8>, raw: u32, rest: Seq<u8>)
    requires
        head.len() >= 8,
        head.take(8) == magic_bytes(raw),
    ensures
        begins_with(head + rest, raw as int),
{
    let b = head + rest;
    reveal(u32_le);
    law_written_numbers(0, raw, 0, 0);
    let m = magic_bytes(raw);
    assert(m.len() == 8);
    assert(forall|i: int| 0 <= i < 8 ==> #[trigger] b[i] == head.take(8)[i]);
    assert(b[0] == m[0] && b[1] == m[1] && b[2] == m[2] && b[3] == m[3] && b[4] == m[4] && b[5] == m[5]
        && b[6] == m[6] && b[7] == m[7]);
    reveal_with_fuel(number_at, 5);
}

proof fn lemma_header_begins(raw: u32, es: Seq<EntryView>, rest: Seq<u8>)
    ensures
        begins_with(header_bytes(raw, es) + rest, raw as int),
{
    reveal(u32_le);
    assert(header_bytes(raw, es).take(8) =~= magic_bytes(raw));
    lemma_begins(header_bytes(raw, es), raw, rest);
}

proof fn lemma_headers_begin(raw: u32, ts: Seq<Seq<EntryView>>, rest: Seq<u8>)
    ensures
        begins_with(multipart_header_bytes(raw, ts) + rest, raw as int),
{
    reveal(u32_le);
    assert(multipart_header_bytes(raw, ts).take(8) =~= magic_bytes(raw));
    lemma_begins(multipart_header_bytes(raw, ts), raw, rest);
}

/// Files are of version 2. The flags say that a file is deep, and that it has several parts.
pub proof fn law_written_versions(
    a: FlatInput,
    b: InputView,
    c: TiledInput,
    d: MipInput,
    e: Seq<NamedInput>,
    f: Seq<NamedTiled>,
)
    ensures
        flat_file(a) matches Ok(s) ==> begins_with(s, 2),
        deep_scanline_file(b) matches Ok(s) ==> begins_with(s, 0x802),
        deep_tiled_file(c) matches Ok(s) ==> begins_with(s, 0x802),
        deep_mipmap_file(d) matches Ok(s) ==> begins_with(s, 0x802),
        deep_multipart_file(e) matches Ok(s) ==> begins_with(s, 0x1802),
        deep_tiled_multipart_file(f) matches Ok(s) ==> begins_with(s, 0x1802),
{
    assert forall|raw: u32, es: Seq<EntryView>, chunks: Seq<Seq<u8>>| #[trigger]
        begins_with(file_bytes(header_bytes(raw, es), chunks), raw as int) by {
        let h = header_bytes(raw, es);
        let s = file_bytes(h, chunks);
        lemma_header_begins(raw, es, s.skip(h.len() as int));
        assert(h + s.skip(h.len() as int) =~= s);
    }
    assert forall|raw: u32, ts: Seq<Seq<EntryView>>, chunks: Seq<Seq<u8>>| #[trigger]
        begins_with(file_bytes(multipart_header_bytes(raw, ts), chunks), raw as int) by {
        let h = multipart_header_bytes(raw, ts);
        let s = file_bytes(h, chunks);
        lemma_headers_begin(raw, ts, s.skip(h.len() as int));
        assert(h + s.skip(h.len() as int) =~= s);
    }
    assert(begins_with(
        file_bytes(header_bytes(2, a.entries), flat_chunks(a)),
        2,
    ));
    assert(begins_with(file_bytes(scanline_header(b), row_chunks(b)), 0x802));
    let tiles = tile_chunks(c.input, c.grid(), 0, Seq::empty());
    assert(begins_with(file_bytes(crate::deep_tiled::tiled_header(c), tiles), 0x802));
    let levels = crate::deep_mipmap::level_chunks(d, d.levels.len() as int);
    assert(begins_with(file_bytes(crate::deep_mipmap::mip_header(d), levels), 0x802));
    let lines = crate::deep_multi::all_chunks(e, e.len() as int);
    assert(begins_with(file_bytes(crate::deep_multi::parts_header(e), lines), 0x1802));
    let boards = crate::deep_tiled_multi::all_tiles(f, f.len() as int);
    assert(begins_with(
        file_bytes(crate::deep_tiled_multi::tiled_parts_header(f), boards),
        0x1802,
    ));
}

// ----------------------------------------------------------------------
// Deep headers
// ----------------------------------------------------------------------
/// The attributes that no reader needs but every deep file has: how many samples a pixel has
/// at most, the version of the data, and the shape of the pixels and of the screen.
pub proof fn law_deep_extras(
    l: DeepLabels,
    cs: Seq<ChannelView>,
    name: Option<Seq<char>>,
    tiles: Option<TileDesc>,
    kind: Seq<char>,
)
    ensures
        ({
            let es = deep_entries(l, cs, name, tiles, kind);
            &&& es.contains(
                EntryView {
                    name: "maxSamplesPerPixel"@,
                    value: AttributeView::Int(i32_of_u32(l.max_samples)),
                },
            )
            &&& es.contains(EntryView { name: "version"@, value: AttributeView::Int(1) })
            &&& es.contains(
                EntryView { name: "pixelAspectRatio"@, value: AttributeView::Float(0x3f80_0000) },
            )
            &&& es.contains(
                EntryView { name: "screenWindowCenter"@, value: AttributeView::V2f(0, 0) },
            )
            &&& es.contains(
                EntryView { name: "screenWindowWidth"@, value: AttributeView::Float(0x3f80_0000) },
            )
        }),
{
    let es = deep_entries(l, cs, name, tiles, kind);
    let a = leading_entries(l, cs);
    let b = name_entries(name);
    let c = screen_entries();
    let d = tile_entries(tiles);
    let e = trailing_entries(kind);
    let m = b.len() as int;
    let n = d.len() as int;
    assert(es[6] == a[6]);
    assert(es[7 + m] == c[0]);
    assert(es[8 + m] == c[1]);
    assert(es[9 + m] == c[2]);
    assert(es[11 + m + n] == e[1]);
}

proof fn lemma_greatest(counts: Seq<u32>, k: int, i: int)
    requires
        0 <= k <= counts.len(),
    ensures
        0 <= i < k ==> counts[i] <= greatest(counts, k),
        k > 0 ==> exists|j: int| 0 <= j < k && #[trigger] counts[j] == greatest(counts, k),
    decreases k,
{
    if k > 0 {
        lemma_greatest(counts, k - 1, i);
        if k > 1 && counts[k - 1] <= greatest(counts, k - 1) {
            let j = choose|j: int|
                0 <= j < k - 1 && #[trigger] counts[j] == greatest(counts, k - 1);
            assert(counts[j] == greatest(counts, k));
        } else {
            assert(counts[k - 1] == greatest(counts, k));
        }
    }
}

/// `most` is the greatest of some counts.
pub open spec fn is_greatest(counts: Seq<u32>, most: u32) -> bool {
    &&& forall|i: int| 0 <= i < counts.len() ==> #[trigger] counts[i] <= most
    &&& counts.len() > 0 ==> exists|j: int| 0 <= j < counts.len() && #[trigger] counts[j] == most
}

/// How many samples a pixel has at most, how many chunks there are, and how large the picture
/// is, in the headers of deep files.
pub proof fn law_deep_labels(v: InputView, t: TiledInput)
    ensures
        is_greatest(v.counts, line_labels(v).max_samples),
        line_labels(v).chunk_count == v.height,
        line_labels(v).width == v.width,
        line_labels(v).height == v.height,
        is_greatest(t.input.counts, tile_labels(t).max_samples),
        t.grid().tiles() <= u32::MAX && 0 <= t.grid().tiles() ==> tile_labels(t).chunk_count
            == t.grid().tiles(),
        tile_labels(t).width == t.input.width,
        tile_labels(t).height == t.input.height,
{
    lemma_is_greatest(v.counts);
    lemma_is_greatest(t.input.counts);
}

proof fn lemma_is_greatest(counts: Seq<u32>)
    ensures
        is_greatest(counts, greatest(counts, counts.len() as int)),
{
    let most = greatest(counts, counts.len() as int);
    assert forall|i: int| 0 <= i < counts.len() implies #[trigger] counts[i] <= most by {
        lemma_greatest(counts, counts.len() as int, i);
    }
    lemma_greatest(counts, counts.len() as int, 0);
}

/// So it is with several resolutions, where the counts are those of all levels.
pub proof fn law_mip_labels(v: MipInput, l: int, i: int)
    requires
        0 <= l < v.levels.len(),
        0 <= i < v.levels[l].counts.len(),
    ensures
        v.levels[l].counts[i] <= mip_labels(v).max_samples,
        mip_labels(v).width == v.levels[0].width,
        mip_labels(v).height == v.levels[0].height,
{
    lemma_greatest_level(v, v.levels.len() as int, l, i);
}

proof fn lemma_greatest_level(v: MipInput, k: int, l: int, i: int)
    requires
        0 <= l < k <= v.levels.len(),
        0 <= i < v.levels[l].counts.len(),
    ensures
        v.levels[l].counts[i] <= greatest_level(v, k),
    decreases k,
{
    if l < k - 1 {
        lemma_greatest_level(v, k - 1, l, i);
    } else {
        lemma_greatest(v.levels[l].counts, v.levels[l].counts.len() as int, i);
    }
}

/// The window of a picture that is written begins at zero and has its size.
pub proof fn law_written_window(width: u32, height: u32)
    requires
        0 < width <= 0x8000_0000,
        0 < height <= 0x8000_0000,
    ensures
        ({
            let w = window_of(width, height);
            &&& w.x_min == 0
            &&& w.y_min == 0
            &&& w.x_max == width - 1
            &&& w.y_max == height - 1
        }),
{
}

// ----------------------------------------------------------------------
// Flat headers
// ----------------------------------------------------------------------
/// A picture of four samples for each pixel, in the order red, green, blue, alpha, has a
/// channel of floats for each, by the order of their names.
pub proof fn law_rgba(width: u32, height: u32, samples: Seq<u32>, compression: Compression, i: int)
    requires
        0 <= i,
        4 * i + 3 < samples.len(),
    ensures
        ({
            let v = rgba_input(width, height, samples, compression);
            &&& v.channels.len() == 4
            &&& v.planes.len() == 4
            &&& v.channels[0].name == "A"@ && v.planes[0][i] == samples[4 * i + 3]
            &&& v.channels[1].name == "B"@ && v.planes[1][i] == samples[4 * i + 2]
            &&& v.channels[2].name == "G"@ && v.planes[2][i] == samples[4 * i + 1]
            &&& v.channels[3].name == "R"@ && v.planes[3][i] == samples[4 * i]
            &&& forall|c: int|
                0 <= c < 4 ==> (#[trigger] v.channels[c]).pixel_type == PixelType::Float
                    && !v.channels[c].p_linear && v.channels[c].x_sampling == 1
                    && v.channels[c].y_sampling == 1 && v.planes[c].len() == samples.len() as int / 4
            &&& v.width == width
            &&& v.height == height
            &&& v.compression == compression
        }),
{
}

/// Its attributes are those that every flat picture has, in the order of their names.
pub proof fn law_rgba_attributes(width: u32, height: u32, compression: Compression)
    ensures
        ({
            let es = rgba_entries(width, height, compression);
            let w = AttributeView::Box2i(window_of(width, height));
            &&& es.len() == 8
            &&& es[0].name == "channels"@ && es[0].value == AttributeView::Channels(rgba_channels())
            &&& es[1].name == "compression"@ && es[1].value == AttributeView::Compression(compression)
            &&& es[2].name == "dataWindow"@ && es[2].value == w
            &&& es[3].name == "displayWindow"@ && es[3].value == w
            &&& es[4].name == "lineOrder"@ && (es[4].value matches AttributeView::LineOrder(o)
                && o.code() == 0)
            &&& es[5].name == "pixelAspectRatio"@ && es[5].value == AttributeView::Float(0x3f80_0000)
            &&& es[6].name == "screenWindowCenter"@ && es[6].value == AttributeView::V2f(0, 0)
            &&& es[7].name == "screenWindowWidth"@ && es[7].value == AttributeView::Float(0x3f80_0000)
        }),
{
}

// ----------------------------------------------------------------------
// Small things
// ----------------------------------------------------------------------
/// The value of an attribute of a type that is not known is kept, with the name of the type.
pub proof fn law_other_values(label: Seq<char>, data: Seq<u8>)
    requires
        label != "chlist"@ && label != "compression"@ && label != "box2i"@ && label != "box2f"@ && label
            != "lineOrder"@ && label != "float"@ && label != "v2f"@ && label != "int"@ && label
            != "double"@ && label != "string"@ && label != "v2i"@ && label != "v3i"@ && label != "v3f"@
            && label != "m33f"@ && label != "m44f"@ && label != "chromaticities"@ && label
            != "tiledesc"@ && label != "stringvector"@,
    ensures
        value_of(label, data) == Some(AttributeView::Other { type_label: label, data }),
{
    reveal(crate::header::kind_of);
    reveal(crate::header::value_as);
}

/// Capital letters of ASCII stand 32 places in front of the small ones.
pub proof fn law_small(c: char)
    ensures
        0x41 <= c as u32 <= 0x5a ==> small(c) as u32 == c as u32 + 0x20,
        (c as u32) < 0x41 || 0x5a < (c as u32) ==> small(c) == c,
{
}

/// The primaries are those of the attribute for them.
pub proof fn law_primaries(es: Seq<EntryView>)
    ensures
        match find_primaries(es) {
            Some(c) => find_entry(es, "chromaticities"@, ValueKind::Chromaticities) == Some(
                AttributeView::Chromaticities(c),
            ),
            None => !(find_entry(es, "chromaticities"@, ValueKind::Chromaticities)
                matches Some(AttributeView::Chromaticities(c))),
        },
{
}

// ----------------------------------------------------------------------
// Chunks
// ----------------------------------------------------------------------
pub proof fn lemma_number_in_front(a: Seq<u8>, b: Seq<u8>, i: int, n: nat)
    requires
        0 <= i,
        i + n <= a.len(),
    ensures
        number_at(a + b, i, n) == number_at(a, i, n),
    decreases n,
{
    if n > 0 {
        lemma_number_in_front(a, b, i + 1, (n - 1) as nat);
    }
}

pub proof fn lemma_number_behind(a: Seq<u8>, b: Seq<u8>, i: int, n: nat)
    requires
        0 <= i,
        i + n <= b.len(),
    ensures
        number_at(a + b, a.len() + i, n) == number_at(b, i, n),
    decreases n,
{
    if n > 0 {
        lemma_number_behind(a, b, i + 1, (n - 1) as nat);
    }
}

/// The chunks of a flat file follow each other from the first line on: each begins with the
/// coordinate of its first line and the number of its bytes.
pub proof fn law_flat_chunks(v: FlatInput, i: int, payload: Seq<u8>)
    requires
        0 <= i < flat_chunks(v).len(),
        chunk_packed(v, i) == Some(payload),
        i * chunk_height(v.compression) < 0x8000_0000,
        payload.len() < 0x8000_0000,
    ensures
        ({
            let chunk = flat_chunks(v)[i];
            &&& signed_at(chunk, 0) == i * chunk_height(v.compression)
            &&& signed_at(chunk, 4) == payload.len()
            &&& chunk.skip(8) == payload
        }),
{
    let top = i * chunk_height(v.compression);
    assert(v.compression.block_rows() == chunk_height(v.compression));
    assert(0 <= top) by (nonlinear_arith)
        requires
            top == i * chunk_height(v.compression),
            0 <= i,
            chunk_height(v.compression) > 0,
    ;
    let a = i32_le(top as i32);
    let b = u32_le(payload.len() as u32);
    let chunk = flat_chunks(v)[i];
    law_written_numbers(0, payload.len() as u32, 0, top as i32);
    lemma_four_long(top as i32, payload.len() as u32);
    assert(crate::flat_encode::chunk_top(v, i) == top);
    assert(i32_of_u32(top as u32) == top as i32);
    assert(payload.len() % 0x1_0000_0000 == payload.len());
    assert(crate::header::length_bytes(payload.len()) == b);
    reveal(crate::flat_encode::flat_chunk);
    assert(chunk =~= a + (b + payload));
    lemma_number_in_front(a, b + payload, 0, 4);
    lemma_number_behind(a, b + payload, 0, 4);
    lemma_number_in_front(b, payload, 0, 4);
    assert(chunk.skip(8) =~= payload);
}

proof fn lemma_four_long(x: i32, y: u32)
    ensures
        i32_le(x).len() == 4,
        u32_le(y).len() == 4,
{
    reveal(u32_le);
}

proof fn lemma_eight_long(x: u64)
    ensures
        u64_le(x).len() == 8,
{
    reveal(u32_le);
    reveal(u64_le);
}

/// A record as it is written.
pub proof fn law_record_written(p: PackedView)
    requires
        p.table.len() <= u64::MAX,
        p.data.len() <= u64::MAX,
    ensures
        ({
            let b = record_bytes(p);
            &&& number_at(b, 0, 8) == p.table.len()
            &&& number_at(b, 8, 8) == p.data.len()
            &&& number_at(b, 16, 8) == p.size
            &&& b.skip(24) == p.table + p.data
        }),
{
    let (x, y, z) = (u64_le(p.table.len() as u64), u64_le(p.data.len() as u64), u64_le(p.size));
    let rest = p.table + p.data;
    law_written_numbers(0, 0, p.table.len() as u64, 0);
    law_written_numbers(0, 0, p.data.len() as u64, 0);
    law_written_numbers(0, 0, p.size, 0);
    lemma_eight_long(p.table.len() as u64);
    lemma_eight_long(p.data.len() as u64);
    lemma_eight_long(p.size);
    lemma_number_in_front(x, y + (z + rest), 0, 8);
    lemma_number_behind(x, y + (z + rest), 0, 8);
    lemma_number_in_front(y, z + rest, 0, 8);
    lemma_number_behind(x, y + (z + rest), 8, 8);
    lemma_number_behind(y, z + rest, 0, 8);
    lemma_number_in_front(z, rest, 0, 8);
    assert(record_bytes(p).skip(24) =~= rest);
}

/// The chunks of a deep file of lines: the coordinate of the line, and its record.
pub proof fn law_deep_chunks(v: InputView, y: int)
    requires
        0 <= y < v.height,
        y < 0x8000_0000,
    ensures
        row_chunks(v).len() == v.height,
        signed_at(row_chunks(v)[y], 0) == y,
        row_chunks(v)[y].skip(4) == record_bytes(row_packed(v, y)->Some_0),
{
    let r = record_bytes(row_packed(v, y)->Some_0);
    let a = i32_le(y as i32);
    reveal(row_chunk);
    law_written_numbers(0, 0, 0, y as i32);
    lemma_four_long(y as i32, 0);
    assert(row_chunks(v)[y] =~= a + r);
    lemma_number_in_front(a, r, 0, 4);
    assert(row_chunks(v)[y].skip(4) =~= r);
}

/// The chunks of a deep file in tiles, row of tiles by row of tiles: what stands in front, the
/// column and the row of the tile, the number of the level twice, and the record.
pub proof fn law_deep_tile_chunks(v: InputView, g: Grid, level: u32, prefix: Seq<u8>, tx: int, ty: int)
    requires
        0 <= tx < g.across() < 0x8000_0000,
        0 <= ty < g.down() < 0x8000_0000,
        level < 0x8000_0000,
    ensures
        ({
            let i = ty * g.across() + tx;
            let chunk = tile_chunks(v, g, level, prefix)[i];
            let n = prefix.len() as int;
            &&& tile_chunks(v, g, level, prefix).len() == g.tiles()
            &&& chunk.take(n) == prefix
            &&& signed_at(chunk, n) == tx
            &&& signed_at(chunk, n + 4) == ty
            &&& signed_at(chunk, n + 8) == level
            &&& signed_at(chunk, n + 12) == level
            &&& chunk.skip(n + 16) == record_bytes(tile_packed(v, g, i)->Some_0)
        }),
{
    let i = ty * g.across() + tx;
    lemma_tile_index(g, tx, ty);
    let r = record_bytes(tile_packed(v, g, i)->Some_0);
    let n = prefix.len() as int;
    let (a, b, c) = (i32_le(tx as i32), i32_le(ty as i32), i32_le(level as i32));
    reveal(tile_chunk);
    law_written_numbers(0, 0, 0, tx as i32);
    law_written_numbers(0, 0, 0, ty as i32);
    law_written_numbers(0, 0, 0, level as i32);
    lemma_four_long(tx as i32, 0);
    lemma_four_long(ty as i32, 0);
    lemma_four_long(level as i32, 0);
    let chunk = tile_chunks(v, g, level, prefix)[i];
    let (e, d) = (c + r, c + (c + r));
    let body = a + (b + d);
    assert(chunk =~= prefix + body);
    lemma_number_behind(prefix, body, 0, 4);
    lemma_number_in_front(a, b + d, 0, 4);
    lemma_number_behind(prefix, body, 4, 4);
    lemma_number_behind(a, b + d, 0, 4);
    lemma_number_in_front(b, d, 0, 4);
    lemma_number_behind(prefix, body, 8, 4);
    lemma_number_behind(a, b + d, 4, 4);
    lemma_number_behind(b, d, 0, 4);
    lemma_number_in_front(c, e, 0, 4);
    lemma_number_behind(prefix, body, 12, 4);
    lemma_number_behind(a, b + d, 8, 4);
    lemma_number_behind(b, d, 4, 4);
    lemma_number_behind(c, e, 0, 4);
    lemma_number_in_front(c, r, 0, 4);
    assert(chunk.take(n) =~= prefix);
    assert(chunk.skip(n + 16) =~= r);
}

// ----------------------------------------------------------------------
// What is written
// ----------------------------------------------------------------------
/// The levels of a deep image that is written at several resolutions are halved from one to the
/// next, rounded down, until there is one pixel.
pub proof fn law_mip_written(v: MipInput)
    requires
        mip_fault(v) is None,
    ensures
        v.tile_x > 0,
        v.tile_y > 0,
        v.compression.code() <= 2,
        is_pyramid(
            Seq::new(
                v.levels.len(),
                |l: int| (v.levels[l].width as int, v.levels[l].height as int),
            ),
            v.levels[0].width as int,
            v.levels[0].height as int,
            false,
        ),
{
    let (w, h) = (v.levels[0].width, v.levels[0].height);
    let grids = level_grids(w, h, (v.tile_x, v.tile_y));
    law_deep_levels(w, h, (v.tile_x, v.tile_y));
    let a = Seq::new(v.levels.len(), |l: int| (v.levels[l].width as int, v.levels[l].height as int));
    let b = Seq::new(grids.len(), |i: int| (grids[i].width as int, grids[i].height as int));
    assert(a =~= b) by {
        assert forall|l: int| 0 <= l < v.levels.len() implies a[l] == b[l] by {
            assert(v.level_sound(l));
        }
    }
}

/// Samples are refused for the first channel that is not as it must be: one that is not sampled
/// at every pixel, or one with more or fewer samples than there are.
pub proof fn law_planes_refused(cs: Seq<ChannelView>, planes: Seq<Seq<u32>>, n: int, i: int)
    requires
        0 <= i < cs.len(),
        forall|j: int|
            0 <= j < i ==> (#[trigger] cs[j]).x_sampling == 1 && cs[j].y_sampling == 1
                && planes[j].len() == n,
    ensures
        cs[i].x_sampling != 1 || cs[i].y_sampling != 1 ==> planes_fault(cs, planes, n, 0) == Some(
            Fault::Unsupported,
        ),
        cs[i].x_sampling == 1 && cs[i].y_sampling == 1 && planes[i].len() != n ==> planes_fault(
            cs,
            planes,
            n,
            0,
        ) == Some(Fault::Invalid),
{
    lemma_planes_refused(cs, planes, n, 0, i);
}

proof fn lemma_planes_refused(cs: Seq<ChannelView>, planes: Seq<Seq<u32>>, n: int, k: int, i: int)
    requires
        0 <= k <= i < cs.len(),
        forall|j: int|
            0 <= j < i ==> (#[trigger] cs[j]).x_sampling == 1 && cs[j].y_sampling == 1
                && planes[j].len() == n,
    ensures
        planes_fault(cs, planes, n, k) == planes_fault(cs, planes, n, i),
    decreases i - k,
{
    if k < i {
        assert(cs[k].x_sampling == 1);
        lemma_planes_refused(cs, planes, n, k + 1, i);
    }
}

/// Parts are written if each can be, and no two have one name.
pub proof fn law_parts_written(v: Seq<NamedInput>, i: int, j: int)
    requires
        parts_fault(v, 0) is None,
        0 <= i < v.len(),
        0 <= j < v.len(),
    ensures
        v[i].name.len() > 0,
        i != j ==> v[i].name != v[j].name,
        v[i].input.compression.code() <= 2,
        v[i].input.counts.len() == v[i].input.width * v[i].input.height,
{
    lemma_parts_written(v, 0, i);
    let names = crate::deep_multi::names_of(v);
    assert(names[i] == v[i].name && names[j] == v[j].name);
}

proof fn lemma_parts_written(v: Seq<NamedInput>, k: int, i: int)
    requires
        0 <= k <= i < v.len(),
        parts_fault(v, k) is None,
    ensures
        !name_clashes(crate::deep_multi::names_of(v), i),
        named_fault(v[i].input) is None,
    decreases i - k,
{
    if k < i {
        lemma_parts_written(v, k + 1, i);
    }
}

} // verus!
