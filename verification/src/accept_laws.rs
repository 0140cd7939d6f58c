//! Which files are read, and which are refused.

use crate::attrs::{count_from, entry_index, find_entry, find_int, find_named, find_text};
use crate::deep::{deep_scanline_of, scanline_fault, DeepView, InputView};
use crate::deep_block::is_deep_method;
use crate::deep_meta::{is_full, meta_of, part_of, tile_size_of, MetaView};
use crate::deep_mipmap::{deep_mipmap_of, MipView};
use crate::deep_multi::{deep_multipart_of, name_clashes, types_fault, PartView};
use crate::deep_tiled::{deep_tiled_of, TiledView};
use crate::deep_tiled_multi::{deep_tiled_multipart_of, TiledPartView};
use crate::error::Fault;
use crate::flat::{exr_of, line_head_at, lines_applied, scanlines_after, ImageView};
use crate::flat_encode::{flat_fault, FlatInput};
use crate::flat_image::{chunk_planes, is_holdable, is_spaced, required_of, RequiredView};
use crate::flat_laws::{chunk_height, chunk_samples, entry_of, lemma_steps_are};
use crate::flat_levels::{level_applied, level_index, levels_after, FrameView};
use crate::flat_multi::{is_foreign, multipart_of, part_lines_after};
use crate::flat_tiles::{tile_head_at, LevelShape};
use crate::format_laws::{law_numbers, signed_at};
use crate::grid::{step_len, steps};
use crate::header::{
    header_of, multipart_headers_of, single_header_of, tables_from, text_at, texts_in, value_kind,
    HeaderView, ValueKind,
};
use crate::part_laws::line_chunk_at;
use crate::tile_laws::{
    law_tile_head, lemma_tile_beyond, lemma_tile_inside, part_of_tile, tile_samples,
};
use crate::types::{
    sort_by_name, AttributeView, Box2i, ChannelView, Compression, EntryView, TileDesc,
};
use vstd::prelude::*;
use vstd::utf8::{decode_utf8, valid_utf8};

verus! {

// ----------------------------------------------------------------------
// Headers
// ----------------------------------------------------------------------
/// A text is read up to its zero byte, if it has no more bytes than it may.
pub proof fn law_text(s: Seq<u8>, pos: int, max: int, e: int)
    requires
        0 <= pos <= e < s.len(),
        0 <= max,
        s[e] == 0,
        forall|i: int| pos <= i < e ==> #[trigger] s[i] != 0,
    ensures
        text_at(s, pos, max) == if e - pos <= max && valid_utf8(s.subrange(pos, e)) {
            Some((decode_utf8(s.subrange(pos, e)), e + 1))
        } else {
            None
        },
{
    let limit = if pos + max + 1 < s.len() {
        pos + max + 1
    } else {
        s.len() as int
    };
    crate::header::lemma_zero_from(s, pos, limit);
    let z = crate::header::zero_from(s, pos, limit);
    if z < e {
        assert(s[z] != 0);
    }
}

/// The texts of a list stand one behind the other, each behind its length in four bytes.
pub proof fn law_texts_in_order(data: Seq<u8>, pos: int, texts: Seq<Seq<char>>)
    requires
        texts_in(data, pos) == Some(texts),
    ensures
        texts.len() == 0 <==> pos >= data.len(),
        pos < data.len() ==> {
            let n = signed_at(data, pos);
            &&& 0 <= n
            &&& pos + 4 + n <= data.len()
            &&& texts[0] == decode_utf8(data.subrange(pos + 4, pos + 4 + n))
            &&& texts_in(data, pos + 4 + n) == Some(texts.skip(1))
        },
{
    law_numbers(data, pos);
    if pos < data.len() {
        let n = signed_at(data, pos);
        let rest = texts_in(data, pos + 4 + n)->Some_0;
        assert(texts.skip(1) =~= rest);
    }
}

/// The headers of several parts stand one behind the other, up to a zero byte.
pub proof fn law_headers_in_order(s: Seq<u8>, pos: int, max: int)
    requires
        0 <= pos,
        0 <= max,
        tables_from(s, pos, max) is Some,
    ensures
        tables_from(s, pos, max) matches Some((tables, end)) && if tables.len() == 0 {
            s[pos] == 0 && end == pos + 1
        } else {
            s[pos] != 0 && (crate::header::entries_from(s, pos, max) matches Some((es, next)) && es
                == tables[0] && tables_from(s, next, max) == Some((tables.skip(1), end)))
        },
{
    if s[pos] != 0 {
        crate::header::lemma_entries_advance(s, pos, max);
        let (es, next) = crate::header::entries_from(s, pos, max)->Some_0;
        let (rest, end) = tables_from(s, next, max)->Some_0;
        assert((seq![es] + rest).skip(1) =~= rest);
    }
}

/// The parts of a file have the headers that stand behind its first eight bytes, and their
/// chunks stand behind all of them.
pub proof fn law_parts_of_file(s: Seq<u8>, hs: Seq<HeaderView>, i: int)
    requires
        multipart_headers_of(s) == Ok::<Seq<HeaderView>, Fault>(hs),
        0 <= i < hs.len(),
    ensures
        tables_from(s, 8, hs[i].version.name_limit()) matches Some((tables, end)) && tables.len()
            == hs.len() && tables[i] == hs[i].entries && hs[i].end == end,
{
}

/// What a file of one part is refused for: it does not begin as it must, it has several
/// parts or is deep where that is not expected, or its attributes cannot be read.
pub proof fn law_single_header(s: Seq<u8>, deep: bool)
    requires
        s.len() >= 8,
        s[0] == 0x76 && s[1] == 0x2f && s[2] == 0x31 && s[3] == 0x01,
    ensures
        ({
            let flags = s[5];
            let several = (flags / 16) % 2 == 1;
            let odd = (flags / 8) % 2 == 1;
            let max = if (flags / 4) % 2 == 1 {
                255int
            } else {
                31int
            };
            &&& several || (odd && !deep) ==> single_header_of(s, deep) == Err::<HeaderView, Fault>(
                Fault::Unsupported,
            )
            &&& !several && (odd ==> deep) ==> match crate::header::entries_from(s, 8, max) {
                Some((es, end)) => single_header_of(s, deep) matches Ok(h) && h.entries == es && h.end
                    == end && (h.version.single_tile <==> (flags / 2) % 2 == 1),
                None => single_header_of(s, deep) == Err::<HeaderView, Fault>(Fault::Invalid),
            }
            &&& !several ==> multipart_headers_of(s) == Err::<Seq<HeaderView>, Fault>(Fault::Invalid)
            &&& several ==> (multipart_headers_of(s) is Ok <==> tables_from(s, 8, max) is Some)
        }),
{
    law_numbers(s, 0);
    law_numbers(s, 4);
    lemma_flags(crate::bytes::u32_at(s, 4), s[4], s[5], s[6] + 0x100 * s[7]);
}

proof fn lemma_flags(raw: u32, a: u8, b: u8, rest: int)
    requires
        raw == a + 0x100 * b + 0x1_0000 * rest,
    ensures
        (raw / 0x200) % 2 == (b / 2) % 2,
        (raw / 0x400) % 2 == (b / 4) % 2,
        (raw / 0x800) % 2 == (b / 8) % 2,
        (raw / 0x1000) % 2 == (b / 16) % 2,
{
    let v = raw as int / 0x100;
    assert(v == b + 0x100 * rest);
    assert(raw as int / 0x200 == v / 2 && v / 2 == b as int / 2 + 0x80 * rest);
    assert(raw as int / 0x400 == v / 4 && v / 4 == b as int / 4 + 0x40 * rest);
    assert(raw as int / 0x800 == v / 8 && v / 8 == b as int / 8 + 0x20 * rest);
    assert(raw as int / 0x1000 == v / 16 && v / 16 == b as int / 16 + 0x10 * rest);
}

// ----------------------------------------------------------------------
// Attributes
// ----------------------------------------------------------------------
/// An attribute is found by its name and the type of its value; the first one counts.
pub proof fn law_first_of_kind(es: Seq<EntryView>, name: Seq<char>, kind: ValueKind, i: int)
    requires
        0 <= i < es.len(),
        es[i].name == name,
        value_kind(es[i].value) == kind,
        forall|j: int|
            0 <= j < i ==> (#[trigger] es[j]).name != name || value_kind(es[j].value) != kind,
    ensures
        find_entry(es, name, kind) == Some(es[i].value),
{
    lemma_entry_index(es, name, kind, 0, i);
}

proof fn lemma_entry_index(es: Seq<EntryView>, name: Seq<char>, kind: ValueKind, k: int, i: int)
    requires
        0 <= k <= i < es.len(),
        es[i].name == name,
        value_kind(es[i].value) == kind,
        forall|j: int|
            0 <= j < i ==> (#[trigger] es[j]).name != name || value_kind(es[j].value) != kind,
    ensures
        entry_index(es, name, kind, k) == Some(i),
    decreases i - k,
{
    if k < i {
        assert(es[k].name != name || value_kind(es[k].value) != kind);
        lemma_entry_index(es, name, kind, k + 1, i);
    }
}

/// The number of chunks of a part is the first one that is stated and is not negative.
pub proof fn law_chunk_number(es: Seq<EntryView>, i: int, v: i32)
    requires
        0 <= i < es.len(),
        es[i].name == "chunkCount"@,
        es[i].value == AttributeView::Int(v),
        v >= 0,
        forall|j: int|
            0 <= j < i ==> (#[trigger] es[j]).name != "chunkCount"@ || !(es[j].value
                matches AttributeView::Int(u) && u >= 0),
    ensures
        count_from(es, 0) == Some(v),
{
    lemma_count_from(es, 0, i, v);
}

proof fn lemma_count_from(es: Seq<EntryView>, k: int, i: int, v: i32)
    requires
        0 <= k <= i < es.len(),
        es[i].name == "chunkCount"@,
        es[i].value == AttributeView::Int(v),
        v >= 0,
        forall|j: int|
            0 <= j < i ==> (#[trigger] es[j]).name != "chunkCount"@ || !(es[j].value
                matches AttributeView::Int(u) && u >= 0),
    ensures
        count_from(es, k) == Some(v),
    decreases i - k,
{
    if k < i {
        assert(es[k].name != "chunkCount"@ || !(es[k].value matches AttributeView::Int(u) && u >= 0));
        lemma_count_from(es, k + 1, i, v);
    }
}

/// What describes a deep image. The display window may be missing, and so may the order of
/// the lines: then it is the data window, and the lines ascend.
pub proof fn law_deep_meta(es: Seq<EntryView>, count: i32, m: MetaView)
    requires
        meta_of(es) == Ok::<(i32, MetaView), Fault>((count, m)),
    ensures
        find_entry(es, "chunkCount"@, ValueKind::Int) == Some(AttributeView::Int(count)),
        find_entry(es, "dataWindow"@, ValueKind::Box2i) == Some(AttributeView::Box2i(m.data_window)),
        find_entry(es, "compression"@, ValueKind::Compression) == Some(
            AttributeView::Compression(m.compression),
        ),
        find_entry(es, "channels"@, ValueKind::Channels) matches Some(AttributeView::Channels(cs))
            && m.channels == sort_by_name(cs),
        match find_entry(es, "displayWindow"@, ValueKind::Box2i) {
            Some(AttributeView::Box2i(b)) => m.display_window == b,
            _ => m.display_window == m.data_window,
        },
        match find_entry(es, "lineOrder"@, ValueKind::LineOrder) {
            Some(AttributeView::LineOrder(l)) => m.line_order == l,
            _ => m.line_order.code() == 0,
        },
        m.compression.code() <= 2,
        is_full(m.channels),
{
}

/// A part of a deep file is described in the same way, but that a number of chunks which is
/// negative does not count.
pub proof fn law_deep_part_meta(es: Seq<EntryView>, count: i32)
    requires
        find_int(es, "chunkCount"@) == Some(count),
        count_from(es, 0) == Some(count),
    ensures
        part_of(es) == meta_of(es),
{
}

/// The sizes of tiles are those of the attribute for them, if it is for levels of the kind
/// that is asked for.
pub proof fn law_tile_sizes(es: Seq<EntryView>, t: TileDesc)
    requires
        find_named(es, "tiles"@) == Some(AttributeView::TileDesc(t)),
    ensures
        t.level_mode == 0 && t.round_mode == 0 && t.x_size > 0 && t.y_size > 0 ==> tile_size_of(es, 0)
            == Ok::<(u32, u32), Fault>((t.x_size, t.y_size)),
        t.level_mode == 1 && t.round_mode == 0 && t.x_size > 0 && t.y_size > 0 ==> tile_size_of(es, 1)
            == Ok::<(u32, u32), Fault>((t.x_size, t.y_size)),
        t.level_mode < 16 && (t.level_mode != 0 || t.round_mode != 0) ==> tile_size_of(es, 0)
            == Err::<(u32, u32), Fault>(Fault::Unsupported),
        t.level_mode < 16 && (t.level_mode != 1 || t.round_mode != 0) ==> tile_size_of(es, 1)
            == Err::<(u32, u32), Fault>(Fault::Unsupported),
{
}

// ----------------------------------------------------------------------
// Kinds of files
// ----------------------------------------------------------------------
/// Deep files say what they are: their readers refuse a file that is something else, and one
/// that does not say it.
pub proof fn law_deep_types(s: Seq<u8>, h: HeaderView)
    requires
        single_header_of(s, true) == Ok::<HeaderView, Fault>(h),
    ensures
        !h.version.non_image ==> {
            &&& deep_scanline_of(s) == Err::<DeepView, Fault>(Fault::Invalid)
            &&& deep_tiled_of(s) == Err::<TiledView, Fault>(Fault::Invalid)
            &&& deep_mipmap_of(s) == Err::<MipView, Fault>(Fault::Invalid)
        },
        h.version.non_image ==> match find_text(h.entries, "type"@) {
            None => {
                &&& deep_scanline_of(s) == Err::<DeepView, Fault>(Fault::Invalid)
                &&& deep_tiled_of(s) == Err::<TiledView, Fault>(Fault::Invalid)
                &&& deep_mipmap_of(s) == Err::<MipView, Fault>(Fault::Invalid)
            },
            Some(t) => {
                &&& t != "deepscanline"@ ==> deep_scanline_of(s) == Err::<DeepView, Fault>(
                    Fault::Unsupported,
                )
                &&& t != "deeptile"@ ==> deep_tiled_of(s) == Err::<TiledView, Fault>(
                    Fault::Unsupported,
                ) && deep_mipmap_of(s) == Err::<MipView, Fault>(Fault::Unsupported)
            },
        },
{
}

proof fn lemma_types_fault(hs: Seq<HeaderView>, kind: Seq<char>, k: int, i: int)
    requires
        0 <= k <= i < hs.len(),
        forall|j: int|
            0 <= j < i ==> find_text((#[trigger] hs[j]).entries, "type"@) == Some(kind),
        find_text(hs[i].entries, "type"@) != Some(kind),
    ensures
        types_fault(hs, kind, k) == Some(
            if find_text(hs[i].entries, "type"@) is None {
                Fault::Invalid
            } else {
                Fault::Unsupported
            },
        ),
    decreases i - k,
{
    if k < i {
        assert(find_text(hs[k].entries, "type"@) == Some(kind));
        lemma_types_fault(hs, kind, k + 1, i);
    }
}

/// So do the parts of deep files and of files in tiles.
pub proof fn law_part_types(s: Seq<u8>, hs: Seq<HeaderView>, kind: Seq<char>, i: int)
    requires
        multipart_headers_of(s) == Ok::<Seq<HeaderView>, Fault>(hs),
        0 <= i < hs.len(),
        forall|j: int|
            0 <= j < i ==> find_text((#[trigger] hs[j]).entries, "type"@) == Some(kind),
        find_text(hs[i].entries, "type"@) != Some(kind),
    ensures
        ({
            let fault = if find_text(hs[i].entries, "type"@) is None {
                Fault::Invalid
            } else {
                Fault::Unsupported
            };
            &&& kind == "deepscanline"@ ==> deep_multipart_of(s) == Err::<Seq<PartView>, Fault>(fault)
            &&& kind == "deeptile"@ ==> deep_tiled_multipart_of(s) == Err::<Seq<TiledPartView>, Fault>(
                fault,
            )
            &&& kind == "tiledimage"@ ==> forall|single: bool, log: Seq<u16>|
                #[trigger] crate::flat_multi_tiled::tiled_parts_in(s, single, log) == Err::<
                    crate::flat_multi_tiled::TiledPartsView,
                    Fault,
                >(fault)
        }),
{
    lemma_types_fault(hs, kind, 0, i);
}

/// The parts of a file of lines must not say that they are something else.
pub proof fn law_foreign_parts(s: Seq<u8>, log: Seq<u16>, hs: Seq<HeaderView>, i: int)
    requires
        multipart_headers_of(s) == Ok::<Seq<HeaderView>, Fault>(hs),
        0 <= i < hs.len(),
    ensures
        ({
            let t = find_text(hs[i].entries, "type"@);
            t == Some("deepscanline"@) || t == Some("deeptile"@) || t == Some("tiledimage"@)
                ==> multipart_of(s, log) == Err::<Seq<ImageView>, Fault>(Fault::Unsupported)
        }),
{
    if is_foreign(hs[i]) {
        assert(exists|j: int| 0 <= j < hs.len() && is_foreign(#[trigger] hs[j]));
    }
}

// ----------------------------------------------------------------------
// Chunks
// ----------------------------------------------------------------------
/// Three compressions are not read in chunks of lines or tiles.
pub proof fn law_methods_refused(
    payload: Seq<u8>,
    method: Compression,
    cs: Seq<ChannelView>,
    width: int,
    y0: int,
    n: int,
    log: Seq<u16>,
)
    requires
        crate::flat_block::lines_size(cs, width, y0, false, n) <= u64::MAX,
    ensures
        chunk_planes(payload, method, cs, width, y0, n, log) == Err::<Seq<Seq<u32>>, Fault>(
            Fault::Unsupported,
        ) <==> method.code() == 4 || method.code() == 8 || method.code() == 9,
{
}

/// The chunk of lines at `off` can be read: its head and its bytes are there, it begins with a
/// line of the window, and its bytes can be unpacked.
pub open spec fn chunk_stands(
    s: Seq<u8>,
    off: int,
    cs: Seq<ChannelView>,
    window: Box2i,
    method: Compression,
    log: Seq<u16>,
) -> bool {
    &&& off + 8 <= s.len()
    &&& 0 <= signed_at(s, off + 4)
    &&& off + 8 + signed_at(s, off + 4) <= s.len()
    &&& window.y_min <= signed_at(s, off) < window.y_min + window.rows()
    &&& chunk_samples(s, off, cs, window, method, log) is Ok
}

proof fn lemma_chunk_stands(
    planes: Seq<Seq<u32>>,
    s: Seq<u8>,
    off: int,
    cs: Seq<ChannelView>,
    window: Box2i,
    method: Compression,
    log: Seq<u16>,
)
    ensures
        chunk_stands(s, off, cs, window, method, log) <==> (line_head_at(s, off) matches Some((y, a, b))
            && lines_applied(planes, cs, window, y, s.subrange(a, b), method, log) is Ok),
{
    law_numbers(s, off);
    law_numbers(s, off + 4);
    assert(method.block_rows() == chunk_height(method));
}

proof fn lemma_lines_stand(
    s: Seq<u8>,
    base: int,
    cs: Seq<ChannelView>,
    window: Box2i,
    method: Compression,
    log: Seq<u16>,
    k: int,
)
    requires
        0 <= k,
    ensures
        scanlines_after(s, base, cs, window, method, log, k) is Ok <==> forall|j: int|
            0 <= j < k ==> chunk_stands(s, #[trigger] entry_of(s, base, j), cs, window, method, log),
    decreases k,
{
    if k > 0 {
        lemma_lines_stand(s, base, cs, window, method, log, k - 1);
        law_numbers(s, base + 8 * (k - 1));
        let off = entry_of(s, base, k - 1);
        if let Ok(planes) = scanlines_after(s, base, cs, window, method, log, k - 1) {
            lemma_chunk_stands(planes, s, off, cs, window, method, log);
        }
        if forall|j: int|
            0 <= j < k ==> chunk_stands(s, #[trigger] entry_of(s, base, j), cs, window, method, log) {
            assert(chunk_stands(s, off, cs, window, method, log));
        }
    }
}

/// A file of lines is read if and only if it is described, has pixels that can be held, and
/// each of its chunks can be read.
pub proof fn law_lines_accepted(s: Seq<u8>, log: Seq<u16>, h: HeaderView, n: int)
    requires
        header_of(s) == Ok::<HeaderView, Fault>(h),
        !h.version.single_tile,
        required_of(h.entries) matches Some(m) ==> chunk_height(m.compression) * (n - 1)
            < m.data_window.rows() <= chunk_height(m.compression) * n,
    ensures
        exr_of(s, log) is Ok <==> (required_of(h.entries) matches Some(m) && {
            let cs = sort_by_name(m.channels);
            let (w, e) = (m.data_window.columns() as int, m.data_window.rows() as int);
            &&& w > 0
            &&& e > 0
            &&& is_spaced(cs)
            &&& is_holdable(cs, w, e)
            &&& h.end + 8 * n <= s.len()
            &&& forall|j: int|
                0 <= j < n ==> chunk_stands(
                    s,
                    #[trigger] entry_of(s, h.end, j),
                    cs,
                    m.data_window,
                    m.compression,
                    log,
                )
        }),
{
    if let Some(m) = required_of(h.entries) {
        let b = chunk_height(m.compression);
        assert(b == m.compression.block_rows());
        lemma_steps_are(m.data_window.rows() as int, b, n);
        if m.data_window.rows() > 0 {
            assert(n >= 0) by (nonlinear_arith)
                requires
                    0 < m.data_window.rows() <= b * n,
                    b > 0,
            ;
            lemma_lines_stand(
                s,
                h.end,
                sort_by_name(m.channels),
                m.data_window,
                m.compression,
                log,
                n,
            );
        }
    }
}

/// The chunk of a part at `at` can be read.
pub open spec fn part_chunk_stands(
    s: Seq<u8>,
    at: int,
    ms: Seq<RequiredView>,
    log: Seq<u16>,
) -> bool {
    let p = signed_at(s, at);
    &&& at + 4 <= s.len()
    &&& 0 <= p < ms.len()
    &&& chunk_stands(
        s,
        at + 4,
        sort_by_name(ms[p].channels),
        ms[p].data_window,
        ms[p].compression,
        log,
    )
}

/// The chunks of several parts are read if and only if each can be.
pub proof fn law_parts_accepted(
    s: Seq<u8>,
    start: int,
    ms: Seq<RequiredView>,
    log: Seq<u16>,
    k: int,
)
    requires
        0 <= k,
    ensures
        part_lines_after(s, start, ms, log, k) is Ok <==> forall|j: int|
            0 <= j < k ==> part_chunk_stands(s, #[trigger] line_chunk_at(s, start, j), ms, log),
        part_lines_after(s, start, ms, log, k) matches Ok((parts, pos)) ==> pos == line_chunk_at(
            s,
            start,
            k,
        ),
    decreases k,
{
    if k > 0 {
        law_parts_accepted(s, start, ms, log, k - 1);
        let at = line_chunk_at(s, start, k - 1);
        law_numbers(s, at);
        law_numbers(s, at + 4);
        law_numbers(s, at + 8);
        if let Ok((parts, pos)) = part_lines_after(s, start, ms, log, k - 1) {
            let p = signed_at(s, at);
            if 0 <= p < ms.len() {
                lemma_chunk_stands(
                    parts[p],
                    s,
                    at + 4,
                    sort_by_name(ms[p].channels),
                    ms[p].data_window,
                    ms[p].compression,
                    log,
                );
            }
        }
        if forall|j: int|
            0 <= j < k ==> part_chunk_stands(s, #[trigger] line_chunk_at(s, start, j), ms, log) {
            assert(part_chunk_stands(s, at, ms, log));
        }
    }
}

// ----------------------------------------------------------------------
// Tiles
// ----------------------------------------------------------------------
/// The chunk at `off` can be read as a tile of level `i`: its head and its bytes are there, it has
/// the numbers of that level, the tile begins in the level, and its bytes can be unpacked.
pub open spec fn tile_stands_in(s: Seq<u8>, off: int, f: FrameView, log: Seq<u16>, i: int) -> bool {
    let l = f.levels[i];
    &&& off + 20 <= s.len()
    &&& 0 <= signed_at(s, off + 16)
    &&& off + 20 + signed_at(s, off + 16) <= s.len()
    &&& l.level_x == signed_at(s, off + 8)
    &&& l.level_y == signed_at(s, off + 12)
    &&& 0 <= signed_at(s, off)
    &&& 0 <= signed_at(s, off + 4)
    &&& signed_at(s, off) * f.tile_x < l.width
    &&& signed_at(s, off + 4) * f.tile_y < l.height
    &&& tile_samples(
        s,
        off,
        f.channels,
        l.width as int,
        l.height as int,
        (f.tile_x, f.tile_y),
        f.compression,
        log,
    ) is Ok
}

/// The chunk at `off` can be read as a tile of one of the levels.
pub open spec fn tile_stands(s: Seq<u8>, off: int, f: FrameView, log: Seq<u16>) -> bool {
    exists|i: int| 0 <= i < f.levels.len() && #[trigger] tile_stands_in(s, off, f, log, i)
}

/// Levels have sizes, and no two have the same numbers.
pub open spec fn levels_differ(f: FrameView) -> bool {
    &&& f.tile_x > 0
    &&& f.tile_y > 0
    &&& forall|i: int| 0 <= i < f.levels.len() ==> (#[trigger] f.levels[i]).width > 0 && f.levels[i].height > 0
    &&& forall|i: int, j: int|
        #![trigger f.levels[i], f.levels[j]]
        0 <= i < j < f.levels.len() ==> f.levels[i].level_x != f.levels[j].level_x
            || f.levels[i].level_y != f.levels[j].level_y
}

proof fn lemma_level_index(levels: Seq<LevelShape>, lx: int, ly: int, k: int)
    requires
        0 <= k <= levels.len(),
    ensures
        match level_index(levels, lx, ly, k) {
            Some(i) => k <= i < levels.len() && levels[i].level_x == lx && levels[i].level_y == ly,
            None => forall|i: int|
                k <= i < levels.len() ==> !((#[trigger] levels[i]).level_x == lx && levels[i].level_y
                    == ly),
        },
    decreases levels.len() - k,
{
    if k < levels.len() {
        lemma_level_index(levels, lx, ly, k + 1);
    }
}

proof fn lemma_in_level(n: int, t: int, q: int)
    requires
        0 < n,
        0 < t,
        0 <= q,
    ensures
        q < steps(n, t) <==> q * t < n,
        q * t < n ==> step_len(n, t, q) == part_of_tile(n, t, q * t),
{
    if q * t < n {
        lemma_tile_inside(n, t, q);
    } else {
        lemma_tile_beyond(n, t, q);
    }
}

proof fn lemma_tile_stands(
    planes: Seq<Seq<Seq<u32>>>,
    s: Seq<u8>,
    off: int,
    f: FrameView,
    log: Seq<u16>,
)
    requires
        levels_differ(f),
        0 <= off,
    ensures
        tile_stands(s, off, f, log) <==> (tile_head_at(s, off) matches Some((tx, ty, lx, ly, a, b))
            && level_applied(
            planes,
            f,
            tx as int,
            ty as int,
            lx as int,
            ly as int,
            s.subrange(a, b),
            log,
        ) is Ok),
{
    law_tile_head(s, off);
    let (lx, ly) = (signed_at(s, off + 8), signed_at(s, off + 12));
    lemma_level_index(f.levels, lx, ly, 0);
    if let Some(i) = level_index(f.levels, lx, ly, 0) {
        let l = f.levels[i];
        if signed_at(s, off) >= 0 {
            lemma_in_level(l.width as int, f.tile_x as int, signed_at(s, off));
        }
        if signed_at(s, off + 4) >= 0 {
            lemma_in_level(l.height as int, f.tile_y as int, signed_at(s, off + 4));
        }
        if tile_stands(s, off, f, log) {
            let j = choose|j: int|
                0 <= j < f.levels.len() && #[trigger] tile_stands_in(s, off, f, log, j);
            assert(f.levels[i].level_x == f.levels[j].level_x && f.levels[i].level_y
                == f.levels[j].level_y);
            assert(i == j);
        }
        if tile_head_at(s, off) is Some && level_applied(
            planes,
            f,
            signed_at(s, off),
            signed_at(s, off + 4),
            lx,
            ly,
            s.subrange(off + 20, off + 20 + signed_at(s, off + 16)),
            log,
        ) is Ok {
            assert(tile_stands_in(s, off, f, log, i));
        }
    }
}

/// The chunks of a file in tiles are read if and only if each can be.
pub proof fn law_tiles_accepted(s: Seq<u8>, base: int, f: FrameView, log: Seq<u16>, k: int)
    requires
        0 <= k,
        levels_differ(f),
    ensures
        levels_after(s, base, f, log, k) is Ok <==> forall|j: int|
            0 <= j < k ==> tile_stands(s, #[trigger] entry_of(s, base, j), f, log),
    decreases k,
{
    if k > 0 {
        law_tiles_accepted(s, base, f, log, k - 1);
        law_numbers(s, base + 8 * (k - 1));
        let off = entry_of(s, base, k - 1);
        if let Ok(planes) = levels_after(s, base, f, log, k - 1) {
            lemma_tile_stands(planes, s, off, f, log);
        }
        if forall|j: int|
            0 <= j < k ==> tile_stands(s, #[trigger] entry_of(s, base, j), f, log) {
            assert(tile_stands(s, off, f, log));
        }
    }
}

// ----------------------------------------------------------------------
// Writing
// ----------------------------------------------------------------------
/// What an image is not written for: samples that are not as many as the channels say, names
/// that do not ascend, and compressions but those without loss and the one of short floats.
pub proof fn law_flat_written(v: FlatInput)
    ensures
        v.compression.code() == 4 || v.compression.code() > 5 ==> flat_fault(v) is Some,
        flat_fault(v) == Some(Fault::Unsupported) ==> v.compression.code() == 4
            || v.compression.code() > 5,
        flat_fault(v) is None ==> v.planes.len() == v.channels.len() && forall|c: int|
            #![trigger v.planes[c]]
            0 <= c < v.channels.len() && v.channels[c].x_sampling == 1 && v.channels[c].y_sampling == 1
                ==> v.planes[c].len() == v.height * v.width,
{
}

/// What a deep image is not written for.
pub proof fn law_deep_written(v: InputView)
    ensures
        v.compression.code() > 2 <==> scanline_fault(v) == Some(Fault::Unsupported) && !is_deep_method(
            v.compression,
        ),
        v.compression.code() <= 2 && v.counts.len() != v.width * v.height ==> scanline_fault(v)
            == Some(Fault::Invalid),
{
}

/// The names of parts are refused where one is empty or stands twice.
pub proof fn law_part_names(names: Seq<Seq<char>>, i: int)
    requires
        0 <= i < names.len(),
    ensures
        !name_clashes(names, i) <==> names[i].len() > 0 && forall|j: int|
            0 <= j < names.len() && j != i ==> #[trigger] names[j] != names[i],
{
    if names[i].len() > 0 && forall|j: int|
        0 <= j < names.len() && j != i ==> #[trigger] names[j] != names[i] {
        assert(!name_clashes(names, i));
    }
}

} // verus!
