//! Where the fields of a file stand, byte by byte.

use crate::bytes::{
    i32_at, i32_le, lemma_stands_split, stands_at, u16_at, u16_le, u32_at, u32_le, u64_at, u64_le,
};
use crate::grid::steps;
use crate::header::{
    channel_at, channels_from, channels_of, entries_from, entry_at, is_endable, is_storable,
    lemma_entry_advances, lemma_kind_of_label, lemma_name_reads_back, lemma_text_advances,
    lemma_text_reads_back, multipart_headers_of, single_header_of, value_as, value_of, version_of,
};
use crate::types::{
    tile_desc_of, AttributeView, Box2f, Box2i, Chromaticities, Compression, EntryView, LineOrder,
    PixelType, TileDesc,
};
use vstd::prelude::*;
use vstd::utf8::*;

verus! {

broadcast use crate::bytes::group_le_len;

// ----------------------------------------------------------------------
// Numbers
// ----------------------------------------------------------------------
/// The number whose `n` bytes begin at `at`, the least significant first.
pub open spec fn number_at(s: Seq<u8>, at: int, n: nat) -> int
    decreases n,
{
    if n == 0 {
        0
    } else {
        s[at] + 256 * number_at(s, at + 1, (n - 1) as nat)
    }
}

/// The number whose four bytes begin at `at`, in two's complement.
pub open spec fn signed_at(s: Seq<u8>, at: int) -> int {
    let v = number_at(s, at, 4);
    if v < 0x8000_0000 {
        v
    } else {
        v - 0x1_0000_0000
    }
}

/// Numbers are read with the least significant byte first.
pub proof fn law_numbers(s: Seq<u8>, i: int)
    ensures
        u16_at(s, i) == s[i] + 0x100 * s[i + 1],
        u32_at(s, i) == s[i] + 0x100 * s[i + 1] + 0x1_0000 * s[i + 2] + 0x100_0000 * s[i + 3],
        u64_at(s, i) == s[i] + 0x100 * s[i + 1] + 0x1_0000 * s[i + 2] + 0x100_0000 * s[i + 3]
            + 0x1_0000_0000 * s[i + 4] + 0x100_0000_0000 * s[i + 5] + 0x1_0000_0000_0000 * s[i + 6]
            + 0x100_0000_0000_0000 * s[i + 7],
        u16_at(s, i) == number_at(s, i, 2),
        u32_at(s, i) == number_at(s, i, 4),
        u64_at(s, i) == number_at(s, i, 8),
        i32_at(s, i) == signed_at(s, i),
{
    reveal(u16_at);
    reveal(u32_at);
    reveal(u64_at);
    reveal_with_fuel(number_at, 9);
}

/// Numbers are written with the least significant byte first.
pub proof fn law_written_numbers(a: u16, b: u32, c: u64, d: i32)
    ensures
        number_at(u16_le(a), 0, 2) == a,
        number_at(u32_le(b), 0, 4) == b,
        number_at(u64_le(c), 0, 8) == c,
        signed_at(i32_le(d), 0) == d,
{
    reveal(u16_le);
    reveal(u32_le);
    reveal(u64_le);
    reveal_with_fuel(number_at, 9);
}

// ----------------------------------------------------------------------
// Codes
// ----------------------------------------------------------------------
/// The numbers of the pixel types, and the bytes of a sample.
pub proof fn law_pixel_types(v: i32, t: PixelType)
    ensures
        PixelType::of(v) is Some <==> 0 <= v <= 2,
        PixelType::of(v) == Some(t) <==> t.code() == v,
        t is Half <==> t.code() == 1,
        t is Uint <==> t.code() == 0,
        t.size() == 2 <==> t is Half,
        t.size() == 2 || t.size() == 4,
{
}

/// The numbers of the compressions.
pub proof fn law_compressions(b: u8, c: Compression)
    ensures
        Compression::of(b) is Some <==> b < 10,
        Compression::of(b) == Some(c) <==> c.code() == b,
        c is Uncompressed <==> c.code() == 0,
        c is Rle <==> c.code() == 1,
        c is Zips <==> c.code() == 2,
        c is Zip <==> c.code() == 3,
        c is Piz <==> c.code() == 4,
        c is Pxr24 <==> c.code() == 5,
        c is B44 <==> c.code() == 6,
        c is B44a <==> c.code() == 7,
        c is Dwaa <==> c.code() == 8,
        c is Dwab <==> c.code() == 9,
{
}

/// The numbers of the line orders.
pub proof fn law_line_orders(b: u8, l: LineOrder)
    ensures
        LineOrder::of(b) is Some <==> b < 3,
        LineOrder::of(b) == Some(l) <==> l.code() == b,
        l is IncreasingY <==> l.code() == 0,
        l is DecreasingY <==> l.code() == 1,
{
}

/// The chunks of an image of `h` lines hold one line each without compression,
/// with runs, or with ZIPS; sixteen with ZIP or PXR24; thirty-two with PIZ, B44,
/// B44A or DWAA; and 256 with DWAB. The last may hold fewer.
pub proof fn law_chunk_count(c: Compression, h: int)
    requires
        0 < h,
    ensures
        ({
            let n = steps(h, c.block_rows() as int);
            &&& c is Uncompressed || c is Rle || c is Zips ==> n == h
            &&& c is Zip || c is Pxr24 ==> 16 * (n - 1) < h <= 16 * n
            &&& c is Piz || c is B44 || c is B44a || c is Dwaa ==> 32 * (n - 1) < h <= 32 * n
            &&& c is Dwab ==> 256 * (n - 1) < h <= 256 * n
        }),
        c.block_rows() >= 1,
        c is Zip || c is Pxr24 ==> c.block_rows() == 16,
        c is Piz || c is B44 || c is B44a || c is Dwaa ==> 2 * 16 == c.block_rows(),
        c is Dwab ==> c.block_rows() == 16 * 16,
        c is Uncompressed || c is Rle || c is Zips ==> c.block_rows() == 1,
{
    assert(steps(h, 1) == h && steps(h, 16) == (h + 15) / 16 && steps(h, 32) == (h + 31) / 32
        && steps(h, 256) == (h + 255) / 256);
}

/// A window holds the columns and rows from its lower to its upper corner, both
/// included, wherever it stands.
pub proof fn law_window_size(w: Box2i, dx: int, dy: int, moved: Box2i)
    requires
        moved.x_min == w.x_min + dx,
        moved.x_max == w.x_max + dx,
        moved.y_min == w.y_min + dy,
        moved.y_max == w.y_max + dy,
    ensures
        moved.columns() == w.columns(),
        moved.rows() == w.rows(),
        w.x_min <= w.x_max && w.columns() < u32::MAX ==> w.x_min + w.columns() == w.x_max + 1,
        w.y_min <= w.y_max && w.rows() < u32::MAX ==> w.y_min + w.rows() == w.y_max + 1,
        w.x_max < w.x_min ==> w.columns() == 0,
        w.y_max < w.y_min ==> w.rows() == 0,
{
}

/// A tile description is two sizes of four bytes and a byte whose low half is
/// how levels are made, and whose high half is how their sizes are rounded.
pub proof fn law_tile_desc_fields(data: Seq<u8>)
    ensures
        tile_desc_of(data) is Some <==> data.len() == 9,
        tile_desc_of(data) matches Some(t) ==> {
            &&& t.x_size == number_at(data, 0, 4)
            &&& t.y_size == number_at(data, 4, 4)
            &&& data[8] == t.level_mode + 16 * t.round_mode
            &&& t.level_mode < 16
        },
{
    law_numbers(data, 0);
    law_numbers(data, 4);
}

// ----------------------------------------------------------------------
// Headers
// ----------------------------------------------------------------------
/// The flags of the version field, and the longest name that it allows.
pub proof fn law_version_flags(raw: u32)
    ensures
        ({
            let v = version_of(raw);
            &&& v.raw == raw
            &&& v.format_version == raw & 0xff
            &&& v.single_tile <==> raw & 0x200 != 0
            &&& v.long_names <==> raw & 0x400 != 0
            &&& v.non_image <==> raw & 0x800 != 0
            &&& v.multipart <==> raw & 0x1000 != 0
            &&& v.name_limit() == if raw & 0x400 != 0 {
                0xffint
            } else {
                0x1fint
            }
        }),
{
    assert(raw % 256 == raw & 0xff && ((raw / 0x200) % 2 == 1 <==> raw & 0x200 != 0) && ((raw
        / 0x400) % 2 == 1 <==> raw & 0x400 != 0) && ((raw / 0x800) % 2 == 1 <==> raw & 0x800 != 0)
        && ((raw / 0x1000) % 2 == 1 <==> raw & 0x1000 != 0)) by (bit_vector);
}

/// A file begins with four fixed bytes, then the version field, then the
/// attributes. With several parts the flag for them is set, without it is not.
pub proof fn law_file_begins(s: Seq<u8>, deep: bool)
    ensures
        single_header_of(s, deep) matches Ok(h) ==> {
            &&& s.len() >= 8
            &&& s[0] == 0x76 && s[1] == 0x2f && s[2] == 0x31 && s[3] == 0x01
            &&& h.version.raw == number_at(s, 4, 4)
            &&& !h.version.multipart
            &&& h.version.non_image ==> deep
            &&& entries_from(s, 8, h.version.name_limit()) == Some((h.entries, h.end))
        },
        multipart_headers_of(s) matches Ok(hs) ==> {
            &&& s.len() >= 8
            &&& s[0] == 0x76 && s[1] == 0x2f && s[2] == 0x31 && s[3] == 0x01
            &&& forall|i: int|
                0 <= i < hs.len() ==> (#[trigger] hs[i]).version.raw == number_at(s, 4, 4)
                    && hs[i].version.multipart
        },
{
    law_numbers(s, 0);
    law_numbers(s, 4);
}

/// An attribute is a name and the name of a type, a zero byte behind each, the
/// length of the payload in four bytes, and the payload.
pub proof fn law_attribute_fields(
    s: Seq<u8>,
    pos: int,
    name: Seq<char>,
    label: Seq<char>,
    max: int,
)
    requires
        is_storable(name, max),
        is_endable(label, max),
        stands_at(s, pos, encode_utf8(name).push(0) + encode_utf8(label).push(0)),
    ensures
        ({
            let at = pos + encode_utf8(name).len() + 1 + encode_utf8(label).len() + 1;
            let n = signed_at(s, at);
            entry_at(s, pos, max) == if at + 4 <= s.len() && 0 <= n && at + 4 + n <= s.len() {
                match value_of(label, s.subrange(at + 4, at + 4 + n)) {
                    Some(value) => Some((EntryView { name, value }, at + 4 + n)),
                    None => None,
                }
            } else {
                None
            }
        }),
{
    let a = encode_utf8(name).push(0);
    let b = encode_utf8(label).push(0);
    lemma_stands_split(s, pos, a, b);
    lemma_name_reads_back(s, pos, name, max);
    lemma_text_reads_back(s, pos + a.len(), label, max);
    law_numbers(s, pos + a.len() + b.len());
}

/// The attributes of a table stand one behind the other in the order of the
/// list, up to a zero byte.
pub proof fn law_attributes_in_order(s: Seq<u8>, pos: int, max: int)
    requires
        0 <= pos,
        0 <= max,
        entries_from(s, pos, max) is Some,
    ensures
        entries_from(s, pos, max) matches Some((es, end)) && if es.len() == 0 {
            s[pos] == 0 && end == pos + 1
        } else {
            s[pos] != 0 && (entry_at(s, pos, max) matches Some((e, next)) && e == es[0]
                && entries_from(s, next, max) == Some((es.skip(1), end)))
        },
{
    if s[pos] != 0 {
        lemma_entry_advances(s, pos, max);
        let (e, next) = entry_at(s, pos, max)->Some_0;
        let (rest, end) = entries_from(s, next, max)->Some_0;
        assert((seq![e] + rest).skip(1) =~= rest);
    }
}

/// A channel is a name with a zero byte behind it, its pixel type in four bytes,
/// a byte that says whether it is linear, three bytes of no meaning, and its two
/// distances between samples in four bytes each.
pub proof fn law_channel_fields(s: Seq<u8>, pos: int, name: Seq<char>)
    requires
        is_storable(name, 0xff),
        stands_at(s, pos, encode_utf8(name).push(0)),
    ensures
        ({
            let at = pos + encode_utf8(name).len() + 1;
            let kind = signed_at(s, at);
            match channel_at(s, pos) {
                Some((c, end)) => {
                    &&& end == at + 16
                    &&& end <= s.len()
                    &&& c.name == name
                    &&& c.pixel_type.code() == kind
                    &&& c.p_linear <==> s[at + 4] != 0
                    &&& c.x_sampling == signed_at(s, at + 8)
                    &&& c.y_sampling == signed_at(s, at + 12)
                },
                None => at + 16 > s.len() || !(0 <= kind <= 2),
            }
        }),
{
    let at = pos + encode_utf8(name).len() + 1;
    lemma_name_reads_back(s, pos, name, 0xff);
    law_numbers(s, at);
    law_numbers(s, at + 8);
    law_numbers(s, at + 12);
}

/// The channels of a list stand one behind the other in the order of the list;
/// a zero byte ends it, and nothing stands behind that.
pub proof fn law_channels_in_order(s: Seq<u8>, pos: int)
    requires
        0 <= pos,
        channels_from(s, pos) is Some,
    ensures
        channels_from(s, pos) matches Some(cs) && if cs.len() == 0 {
            s[pos] == 0 && s.len() == pos + 1
        } else {
            s[pos] != 0 && (channel_at(s, pos) matches Some((c, next)) && c == cs[0]
                && channels_from(s, next) == Some(cs.skip(1)))
        },
        channels_of(s) == channels_from(s, 0),
{
    if s[pos] != 0 {
        lemma_text_advances(s, pos, 0xff);
        let (c, next) = channel_at(s, pos)->Some_0;
        let rest = channels_from(s, next)->Some_0;
        assert((seq![c] + rest).skip(1) =~= rest);
    }
}

/// What the payloads of the integer types hold.
pub proof fn law_integer_values(data: Seq<u8>)
    ensures
        value_of("compression"@, data) matches Some(v) ==> data.len() == 1 && (v
            matches AttributeView::Compression(c) && c.code() == data[0]),
        data.len() == 1 && data[0] < 10 ==> value_of("compression"@, data) is Some,
        value_of("lineOrder"@, data) matches Some(v) ==> data.len() == 1 && (v
            matches AttributeView::LineOrder(l) && l.code() == data[0]),
        data.len() == 1 && data[0] < 3 ==> value_of("lineOrder"@, data) is Some,
        value_of("int"@, data) is Some <==> data.len() == 4,
        value_of("int"@, data) matches Some(v) ==> (v matches AttributeView::Int(x) && x
            == signed_at(data, 0)),
        value_of("v2i"@, data) is Some <==> data.len() == 8,
        value_of("v2i"@, data) matches Some(v) ==> (v matches AttributeView::V2i(x, y) && x
            == signed_at(data, 0) && y == signed_at(data, 4)),
        value_of("v3i"@, data) is Some <==> data.len() == 12,
        value_of("v3i"@, data) matches Some(v) ==> (v matches AttributeView::V3i(x, y, z) && x
            == signed_at(data, 0) && y == signed_at(data, 4) && z == signed_at(data, 8)),
        value_of("box2i"@, data) is Some <==> data.len() == 16,
        value_of("box2i"@, data) matches Some(v) ==> (v matches AttributeView::Box2i(b) && b.x_min
            == signed_at(data, 0) && b.y_min == signed_at(data, 4) && b.x_max == signed_at(data, 8)
            && b.y_max == signed_at(data, 12)),
{
    reveal(value_as);
    law_numbers(data, 0);
    law_numbers(data, 4);
    law_numbers(data, 8);
    law_numbers(data, 12);
    lemma_kind_of_label(AttributeView::Compression(Compression::Zip));
    lemma_kind_of_label(AttributeView::LineOrder(LineOrder::RandomY));
    lemma_kind_of_label(AttributeView::Int(0));
    lemma_kind_of_label(AttributeView::V2i(0, 0));
    lemma_kind_of_label(AttributeView::V3i(0, 0, 0));
    lemma_kind_of_label(AttributeView::Box2i(Box2i { x_min: 0, y_min: 0, x_max: 0, y_max: 0 }));
}

/// What the payloads of the types of bit patterns hold.
pub proof fn law_pattern_values(data: Seq<u8>)
    ensures
        value_of("float"@, data) is Some <==> data.len() == 4,
        value_of("float"@, data) matches Some(v) ==> (v matches AttributeView::Float(x) && x
            == number_at(data, 0, 4)),
        value_of("double"@, data) is Some <==> data.len() == 8,
        value_of("double"@, data) matches Some(v) ==> (v matches AttributeView::Double(x) && x
            == number_at(data, 0, 8)),
        value_of("v2f"@, data) is Some <==> data.len() == 8,
        value_of("v2f"@, data) matches Some(v) ==> (v matches AttributeView::V2f(x, y) && x
            == number_at(data, 0, 4) && y == number_at(data, 4, 4)),
        value_of("v3f"@, data) is Some <==> data.len() == 12,
        value_of("v3f"@, data) matches Some(v) ==> (v matches AttributeView::V3f(x, y, z) && x
            == number_at(data, 0, 4) && y == number_at(data, 4, 4) && z == number_at(data, 8, 4)),
        value_of("box2f"@, data) is Some <==> data.len() == 16,
        value_of("box2f"@, data) matches Some(v) ==> (v matches AttributeView::Box2f(b) && b.x_min
            == number_at(data, 0, 4) && b.y_min == number_at(data, 4, 4) && b.x_max == number_at(
            data,
            8,
            4,
        ) && b.y_max == number_at(data, 12, 4)),
{
    reveal(value_as);
    law_numbers(data, 0);
    law_numbers(data, 4);
    law_numbers(data, 8);
    law_numbers(data, 12);
    lemma_kind_of_label(AttributeView::Float(0));
    lemma_kind_of_label(AttributeView::Double(0));
    lemma_kind_of_label(AttributeView::V2f(0, 0));
    lemma_kind_of_label(AttributeView::V3f(0, 0, 0));
    lemma_kind_of_label(AttributeView::Box2f(Box2f { x_min: 0, y_min: 0, x_max: 0, y_max: 0 }));
}

/// What the payloads of primaries and matrices hold: the colours red, green,
/// blue and white in that order, and the numbers of a matrix row by row.
pub proof fn law_table_values(data: Seq<u8>, k: int)
    ensures
        value_of("chromaticities"@, data) is Some <==> data.len() == 32,
        value_of("chromaticities"@, data) matches Some(v) ==> (v
            matches AttributeView::Chromaticities(c) && c.red_x == number_at(data, 0, 4) && c.red_y
            == number_at(data, 4, 4) && c.green_x == number_at(data, 8, 4) && c.green_y
            == number_at(data, 12, 4) && c.blue_x == number_at(data, 16, 4) && c.blue_y
            == number_at(data, 20, 4) && c.white_x == number_at(data, 24, 4) && c.white_y
            == number_at(data, 28, 4)),
        value_of("m33f"@, data) is Some <==> data.len() == 36,
        value_of("m33f"@, data) matches Some(v) ==> (v matches AttributeView::M33f(m) && m.len()
            == 9 && (0 <= k < 9 ==> m[k] == number_at(data, 4 * k, 4))),
        value_of("m44f"@, data) is Some <==> data.len() == 64,
        value_of("m44f"@, data) matches Some(v) ==> (v matches AttributeView::M44f(m) && m.len()
            == 16 && (0 <= k < 16 ==> m[k] == number_at(data, 4 * k, 4))),
{
    reveal(value_as);
    law_numbers(data, 0);
    law_numbers(data, 4);
    law_numbers(data, 8);
    law_numbers(data, 12);
    law_numbers(data, 16);
    law_numbers(data, 20);
    law_numbers(data, 24);
    law_numbers(data, 28);
    law_numbers(data, 4 * k);
    lemma_kind_of_label(AttributeView::M33f(Seq::empty()));
    lemma_kind_of_label(AttributeView::M44f(Seq::empty()));
    lemma_kind_of_label(
        AttributeView::Chromaticities(
            Chromaticities {
                red_x: 0,
                red_y: 0,
                green_x: 0,
                green_y: 0,
                blue_x: 0,
                blue_y: 0,
                white_x: 0,
                white_y: 0,
            },
        ),
    );
}

/// What the payloads of texts, channel lists, tile descriptions and lists of
/// texts hold. A list of texts that begins with a text has its length first.
pub proof fn law_text_values(data: Seq<u8>)
    ensures
        value_of("string"@, data) == if valid_utf8(data) {
            Some(AttributeView::Text(decode_utf8(data)))
        } else {
            None
        },
        value_of("chlist"@, data) == match channels_of(data) {
            Some(cs) => Some(AttributeView::Channels(cs)),
            None => None,
        },
        value_of("tiledesc"@, data) == match tile_desc_of(data) {
            Some(t) => Some(AttributeView::TileDesc(t)),
            None => None,
        },
        value_of("stringvector"@, data) is Some,
        value_of("stringvector"@, data) matches Some(AttributeView::Texts(t)) ==> {
            &&& t.len() == 0 <==> data.len() == 0
            &&& t.len() > 0 ==> {
                let n = signed_at(data, 0);
                &&& 0 <= n && 4 + n <= data.len()
                &&& valid_utf8(data.subrange(4, 4 + n))
                &&& t[0] == decode_utf8(data.subrange(4, 4 + n))
            }
        },
{
    reveal(value_as);
    law_numbers(data, 0);
    lemma_kind_of_label(AttributeView::Text(Seq::empty()));
    lemma_kind_of_label(AttributeView::Texts(Seq::empty()));
    lemma_kind_of_label(AttributeView::Channels(Seq::empty()));
    lemma_kind_of_label(
        AttributeView::TileDesc(
            TileDesc { x_size: 0, y_size: 0, level_mode: 0, round_mode: 0 },
        ),
    );
}

} // verus!
