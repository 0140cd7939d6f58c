//! The attributes of a deep image: reading them from a header, and making
//! them for one.

use crate::attrs::{
    count_from, find_box, find_box2i, find_channels, find_chunk_count, find_compression, find_int,
    find_int_attr, find_line_order, lemma_count_stated,
    find_list, find_method, find_named, find_order, find_text, lemma_entry_index, lemma_named_index,
};
use crate::bytes::{i32_of_u32, to_signed};
use crate::deep_block::{deep_method, is_deep_method};
use crate::error::{ExrError, Fault};
use crate::header::{
    channel_list_bytes, channels_storable, entries_storable, entry_storable, is_storable,
    law_value_round_trip, lemma_ascii_storable, lemma_label_storable, lemma_words_len, ValueKind,
};
use crate::types::{
    channel_views, entry_views, law_sort_of_ascending, names_ascend, sort_by_name, sorted_by_name, Attribute, AttributeValue,
    AttributeView, Box2i, Channel, ChannelView, Compression, EntryView, LineOrder, TileDesc,
};
use vstd::prelude::*;
use vstd::string::*;
use vstd::utf8::*;

verus! {

broadcast use crate::bytes::group_le_len;

/// What the header of a deep image says of it.
#[derive(Debug, Clone, PartialEq, Eq)]
pub struct DeepMeta {
    pub data_window: Box2i,
    pub display_window: Box2i,
    pub line_order: LineOrder,
    pub compression: Compression,
    pub channels: Vec<Channel>,
}

/// What a [`DeepMeta`] stands for.
#[verifier::ext_equal]
pub struct MetaView {
    pub data_window: Box2i,
    pub display_window: Box2i,
    pub line_order: LineOrder,
    pub compression: Compression,
    pub channels: Seq<ChannelView>,
}

impl View for DeepMeta {
    type V = MetaView;

    open spec fn view(&self) -> MetaView {
        MetaView {
            data_window: self.data_window,
            display_window: self.display_window,
            line_order: self.line_order,
            compression: self.compression,
            channels: channel_views(self.channels@),
        }
    }
}

/// Every channel has a sample at every pixel.
pub open spec fn is_full(cs: Seq<ChannelView>) -> bool {
    forall|i: int| 0 <= i < cs.len() ==> (#[trigger] cs[i]).x_sampling == 1 && cs[i].y_sampling == 1
}

/// The number of chunks and the description of a deep image that a header
/// gives.
pub open spec fn meta_of(es: Seq<EntryView>) -> Result<(i32, MetaView), Fault> {
    meta_with(es, find_int(es, "chunkCount"@))
}

/// The number of chunks and the description of a part of a deep file that its
/// header gives.
pub open spec fn part_of(es: Seq<EntryView>) -> Result<(i32, MetaView), Fault> {
    meta_with(es, count_from(es, 0))
}

/// The description of a deep image that a header gives, with its number of
/// chunks. The display window and the line order may be missing.
pub open spec fn meta_with(es: Seq<EntryView>, chunks: Option<i32>) -> Result<(i32, MetaView), Fault> {
    match (chunks, find_box(es, "dataWindow"@), find_method(es), find_list(es)) {
        (Some(count), Some(data_window), Some(compression), Some(channels)) => {
            if !is_deep_method(compression) {
                Err(Fault::Invalid)
            } else if !is_full(sort_by_name(channels)) {
                Err(Fault::Unsupported)
            } else {
                Ok(
                    (
                        count,
                        MetaView {
                            data_window,
                            display_window: match find_box(es, "displayWindow"@) {
                                Some(b) => b,
                                None => data_window,
                            },
                            line_order: match find_order(es) {
                                Some(l) => l,
                                None => LineOrder::IncreasingY,
                            },
                            compression,
                            channels: sort_by_name(channels),
                        },
                    ),
                )
            }
        },
        _ => Err(Fault::Invalid),
    }
}

/// The size of the tiles of a deep image whose tile description has the given
/// mode byte.
pub open spec fn tile_size_of(es: Seq<EntryView>, mode: u8) -> Result<(u32, u32), Fault> {
    match find_named(es, "tiles"@) {
        Some(AttributeView::TileDesc(t)) => {
            if t.level_mode + 16 * t.round_mode != mode {
                Err(Fault::Unsupported)
            } else if t.x_size == 0 || t.y_size == 0 {
                Err(Fault::Invalid)
            } else {
                Ok((t.x_size, t.y_size))
            }
        },
        _ => Err(Fault::Invalid),
    }
}

pub fn all_full(channels: &[Channel]) -> (r: bool)
    ensures
        r == is_full(channel_views(channels@)),
{
    let ghost cs = channel_views(channels@);
    let mut i: usize = 0;
    while i < channels.len()
        invariant
            i <= channels@.len(),
            cs == channel_views(channels@),
            forall|j: int| 0 <= j < i ==> (#[trigger] cs[j]).x_sampling == 1 && cs[j].y_sampling == 1,
        decreases channels@.len() - i,
    {
        assert(cs[i as int] == channels@[i as int]@);
        if channels[i].x_sampling != 1 || channels[i].y_sampling != 1 {
            return false;
        }
        i = i + 1;
    }
    true
}

/// A part states the same as an image with its header, where the number of
/// chunks is no negative one.
pub proof fn lemma_part_of(es: Seq<EntryView>)
    requires
        meta_of(es) matches Ok((n, m)) && n >= 0,
    ensures
        part_of(es) == meta_of(es),
{
    lemma_count_stated(es, 0);
}

/// Read what a header says of a deep image.
pub fn read_meta(attrs: &[Attribute]) -> (r: Result<(i32, DeepMeta), ExrError>)
    ensures
        r matches Ok((n, m)) ==> meta_of(entry_views(attrs@)) == Ok::<(i32, MetaView), Fault>((n, m@)),
        r matches Err(e) ==> meta_of(entry_views(attrs@)) == Err::<(i32, MetaView), Fault>(e.fault()),
{
    read_meta_with(attrs, find_int_attr(attrs, "chunkCount"))
}

/// Read what a header says of a part of a deep file.
pub fn read_part(attrs: &[Attribute]) -> (r: Result<(i32, DeepMeta), ExrError>)
    ensures
        r matches Ok((n, m)) ==> part_of(entry_views(attrs@)) == Ok::<(i32, MetaView), Fault>((n, m@)),
        r matches Err(e) ==> part_of(entry_views(attrs@)) == Err::<(i32, MetaView), Fault>(e.fault()),
{
    read_meta_with(attrs, find_chunk_count(attrs))
}

fn read_meta_with(attrs: &[Attribute], chunks: Option<i32>) -> (r: Result<(i32, DeepMeta), ExrError>)
    ensures
        r matches Ok((n, m)) ==> meta_with(entry_views(attrs@), chunks) == Ok::<
            (i32, MetaView),
            Fault,
        >((n, m@)),
        r matches Err(e) ==> meta_with(entry_views(attrs@), chunks) == Err::<(i32, MetaView), Fault>(
            e.fault(),
        ),
{
    let count: i32 = match chunks {
        Some(n) => n,
        None => {
            return Err(ExrError::invalid("deep file missing required 'chunkCount' attribute"));
        },
    };
    let data_window: Box2i = match find_box2i(attrs, "dataWindow") {
        Some(b) => b,
        None => {
            return Err(ExrError::invalid("deep file missing required 'dataWindow' attribute"));
        },
    };
    let compression: Compression = match find_compression(attrs) {
        Some(c) => c,
        None => {
            return Err(ExrError::invalid("deep file missing required 'compression' attribute"));
        },
    };
    let listed: Vec<Channel> = match find_channels(attrs) {
        Some(c) => c,
        None => {
            return Err(ExrError::invalid("deep file missing required 'channels' attribute"));
        },
    };
    if !deep_method(compression) {
        return Err(ExrError::invalid("deep file compression is not one of NONE, RLE and ZIPS"));
    }
    let channels: Vec<Channel> = sorted_by_name(listed.as_slice());
    if !all_full(channels.as_slice()) {
        return Err(ExrError::unsupported("deep file with sub-sampled channels"));
    }
    let display_window: Box2i = match find_box2i(attrs, "displayWindow") {
        Some(b) => b,
        None => data_window,
    };
    let line_order: LineOrder = match find_line_order(attrs) {
        Some(l) => l,
        None => LineOrder::IncreasingY,
    };
    Ok((count, DeepMeta { data_window, display_window, line_order, compression, channels }))
}

/// Read the size of the tiles of a deep image. `wrong_mode` is the message for
/// another mode byte than `mode`.
pub fn read_tile_size(attrs: &[Attribute], mode: u8, wrong_mode: &str) -> (r: Result<
    (u32, u32),
    ExrError,
>)
    ensures
        r matches Ok(p) ==> tile_size_of(entry_views(attrs@), mode) == Ok::<(u32, u32), Fault>(p),
        r matches Err(e) ==> tile_size_of(entry_views(attrs@), mode) == Err::<(u32, u32), Fault>(
            e.fault(),
        ),
{
    match crate::attrs::find_attribute(attrs, "tiles") {
        Some(AttributeValue::TileDesc(t)) => {
            if t.level_mode as u32 + 16 * t.round_mode as u32 != mode as u32 {
                if mode == 0 && t.level_mode == 1 {
                    return Err(
                        ExrError::unsupported(
                            "MIPMAP_LEVELS deep tiled file: use parse_exr_deep_tiled_mipmap",
                        ),
                    );
                }
                return Err(ExrError::unsupported(wrong_mode));
            }
            if t.x_size == 0 || t.y_size == 0 {
                return Err(ExrError::invalid("deep tile size must be > 0"));
            }
            Ok((t.x_size, t.y_size))
        },
        _ => Err(ExrError::invalid("deep tiled file without a usable 'tiles' attribute")),
    }
}

/// What the attributes of a deep image are made of.
pub struct DeepLabels {
    pub chunk_count: u32,
    pub width: u32,
    pub height: u32,
    pub max_samples: u32,
    pub compression: Compression,
}

/// The window of an image of the given size at the origin.
pub open spec fn window_of(width: u32, height: u32) -> Box2i {
    Box2i {
        x_min: 0,
        y_min: 0,
        x_max: i32_of_u32((width - 1) as u32),
        y_max: i32_of_u32((height - 1) as u32),
    }
}

/// An attribute.
pub open spec fn entry(name: Seq<char>, value: AttributeView) -> EntryView {
    EntryView { name, value }
}

/// The attributes of a deep image up to the number of samples.
pub open spec fn leading_entries(l: DeepLabels, cs: Seq<ChannelView>) -> Seq<EntryView> {
    seq![
        entry("channels"@, AttributeView::Channels(cs)),
        entry("chunkCount"@, AttributeView::Int(i32_of_u32(l.chunk_count))),
        entry("compression"@, AttributeView::Compression(l.compression)),
        entry("dataWindow"@, AttributeView::Box2i(window_of(l.width, l.height))),
        entry("displayWindow"@, AttributeView::Box2i(window_of(l.width, l.height))),
        entry("lineOrder"@, AttributeView::LineOrder(LineOrder::IncreasingY)),
        entry("maxSamplesPerPixel"@, AttributeView::Int(i32_of_u32(l.max_samples))),
    ]
}

/// The name of a part, where it has one.
pub open spec fn name_entries(name: Option<Seq<char>>) -> Seq<EntryView> {
    match name {
        Some(n) => seq![entry("name"@, AttributeView::Text(n))],
        None => Seq::empty(),
    }
}

/// The bit pattern of the binary32 number one.
pub const F32_ONE: u32 = 0x3f80_0000;

/// The attributes of the screen window.
pub open spec fn screen_entries() -> Seq<EntryView> {
    seq![
        entry("pixelAspectRatio"@, AttributeView::Float(F32_ONE)),
        entry("screenWindowCenter"@, AttributeView::V2f(0, 0)),
        entry("screenWindowWidth"@, AttributeView::Float(F32_ONE)),
    ]
}

/// The tile description, where the image is tiled.
pub open spec fn tile_entries(tiles: Option<TileDesc>) -> Seq<EntryView> {
    match tiles {
        Some(t) => seq![entry("tiles"@, AttributeView::TileDesc(t))],
        None => Seq::empty(),
    }
}

/// The type of the image, and the version of its data.
pub open spec fn trailing_entries(kind: Seq<char>) -> Seq<EntryView> {
    seq![
        entry("type"@, AttributeView::Text(kind)),
        entry("version"@, AttributeView::Int(1)),
    ]
}

/// The attributes of a deep image.
pub open spec fn deep_entries(
    l: DeepLabels,
    cs: Seq<ChannelView>,
    name: Option<Seq<char>>,
    tiles: Option<TileDesc>,
    kind: Seq<char>,
) -> Seq<EntryView> {
    leading_entries(l, cs) + (name_entries(name) + (screen_entries() + (tile_entries(tiles)
        + trailing_entries(kind))))
}

pub fn put_attribute(out: &mut Vec<Attribute>, name: &str, value: AttributeValue)
    ensures
        entry_views(final(out)@) == entry_views(old(out)@).push(entry(name@, value@)),
{
    out.push(Attribute { name: name.to_owned(), value });
    assert(entry_views(out@) =~= entry_views(old(out)@).push(entry(name@, value@)));
}

pub fn origin_window(width: u32, height: u32) -> (r: Box2i)
    requires
        width > 0,
        height > 0,
    ensures
        r == window_of(width, height),
{
    Box2i { x_min: 0, y_min: 0, x_max: to_signed(width - 1), y_max: to_signed(height - 1) }
}

/// Make the attributes of a deep image.
pub fn deep_attributes(
    l: &DeepLabels,
    channels: &[Channel],
    name: Option<&str>,
    tiles: Option<TileDesc>,
    kind: &str,
) -> (r: Vec<Attribute>)
    requires
        l.width > 0,
        l.height > 0,
    ensures
        entry_views(r@) == deep_entries(
            *l,
            channel_views(channels@),
            match name {
                Some(n) => Some(n@),
                None => None,
            },
            tiles,
            kind@,
        ),
{
    let mut r: Vec<Attribute> = Vec::new();
    let win: Box2i = origin_window(l.width, l.height);
    let ghost cs = channel_views(channels@);
    assert(entry_views(r@) =~= Seq::empty());
    put_attribute(&mut r, "channels", AttributeValue::Channels(crate::attrs::copy_channels(channels)));
    put_attribute(&mut r, "chunkCount", AttributeValue::Int(to_signed(l.chunk_count)));
    put_attribute(&mut r, "compression", AttributeValue::Compression(l.compression));
    put_attribute(&mut r, "dataWindow", AttributeValue::Box2i(win));
    put_attribute(&mut r, "displayWindow", AttributeValue::Box2i(win));
    put_attribute(&mut r, "lineOrder", AttributeValue::LineOrder(LineOrder::IncreasingY));
    put_attribute(&mut r, "maxSamplesPerPixel", AttributeValue::Int(to_signed(l.max_samples)));
    assert(entry_views(r@) =~= leading_entries(*l, cs));
    let ghost named = name_entries(
        match name {
            Some(n) => Some(n@),
            None => None,
        },
    );
    if let Some(n) = name {
        put_attribute(&mut r, "name", AttributeValue::String(n.to_owned()));
    }
    assert(entry_views(r@) =~= leading_entries(*l, cs) + named);
    put_attribute(&mut r, "pixelAspectRatio", AttributeValue::Float(F32_ONE));
    put_attribute(&mut r, "screenWindowCenter", AttributeValue::V2f(0, 0));
    put_attribute(&mut r, "screenWindowWidth", AttributeValue::Float(F32_ONE));
    assert(entry_views(r@) =~= leading_entries(*l, cs) + (named + screen_entries()));
    if let Some(t) = tiles {
        put_attribute(&mut r, "tiles", AttributeValue::TileDesc(t));
    }
    assert(entry_views(r@) =~= leading_entries(*l, cs) + (named + (screen_entries() + tile_entries(
        tiles,
    ))));
    put_attribute(&mut r, "type", AttributeValue::String(kind.to_owned()));
    put_attribute(&mut r, "version", AttributeValue::Int(1));
    assert(entry_views(r@) =~= leading_entries(*l, cs) + (named + (screen_entries() + (tile_entries(
        tiles,
    ) + trailing_entries(kind@)))));
    r
}

/// The greatest of the first `k` counts.
pub open spec fn greatest(counts: Seq<u32>, k: int) -> u32
    decreases k,
{
    if k <= 0 {
        0
    } else if counts[k - 1] > greatest(counts, k - 1) {
        counts[k - 1]
    } else {
        greatest(counts, k - 1)
    }
}

pub fn greatest_count(counts: &[u32]) -> (r: u32)
    ensures
        r == greatest(counts@, counts@.len() as int),
{
    let mut r: u32 = 0;
    let mut i: usize = 0;
    while i < counts.len()
        invariant
            i <= counts@.len(),
            r == greatest(counts@, i as int),
        decreases counts@.len() - i,
    {
        if counts[i] > r {
            r = counts[i];
        }
        i = i + 1;
    }
    r
}

/// A deep image whose attributes read back: its channel names can be stored,
/// its sizes fit in signed 32-bit integers, and so does the length of its
/// channel list.
pub open spec fn labels_readable(l: DeepLabels, cs: Seq<ChannelView>) -> bool {
    &&& 0 < l.width <= 0x8000_0000
    &&& 0 < l.height <= 0x8000_0000
    &&& channels_storable(cs)
    &&& channel_list_bytes(cs).len() < 0x8000_0000
}

pub proof fn lemma_names_storable(name: Seq<char>)
    requires
        name == "channels"@ || name == "chunkCount"@ || name == "compression"@ || name
            == "dataWindow"@ || name == "displayWindow"@ || name == "lineOrder"@ || name
            == "maxSamplesPerPixel"@ || name == "name"@ || name == "pixelAspectRatio"@ || name
            == "screenWindowCenter"@ || name == "screenWindowWidth"@ || name == "tiles"@ || name
            == "type"@ || name == "version"@,
    ensures
        is_storable(name, 31),
{
    reveal_strlit("channels");
    reveal_strlit("chunkCount");
    reveal_strlit("compression");
    reveal_strlit("dataWindow");
    reveal_strlit("displayWindow");
    reveal_strlit("lineOrder");
    reveal_strlit("maxSamplesPerPixel");
    reveal_strlit("name");
    reveal_strlit("pixelAspectRatio");
    reveal_strlit("screenWindowCenter");
    reveal_strlit("screenWindowWidth");
    reveal_strlit("tiles");
    reveal_strlit("type");
    reveal_strlit("version");
    lemma_ascii_storable(name, 31);
}

/// The attributes of a deep image can be stored.
pub proof fn lemma_deep_entries_storable(
    l: DeepLabels,
    cs: Seq<ChannelView>,
    name: Option<Seq<char>>,
    tiles: Option<TileDesc>,
    kind: Seq<char>,
)
    requires
        labels_readable(l, cs),
        name matches Some(n) ==> encode_utf8(n).len() < 0x8000_0000,
        encode_utf8(kind).len() < 0x8000_0000,
        tiles matches Some(t) ==> t.level_mode < 16 && t.round_mode < 16,
    ensures
        entries_storable(deep_entries(l, cs, name, tiles, kind), 31),
{
    let es = deep_entries(l, cs, name, tiles, kind);
    let a = leading_entries(l, cs);
    let b = name_entries(name);
    let c = screen_entries();
    let d = tile_entries(tiles);
    let e = trailing_entries(kind);
    assert forall|x: EntryView|
        #![trigger entry_storable(x, 31)]
        a.contains(x) || b.contains(x) || c.contains(x) || d.contains(x) || e.contains(
            x,
        ) implies entry_storable(x, 31) by {
        lemma_words_len(seq![0u32, 0u32]);
        lemma_names_storable(x.name);
        lemma_label_storable(x.value, 31);
        law_value_round_trip(x.value);
    }
    assert forall|i: int| 0 <= i < es.len() implies entry_storable(#[trigger] es[i], 31) by {
        let x = es[i];
        if i < a.len() {
            assert(a[i] == x);
        } else if i < a.len() + b.len() {
            assert(b[i - a.len()] == x);
        } else if i < a.len() + b.len() + c.len() {
            assert(c[i - a.len() - b.len()] == x);
        } else if i < a.len() + b.len() + c.len() + d.len() {
            assert(d[i - a.len() - b.len() - c.len()] == x);
        } else {
            assert(e[i - a.len() - b.len() - c.len() - d.len()] == x);
        }
    }
}

pub proof fn lemma_name_lengths()
    ensures
        "channels"@.len() == 8,
        "chunkCount"@.len() == 10,
        "compression"@.len() == 11,
        "dataWindow"@.len() == 10,
        "displayWindow"@.len() == 13,
        "lineOrder"@.len() == 9,
        "maxSamplesPerPixel"@.len() == 18,
        "name"@.len() == 4,
        "pixelAspectRatio"@.len() == 16,
        "screenWindowCenter"@.len() == 18,
        "screenWindowWidth"@.len() == 17,
        "tiles"@.len() == 5,
        "type"@.len() == 4,
        "type"@ != "name"@,
{
    reveal_strlit("channels");
    reveal_strlit("chunkCount");
    reveal_strlit("compression");
    reveal_strlit("dataWindow");
    reveal_strlit("displayWindow");
    reveal_strlit("lineOrder");
    reveal_strlit("maxSamplesPerPixel");
    reveal_strlit("name");
    reveal_strlit("pixelAspectRatio");
    reveal_strlit("screenWindowCenter");
    reveal_strlit("screenWindowWidth");
    reveal_strlit("tiles");
    reveal_strlit("type");
    assert("type"@[0] != "name"@[0]);
}

/// The attributes of a deep image say what they were made of.
pub proof fn law_deep_entries(
    l: DeepLabels,
    cs: Seq<ChannelView>,
    name: Option<Seq<char>>,
    tiles: Option<TileDesc>,
    kind: Seq<char>,
)
    requires
        is_deep_method(l.compression),
        is_full(cs),
        names_ascend(cs),
    ensures
        ({
            let es = deep_entries(l, cs, name, tiles, kind);
            &&& meta_of(es) == Ok::<(i32, MetaView), Fault>(
                (
                    i32_of_u32(l.chunk_count),
                    MetaView {
                        data_window: window_of(l.width, l.height),
                        display_window: window_of(l.width, l.height),
                        line_order: LineOrder::IncreasingY,
                        compression: l.compression,
                        channels: cs,
                    },
                ),
            )
            &&& find_text(es, "type"@) == Some(kind)
            &&& name matches Some(n) ==> find_text(es, "name"@) == Some(n)
            &&& tiles matches Some(t) ==> find_named(es, "tiles"@) == Some(AttributeView::TileDesc(t))
        }),
{
    lemma_name_lengths();
    let es = deep_entries(l, cs, name, tiles, kind);
    let a = leading_entries(l, cs);
    let b = name_entries(name);
    let c = screen_entries();
    let d = tile_entries(tiles);
    let e = trailing_entries(kind);
    let m = b.len() as int;
    let n = d.len() as int;
    assert(es[0] == a[0] && es[1] == a[1] && es[2] == a[2] && es[3] == a[3] && es[4] == a[4] && es[5]
        == a[5] && es[6] == a[6]);
    assert forall|i: int| 0 <= i < b.len() implies es[7 + i] == b[i] by {}
    assert forall|i: int| 0 <= i < c.len() implies es[7 + m + i] == c[i] by {}
    assert forall|i: int| 0 <= i < d.len() implies es[10 + m + i] == d[i] by {}
    assert forall|i: int| 0 <= i < e.len() implies es[10 + m + n + i] == e[i] by {}
    assert(es[7 + m] == c[0] && es[8 + m] == c[1] && es[9 + m] == c[2]);
    lemma_entry_index(es, "channels"@, ValueKind::Channels, 0, 0);
    lemma_entry_index(es, "chunkCount"@, ValueKind::Int, 0, 1);
    lemma_entry_index(es, "compression"@, ValueKind::Compression, 0, 2);
    lemma_entry_index(es, "dataWindow"@, ValueKind::Box2i, 0, 3);
    lemma_entry_index(es, "displayWindow"@, ValueKind::Box2i, 0, 4);
    lemma_entry_index(es, "lineOrder"@, ValueKind::LineOrder, 0, 5);
    law_sort_of_ascending(cs);
    let t = 10 + m + n;
    assert(es[t] == e[0]);
    if let Some(_) = name {
        assert(es[7] == b[0]);
        lemma_entry_index(es, "name"@, ValueKind::Text, 0, 7);
    }
    if let Some(td) = tiles {
        assert(es[10 + m] == d[0]);
        lemma_named_index(es, "tiles"@, 0, 10 + m);
    }
    lemma_entry_index(es, "type"@, ValueKind::Text, 0, t);
}

} // verus!
