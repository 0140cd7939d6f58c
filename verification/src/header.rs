//! The magic number, the version field and the attribute tables that a file
//! begins with.

use crate::bytes::{
    copy_range, i32_at, i32_le, lemma_i32_reads_back, lemma_stands_split, lemma_u32_reads_back,
    lemma_u64_reads_back, put_bytes, put_i32, put_u32, put_u64, read_i32, read_u32, read_u64,
    slice_range, stands_at, u32_at, u32_le, u64_at, u64_le,
};
use crate::error::{ExrError, Fault};
use crate::text::{str_eq, utf8_text};
use crate::types::{
    channel_views, entry_views, tile_desc_of, Attribute, AttributeValue, AttributeView, Box2f,
    Box2i, Channel, ChannelView, Chromaticities, Compression, EntryView, LineOrder, PixelType,
    TileDesc, EXR_MAGIC,
};
use vstd::prelude::*;
use vstd::string::*;
use vstd::utf8::*;

verus! {

broadcast use crate::bytes::group_le_len;

/// The version field, with its flags.
#[derive(Debug, Clone, Copy, PartialEq, Eq, Structural)]
pub struct VersionField {
    pub raw: u32,
    pub format_version: u8,
    pub single_tile: bool,
    pub long_names: bool,
    pub non_image: bool,
    pub multipart: bool,
}

/// The flags of a version field: the low byte is the version of the format,
/// bits 9 to 12 say that the file is tiled, has long names, holds deep data,
/// and has several parts.
pub open spec fn version_of(raw: u32) -> VersionField {
    VersionField {
        raw,
        format_version: (raw % 256) as u8,
        single_tile: (raw / 0x200) % 2 == 1,
        long_names: (raw / 0x400) % 2 == 1,
        non_image: (raw / 0x800) % 2 == 1,
        multipart: (raw / 0x1000) % 2 == 1,
    }
}

impl VersionField {
    pub fn from_u32(raw: u32) -> (r: Self)
        ensures
            r == version_of(raw),
    {
        VersionField {
            raw,
            format_version: (raw % 256) as u8,
            single_tile: (raw / 0x200) % 2 == 1,
            long_names: (raw / 0x400) % 2 == 1,
            non_image: (raw / 0x800) % 2 == 1,
            multipart: (raw / 0x1000) % 2 == 1,
        }
    }

    pub fn to_u32(&self) -> (r: u32)
        ensures
            r == self.raw,
    {
        self.raw
    }

    /// The longest name that an attribute of the file can have.
    pub open spec fn name_limit(self) -> int {
        if self.long_names {
            255
        } else {
            31
        }
    }
}

/// A version field keeps all bits of the number that it was made of.
pub proof fn law_version_round_trip(raw: u32)
    ensures
        version_of(raw).raw == raw,
        version_of(version_of(raw).raw) == version_of(raw),
{
}

/// A header that was read: its version field, its attributes in the order of
/// the file, and the position behind it.
#[derive(Debug, Clone, PartialEq, Eq)]
pub struct ParsedHeader {
    pub version: VersionField,
    pub attributes: Vec<Attribute>,
    pub end_offset: usize,
}

/// What a [`ParsedHeader`] stands for.
#[verifier::ext_equal]
pub struct HeaderView {
    pub version: VersionField,
    pub entries: Seq<EntryView>,
    pub end: int,
}

impl View for ParsedHeader {
    type V = HeaderView;

    open spec fn view(&self) -> HeaderView {
        HeaderView {
            version: self.version,
            entries: entry_views(self.attributes@),
            end: self.end_offset as int,
        }
    }
}

/// The headers that a list of [`ParsedHeader`] stands for.
pub open spec fn header_views(s: Seq<ParsedHeader>) -> Seq<HeaderView> {
    Seq::new(s.len(), |i: int| s[i]@)
}

// ----------------------------------------------------------------------
// Text that a zero byte ends
// ----------------------------------------------------------------------
/// The first position from `from` up to `limit` that holds a zero byte, or
/// `limit`.
pub open spec fn zero_from(s: Seq<u8>, from: int, limit: int) -> int
    decreases limit - from,
{
    if from >= limit {
        limit
    } else if s[from] == 0 {
        from
    } else {
        zero_from(s, from + 1, limit)
    }
}

/// The text at `pos`, of at most `max` bytes and ended by a zero byte, and the
/// position behind that byte.
pub open spec fn text_at(s: Seq<u8>, pos: int, max: int) -> Option<(Seq<char>, int)> {
    let limit = if pos + max + 1 < s.len() {
        pos + max + 1
    } else {
        s.len() as int
    };
    let e = zero_from(s, pos, limit);
    if e >= limit || !valid_utf8(s.subrange(pos, e)) {
        None
    } else {
        Some((decode_utf8(s.subrange(pos, e)), e + 1))
    }
}

pub proof fn lemma_zero_from(s: Seq<u8>, from: int, limit: int)
    requires
        0 <= from <= limit <= s.len(),
    ensures
        from <= zero_from(s, from, limit) <= limit,
        forall|i: int| from <= i < zero_from(s, from, limit) ==> s[i] != 0,
        zero_from(s, from, limit) < limit ==> s[zero_from(s, from, limit)] == 0,
    decreases limit - from,
{
    if from < limit && s[from] != 0 {
        lemma_zero_from(s, from + 1, limit);
    }
}

pub proof fn lemma_zero_found(s: Seq<u8>, from: int, limit: int, e: int)
    requires
        0 <= from <= e < limit <= s.len(),
        forall|i: int| from <= i < e ==> s[i] != 0,
        s[e] == 0,
    ensures
        zero_from(s, from, limit) == e,
    decreases e - from,
{
    if from < e {
        lemma_zero_found(s, from + 1, limit, e);
    }
}

/// Reading text moves forward, and stays in the bytes.
pub proof fn lemma_text_advances(s: Seq<u8>, pos: int, max: int)
    requires
        0 <= pos <= s.len(),
        0 <= max,
    ensures
        text_at(s, pos, max) matches Some((t, p)) ==> pos < p <= s.len(),
{
    let limit = if pos + max + 1 < s.len() {
        pos + max + 1
    } else {
        s.len() as int
    };
    lemma_zero_from(s, pos, limit);
}

fn null_string(s: &[u8], pos: usize, max: usize) -> (r: Result<(String, usize), ExrError>)
    requires
        pos <= s@.len(),
        max <= 255,
    ensures
        r matches Ok((t, p)) ==> text_at(s@, pos as int, max as int) == Some((t@, p as int)) && pos < p
            <= s@.len(),
        r matches Err(e) ==> e.fault() == Fault::Invalid && text_at(s@, pos as int, max as int) is None,
{
    let n: usize = s.len();
    let limit: usize = if n - pos > max + 1 {
        pos + max + 1
    } else {
        n
    };
    let mut e: usize = pos;
    while e < limit && s[e] != 0
        invariant
            pos <= e <= limit <= s@.len(),
            zero_from(s@, pos as int, limit as int) == zero_from(s@, e as int, limit as int),
        ensures
            pos <= e <= limit,
            zero_from(s@, pos as int, limit as int) == e,
        decreases limit - e,
    {
        e = e + 1;
    }
    if e >= limit {
        return Err(ExrError::invalid("null-terminated string too long"));
    }
    match utf8_text(slice_range(s, pos, e)) {
        Some(t) => Ok((t, e + 1)),
        None => Err(ExrError::invalid("non-UTF8 string in header")),
    }
}

/// A text that can be stored with a zero byte behind it: without a zero byte,
/// and of at most `max` bytes.
pub open spec fn is_endable(text: Seq<char>, max: int) -> bool {
    let b = encode_utf8(text);
    &&& b.len() <= max
    &&& forall|i: int| 0 <= i < b.len() ==> b[i] != 0
}

/// A name that can be stored: such a text, and not empty.
pub open spec fn is_storable(name: Seq<char>, max: int) -> bool {
    encode_utf8(name).len() > 0 && is_endable(name, max)
}

/// A name with the zero byte that ends it.
pub open spec fn name_bytes(name: Seq<char>) -> Seq<u8> {
    encode_utf8(name).push(0)
}

/// A storable name reads back.
pub proof fn lemma_name_reads_back(s: Seq<u8>, pos: int, name: Seq<char>, max: int)
    requires
        stands_at(s, pos, name_bytes(name)),
        is_storable(name, max),
    ensures
        text_at(s, pos, max) == Some((name, pos + name_bytes(name).len())),
        s[pos] != 0,
{
    lemma_text_reads_back(s, pos, name, max);
    assert(s.subrange(pos, pos + name_bytes(name).len())[0] == s[pos]);
}

/// A text that can be stored with a zero byte behind it reads back.
pub proof fn lemma_text_reads_back(s: Seq<u8>, pos: int, name: Seq<char>, max: int)
    requires
        stands_at(s, pos, name_bytes(name)),
        is_endable(name, max),
    ensures
        text_at(s, pos, max) == Some((name, pos + name_bytes(name).len())),
{
    let b = encode_utf8(name);
    let w = s.subrange(pos, pos + b.len() + 1);
    assert(w == name_bytes(name));
    let e = pos + b.len();
    assert forall|i: int| pos <= i < e implies s[i] == b[i - pos] by {
        assert(w[i - pos] == name_bytes(name)[i - pos]);
    }
    assert(s[e] == 0) by {
        assert(w[b.len() as int] == name_bytes(name)[b.len() as int]);
    }
    let limit = if pos + max + 1 < s.len() {
        pos + max + 1
    } else {
        s.len() as int
    };
    lemma_zero_found(s, pos, limit, e);
    assert(s.subrange(pos, e) =~= b);
    encode_utf8_valid_utf8(name);
    encode_utf8_decode_utf8(name);
}

/// A short name of characters from 1 to 127 can be stored.
pub proof fn lemma_ascii_storable(name: Seq<char>, max: int)
    requires
        0 < name.len() <= max,
        forall|i: int| 0 <= i < name.len() ==> '\0' < #[trigger] name[i] <= '\u{7f}',
    ensures
        is_storable(name, max),
{
    assert(is_ascii_chars(name));
    is_ascii_chars_encode_utf8(name);
}

// ----------------------------------------------------------------------
// Channel lists
// ----------------------------------------------------------------------
/// The channel at `pos` of a channel list, and the position behind it.
pub open spec fn channel_at(s: Seq<u8>, pos: int) -> Option<(ChannelView, int)> {
    match text_at(s, pos, 255) {
        None => None,
        Some((name, p)) => if p + 16 > s.len() {
            None
        } else {
            match PixelType::of(i32_at(s, p)) {
                None => None,
                Some(pixel_type) => Some(
                    (
                        ChannelView {
                            name,
                            pixel_type,
                            p_linear: s[p + 4] != 0,
                            x_sampling: i32_at(s, p + 8),
                            y_sampling: i32_at(s, p + 12),
                        },
                        p + 16,
                    ),
                ),
            }
        },
    }
}

/// The channels from `pos` to the end of a channel list, where a zero byte
/// stands.
pub open spec fn channels_from(s: Seq<u8>, pos: int) -> Option<Seq<ChannelView>>
    decreases s.len() - pos,
    when 0 <= pos
    via channels_from_decreases
{
    if pos >= s.len() {
        None
    } else if s[pos] == 0 {
        if pos + 1 == s.len() {
            Some(Seq::empty())
        } else {
            None
        }
    } else {
        match channel_at(s, pos) {
            None => None,
            Some((c, p)) => match channels_from(s, p) {
                None => None,
                Some(rest) => Some(seq![c] + rest),
            },
        }
    }
}

#[via_fn]
proof fn channels_from_decreases(s: Seq<u8>, pos: int) {
    if pos < s.len() {
        lemma_text_advances(s, pos, 255);
    }
}

/// The channels of a channel list.
pub open spec fn channels_of(data: Seq<u8>) -> Option<Seq<ChannelView>> {
    channels_from(data, 0)
}

/// One channel as it is stored in a channel list.
pub open spec fn channel_bytes(c: ChannelView) -> Seq<u8> {
    name_bytes(c.name) + (i32_le(c.pixel_type.code()) + (seq![
        if c.p_linear {
            1u8
        } else {
            0u8
        },
        0,
        0,
        0,
    ] + (i32_le(c.x_sampling) + i32_le(c.y_sampling))))
}

/// The channels from `i` on, and the zero byte behind them.
pub open spec fn channel_list_from(cs: Seq<ChannelView>, i: int) -> Seq<u8>
    decreases cs.len() - i,
{
    if i >= cs.len() {
        seq![0u8]
    } else {
        channel_bytes(cs[i]) + channel_list_from(cs, i + 1)
    }
}

/// A channel list as it is stored.
pub open spec fn channel_list_bytes(cs: Seq<ChannelView>) -> Seq<u8> {
    channel_list_from(cs, 0)
}

/// Every channel of the list has a name that can be stored.
pub open spec fn channels_storable(cs: Seq<ChannelView>) -> bool {
    forall|i: int| 0 <= i < cs.len() ==> is_storable((#[trigger] cs[i]).name, 255)
}

/// Parse a channel list.
pub fn parse_channel_list(data: &[u8]) -> (r: Result<Vec<Channel>, ExrError>)
    ensures
        r matches Ok(v) ==> channels_of(data@) == Some(channel_views(v@)),
        r matches Err(e) ==> e.fault() == Fault::Invalid && channels_of(data@) is None,
{
    let mut out: Vec<Channel> = Vec::new();
    let mut pos: usize = 0;
    let n: usize = data.len();
    proof {
        assert(channel_views(out@) =~= Seq::empty());
        if let Some(v) = channels_from(data@, 0) {
            assert(Seq::<ChannelView>::empty() + v =~= v);
        }
    }
    loop
        invariant
            pos <= n,
            n == data@.len(),
            channels_of(data@) == match channels_from(data@, pos as int) {
                None => None,
                Some(rest) => Some(channel_views(out@) + rest),
            },
        decreases n - pos,
    {
        if pos >= n {
            return Err(ExrError::invalid("channel list missing NUL terminator"));
        }
        if data[pos] == 0 {
            if pos + 1 != n {
                return Err(ExrError::invalid("trailing bytes after channel list"));
            }
            assert(channel_views(out@) + Seq::<ChannelView>::empty() =~= channel_views(out@));
            return Ok(out);
        }
        let (name, p) = null_string(data, pos, 255)?;
        if n - p < 16 {
            return Err(ExrError::invalid("channel list cut short"));
        }
        let pixel_type: PixelType = match PixelType::from_int(read_i32(data, p)) {
            Some(t) => t,
            None => {
                return Err(ExrError::invalid("channel with unknown pixelType"));
            },
        };
        let c: Channel = Channel {
            name,
            pixel_type,
            p_linear: data[p + 4] != 0,
            x_sampling: read_i32(data, p + 8),
            y_sampling: read_i32(data, p + 12),
        };
        let ghost before = channel_views(out@);
        let ghost cv = c@;
        out.push(c);
        proof {
            assert(channel_at(data@, pos as int) == Some((cv, p + 16)));
            assert(channel_views(out@) =~= before.push(cv));
            if let Some(rest) = channels_from(data@, p + 16) {
                assert(before + (seq![cv] + rest) =~= channel_views(out@) + rest);
            }
        }
        pos = p + 16;
    }
}

/// Append one channel as it is stored.
fn put_channel(out: &mut Vec<u8>, c: &Channel)
    ensures
        final(out)@ == old(out)@ + channel_bytes(c@),
{
    put_bytes(out, c.name.as_str().as_bytes());
    out.push(0);
    put_i32(out, c.pixel_type.to_int());
    out.push(
        if c.p_linear {
            1
        } else {
            0
        },
    );
    out.push(0);
    out.push(0);
    out.push(0);
    put_i32(out, c.x_sampling);
    put_i32(out, c.y_sampling);
    assert(out@ =~= old(out)@ + channel_bytes(c@));
}

/// Encode a channel list.
pub fn encode_channel_list(channels: &[Channel]) -> (out: Vec<u8>)
    ensures
        out@ == channel_list_bytes(channel_views(channels@)),
{
    let mut out: Vec<u8> = Vec::new();
    let mut i: usize = 0;
    let ghost cs = channel_views(channels@);
    assert(Seq::<u8>::empty() + channel_list_from(cs, 0) =~= channel_list_bytes(cs));
    while i < channels.len()
        invariant
            i <= channels@.len(),
            cs == channel_views(channels@),
            channel_list_bytes(cs) == out@ + channel_list_from(cs, i as int),
        decreases channels@.len() - i,
    {
        let ghost before = out@;
        put_channel(&mut out, &channels[i]);
        proof {
            assert(cs[i as int] == channels@[i as int]@);
            assert(before + (channel_bytes(cs[i as int]) + channel_list_from(cs, i + 1)) =~= out@
                + channel_list_from(cs, i + 1));
        }
        i = i + 1;
    }
    out.push(0);
    out
}

proof fn lemma_channel_reads_back(s: Seq<u8>, pos: int, c: ChannelView)
    requires
        stands_at(s, pos, channel_bytes(c)),
        is_storable(c.name, 255),
    ensures
        channel_at(s, pos) == Some((c, pos + channel_bytes(c).len())),
        s[pos] != 0,
{
    let flags = seq![
        if c.p_linear {
            1u8
        } else {
            0u8
        },
        0,
        0,
        0,
    ];
    let sampling = i32_le(c.x_sampling) + i32_le(c.y_sampling);
    let p = pos + name_bytes(c.name).len();
    lemma_stands_split(s, pos, name_bytes(c.name), i32_le(c.pixel_type.code()) + (flags + sampling));
    lemma_stands_split(s, p, i32_le(c.pixel_type.code()), flags + sampling);
    lemma_stands_split(s, p + 4, flags, sampling);
    lemma_stands_split(s, p + 8, i32_le(c.x_sampling), i32_le(c.y_sampling));
    lemma_name_reads_back(s, pos, c.name, 255);
    lemma_i32_reads_back(s, p, c.pixel_type.code());
    lemma_i32_reads_back(s, p + 8, c.x_sampling);
    lemma_i32_reads_back(s, p + 12, c.y_sampling);
    assert(s[p + 4] == flags[0]) by {
        assert(s.subrange(p + 4, p + 8)[0] == s[p + 4]);
    }
}

proof fn lemma_channels_read_back(s: Seq<u8>, pos: int, cs: Seq<ChannelView>, i: int)
    requires
        0 <= i <= cs.len(),
        stands_at(s, pos, channel_list_from(cs, i)),
        pos + channel_list_from(cs, i).len() == s.len(),
        channels_storable(cs),
    ensures
        channels_from(s, pos) == Some(cs.skip(i)),
    decreases cs.len() - i,
{
    if i == cs.len() {
        assert(cs.skip(i) =~= Seq::empty());
        assert(s.subrange(pos, pos + 1)[0] == s[pos]);
    } else {
        let c = cs[i];
        lemma_stands_split(s, pos, channel_bytes(c), channel_list_from(cs, i + 1));
        lemma_channel_reads_back(s, pos, c);
        lemma_channels_read_back(s, pos + channel_bytes(c).len(), cs, i + 1);
        assert(seq![c] + cs.skip(i + 1) =~= cs.skip(i));
    }
}

/// A channel list whose names can be stored reads back from its bytes.
pub proof fn law_channel_list_round_trip(cs: Seq<ChannelView>)
    requires
        channels_storable(cs),
    ensures
        channels_of(channel_list_bytes(cs)) == Some(cs),
{
    let s = channel_list_bytes(cs);
    assert(s.subrange(0, s.len() as int) =~= s);
    lemma_channels_read_back(s, 0, cs, 0);
    assert(cs.skip(0) =~= cs);
}

// ----------------------------------------------------------------------
// Attribute values
// ----------------------------------------------------------------------
/// The `n` four-byte words that `data` begins with.
pub open spec fn words_at(data: Seq<u8>, n: nat) -> Seq<u32> {
    Seq::new(n, |i: int| u32_at(data, 4 * i))
}

/// Words as they are stored.
#[verifier::opaque]
pub open spec fn words_bytes(w: Seq<u32>) -> Seq<u8> {
    Seq::new(4 * w.len(), |k: int| u32_le(w[k / 4])[k % 4])
}

/// The types of attributes.
#[derive(Debug, Clone, Copy, PartialEq, Eq, Structural)]
pub enum ValueKind {
    Channels,
    Compression,
    Box2i,
    Box2f,
    LineOrder,
    Float,
    V2f,
    Int,
    Double,
    Text,
    V2i,
    V3i,
    V3f,
    M33f,
    M44f,
    Chromaticities,
    TileDesc,
    Texts,
    Other,
}

/// The type that `label` names.
#[verifier::opaque]
pub open spec fn kind_of(label: Seq<char>) -> ValueKind {
    if label == "chlist"@ {
        ValueKind::Channels
    } else if label == "compression"@ {
        ValueKind::Compression
    } else if label == "box2i"@ {
        ValueKind::Box2i
    } else if label == "box2f"@ {
        ValueKind::Box2f
    } else if label == "lineOrder"@ {
        ValueKind::LineOrder
    } else if label == "float"@ {
        ValueKind::Float
    } else if label == "v2f"@ {
        ValueKind::V2f
    } else if label == "int"@ {
        ValueKind::Int
    } else if label == "double"@ {
        ValueKind::Double
    } else if label == "string"@ {
        ValueKind::Text
    } else if label == "v2i"@ {
        ValueKind::V2i
    } else if label == "v3i"@ {
        ValueKind::V3i
    } else if label == "v3f"@ {
        ValueKind::V3f
    } else if label == "m33f"@ {
        ValueKind::M33f
    } else if label == "m44f"@ {
        ValueKind::M44f
    } else if label == "chromaticities"@ {
        ValueKind::Chromaticities
    } else if label == "tiledesc"@ {
        ValueKind::TileDesc
    } else if label == "stringvector"@ {
        ValueKind::Texts
    } else {
        ValueKind::Other
    }
}

/// The value of the type `kind`, named `label`, with the payload `data`.
#[verifier::opaque]
pub open spec fn value_as(kind: ValueKind, label: Seq<char>, data: Seq<u8>) -> Option<AttributeView> {
    match kind {
        ValueKind::Channels => {
            match channels_of(data) {
                Some(c) => Some(AttributeView::Channels(c)),
                None => None,
            }
        },
        ValueKind::Compression => {
            if data.len() != 1 {
                None
            } else {
                match Compression::of(data[0]) {
                    Some(c) => Some(AttributeView::Compression(c)),
                    None => None,
                }
            }
        },
        ValueKind::Box2i => {
            if data.len() != 16 {
                None
            } else {
                Some(
                    AttributeView::Box2i(
                        Box2i {
                            x_min: i32_at(data, 0),
                            y_min: i32_at(data, 4),
                            x_max: i32_at(data, 8),
                            y_max: i32_at(data, 12),
                        },
                    ),
                )
            }
        },
        ValueKind::Box2f => {
            if data.len() != 16 {
                None
            } else {
                Some(
                    AttributeView::Box2f(
                        Box2f {
                            x_min: u32_at(data, 0),
                            y_min: u32_at(data, 4),
                            x_max: u32_at(data, 8),
                            y_max: u32_at(data, 12),
                        },
                    ),
                )
            }
        },
        ValueKind::LineOrder => {
            if data.len() != 1 {
                None
            } else {
                match LineOrder::of(data[0]) {
                    Some(l) => Some(AttributeView::LineOrder(l)),
                    None => None,
                }
            }
        },
        ValueKind::Float => {
            if data.len() != 4 {
                None
            } else {
                Some(AttributeView::Float(u32_at(data, 0)))
            }
        },
        ValueKind::V2f => {
            if data.len() != 8 {
                None
            } else {
                Some(AttributeView::V2f(u32_at(data, 0), u32_at(data, 4)))
            }
        },
        ValueKind::Int => {
            if data.len() != 4 {
                None
            } else {
                Some(AttributeView::Int(i32_at(data, 0)))
            }
        },
        ValueKind::Double => {
            if data.len() != 8 {
                None
            } else {
                Some(AttributeView::Double(u64_at(data, 0)))
            }
        },
        ValueKind::Text => {
            if valid_utf8(data) {
                Some(AttributeView::Text(decode_utf8(data)))
            } else {
                None
            }
        },
        ValueKind::V2i => {
            if data.len() != 8 {
                None
            } else {
                Some(AttributeView::V2i(i32_at(data, 0), i32_at(data, 4)))
            }
        },
        ValueKind::V3i => {
            if data.len() != 12 {
                None
            } else {
                Some(AttributeView::V3i(i32_at(data, 0), i32_at(data, 4), i32_at(data, 8)))
            }
        },
        ValueKind::V3f => {
            if data.len() != 12 {
                None
            } else {
                Some(AttributeView::V3f(u32_at(data, 0), u32_at(data, 4), u32_at(data, 8)))
            }
        },
        ValueKind::M33f => {
            if data.len() != 36 {
                None
            } else {
                Some(AttributeView::M33f(words_at(data, 9)))
            }
        },
        ValueKind::M44f => {
            if data.len() != 64 {
                None
            } else {
                Some(AttributeView::M44f(words_at(data, 16)))
            }
        },
        ValueKind::Chromaticities => {
            if data.len() != 32 {
                None
            } else {
                Some(
                    AttributeView::Chromaticities(
                        Chromaticities {
                            red_x: u32_at(data, 0),
                            red_y: u32_at(data, 4),
                            green_x: u32_at(data, 8),
                            green_y: u32_at(data, 12),
                            blue_x: u32_at(data, 16),
                            blue_y: u32_at(data, 20),
                            white_x: u32_at(data, 24),
                            white_y: u32_at(data, 28),
                        },
                    ),
                )
            }
        },
        ValueKind::TileDesc => {
            match tile_desc_of(data) {
                Some(t) => Some(AttributeView::TileDesc(t)),
                None => None,
            }
        },
        ValueKind::Texts => {
            match texts_in(data, 0) {
                Some(t) => Some(AttributeView::Texts(t)),
                None => Some(AttributeView::Other { type_label: label, data }),
            }
        },
        ValueKind::Other => Some(AttributeView::Other { type_label: label, data }),
    }
}

/// The texts from `pos` up to the end of `data`, each behind its length; none
/// where the lengths do not add up, or a text is not UTF-8.
pub open spec fn texts_in(data: Seq<u8>, pos: int) -> Option<Seq<Seq<char>>>
    decreases data.len() - pos,
{
    let n = i32_at(data, pos);
    let text = data.subrange(pos + 4, pos + 4 + n);
    if pos >= data.len() {
        Some(Seq::empty())
    } else if pos + 4 > data.len() || n < 0 || pos + 4 + n > data.len() || !valid_utf8(text) {
        None
    } else {
        match texts_in(data, pos + 4 + n) {
            None => None,
            Some(rest) => Some(seq![decode_utf8(text)] + rest),
        }
    }
}

/// The value of an attribute of the type `label` with the payload `data`. An
/// attribute of another type is kept as it is, and so is a list of texts that
/// cannot be read.
pub open spec fn value_of(label: Seq<char>, data: Seq<u8>) -> Option<AttributeView> {
    value_as(kind_of(label), label, data)
}

/// The name of the type of a value.
pub open spec fn label_of(v: AttributeView) -> Seq<char> {
    match v {
        AttributeView::Channels(_) => "chlist"@,
        AttributeView::Compression(_) => "compression"@,
        AttributeView::Box2i(_) => "box2i"@,
        AttributeView::Box2f(_) => "box2f"@,
        AttributeView::LineOrder(_) => "lineOrder"@,
        AttributeView::Float(_) => "float"@,
        AttributeView::V2f(_, _) => "v2f"@,
        AttributeView::Int(_) => "int"@,
        AttributeView::Double(_) => "double"@,
        AttributeView::Text(_) => "string"@,
        AttributeView::V2i(_, _) => "v2i"@,
        AttributeView::V3i(_, _, _) => "v3i"@,
        AttributeView::V3f(_, _, _) => "v3f"@,
        AttributeView::M33f(_) => "m33f"@,
        AttributeView::M44f(_) => "m44f"@,
        AttributeView::Chromaticities(_) => "chromaticities"@,
        AttributeView::TileDesc(_) => "tiledesc"@,
        AttributeView::Texts(_) => "stringvector"@,
        AttributeView::Other { type_label, data } => type_label,
    }
}

/// Texts from `i` on, each behind its length.
pub open spec fn texts_from(t: Seq<Seq<char>>, i: int) -> Seq<u8>
    decreases t.len() - i,
{
    if i >= t.len() {
        Seq::empty()
    } else {
        length_bytes(encode_utf8(t[i]).len()) + encode_utf8(t[i]) + texts_from(t, i + 1)
    }
}

/// A length as it is stored: its low 32 bits.
pub open spec fn length_bytes(n: nat) -> Seq<u8> {
    u32_le((n % 0x1_0000_0000) as u32)
}

/// The payload of a value.
pub open spec fn payload_of(v: AttributeView) -> Seq<u8> {
    match v {
        AttributeView::Channels(c) => channel_list_bytes(c),
        AttributeView::Compression(c) => seq![c.code()],
        AttributeView::Box2i(b) => i32_le(b.x_min) + i32_le(b.y_min) + i32_le(b.x_max) + i32_le(
            b.y_max,
        ),
        AttributeView::Box2f(b) => words_bytes(seq![b.x_min, b.y_min, b.x_max, b.y_max]),
        AttributeView::LineOrder(l) => seq![l.code()],
        AttributeView::Float(f) => u32_le(f),
        AttributeView::V2f(x, y) => words_bytes(seq![x, y]),
        AttributeView::Int(i) => i32_le(i),
        AttributeView::Double(d) => u64_le(d),
        AttributeView::Text(t) => encode_utf8(t),
        AttributeView::V2i(x, y) => i32_le(x) + i32_le(y),
        AttributeView::V3i(x, y, z) => i32_le(x) + i32_le(y) + i32_le(z),
        AttributeView::V3f(x, y, z) => words_bytes(seq![x, y, z]),
        AttributeView::M33f(m) => words_bytes(m),
        AttributeView::M44f(m) => words_bytes(m),
        AttributeView::Chromaticities(c) => words_bytes(
            seq![
                c.red_x,
                c.red_y,
                c.green_x,
                c.green_y,
                c.blue_x,
                c.blue_y,
                c.white_x,
                c.white_y,
            ],
        ),
        AttributeView::TileDesc(t) => t.stored(),
        AttributeView::Texts(t) => texts_from(t, 0),
        AttributeView::Other { type_label, data } => data,
    }
}

/// A value that reads back from its payload: channel names can be stored,
/// matrices have their size, the modes of a tile description fit in four bits,
/// the lengths of texts in a list fit in 31 bits, and a value of another type
/// has a type of its own, or is a list of texts that cannot be read.
pub open spec fn value_storable(v: AttributeView) -> bool {
    match v {
        AttributeView::Channels(c) => channels_storable(c),
        AttributeView::M33f(m) => m.len() == 9,
        AttributeView::M44f(m) => m.len() == 16,
        AttributeView::TileDesc(t) => t.level_mode < 16 && t.round_mode < 16,
        AttributeView::Texts(t) => texts_storable(t),
        AttributeView::Other { type_label, data } => kind_of(type_label) == ValueKind::Other || (
        kind_of(type_label) == ValueKind::Texts && texts_in(data, 0) is None),
        _ => true,
    }
}

/// The lengths of the texts fit in 31 bits.
pub open spec fn texts_storable(t: Seq<Seq<char>>) -> bool {
    forall|i: int| 0 <= i < t.len() ==> encode_utf8(#[trigger] t[i]).len() < 0x8000_0000
}

/// Texts read back from where they stand.
proof fn lemma_texts_read_back(s: Seq<u8>, pos: int, t: Seq<Seq<char>>, i: int)
    requires
        0 <= pos,
        0 <= i <= t.len(),
        texts_storable(t),
        stands_at(s, pos, texts_from(t, i)),
        pos + texts_from(t, i).len() == s.len(),
    ensures
        texts_in(s, pos) == Some(t.skip(i)),
    decreases t.len() - i,
{
    if i == t.len() {
        assert(t.skip(i) =~= Seq::empty());
    } else {
        let b = encode_utf8(t[i]);
        let n = b.len();
        assert(n < 0x8000_0000);
        let rest = texts_from(t, i + 1);
        lemma_stands_split(s, pos, length_bytes(n) + b, rest);
        lemma_stands_split(s, pos, length_bytes(n), b);
        lemma_i32_reads_back(s, pos, n as i32);
        assert(s.subrange(pos + 4, pos + 4 + n) =~= b);
        encode_utf8_valid_utf8(t[i]);
        encode_utf8_decode_utf8(t[i]);
        lemma_texts_read_back(s, pos + 4 + n, t, i + 1);
        assert(seq![t[i]] + t.skip(i + 1) =~= t.skip(i));
    }
}

fn put_words(out: &mut Vec<u8>, w: &[u32])
    ensures
        final(out)@ == old(out)@ + words_bytes(w@),
{
    reveal(words_bytes);
    let mut i: usize = 0;
    assert(out@ =~= old(out)@ + words_bytes(w@.take(0)));
    while i < w.len()
        invariant
            i <= w@.len(),
            out@ == old(out)@ + words_bytes(w@.take(i as int)),
        decreases w@.len() - i,
    {
        let ghost before = words_bytes(w@.take(i as int));
        put_u32(out, w[i]);
        proof {
            reveal(words_bytes);
            let after = words_bytes(w@.take(i + 1));
            assert forall|k: int| 0 <= k < after.len() implies after[k] == (before + u32_le(
                w@[i as int],
            ))[k] by {
                if k < 4 * i {
                    assert(w@.take(i + 1)[k / 4] == w@.take(i as int)[k / 4]);
                } else {
                    assert(k / 4 == i);
                    assert(k % 4 == k - 4 * i);
                }
            }
            assert(after =~= before + u32_le(w@[i as int]));
            assert(out@ =~= old(out)@ + after);
        }
        i = i + 1;
    }
    assert(w@.take(i as int) =~= w@);
}

/// Words take four bytes each.
pub proof fn lemma_words_len(w: Seq<u32>)
    ensures
        words_bytes(w).len() == 4 * w.len(),
{
    reveal(words_bytes);
}

proof fn lemma_word_reads_back(w: Seq<u32>, i: int)
    requires
        0 <= i < w.len(),
    ensures
        u32_at(words_bytes(w), 4 * i) == w[i],
{
    reveal(words_bytes);
    let s = words_bytes(w);
    assert(s.subrange(4 * i, 4 * i + 4) =~= u32_le(w[i])) by {
        assert((4 * i) / 4 == i && (4 * i + 1) / 4 == i && (4 * i + 2) / 4 == i && (4 * i + 3) / 4 == i);
    }
    lemma_u32_reads_back(s, 4 * i, w[i]);
}

proof fn lemma_words_read_back(w: Seq<u32>)
    ensures
        words_at(words_bytes(w), w.len()) == w,
        words_bytes(w).len() == 4 * w.len(),
{
    lemma_words_len(w);
    assert forall|i: int| 0 <= i < w.len() implies words_at(words_bytes(w), w.len())[i] == w[i] by {
        lemma_word_reads_back(w, i);
    }
    assert(words_at(words_bytes(w), w.len()) =~= w);
}

/// The names of the parsed types differ from each other.
proof fn lemma_labels_differ()
    ensures
        "compression"@ != "chlist"@,
        "box2i"@ != "chlist"@ && "box2i"@ != "compression"@,
        ({
            let l = "box2f"@;
            l != "chlist"@ && l != "compression"@ && l != "box2i"@
        }),
        ({
            let l = "lineOrder"@;
            l != "chlist"@ && l != "compression"@ && l != "box2i"@ && l != "box2f"@
        }),
        ({
            let l = "float"@;
            l != "chlist"@ && l != "compression"@ && l != "box2i"@ && l != "box2f"@ && l
                != "lineOrder"@
        }),
        ({
            let l = "v2f"@;
            l != "chlist"@ && l != "compression"@ && l != "box2i"@ && l != "box2f"@ && l
                != "lineOrder"@ && l != "float"@
        }),
        ({
            let l = "int"@;
            l != "chlist"@ && l != "compression"@ && l != "box2i"@ && l != "box2f"@ && l
                != "lineOrder"@ && l != "float"@ && l != "v2f"@
        }),
        ({
            let l = "double"@;
            l != "chlist"@ && l != "compression"@ && l != "box2i"@ && l != "box2f"@ && l
                != "lineOrder"@ && l != "float"@ && l != "v2f"@ && l != "int"@
        }),
        ({
            let l = "string"@;
            l != "chlist"@ && l != "compression"@ && l != "box2i"@ && l != "box2f"@ && l
                != "lineOrder"@ && l != "float"@ && l != "v2f"@ && l != "int"@ && l != "double"@
        }),
{
    reveal_strlit("chlist");
    reveal_strlit("compression");
    reveal_strlit("box2i");
    reveal_strlit("box2f");
    reveal_strlit("lineOrder");
    reveal_strlit("float");
    reveal_strlit("v2f");
    reveal_strlit("int");
    reveal_strlit("double");
    reveal_strlit("string");
    assert("chlist"@.len() == 6);
    assert("compression"@.len() == 11);
    assert("box2i"@.len() == 5);
    assert("box2f"@.len() == 5);
    assert("lineOrder"@.len() == 9);
    assert("float"@.len() == 5);
    assert("v2f"@.len() == 3);
    assert("int"@.len() == 3);
    assert("double"@.len() == 6);
    assert("string"@.len() == 6);
    assert("box2i"@[4] != "box2f"@[4]);
    assert("box2i"@[0] != "float"@[0]);
    assert("box2f"@[0] != "float"@[0]);
    assert("v2f"@[0] != "int"@[0]);
    assert("double"@[0] != "chlist"@[0]);
    assert("string"@[0] != "chlist"@[0]);
    assert("string"@[0] != "double"@[0]);
}

/// The names of the remaining parsed types differ from each other and from
/// the names before them.
proof fn lemma_more_labels_differ()
    ensures
        forall|l: Seq<char>| #[trigger]
            is_late_label(l) ==> l != "chlist"@ && l != "compression"@ && l != "box2i"@ && l
                != "box2f"@ && l != "lineOrder"@ && l != "float"@ && l != "v2f"@ && l != "int"@ && l
                != "double"@ && l != "string"@,
        is_late_label("v2i"@),
        is_late_label("v3i"@),
        is_late_label("v3f"@),
        is_late_label("m33f"@),
        is_late_label("m44f"@),
        is_late_label("chromaticities"@),
        is_late_label("tiledesc"@),
        is_late_label("stringvector"@),
        "v3i"@ != "v2i"@,
        "v3f"@ != "v2i"@ && "v3f"@ != "v3i"@,
        "m33f"@ != "v2i"@ && "m33f"@ != "v3i"@ && "m33f"@ != "v3f"@,
        ({
            let l = "m44f"@;
            l != "v2i"@ && l != "v3i"@ && l != "v3f"@ && l != "m33f"@
        }),
        ({
            let l = "chromaticities"@;
            l != "v2i"@ && l != "v3i"@ && l != "v3f"@ && l != "m33f"@ && l != "m44f"@
        }),
        ({
            let l = "tiledesc"@;
            l != "v2i"@ && l != "v3i"@ && l != "v3f"@ && l != "m33f"@ && l != "m44f"@ && l
                != "chromaticities"@
        }),
        ({
            let l = "stringvector"@;
            l != "v2i"@ && l != "v3i"@ && l != "v3f"@ && l != "m33f"@ && l != "m44f"@ && l
                != "chromaticities"@ && l != "tiledesc"@
        }),
{
    reveal_strlit("chlist");
    reveal_strlit("compression");
    reveal_strlit("box2i");
    reveal_strlit("box2f");
    reveal_strlit("lineOrder");
    reveal_strlit("float");
    reveal_strlit("v2f");
    reveal_strlit("int");
    reveal_strlit("double");
    reveal_strlit("string");
    reveal_strlit("v2i");
    reveal_strlit("v3i");
    reveal_strlit("v3f");
    reveal_strlit("m33f");
    reveal_strlit("m44f");
    reveal_strlit("chromaticities");
    reveal_strlit("tiledesc");
    reveal_strlit("stringvector");
    assert("chlist"@.len() == 6);
    assert("compression"@.len() == 11);
    assert("box2i"@.len() == 5);
    assert("box2f"@.len() == 5);
    assert("lineOrder"@.len() == 9);
    assert("float"@.len() == 5);
    assert("v2f"@.len() == 3);
    assert("int"@.len() == 3);
    assert("double"@.len() == 6);
    assert("string"@.len() == 6);
    assert("v2i"@.len() == 3);
    assert("v3i"@.len() == 3);
    assert("v3f"@.len() == 3);
    assert("m33f"@.len() == 4);
    assert("m44f"@.len() == 4);
    assert("chromaticities"@.len() == 14);
    assert("tiledesc"@.len() == 8);
    assert("stringvector"@.len() == 12);
    assert("v2i"@[2] != "v2f"@[2]);
    assert("v2i"@[0] != "int"@[0]);
    assert("v3i"@[1] != "v2f"@[1]);
    assert("v3i"@[0] != "int"@[0]);
    assert("v3f"@[1] != "v2f"@[1]);
    assert("v3f"@[0] != "int"@[0]);
    assert("v3i"@[1] != "v2i"@[1]);
    assert("v3f"@[1] != "v2i"@[1]);
    assert("v3f"@[2] != "v3i"@[2]);
    assert("m44f"@[1] != "m33f"@[1]);
}

/// `l` is as long as one of the later names, and differs from the earlier
/// names of that length.
pub open spec fn is_late_label(l: Seq<char>) -> bool {
    ||| l.len() == 4
    ||| l.len() == 8
    ||| l.len() == 12
    ||| l.len() == 14
    ||| l.len() == 3 && l[0] == 'v' && (l[1] == '3' || l[2] == 'i')
}

proof fn lemma_box_payload(b: Box2i)
    ensures
        ({
            let data = payload_of(AttributeView::Box2i(b));
            &&& data.len() == 16
            &&& i32_at(data, 0) == b.x_min
            &&& i32_at(data, 4) == b.y_min
            &&& i32_at(data, 8) == b.x_max
            &&& i32_at(data, 12) == b.y_max
        }),
{
    let data = payload_of(AttributeView::Box2i(b));
    assert(data.subrange(0, 4) =~= i32_le(b.x_min));
    assert(data.subrange(4, 8) =~= i32_le(b.y_min));
    assert(data.subrange(8, 12) =~= i32_le(b.x_max));
    assert(data.subrange(12, 16) =~= i32_le(b.y_max));
    lemma_i32_reads_back(data, 0, b.x_min);
    lemma_i32_reads_back(data, 4, b.y_min);
    lemma_i32_reads_back(data, 8, b.x_max);
    lemma_i32_reads_back(data, 12, b.y_max);
}

proof fn lemma_v3i_payload(x: i32, y: i32, z: i32)
    ensures
        ({
            let data = payload_of(AttributeView::V3i(x, y, z));
            &&& data.len() == 12
            &&& i32_at(data, 0) == x
            &&& i32_at(data, 4) == y
            &&& i32_at(data, 8) == z
        }),
        ({
            let data = payload_of(AttributeView::V2i(x, y));
            &&& data.len() == 8
            &&& i32_at(data, 0) == x
            &&& i32_at(data, 4) == y
        }),
{
    let data = payload_of(AttributeView::V3i(x, y, z));
    assert(data.subrange(0, 4) =~= i32_le(x));
    assert(data.subrange(4, 8) =~= i32_le(y));
    assert(data.subrange(8, 12) =~= i32_le(z));
    lemma_i32_reads_back(data, 0, x);
    lemma_i32_reads_back(data, 4, y);
    lemma_i32_reads_back(data, 8, z);
    let less = payload_of(AttributeView::V2i(x, y));
    assert(less.subrange(0, 4) =~= i32_le(x));
    assert(less.subrange(4, 8) =~= i32_le(y));
    lemma_i32_reads_back(less, 0, x);
    lemma_i32_reads_back(less, 4, y);
}

/// A tile description whose modes fit in four bits reads back.
pub proof fn law_tile_desc_round_trip(t: TileDesc)
    requires
        t.level_mode < 16,
        t.round_mode < 16,
    ensures
        tile_desc_of(t.stored()) == Some(t),
{
    let data = t.stored();
    assert(data.subrange(0, 4) =~= u32_le(t.x_size));
    assert(data.subrange(4, 8) =~= u32_le(t.y_size));
    lemma_u32_reads_back(data, 0, t.x_size);
    lemma_u32_reads_back(data, 4, t.y_size);
}

proof fn lemma_small_payload(v: AttributeView)
    requires
        v is Float || v is Int || v is Double,
    ensures
        v matches AttributeView::Float(f) ==> u32_at(payload_of(v), 0) == f,
        v matches AttributeView::Int(i) ==> i32_at(payload_of(v), 0) == i,
        v matches AttributeView::Double(d) ==> u64_at(payload_of(v), 0) == d,
{
    let data = payload_of(v);
    assert(data.subrange(0, data.len() as int) =~= data);
    match v {
        AttributeView::Float(f) => {
            lemma_u32_reads_back(data, 0, f);
        },
        AttributeView::Int(i) => {
            lemma_i32_reads_back(data, 0, i);
        },
        AttributeView::Double(d) => {
            lemma_u64_reads_back(data, 0, d);
        },
        _ => {},
    }
}

/// The kind of a value.
pub open spec fn value_kind(v: AttributeView) -> ValueKind {
    match v {
        AttributeView::Channels(_) => ValueKind::Channels,
        AttributeView::Compression(_) => ValueKind::Compression,
        AttributeView::Box2i(_) => ValueKind::Box2i,
        AttributeView::Box2f(_) => ValueKind::Box2f,
        AttributeView::LineOrder(_) => ValueKind::LineOrder,
        AttributeView::Float(_) => ValueKind::Float,
        AttributeView::V2f(_, _) => ValueKind::V2f,
        AttributeView::Int(_) => ValueKind::Int,
        AttributeView::Double(_) => ValueKind::Double,
        AttributeView::Text(_) => ValueKind::Text,
        AttributeView::V2i(_, _) => ValueKind::V2i,
        AttributeView::V3i(_, _, _) => ValueKind::V3i,
        AttributeView::V3f(_, _, _) => ValueKind::V3f,
        AttributeView::M33f(_) => ValueKind::M33f,
        AttributeView::M44f(_) => ValueKind::M44f,
        AttributeView::Chromaticities(_) => ValueKind::Chromaticities,
        AttributeView::TileDesc(_) => ValueKind::TileDesc,
        AttributeView::Texts(_) => ValueKind::Texts,
        AttributeView::Other { type_label, data } => ValueKind::Other,
    }
}

pub proof fn lemma_kind_of_label(v: AttributeView)
    requires
        v !is Other,
    ensures
        kind_of(label_of(v)) == value_kind(v),
{
    reveal(kind_of);
    lemma_labels_differ();
    lemma_more_labels_differ();
}

/// `v` is made of four-byte words.
spec fn is_words(v: AttributeView) -> bool {
    v is Box2f || v is V2f || v is V3f || v is M33f || v is M44f
}

proof fn lemma_words_value(v: AttributeView)
    requires
        value_storable(v),
        is_words(v),
    ensures
        value_as(value_kind(v), label_of(v), payload_of(v)) == Some(v),
{
    reveal(value_as);
    match v {
        AttributeView::Box2f(b) => {
            let w = seq![b.x_min, b.y_min, b.x_max, b.y_max];
            lemma_words_len(w);
            lemma_word_reads_back(w, 0);
            lemma_word_reads_back(w, 1);
            lemma_word_reads_back(w, 2);
            lemma_word_reads_back(w, 3);
        },
        AttributeView::V2f(x, y) => {
            let w = seq![x, y];
            lemma_words_len(w);
            lemma_word_reads_back(w, 0);
            lemma_word_reads_back(w, 1);
        },
        AttributeView::V3f(x, y, z) => {
            let w = seq![x, y, z];
            lemma_words_len(w);
            lemma_word_reads_back(w, 0);
            lemma_word_reads_back(w, 1);
            lemma_word_reads_back(w, 2);
        },
        AttributeView::M33f(m) => {
            lemma_words_read_back(m);
        },
        AttributeView::M44f(m) => {
            lemma_words_read_back(m);
        },
        _ => {},
    }
}

proof fn lemma_chromaticities_value(c: Chromaticities)
    ensures
        value_as(
            ValueKind::Chromaticities,
            "chromaticities"@,
            payload_of(AttributeView::Chromaticities(c)),
        ) == Some(AttributeView::Chromaticities(c)),
{
    reveal(value_as);
    let w = seq![
        c.red_x,
        c.red_y,
        c.green_x,
        c.green_y,
        c.blue_x,
        c.blue_y,
        c.white_x,
        c.white_y,
    ];
    lemma_words_len(w);
    lemma_word_reads_back(w, 0);
    lemma_word_reads_back(w, 1);
    lemma_word_reads_back(w, 2);
    lemma_word_reads_back(w, 3);
    lemma_word_reads_back(w, 4);
    lemma_word_reads_back(w, 5);
    lemma_word_reads_back(w, 6);
    lemma_word_reads_back(w, 7);
}

proof fn lemma_plain_value(v: AttributeView)
    requires
        value_storable(v),
        !is_words(v),
        v !is Chromaticities,
        v !is Other,
    ensures
        value_as(value_kind(v), label_of(v), payload_of(v)) == Some(v),
{
    reveal(value_as);
    match v {
        AttributeView::Channels(c) => {
            law_channel_list_round_trip(c);
        },
        AttributeView::Box2i(b) => {
            lemma_box_payload(b);
        },
        AttributeView::Float(f) => {
            lemma_small_payload(v);
        },
        AttributeView::Int(i) => {
            lemma_small_payload(v);
        },
        AttributeView::Double(d) => {
            lemma_small_payload(v);
        },
        AttributeView::Text(t) => {
            encode_utf8_valid_utf8(t);
            encode_utf8_decode_utf8(t);
        },
        AttributeView::V2i(x, y) => {
            lemma_v3i_payload(x, y, 0);
        },
        AttributeView::V3i(x, y, z) => {
            lemma_v3i_payload(x, y, z);
        },
        AttributeView::TileDesc(t) => {
            law_tile_desc_round_trip(t);
        },
        AttributeView::Texts(t) => {
            let data = texts_from(t, 0);
            assert(data.subrange(0, data.len() as int) =~= data);
            lemma_texts_read_back(data, 0, t, 0);
            assert(t.skip(0) =~= t);
        },
        _ => {},
    }
}

/// A storable value reads back from its payload.
pub proof fn law_value_round_trip(v: AttributeView)
    requires
        value_storable(v),
    ensures
        value_of(label_of(v), payload_of(v)) == Some(v),
{
    if v is Other {
        reveal(value_as);
    } else {
        lemma_kind_of_label(v);
    }
    if is_words(v) {
        lemma_words_value(v);
    } else if let AttributeView::Chromaticities(c) = v {
        lemma_chromaticities_value(c);
    } else if v !is Other {
        lemma_plain_value(v);
    }
}

/// The type that `label` names.
fn kind_of_label(label: &str) -> (r: ValueKind)
    ensures
        r == kind_of(label@),
{
    reveal(kind_of);
    if str_eq(label, "chlist") {
        ValueKind::Channels
    } else if str_eq(label, "compression") {
        ValueKind::Compression
    } else if str_eq(label, "box2i") {
        ValueKind::Box2i
    } else if str_eq(label, "box2f") {
        ValueKind::Box2f
    } else if str_eq(label, "lineOrder") {
        ValueKind::LineOrder
    } else if str_eq(label, "float") {
        ValueKind::Float
    } else if str_eq(label, "v2f") {
        ValueKind::V2f
    } else if str_eq(label, "int") {
        ValueKind::Int
    } else if str_eq(label, "double") {
        ValueKind::Double
    } else if str_eq(label, "string") {
        ValueKind::Text
    } else if str_eq(label, "v2i") {
        ValueKind::V2i
    } else if str_eq(label, "v3i") {
        ValueKind::V3i
    } else if str_eq(label, "v3f") {
        ValueKind::V3f
    } else if str_eq(label, "m33f") {
        ValueKind::M33f
    } else if str_eq(label, "m44f") {
        ValueKind::M44f
    } else if str_eq(label, "chromaticities") {
        ValueKind::Chromaticities
    } else if str_eq(label, "tiledesc") {
        ValueKind::TileDesc
    } else if str_eq(label, "stringvector") {
        ValueKind::Texts
    } else {
        ValueKind::Other
    }
}

/// Read a list of texts, each behind its length.
fn parse_texts(data: &[u8]) -> (r: Option<Vec<String>>)
    ensures
        r is None <==> texts_in(data@, 0) is None,
        r matches Some(v) ==> texts_in(data@, 0) == Some(Seq::new(v@.len(), |i: int| v@[i]@)),
{
    let mut out: Vec<String> = Vec::new();
    let mut pos: usize = 0;
    let ghost all = texts_in(data@, 0);
    assert(Seq::<Seq<char>>::empty() =~= Seq::new(0, |i: int| out@[i]@));
    while pos < data.len()
        invariant
            pos <= data@.len(),
            all == texts_in(data@, 0),
            all == (match texts_in(data@, pos as int) {
                None => None,
                Some(rest) => Some(Seq::new(out@.len(), |i: int| out@[i]@) + rest),
            }),
        decreases data@.len() - pos,
    {
        if data.len() - pos < 4 {
            return None;
        }
        let n: i32 = read_i32(data, pos);
        if n < 0 || data.len() - pos - 4 < n as usize {
            return None;
        }
        let end: usize = pos + 4 + n as usize;
        let ghost before = Seq::new(out@.len(), |i: int| out@[i]@);
        match utf8_text(slice_range(data, pos + 4, end)) {
            Some(t) => {
                let ghost text = t@;
                out.push(t);
                proof {
                    let after = Seq::new(out@.len(), |i: int| out@[i]@);
                    assert(after =~= before.push(text));
                    if let Some(rest) = texts_in(data@, end as int) {
                        assert(before + (seq![text] + rest) =~= after + rest);
                    }
                }
            },
            None => {
                return None;
            },
        }
        pos = end;
    }
    proof {
        let got = Seq::new(out@.len(), |i: int| out@[i]@);
        assert(got + Seq::<Seq<char>>::empty() =~= got);
    }
    Some(out)
}

/// Decode an attribute's payload according to its type.
pub fn parse_attribute_value(type_label: &str, data: &[u8]) -> (r: Result<AttributeValue, ExrError>)
    ensures
        r matches Ok(v) ==> value_of(type_label@, data@) == Some(v@),
        r matches Err(e) ==> e.fault() == Fault::Invalid && value_of(type_label@, data@) is None,
{
    reveal(value_as);
    let n: usize = data.len();
    match kind_of_label(type_label) {
        ValueKind::Channels => {
            match parse_channel_list(data) {
                Ok(c) => Ok(AttributeValue::Channels(c)),
                Err(e) => Err(e),
            }
        },
        ValueKind::Compression => {
            if n != 1 {
                return Err(ExrError::invalid("compression payload size is not 1"));
            }
            match Compression::from_byte(data[0]) {
                Some(c) => Ok(AttributeValue::Compression(c)),
                None => Err(ExrError::invalid("unknown compression byte")),
            }
        },
        ValueKind::Box2i => {
            if n != 16 {
                return Err(ExrError::invalid("box2i payload size is not 16"));
            }
            Ok(
                AttributeValue::Box2i(
                    Box2i {
                        x_min: read_i32(data, 0),
                        y_min: read_i32(data, 4),
                        x_max: read_i32(data, 8),
                        y_max: read_i32(data, 12),
                    },
                ),
            )
        },
        ValueKind::Box2f => {
            if n != 16 {
                return Err(ExrError::invalid("box2f payload size is not 16"));
            }
            Ok(
                AttributeValue::Box2f(
                    Box2f {
                        x_min: read_u32(data, 0),
                        y_min: read_u32(data, 4),
                        x_max: read_u32(data, 8),
                        y_max: read_u32(data, 12),
                    },
                ),
            )
        },
        ValueKind::LineOrder => {
            if n != 1 {
                return Err(ExrError::invalid("lineOrder payload size is not 1"));
            }
            match LineOrder::from_byte(data[0]) {
                Some(l) => Ok(AttributeValue::LineOrder(l)),
                None => Err(ExrError::invalid("unknown lineOrder byte")),
            }
        },
        ValueKind::Float => {
            if n != 4 {
                return Err(ExrError::invalid("float payload size is not 4"));
            }
            Ok(AttributeValue::Float(read_u32(data, 0)))
        },
        ValueKind::V2f => {
            if n != 8 {
                return Err(ExrError::invalid("v2f payload size is not 8"));
            }
            Ok(AttributeValue::V2f(read_u32(data, 0), read_u32(data, 4)))
        },
        ValueKind::Int => {
            if n != 4 {
                return Err(ExrError::invalid("int payload size is not 4"));
            }
            Ok(AttributeValue::Int(read_i32(data, 0)))
        },
        ValueKind::Double => {
            if n != 8 {
                return Err(ExrError::invalid("double payload size is not 8"));
            }
            Ok(AttributeValue::Double(read_u64(data, 0)))
        },
        ValueKind::Text => {
            match utf8_text(data) {
                Some(t) => Ok(AttributeValue::String(t)),
                None => Err(ExrError::invalid("non-UTF8 string payload")),
            }
        },
        ValueKind::V2i => {
            if n != 8 {
                return Err(ExrError::invalid("v2i payload size is not 8"));
            }
            Ok(AttributeValue::V2i(read_i32(data, 0), read_i32(data, 4)))
        },
        ValueKind::V3i => {
            if n != 12 {
                return Err(ExrError::invalid("v3i payload size is not 12"));
            }
            Ok(AttributeValue::V3i(read_i32(data, 0), read_i32(data, 4), read_i32(data, 8)))
        },
        ValueKind::V3f => {
            if n != 12 {
                return Err(ExrError::invalid("v3f payload size is not 12"));
            }
            Ok(AttributeValue::V3f(read_u32(data, 0), read_u32(data, 4), read_u32(data, 8)))
        },
        ValueKind::M33f => {
            if n != 36 {
                return Err(ExrError::invalid("m33f payload size is not 36"));
            }
            let m: [u32; 9] = [
                read_u32(data, 0),
                read_u32(data, 4),
                read_u32(data, 8),
                read_u32(data, 12),
                read_u32(data, 16),
                read_u32(data, 20),
                read_u32(data, 24),
                read_u32(data, 28),
                read_u32(data, 32),
            ];
            assert(m@ =~= words_at(data@, 9));
            Ok(AttributeValue::M33f(m))
        },
        ValueKind::M44f => {
            if n != 64 {
                return Err(ExrError::invalid("m44f payload size is not 64"));
            }
            let m: [u32; 16] = [
                read_u32(data, 0),
                read_u32(data, 4),
                read_u32(data, 8),
                read_u32(data, 12),
                read_u32(data, 16),
                read_u32(data, 20),
                read_u32(data, 24),
                read_u32(data, 28),
                read_u32(data, 32),
                read_u32(data, 36),
                read_u32(data, 40),
                read_u32(data, 44),
                read_u32(data, 48),
                read_u32(data, 52),
                read_u32(data, 56),
                read_u32(data, 60),
            ];
            assert(m@ =~= words_at(data@, 16));
            Ok(AttributeValue::M44f(m))
        },
        ValueKind::Chromaticities => {
            if n != 32 {
                return Err(ExrError::invalid("chromaticities payload size is not 32"));
            }
            Ok(
                AttributeValue::Chromaticities(
                    Chromaticities {
                        red_x: read_u32(data, 0),
                        red_y: read_u32(data, 4),
                        green_x: read_u32(data, 8),
                        green_y: read_u32(data, 12),
                        blue_x: read_u32(data, 16),
                        blue_y: read_u32(data, 20),
                        white_x: read_u32(data, 24),
                        white_y: read_u32(data, 28),
                    },
                ),
            )
        },
        ValueKind::TileDesc => {
            match TileDesc::from_bytes(data) {
                Ok(t) => Ok(AttributeValue::TileDesc(t)),
                Err(e) => Err(e),
            }
        },
        ValueKind::Texts => {
            if let Some(t) = parse_texts(data) {
                return Ok(AttributeValue::StringVector(t));
            }
            let copy: Vec<u8> = copy_range(data, 0, n);
            assert(copy@ =~= data@);
            Ok(AttributeValue::Other { type_label: type_label.to_owned(), data: copy })
        },
        ValueKind::Other => {
            let copy: Vec<u8> = copy_range(data, 0, n);
            assert(copy@ =~= data@);
            Ok(AttributeValue::Other { type_label: type_label.to_owned(), data: copy })
        },
    }
}

fn texts_payload(t: &[String]) -> (out: Vec<u8>)
    ensures
        out@ == texts_from(Seq::new(t@.len(), |i: int| t@[i]@), 0),
{
    let mut out: Vec<u8> = Vec::new();
    let mut i: usize = 0;
    let ghost ts = Seq::new(t@.len(), |i: int| t@[i]@);
    assert(Seq::<u8>::empty() + texts_from(ts, 0) =~= texts_from(ts, 0));
    while i < t.len()
        invariant
            i <= t@.len(),
            ts == Seq::new(t@.len(), |i: int| t@[i]@),
            texts_from(ts, 0) == out@ + texts_from(ts, i as int),
        decreases t@.len() - i,
    {
        let ghost before = out@;
        let b: &[u8] = t[i].as_str().as_bytes();
        put_length(&mut out, b.len());
        put_bytes(&mut out, b);
        proof {
            assert(ts[i as int] == t@[i as int]@);
            assert(before + (length_bytes(b@.len()) + b@ + texts_from(ts, i + 1)) =~= out@ + texts_from(
                ts,
                i + 1,
            ));
        }
        i = i + 1;
    }
    assert(out@ + Seq::<u8>::empty() =~= out@);
    out
}

/// Append a length.
pub fn put_length(out: &mut Vec<u8>, n: usize)
    ensures
        final(out)@ == old(out)@ + length_bytes(n as nat),
{
    put_u32(out, (n as u64 % 0x1_0000_0000) as u32);
}

/// The type and the payload of an attribute's value.
pub fn encode_attribute_value(value: &AttributeValue) -> (r: (String, Vec<u8>))
    ensures
        r.0@ == label_of(value@),
        r.1@ == payload_of(value@),
{
    let mut v: Vec<u8> = Vec::new();
    let label: String = match value {
        AttributeValue::Channels(c) => {
            v = encode_channel_list(c.as_slice());
            "chlist".to_owned()
        },
        AttributeValue::Compression(c) => {
            v.push(c.to_byte());
            "compression".to_owned()
        },
        AttributeValue::Box2i(b) => {
            put_i32(&mut v, b.x_min);
            put_i32(&mut v, b.y_min);
            put_i32(&mut v, b.x_max);
            put_i32(&mut v, b.y_max);
            "box2i".to_owned()
        },
        AttributeValue::Box2f(b) => {
            put_words(&mut v, [b.x_min, b.y_min, b.x_max, b.y_max].as_slice());
            "box2f".to_owned()
        },
        AttributeValue::LineOrder(l) => {
            v.push(l.to_byte());
            "lineOrder".to_owned()
        },
        AttributeValue::Float(f) => {
            put_u32(&mut v, *f);
            "float".to_owned()
        },
        AttributeValue::V2f(x, y) => {
            put_words(&mut v, [*x, *y].as_slice());
            "v2f".to_owned()
        },
        AttributeValue::Int(i) => {
            put_i32(&mut v, *i);
            "int".to_owned()
        },
        AttributeValue::Double(d) => {
            put_u64(&mut v, *d);
            "double".to_owned()
        },
        AttributeValue::String(s) => {
            put_bytes(&mut v, s.as_str().as_bytes());
            "string".to_owned()
        },
        AttributeValue::V2i(x, y) => {
            put_i32(&mut v, *x);
            put_i32(&mut v, *y);
            "v2i".to_owned()
        },
        AttributeValue::V3i(x, y, z) => {
            put_i32(&mut v, *x);
            put_i32(&mut v, *y);
            put_i32(&mut v, *z);
            "v3i".to_owned()
        },
        AttributeValue::V3f(x, y, z) => {
            put_words(&mut v, [*x, *y, *z].as_slice());
            "v3f".to_owned()
        },
        AttributeValue::M33f(m) => {
            put_words(&mut v, m.as_slice());
            "m33f".to_owned()
        },
        AttributeValue::M44f(m) => {
            put_words(&mut v, m.as_slice());
            "m44f".to_owned()
        },
        AttributeValue::Chromaticities(c) => {
            put_words(
                &mut v,
                [
                    c.red_x,
                    c.red_y,
                    c.green_x,
                    c.green_y,
                    c.blue_x,
                    c.blue_y,
                    c.white_x,
                    c.white_y,
                ].as_slice(),
            );
            "chromaticities".to_owned()
        },
        AttributeValue::TileDesc(t) => {
            v = t.to_bytes();
            "tiledesc".to_owned()
        },
        AttributeValue::StringVector(t) => {
            v = texts_payload(t.as_slice());
            "stringvector".to_owned()
        },
        AttributeValue::Other { type_label, data } => {
            put_bytes(&mut v, data.as_slice());
            type_label.clone()
        },
    };
    assert(v@ =~= payload_of(value@));
    (label, v)
}

// ----------------------------------------------------------------------
// Attribute tables
// ----------------------------------------------------------------------
/// The attribute at `pos`, in a file whose names have at most `max` bytes, and
/// the position behind it.
pub open spec fn entry_at(s: Seq<u8>, pos: int, max: int) -> Option<(EntryView, int)> {
    match text_at(s, pos, max) {
        None => None,
        Some((name, p)) => match text_at(s, p, max) {
            None => None,
            Some((label, q)) => {
                if q + 4 > s.len() || i32_at(s, q) < 0 || q + 4 + i32_at(s, q) > s.len() {
                    None
                } else {
                    match value_of(label, s.subrange(q + 4, q + 4 + i32_at(s, q))) {
                        None => None,
                        Some(value) => Some((EntryView { name, value }, q + 4 + i32_at(s, q))),
                    }
                }
            },
        },
    }
}

/// The attributes from `pos` up to the zero byte that ends their table, and
/// the position behind that byte.
pub open spec fn entries_from(s: Seq<u8>, pos: int, max: int) -> Option<(Seq<EntryView>, int)>
    decreases s.len() - pos,
    when 0 <= pos && 0 <= max
    via entries_from_decreases
{
    if pos >= s.len() {
        None
    } else if s[pos] == 0 {
        Some((Seq::empty(), pos + 1))
    } else {
        match entry_at(s, pos, max) {
            None => None,
            Some((e, p)) => match entries_from(s, p, max) {
                None => None,
                Some((rest, end)) => Some((seq![e] + rest, end)),
            },
        }
    }
}

#[via_fn]
proof fn entries_from_decreases(s: Seq<u8>, pos: int, max: int) {
    if pos < s.len() {
        lemma_entry_advances(s, pos, max);
    }
}

pub proof fn lemma_entry_advances(s: Seq<u8>, pos: int, max: int)
    requires
        0 <= pos <= s.len(),
        0 <= max,
    ensures
        entry_at(s, pos, max) matches Some((e, p)) ==> pos < p <= s.len(),
{
    lemma_text_advances(s, pos, max);
    if let Some((name, p)) = text_at(s, pos, max) {
        lemma_text_advances(s, p, max);
    }
}

/// Reading a table moves forward, and stays in the bytes.
pub proof fn lemma_entries_advance(s: Seq<u8>, pos: int, max: int)
    requires
        0 <= pos,
        0 <= max,
    ensures
        entries_from(s, pos, max) matches Some((es, p)) ==> pos < p <= s.len(),
    decreases s.len() - pos,
{
    if pos < s.len() && s[pos] != 0 {
        lemma_entry_advances(s, pos, max);
        if let Some((e, p)) = entry_at(s, pos, max) {
            lemma_entries_advance(s, p, max);
        }
    }
}

fn read_entry(s: &[u8], pos: usize, max: usize) -> (r: Result<(Attribute, usize), ExrError>)
    requires
        pos <= s@.len(),
        max <= 255,
    ensures
        r matches Ok((a, p)) ==> entry_at(s@, pos as int, max as int) == Some((a@, p as int)) && pos
            < p <= s@.len(),
        r matches Err(e) ==> e.fault() == Fault::Invalid && entry_at(
            s@,
            pos as int,
            max as int,
        ) is None,
{
    let n: usize = s.len();
    let (name, p) = null_string(s, pos, max)?;
    let (label, q) = null_string(s, p, max)?;
    if n - q < 4 {
        return Err(ExrError::invalid("attribute cut short"));
    }
    let size: i32 = read_i32(s, q);
    if size < 0 {
        return Err(ExrError::invalid("attribute has negative size"));
    }
    if n - q - 4 < size as usize {
        return Err(ExrError::invalid("attribute payload runs past EOF"));
    }
    let end: usize = q + 4 + size as usize;
    let value: AttributeValue = parse_attribute_value(label.as_str(), slice_range(s, q + 4, end))?;
    Ok((Attribute { name, value }, end))
}

fn read_entries(s: &[u8], start: usize, max: usize) -> (r: Result<(Vec<Attribute>, usize), ExrError>)
    requires
        start <= s@.len(),
        max <= 255,
    ensures
        r matches Ok((v, p)) ==> entries_from(s@, start as int, max as int) == Some(
            (entry_views(v@), p as int),
        ) && start < p <= s@.len(),
        r matches Err(e) ==> e.fault() == Fault::Invalid && entries_from(
            s@,
            start as int,
            max as int,
        ) is None,
{
    let mut out: Vec<Attribute> = Vec::new();
    let mut pos: usize = start;
    let n: usize = s.len();
    proof {
        assert(entry_views(out@) =~= Seq::empty());
        if let Some((v, p)) = entries_from(s@, start as int, max as int) {
            assert(Seq::<EntryView>::empty() + v =~= v);
        }
    }
    loop
        invariant
            start <= pos <= n,
            n == s@.len(),
            max <= 255,
            entries_from(s@, start as int, max as int) == match entries_from(
                s@,
                pos as int,
                max as int,
            ) {
                None => None,
                Some((rest, end)) => Some((entry_views(out@) + rest, end)),
            },
        decreases n - pos,
    {
        if pos >= n {
            return Err(ExrError::invalid("EOF before header NUL terminator"));
        }
        if s[pos] == 0 {
            assert(entry_views(out@) + Seq::<EntryView>::empty() =~= entry_views(out@));
            return Ok((out, pos + 1));
        }
        let (a, p) = read_entry(s, pos, max)?;
        let ghost before = entry_views(out@);
        let ghost av = a@;
        out.push(a);
        proof {
            assert(entry_views(out@) =~= before.push(av));
            if let Some((rest, end)) = entries_from(s@, p as int, max as int) {
                assert(before + (seq![av] + rest) =~= entry_views(out@) + rest);
            }
        }
        pos = p;
    }
}

/// The magic number and a version field stand at the start of `s`.
pub open spec fn has_magic(s: Seq<u8>) -> bool {
    s.len() >= 8 && u32_at(s, 0) == EXR_MAGIC
}

/// The header of a file with one part. Where `deep` is set, the file may hold
/// deep data.
pub open spec fn single_header_of(s: Seq<u8>, deep: bool) -> Result<HeaderView, Fault> {
    if !has_magic(s) {
        Err(Fault::Invalid)
    } else {
        let version = version_of(u32_at(s, 4));
        if version.multipart || (version.non_image && !deep) {
            Err(Fault::Unsupported)
        } else {
            match entries_from(s, 8, version.name_limit()) {
                None => Err(Fault::Invalid),
                Some((entries, end)) => Ok(HeaderView { version, entries, end }),
            }
        }
    }
}

/// Parse the header of a file with one part; `deep` says whether the file may
/// hold deep data.
pub fn parse_single_header(bytes: &[u8], deep: bool) -> (r: Result<ParsedHeader, ExrError>)
    ensures
        r matches Ok(h) ==> single_header_of(bytes@, deep) == Ok::<HeaderView, Fault>(h@) && h.end_offset
            <= bytes@.len(),
        r matches Err(e) ==> single_header_of(bytes@, deep) == Err::<HeaderView, Fault>(e.fault()),
{
    if bytes.len() < 8 {
        return Err(ExrError::invalid("unexpected EOF in magic and version"));
    }
    if read_u32(bytes, 0) != EXR_MAGIC {
        return Err(ExrError::invalid("bad magic"));
    }
    let version: VersionField = VersionField::from_u32(read_u32(bytes, 4));
    if version.multipart {
        return Err(ExrError::unsupported("multi-part file: use one of the multi-part readers"));
    }
    if version.non_image && !deep {
        return Err(ExrError::unsupported("deep file: use one of the deep readers"));
    }
    let max: usize = if version.long_names {
        255
    } else {
        31
    };
    let (attributes, end_offset) = read_entries(bytes, 8, max)?;
    Ok(ParsedHeader { version, attributes, end_offset })
}

/// The header of a file with one part and flat data.
pub open spec fn header_of(s: Seq<u8>) -> Result<HeaderView, Fault> {
    single_header_of(s, false)
}

/// Parse the header of a file with one part and flat data.
pub fn parse_header(bytes: &[u8]) -> (r: Result<ParsedHeader, ExrError>)
    ensures
        r matches Ok(h) ==> header_of(bytes@) == Ok::<HeaderView, Fault>(h@) && h.end_offset
            <= bytes@.len(),
        r matches Err(e) ==> header_of(bytes@) == Err::<HeaderView, Fault>(e.fault()),
{
    parse_single_header(bytes, false)
}

/// The attribute tables from `pos` up to the zero byte that ends them, and the
/// position behind that byte.
pub open spec fn tables_from(s: Seq<u8>, pos: int, max: int) -> Option<(Seq<Seq<EntryView>>, int)>
    decreases s.len() - pos,
    when 0 <= pos && 0 <= max
    via tables_from_decreases
{
    if pos >= s.len() {
        None
    } else if s[pos] == 0 {
        Some((Seq::empty(), pos + 1))
    } else {
        match entries_from(s, pos, max) {
            None => None,
            Some((t, p)) => match tables_from(s, p, max) {
                None => None,
                Some((rest, end)) => Some((seq![t] + rest, end)),
            },
        }
    }
}

#[via_fn]
proof fn tables_from_decreases(s: Seq<u8>, pos: int, max: int) {
    lemma_entries_advance(s, pos, max);
}

/// The headers of a file with several parts. Each holds the position behind
/// all of them.
pub open spec fn multipart_headers_of(s: Seq<u8>) -> Result<Seq<HeaderView>, Fault> {
    if !has_magic(s) {
        Err(Fault::Invalid)
    } else {
        let version = version_of(u32_at(s, 4));
        if !version.multipart {
            Err(Fault::Invalid)
        } else {
            match tables_from(s, 8, version.name_limit()) {
                None => Err(Fault::Invalid),
                Some((tables, end)) => Ok(
                    Seq::new(
                        tables.len(),
                        |i: int| HeaderView { version, entries: tables[i], end },
                    ),
                ),
            }
        }
    }
}

fn read_tables(s: &[u8], version: VersionField, max: usize) -> (r: Result<
    (Vec<ParsedHeader>, usize),
    ExrError,
>)
    requires
        8 <= s@.len(),
        max <= 255,
    ensures
        r matches Ok((v, p)) ==> {
            &&& tables_from(s@, 8, max as int) == Some(
                (Seq::new(v@.len(), |i: int| entry_views(v@[i].attributes@)), p as int),
            )
            &&& 8 < p <= s@.len()
            &&& forall|i: int| 0 <= i < v@.len() ==> (#[trigger] v@[i]).version == version
        },
        r matches Err(e) ==> e.fault() == Fault::Invalid && tables_from(s@, 8, max as int) is None,
{
    let mut out: Vec<ParsedHeader> = Vec::new();
    let mut pos: usize = 8;
    let n: usize = s.len();
    let ghost done: Seq<Seq<EntryView>> = Seq::empty();
    proof {
        if let Some((v, p)) = tables_from(s@, 8, max as int) {
            assert(Seq::<Seq<EntryView>>::empty() + v =~= v);
        }
    }
    loop
        invariant
            8 <= pos <= n,
            n == s@.len(),
            max <= 255,
            done.len() == out@.len(),
            forall|i: int| 0 <= i < out@.len() ==> entry_views((#[trigger] out@[i]).attributes@) == done[i],
            forall|i: int| 0 <= i < out@.len() ==> (#[trigger] out@[i]).version == version,
            tables_from(s@, 8, max as int) == match tables_from(s@, pos as int, max as int) {
                None => None,
                Some((rest, end)) => Some((done + rest, end)),
            },
        decreases n - pos,
    {
        if pos >= n {
            return Err(ExrError::invalid("EOF before multi-part header double-NUL terminator"));
        }
        if s[pos] == 0 {
            proof {
                assert(done + Seq::<Seq<EntryView>>::empty() =~= done);
                assert(done =~= Seq::new(out@.len(), |i: int| entry_views(out@[i].attributes@)));
            }
            return Ok((out, pos + 1));
        }
        let (attributes, p) = read_entries(s, pos, max)?;
        let ghost before = done;
        proof {
            let t = entry_views(attributes@);
            done = before.push(t);
            if let Some((rest, end)) = tables_from(s@, p as int, max as int) {
                assert(before + (seq![t] + rest) =~= done + rest);
            }
        }
        out.push(ParsedHeader { version, attributes, end_offset: p });
        pos = p;
    }
}

/// Parse the headers of a file with several parts.
pub fn parse_multipart_headers(bytes: &[u8]) -> (r: Result<Vec<ParsedHeader>, ExrError>)
    ensures
        r matches Ok(v) ==> multipart_headers_of(bytes@) == Ok::<Seq<HeaderView>, Fault>(
            header_views(v@),
        ),
        r matches Ok(v) ==> forall|i: int|
            0 <= i < v@.len() ==> (#[trigger] v@[i]).end_offset <= bytes@.len(),
        r matches Err(e) ==> multipart_headers_of(bytes@) == Err::<Seq<HeaderView>, Fault>(e.fault()),
{
    if bytes.len() < 8 {
        return Err(ExrError::invalid("unexpected EOF in magic and version"));
    }
    if read_u32(bytes, 0) != EXR_MAGIC {
        return Err(ExrError::invalid("bad magic"));
    }
    let version: VersionField = VersionField::from_u32(read_u32(bytes, 4));
    if !version.multipart {
        return Err(ExrError::invalid("not a multi-part file"));
    }
    let max: usize = if version.long_names {
        255
    } else {
        31
    };
    let (read, end) = read_tables(bytes, version, max)?;
    let ghost tables = Seq::new(read@.len(), |i: int| entry_views(read@[i].attributes@));
    let mut left: Vec<ParsedHeader> = read;
    let mut out: Vec<ParsedHeader> = Vec::new();
    let ghost n = left@.len();
    while left.len() > 0
        invariant
            left@.len() + out@.len() == n,
            n == tables.len(),
            end <= bytes@.len(),
            forall|i: int|
                0 <= i < left@.len() ==> entry_views((#[trigger] left@[i]).attributes@) == tables[i],
            forall|i: int|
                0 <= i < out@.len() ==> entry_views((#[trigger] out@[i]).attributes@) == tables[n - 1
                    - i] && out@[i].version == version && out@[i].end_offset == end,
        decreases left@.len(),
    {
        if let Some(h) = left.pop() {
            out.push(ParsedHeader { version, attributes: h.attributes, end_offset: end });
        }
    }
    let r: Vec<ParsedHeader> = reversed(out);
    proof {
        assert(header_views(r@) =~= Seq::new(
            tables.len(),
            |i: int| HeaderView { version, entries: tables[i], end: end as int },
        ));
    }
    Ok(r)
}

/// The items of a list, last first.
pub fn reversed<T>(v: Vec<T>) -> (r: Vec<T>)
    ensures
        r@ == Seq::new(v@.len(), |i: int| v@[v@.len() - 1 - i]),
{
    let ghost all = v@;
    let mut left: Vec<T> = v;
    let mut out: Vec<T> = Vec::new();
    while left.len() > 0
        invariant
            left@.len() + out@.len() == all.len(),
            left@ == all.take(left@.len() as int),
            forall|i: int| 0 <= i < out@.len() ==> out@[i] == all[all.len() - 1 - i],
        decreases left@.len(),
    {
        let ghost k = left@.len();
        if let Some(x) = left.pop() {
            assert(all.take(k as int).subrange(0, k - 1) =~= all.take(k - 1));
            out.push(x);
        }
    }
    assert(out@ =~= Seq::new(all.len(), |i: int| all[all.len() - 1 - i]));
    out
}

/// An attribute as it is stored.
pub open spec fn entry_bytes(e: EntryView) -> Seq<u8> {
    name_bytes(e.name) + (name_bytes(label_of(e.value)) + (length_bytes(payload_of(e.value).len())
        + payload_of(e.value)))
}

/// The attributes from `i` on, and the zero byte behind them.
pub open spec fn table_bytes_from(es: Seq<EntryView>, i: int) -> Seq<u8>
    decreases es.len() - i,
{
    if i >= es.len() {
        seq![0u8]
    } else {
        entry_bytes(es[i]) + table_bytes_from(es, i + 1)
    }
}

/// An attribute table as it is stored.
pub open spec fn table_bytes(es: Seq<EntryView>) -> Seq<u8> {
    table_bytes_from(es, 0)
}

/// The magic number and the version field.
pub open spec fn magic_bytes(raw: u32) -> Seq<u8> {
    u32_le(EXR_MAGIC) + u32_le(raw)
}

/// A header as it is stored.
pub open spec fn header_bytes(raw: u32, es: Seq<EntryView>) -> Seq<u8> {
    magic_bytes(raw) + table_bytes(es)
}

/// An attribute that reads back in a file whose names have at most `max`
/// bytes.
pub open spec fn entry_storable(e: EntryView, max: int) -> bool {
    &&& is_storable(e.name, max)
    &&& is_endable(label_of(e.value), max)
    &&& value_of(label_of(e.value), payload_of(e.value)) == Some(e.value)
    &&& payload_of(e.value).len() < 0x8000_0000
}

/// Every attribute of the table reads back.
pub open spec fn entries_storable(es: Seq<EntryView>, max: int) -> bool {
    forall|i: int| 0 <= i < es.len() ==> entry_storable(#[trigger] es[i], max)
}

/// Append one attribute.
fn put_entry(out: &mut Vec<u8>, a: &Attribute)
    ensures
        final(out)@ == old(out)@ + entry_bytes(a@),
{
    let (label, payload) = encode_attribute_value(&a.value);
    put_bytes(out, a.name.as_str().as_bytes());
    out.push(0);
    put_bytes(out, label.as_str().as_bytes());
    out.push(0);
    put_length(out, payload.len());
    put_bytes(out, payload.as_slice());
    assert(out@ =~= old(out)@ + entry_bytes(a@));
}

/// Append an attribute table.
pub fn put_table(out: &mut Vec<u8>, attributes: &[Attribute])
    ensures
        final(out)@ == old(out)@ + table_bytes(entry_views(attributes@)),
{
    let mut i: usize = 0;
    let ghost es = entry_views(attributes@);
    let ghost start = out@;
    while i < attributes.len()
        invariant
            i <= attributes@.len(),
            es == entry_views(attributes@),
            start + table_bytes(es) == out@ + table_bytes_from(es, i as int),
        decreases attributes@.len() - i,
    {
        let ghost before = out@;
        put_entry(out, &attributes[i]);
        proof {
            assert(es[i as int] == attributes@[i as int]@);
            assert(before + (entry_bytes(es[i as int]) + table_bytes_from(es, i + 1)) =~= out@
                + table_bytes_from(es, i + 1));
        }
        i = i + 1;
    }
    let ghost before = out@;
    out.push(0);
    assert(out@ =~= before + seq![0u8]);
}

/// Append the magic number and the version field.
pub fn put_magic(out: &mut Vec<u8>, raw: u32)
    ensures
        final(out)@ == old(out)@ + magic_bytes(raw),
{
    put_u32(out, EXR_MAGIC);
    put_u32(out, raw);
    assert(out@ =~= old(out)@ + magic_bytes(raw));
}

/// Encode a header.
pub fn encode_header(version: VersionField, attributes: &[Attribute]) -> (out: Vec<u8>)
    ensures
        out@ == header_bytes(version.raw, entry_views(attributes@)),
{
    let mut out: Vec<u8> = Vec::new();
    put_magic(&mut out, version.to_u32());
    put_table(&mut out, attributes);
    assert(out@ =~= header_bytes(version.raw, entry_views(attributes@)));
    out
}

proof fn lemma_entry_reads_back(s: Seq<u8>, pos: int, e: EntryView, max: int)
    requires
        stands_at(s, pos, entry_bytes(e)),
        entry_storable(e, max),
    ensures
        entry_at(s, pos, max) == Some((e, pos + entry_bytes(e).len())),
        s[pos] != 0,
{
    let label = label_of(e.value);
    let data = payload_of(e.value);
    let p = pos + name_bytes(e.name).len();
    let q = p + name_bytes(label).len();
    lemma_stands_split(s, pos, name_bytes(e.name), name_bytes(label) + (length_bytes(data.len()) + data));
    lemma_stands_split(s, p, name_bytes(label), length_bytes(data.len()) + data);
    lemma_stands_split(s, q, length_bytes(data.len()), data);
    lemma_name_reads_back(s, pos, e.name, max);
    lemma_text_reads_back(s, p, label, max);
    lemma_u32_reads_back(s, q, (data.len() % 0x1_0000_0000) as u32);
}

/// A table of storable attributes reads back.
pub proof fn lemma_table_reads_back(s: Seq<u8>, pos: int, es: Seq<EntryView>, i: int, max: int)
    requires
        0 <= i <= es.len(),
        0 <= max,
        stands_at(s, pos, table_bytes_from(es, i)),
        entries_storable(es, max),
    ensures
        entries_from(s, pos, max) == Some((es.skip(i), pos + table_bytes_from(es, i).len())),
        i < es.len() ==> s[pos] != 0,
    decreases es.len() - i,
{
    if i == es.len() {
        assert(es.skip(i) =~= Seq::empty());
        assert(s.subrange(pos, pos + 1)[0] == s[pos]);
    } else {
        let e = es[i];
        lemma_stands_split(s, pos, entry_bytes(e), table_bytes_from(es, i + 1));
        lemma_entry_reads_back(s, pos, e, max);
        lemma_table_reads_back(s, pos + entry_bytes(e).len(), es, i + 1, max);
        assert(seq![e] + es.skip(i + 1) =~= es.skip(i));
    }
}

/// The header at the start of a file reads back.
pub proof fn lemma_header_reads_back(s: Seq<u8>, raw: u32, es: Seq<EntryView>, deep: bool)
    requires
        stands_at(s, 0, header_bytes(raw, es)),
        !version_of(raw).multipart,
        deep || !version_of(raw).non_image,
        entries_storable(es, version_of(raw).name_limit()),
    ensures
        single_header_of(s, deep) == Ok::<HeaderView, Fault>(
            HeaderView {
                version: version_of(raw),
                entries: es,
                end: header_bytes(raw, es).len() as int,
            },
        ),
{
    lemma_stands_split(s, 0, magic_bytes(raw), table_bytes(es));
    lemma_stands_split(s, 0, u32_le(EXR_MAGIC), u32_le(raw));
    lemma_u32_reads_back(s, 0, EXR_MAGIC);
    lemma_u32_reads_back(s, 4, raw);
    lemma_table_reads_back(s, 8, es, 0, version_of(raw).name_limit());
    assert(es.skip(0) =~= es);
}

/// A header of storable attributes reads back from its bytes.
pub proof fn law_header_round_trip(raw: u32, es: Seq<EntryView>)
    requires
        !version_of(raw).multipart,
        !version_of(raw).non_image,
        entries_storable(es, version_of(raw).name_limit()),
    ensures
        header_of(header_bytes(raw, es)) == Ok::<HeaderView, Fault>(
            HeaderView {
                version: version_of(raw),
                entries: es,
                end: header_bytes(raw, es).len() as int,
            },
        ),
{
    let s = header_bytes(raw, es);
    assert(s.subrange(0, s.len() as int) =~= s);
    lemma_header_reads_back(s, raw, es, false);
}

/// The tables from `i` on, and the zero byte behind them.
pub open spec fn tables_bytes_from(ts: Seq<Seq<EntryView>>, i: int) -> Seq<u8>
    decreases ts.len() - i,
{
    if i >= ts.len() {
        seq![0u8]
    } else {
        table_bytes(ts[i]) + tables_bytes_from(ts, i + 1)
    }
}

/// The headers of a file with several parts, as they are stored.
pub open spec fn multipart_header_bytes(raw: u32, ts: Seq<Seq<EntryView>>) -> Seq<u8> {
    magic_bytes(raw) + tables_bytes_from(ts, 0)
}

proof fn lemma_tables_read_back(s: Seq<u8>, pos: int, ts: Seq<Seq<EntryView>>, i: int, max: int)
    requires
        0 <= i <= ts.len(),
        0 <= max,
        stands_at(s, pos, tables_bytes_from(ts, i)),
        forall|k: int| 0 <= k < ts.len() ==> (#[trigger] ts[k]).len() > 0 && entries_storable(ts[k], max),
    ensures
        tables_from(s, pos, max) == Some((ts.skip(i), pos + tables_bytes_from(ts, i).len())),
    decreases ts.len() - i,
{
    if i == ts.len() {
        assert(ts.skip(i) =~= Seq::empty());
        assert(s.subrange(pos, pos + 1)[0] == s[pos]);
    } else {
        let t = ts[i];
        lemma_stands_split(s, pos, table_bytes(t), tables_bytes_from(ts, i + 1));
        lemma_table_reads_back(s, pos, t, 0, max);
        assert(t.skip(0) =~= t);
        lemma_tables_read_back(s, pos + table_bytes(t).len(), ts, i + 1, max);
        assert(seq![t] + ts.skip(i + 1) =~= ts.skip(i));
    }
}

/// The headers at the start of a file with several parts read back.
pub proof fn lemma_multipart_header_reads_back(s: Seq<u8>, raw: u32, ts: Seq<Seq<EntryView>>)
    requires
        stands_at(s, 0, multipart_header_bytes(raw, ts)),
        version_of(raw).multipart,
        forall|k: int|
            0 <= k < ts.len() ==> (#[trigger] ts[k]).len() > 0 && entries_storable(
                ts[k],
                version_of(raw).name_limit(),
            ),
    ensures
        multipart_headers_of(s) == Ok::<Seq<HeaderView>, Fault>(
            Seq::new(
                ts.len(),
                |i: int|
                    HeaderView {
                        version: version_of(raw),
                        entries: ts[i],
                        end: multipart_header_bytes(raw, ts).len() as int,
                    },
            ),
        ),
{
    lemma_stands_split(s, 0, magic_bytes(raw), tables_bytes_from(ts, 0));
    lemma_stands_split(s, 0, u32_le(EXR_MAGIC), u32_le(raw));
    lemma_u32_reads_back(s, 0, EXR_MAGIC);
    lemma_u32_reads_back(s, 4, raw);
    lemma_tables_read_back(s, 8, ts, 0, version_of(raw).name_limit());
    assert(ts.skip(0) =~= ts);
}

/// The names of the parsed types can be stored.
pub proof fn lemma_label_storable(v: AttributeView, max: int)
    requires
        31 <= max,
        v !is Other,
    ensures
        is_storable(label_of(v), max),
{
    reveal_strlit("chlist");
    reveal_strlit("compression");
    reveal_strlit("box2i");
    reveal_strlit("box2f");
    reveal_strlit("lineOrder");
    reveal_strlit("float");
    reveal_strlit("v2f");
    reveal_strlit("int");
    reveal_strlit("double");
    reveal_strlit("string");
    reveal_strlit("v2i");
    reveal_strlit("v3i");
    reveal_strlit("v3f");
    reveal_strlit("m33f");
    reveal_strlit("m44f");
    reveal_strlit("chromaticities");
    reveal_strlit("tiledesc");
    reveal_strlit("stringvector");
    lemma_ascii_storable(label_of(v), max);
}

} // verus!
