//! The value types of the format.

use crate::bytes::{put_u32, read_u32, u32_at, u32_le};
use crate::error::{ExrError, Fault};
use crate::text::{lemma_name_lt_asymmetric, name_lt, str_lt};
use vstd::prelude::*;

verus! {

broadcast use crate::bytes::group_le_len;

/// The first four bytes of every file, read little-endian.
pub const EXR_MAGIC: u32 = 0x0131_2F76;

/// The type in which a channel's samples are stored.
#[derive(Debug, Clone, Copy, PartialEq, Eq, Structural)]
pub enum PixelType {
    Uint,
    Half,
    Float,
}

impl PixelType {
    pub open spec fn code(self) -> i32 {
        match self {
            PixelType::Uint => 0,
            PixelType::Half => 1,
            PixelType::Float => 2,
        }
    }

    /// The number of bytes of one sample.
    pub open spec fn size(self) -> nat {
        match self {
            PixelType::Uint => 4,
            PixelType::Half => 2,
            PixelType::Float => 4,
        }
    }

    /// The pixel type with the given code.
    pub open spec fn of(v: i32) -> Option<PixelType> {
        if v == 0 {
            Some(PixelType::Uint)
        } else if v == 1 {
            Some(PixelType::Half)
        } else if v == 2 {
            Some(PixelType::Float)
        } else {
            None
        }
    }

    pub fn from_int(v: i32) -> (r: Option<PixelType>)
        ensures
            r == PixelType::of(v),
    {
        if v == 0 {
            Some(PixelType::Uint)
        } else if v == 1 {
            Some(PixelType::Half)
        } else if v == 2 {
            Some(PixelType::Float)
        } else {
            None
        }
    }

    pub fn to_int(self) -> (r: i32)
        ensures
            r == self.code(),
    {
        match self {
            PixelType::Uint => 0,
            PixelType::Half => 1,
            PixelType::Float => 2,
        }
    }

    pub fn bytes_per_sample(self) -> (r: usize)
        ensures
            r == self.size(),
    {
        match self {
            PixelType::Uint => 4,
            PixelType::Half => 2,
            PixelType::Float => 4,
        }
    }
}

/// How the pixel data of a file is compressed.
#[derive(Debug, Clone, Copy, PartialEq, Eq, Structural)]
pub enum Compression {
    Uncompressed,
    Rle,
    Zips,
    Zip,
    Piz,
    Pxr24,
    B44,
    B44a,
    Dwaa,
    Dwab,
}

impl Compression {
    pub open spec fn code(self) -> u8 {
        match self {
            Compression::Uncompressed => 0,
            Compression::Rle => 1,
            Compression::Zips => 2,
            Compression::Zip => 3,
            Compression::Piz => 4,
            Compression::Pxr24 => 5,
            Compression::B44 => 6,
            Compression::B44a => 7,
            Compression::Dwaa => 8,
            Compression::Dwab => 9,
        }
    }

    /// The number of scanlines in one block.
    pub open spec fn block_rows(self) -> nat {
        match self {
            Compression::Uncompressed => 1,
            Compression::Rle => 1,
            Compression::Zips => 1,
            Compression::Zip => 16,
            Compression::Piz => 32,
            Compression::Pxr24 => 16,
            Compression::B44 => 32,
            Compression::B44a => 32,
            Compression::Dwaa => 32,
            Compression::Dwab => 256,
        }
    }

    /// The compression with the given code.
    pub open spec fn of(b: u8) -> Option<Compression> {
        match b {
            0 => Some(Compression::Uncompressed),
            1 => Some(Compression::Rle),
            2 => Some(Compression::Zips),
            3 => Some(Compression::Zip),
            4 => Some(Compression::Piz),
            5 => Some(Compression::Pxr24),
            6 => Some(Compression::B44),
            7 => Some(Compression::B44a),
            8 => Some(Compression::Dwaa),
            9 => Some(Compression::Dwab),
            _ => None,
        }
    }

    pub fn from_byte(b: u8) -> (r: Option<Compression>)
        ensures
            r == Compression::of(b),
    {
        match b {
            0 => Some(Compression::Uncompressed),
            1 => Some(Compression::Rle),
            2 => Some(Compression::Zips),
            3 => Some(Compression::Zip),
            4 => Some(Compression::Piz),
            5 => Some(Compression::Pxr24),
            6 => Some(Compression::B44),
            7 => Some(Compression::B44a),
            8 => Some(Compression::Dwaa),
            9 => Some(Compression::Dwab),
            _ => None,
        }
    }

    pub fn to_byte(self) -> (r: u8)
        ensures
            r == self.code(),
    {
        match self {
            Compression::Uncompressed => 0,
            Compression::Rle => 1,
            Compression::Zips => 2,
            Compression::Zip => 3,
            Compression::Piz => 4,
            Compression::Pxr24 => 5,
            Compression::B44 => 6,
            Compression::B44a => 7,
            Compression::Dwaa => 8,
            Compression::Dwab => 9,
        }
    }

    pub fn scanlines_per_block(self) -> (r: u32)
        ensures
            r == self.block_rows(),
    {
        match self {
            Compression::Uncompressed => 1,
            Compression::Rle => 1,
            Compression::Zips => 1,
            Compression::Zip => 16,
            Compression::Piz => 32,
            Compression::Pxr24 => 16,
            Compression::B44 => 32,
            Compression::B44a => 32,
            Compression::Dwaa => 32,
            Compression::Dwab => 256,
        }
    }
}

/// The order in which a file's lines are stored.
#[derive(Debug, Clone, Copy, PartialEq, Eq, Structural)]
pub enum LineOrder {
    IncreasingY,
    DecreasingY,
    RandomY,
}

impl LineOrder {
    pub open spec fn code(self) -> u8 {
        match self {
            LineOrder::IncreasingY => 0,
            LineOrder::DecreasingY => 1,
            LineOrder::RandomY => 2,
        }
    }

    /// The line order with the given code.
    pub open spec fn of(b: u8) -> Option<LineOrder> {
        match b {
            0 => Some(LineOrder::IncreasingY),
            1 => Some(LineOrder::DecreasingY),
            2 => Some(LineOrder::RandomY),
            _ => None,
        }
    }

    pub fn from_byte(b: u8) -> (r: Option<LineOrder>)
        ensures
            r == LineOrder::of(b),
    {
        match b {
            0 => Some(LineOrder::IncreasingY),
            1 => Some(LineOrder::DecreasingY),
            2 => Some(LineOrder::RandomY),
            _ => None,
        }
    }

    pub fn to_byte(self) -> (r: u8)
        ensures
            r == self.code(),
    {
        match self {
            LineOrder::IncreasingY => 0,
            LineOrder::DecreasingY => 1,
            LineOrder::RandomY => 2,
        }
    }
}

/// A rectangle of pixels, its corners included.
#[derive(Debug, Clone, Copy, PartialEq, Eq, Structural)]
pub struct Box2i {
    pub x_min: i32,
    pub y_min: i32,
    pub x_max: i32,
    pub y_max: i32,
}

/// The number of integers from `lo` to `hi`, at most `u32::MAX`.
pub open spec fn span(lo: i32, hi: i32) -> u32 {
    if hi < lo {
        0
    } else if hi - lo + 1 > u32::MAX {
        u32::MAX
    } else {
        (hi - lo + 1) as u32
    }
}

fn count_between(lo: i32, hi: i32) -> (r: u32)
    ensures
        r == span(lo, hi),
{
    if hi < lo {
        0
    } else {
        let n: i64 = hi as i64 - lo as i64 + 1;
        if n > u32::MAX as i64 {
            u32::MAX
        } else {
            n as u32
        }
    }
}

impl Box2i {
    pub open spec fn columns(self) -> u32 {
        span(self.x_min, self.x_max)
    }

    pub open spec fn rows(self) -> u32 {
        span(self.y_min, self.y_max)
    }

    pub fn width(&self) -> (r: u32)
        ensures
            r == self.columns(),
    {
        count_between(self.x_min, self.x_max)
    }

    pub fn height(&self) -> (r: u32)
        ensures
            r == self.rows(),
    {
        count_between(self.y_min, self.y_max)
    }
}

/// A rectangle with binary32 corners, as bit patterns.
#[derive(Debug, Clone, Copy, PartialEq, Eq, Structural)]
pub struct Box2f {
    pub x_min: u32,
    pub y_min: u32,
    pub x_max: u32,
    pub y_max: u32,
}

/// The CIE coordinates of the primaries and the white point, as binary32 bit
/// patterns.
#[derive(Debug, Clone, Copy, PartialEq, Eq, Structural)]
pub struct Chromaticities {
    pub red_x: u32,
    pub red_y: u32,
    pub green_x: u32,
    pub green_y: u32,
    pub blue_x: u32,
    pub blue_y: u32,
    pub white_x: u32,
    pub white_y: u32,
}

/// The size of a tiled image's tiles, and how its levels are made.
#[derive(Debug, Clone, Copy, PartialEq, Eq, Structural)]
pub struct TileDesc {
    pub x_size: u32,
    pub y_size: u32,
    /// The low four bits of the mode byte.
    pub level_mode: u8,
    /// The high four bits of the mode byte.
    pub round_mode: u8,
}

/// The tile description in the nine bytes `data`.
pub open spec fn tile_desc_of(data: Seq<u8>) -> Option<TileDesc> {
    if data.len() != 9 {
        None
    } else {
        Some(
            TileDesc {
                x_size: u32_at(data, 0),
                y_size: u32_at(data, 4),
                level_mode: data[8] % 16,
                round_mode: data[8] / 16,
            },
        )
    }
}

impl TileDesc {
    /// The nine bytes of a tile description whose modes fit in four bits.
    pub open spec fn stored(self) -> Seq<u8> {
        u32_le(self.x_size) + u32_le(self.y_size) + seq![
            (self.level_mode % 16 + 16 * (self.round_mode % 16)) as u8,
        ]
    }

    pub fn from_bytes(data: &[u8]) -> (r: Result<TileDesc, ExrError>)
        ensures
            r matches Ok(t) ==> tile_desc_of(data@) == Some(t),
            r matches Err(e) ==> e.fault() == Fault::Invalid && tile_desc_of(data@) is None,
    {
        if data.len() != 9 {
            return Err(ExrError::invalid("tiledesc payload size is not 9"));
        }
        Ok(
            TileDesc {
                x_size: read_u32(data, 0),
                y_size: read_u32(data, 4),
                level_mode: data[8] % 16,
                round_mode: data[8] / 16,
            },
        )
    }

    pub fn to_bytes(&self) -> (r: Vec<u8>)
        ensures
            r@ == self.stored(),
    {
        let mut r: Vec<u8> = Vec::new();
        put_u32(&mut r, self.x_size);
        put_u32(&mut r, self.y_size);
        r.push(self.level_mode % 16 + 16 * (self.round_mode % 16));
        assert(r@ =~= self.stored());
        r
    }
}

/// One channel of an image.
#[derive(Debug, PartialEq, Eq)]
pub struct Channel {
    pub name: String,
    pub pixel_type: PixelType,
    pub p_linear: bool,
    pub x_sampling: i32,
    pub y_sampling: i32,
}

/// What a [`Channel`] stands for.
#[verifier::ext_equal]
pub struct ChannelView {
    pub name: Seq<char>,
    pub pixel_type: PixelType,
    pub p_linear: bool,
    pub x_sampling: i32,
    pub y_sampling: i32,
}

impl View for Channel {
    type V = ChannelView;

    open spec fn view(&self) -> ChannelView {
        ChannelView {
            name: self.name@,
            pixel_type: self.pixel_type,
            p_linear: self.p_linear,
            x_sampling: self.x_sampling,
            y_sampling: self.y_sampling,
        }
    }
}

impl Clone for Channel {
    fn clone(&self) -> (r: Self)
        ensures
            r@ == self@,
    {
        Channel {
            name: self.name.clone(),
            pixel_type: self.pixel_type,
            p_linear: self.p_linear,
            x_sampling: self.x_sampling,
            y_sampling: self.y_sampling,
        }
    }
}

/// The channels that a list of [`Channel`] stands for.
pub open spec fn channel_views(s: Seq<Channel>) -> Seq<ChannelView> {
    Seq::new(s.len(), |i: int| s[i]@)
}

/// The value of a header attribute. Floating-point parts are bit patterns.
#[derive(Debug, PartialEq, Eq)]
pub enum AttributeValue {
    Channels(Vec<Channel>),
    Compression(Compression),
    Box2i(Box2i),
    Box2f(Box2f),
    LineOrder(LineOrder),
    Float(u32),
    V2f(u32, u32),
    Int(i32),
    Double(u64),
    String(String),
    V2i(i32, i32),
    V3i(i32, i32, i32),
    V3f(u32, u32, u32),
    M33f([u32; 9]),
    M44f([u32; 16]),
    Chromaticities(Chromaticities),
    TileDesc(TileDesc),
    StringVector(Vec<String>),
    Other { type_label: String, data: Vec<u8> },
}

/// What an [`AttributeValue`] stands for.
#[verifier::ext_equal]
pub enum AttributeView {
    Channels(Seq<ChannelView>),
    Compression(Compression),
    Box2i(Box2i),
    Box2f(Box2f),
    LineOrder(LineOrder),
    Float(u32),
    V2f(u32, u32),
    Int(i32),
    Double(u64),
    Text(Seq<char>),
    V2i(i32, i32),
    V3i(i32, i32, i32),
    V3f(u32, u32, u32),
    M33f(Seq<u32>),
    M44f(Seq<u32>),
    Chromaticities(Chromaticities),
    TileDesc(TileDesc),
    Texts(Seq<Seq<char>>),
    Other { type_label: Seq<char>, data: Seq<u8> },
}

impl View for AttributeValue {
    type V = AttributeView;

    open spec fn view(&self) -> AttributeView {
        match self {
            AttributeValue::Channels(c) => AttributeView::Channels(channel_views(c@)),
            AttributeValue::Compression(c) => AttributeView::Compression(*c),
            AttributeValue::Box2i(b) => AttributeView::Box2i(*b),
            AttributeValue::Box2f(b) => AttributeView::Box2f(*b),
            AttributeValue::LineOrder(l) => AttributeView::LineOrder(*l),
            AttributeValue::Float(f) => AttributeView::Float(*f),
            AttributeValue::V2f(x, y) => AttributeView::V2f(*x, *y),
            AttributeValue::Int(i) => AttributeView::Int(*i),
            AttributeValue::Double(d) => AttributeView::Double(*d),
            AttributeValue::String(s) => AttributeView::Text(s@),
            AttributeValue::V2i(x, y) => AttributeView::V2i(*x, *y),
            AttributeValue::V3i(x, y, z) => AttributeView::V3i(*x, *y, *z),
            AttributeValue::V3f(x, y, z) => AttributeView::V3f(*x, *y, *z),
            AttributeValue::M33f(m) => AttributeView::M33f(m@),
            AttributeValue::M44f(m) => AttributeView::M44f(m@),
            AttributeValue::Chromaticities(c) => AttributeView::Chromaticities(*c),
            AttributeValue::TileDesc(t) => AttributeView::TileDesc(*t),
            AttributeValue::StringVector(v) => AttributeView::Texts(
                Seq::new(v@.len(), |i: int| v@[i]@),
            ),
            AttributeValue::Other { type_label, data } => AttributeView::Other {
                type_label: type_label@,
                data: data@,
            },
        }
    }
}

impl Clone for AttributeValue {
    fn clone(&self) -> (r: Self)
        ensures
            r@ == self@,
    {
        let r: AttributeValue = match self {
            AttributeValue::Channels(c) => AttributeValue::Channels(c.clone()),
            AttributeValue::Compression(c) => AttributeValue::Compression(*c),
            AttributeValue::Box2i(b) => AttributeValue::Box2i(*b),
            AttributeValue::Box2f(b) => AttributeValue::Box2f(*b),
            AttributeValue::LineOrder(l) => AttributeValue::LineOrder(*l),
            AttributeValue::Float(f) => AttributeValue::Float(*f),
            AttributeValue::V2f(x, y) => AttributeValue::V2f(*x, *y),
            AttributeValue::Int(i) => AttributeValue::Int(*i),
            AttributeValue::Double(d) => AttributeValue::Double(*d),
            AttributeValue::String(s) => AttributeValue::String(s.clone()),
            AttributeValue::V2i(x, y) => AttributeValue::V2i(*x, *y),
            AttributeValue::V3i(x, y, z) => AttributeValue::V3i(*x, *y, *z),
            AttributeValue::V3f(x, y, z) => AttributeValue::V3f(*x, *y, *z),
            AttributeValue::M33f(m) => AttributeValue::M33f(*m),
            AttributeValue::M44f(m) => AttributeValue::M44f(*m),
            AttributeValue::Chromaticities(c) => AttributeValue::Chromaticities(*c),
            AttributeValue::TileDesc(t) => AttributeValue::TileDesc(*t),
            AttributeValue::StringVector(v) => AttributeValue::StringVector(v.clone()),
            AttributeValue::Other { type_label, data } => AttributeValue::Other {
                type_label: type_label.clone(),
                data: data.clone(),
            },
        };
        assert(r@ =~~= self@);
        r
    }
}

/// One entry of a header.
#[derive(Debug, PartialEq, Eq)]
pub struct Attribute {
    pub name: String,
    pub value: AttributeValue,
}

/// What an [`Attribute`] stands for.
#[verifier::ext_equal]
pub struct EntryView {
    pub name: Seq<char>,
    pub value: AttributeView,
}

impl View for Attribute {
    type V = EntryView;

    open spec fn view(&self) -> EntryView {
        EntryView { name: self.name@, value: self.value@ }
    }
}

impl Clone for Attribute {
    fn clone(&self) -> (r: Self)
        ensures
            r@ == self@,
    {
        Attribute { name: self.name.clone(), value: self.value.clone() }
    }
}

/// The entries that a list of [`Attribute`] stands for.
pub open spec fn entry_views(s: Seq<Attribute>) -> Seq<EntryView> {
    Seq::new(s.len(), |i: int| s[i]@)
}

/// `s` with `c` put behind the last channel whose name does not come after
/// the name of `c`.
pub open spec fn insert_by_name(s: Seq<ChannelView>, c: ChannelView) -> Seq<ChannelView>
    decreases s.len(),
{
    if s.len() == 0 || !name_lt(c.name, s.last().name) {
        s.push(c)
    } else {
        insert_by_name(s.drop_last(), c).push(s.last())
    }
}

/// The channels of `s` in the order of their names; channels of the same name
/// keep their order.
pub open spec fn sort_by_name(s: Seq<ChannelView>) -> Seq<ChannelView>
    decreases s.len(),
{
    if s.len() == 0 {
        s
    } else {
        insert_by_name(sort_by_name(s.drop_last()), s.last())
    }
}

/// Every name comes strictly before the next.
pub open spec fn names_ascend(s: Seq<ChannelView>) -> bool {
    forall|i: int, j: int|
        #![trigger s[i], s[j]]
        0 <= i && j == i + 1 && j < s.len() ==> name_lt(s[i].name, s[j].name)
}

/// No name comes before the one in front of it.
pub open spec fn names_ordered(s: Seq<ChannelView>) -> bool {
    forall|i: int, j: int|
        #![trigger s[i], s[j]]
        0 <= i && j == i + 1 && j < s.len() ==> !name_lt(s[j].name, s[i].name)
}

proof fn lemma_insert_at(s: Seq<ChannelView>, c: ChannelView, at: int)
    requires
        0 <= at <= s.len(),
        at == 0 || !name_lt(c.name, s[at - 1].name),
        forall|i: int| at <= i < s.len() ==> name_lt(c.name, (#[trigger] s[i]).name),
    ensures
        insert_by_name(s, c) == s.insert(at, c),
    decreases s.len(),
{
    if at == s.len() {
        assert(s.insert(at, c) =~= s.push(c));
    } else {
        lemma_insert_at(s.drop_last(), c, at);
        assert(s.drop_last().insert(at, c).push(s.last()) =~= s.insert(at, c));
    }
}

proof fn lemma_insert_keeps_order(s: Seq<ChannelView>, c: ChannelView)
    requires
        names_ordered(s),
    ensures
        names_ordered(insert_by_name(s, c)),
        insert_by_name(s, c).len() == s.len() + 1,
        insert_by_name(s, c).last() == c || (s.len() > 0 && insert_by_name(s, c).last() == s.last()),
    decreases s.len(),
{
    if s.len() == 0 || !name_lt(c.name, s.last().name) {
        let t = s.push(c);
        assert forall|i: int, j: int|
            #![trigger t[i], t[j]]
            0 <= i && j == i + 1 && j < t.len() implies !name_lt(t[j].name, t[i].name) by {
            assert(t[i] == s[i]);
            if j < s.len() {
                assert(s[j] == t[j]);
            }
        }
    } else {
        let r = s.drop_last();
        assert(names_ordered(r)) by {
            assert forall|i: int, j: int|
                #![trigger r[i], r[j]]
                0 <= i && j == i + 1 && j < r.len() implies !name_lt(r[j].name, r[i].name) by {
                assert(r[i] == s[i] && r[j] == s[j]);
            }
        }
        lemma_insert_keeps_order(r, c);
        let u = insert_by_name(r, c);
        let t = u.push(s.last());
        lemma_name_lt_asymmetric(c.name, s.last().name);
        assert forall|i: int, j: int|
            #![trigger t[i], t[j]]
            0 <= i && j == i + 1 && j < t.len() implies !name_lt(t[j].name, t[i].name) by {
            assert(t[i] == u[i]);
            if j < u.len() {
                assert(u[j] == t[j]);
            } else {
                assert(t[j] == s.last());
                if u.last() != c {
                    assert(u.last() == s[s.len() - 2]);
                    assert(s[s.len() - 1] == s.last());
                }
            }
        }
    }
}

proof fn lemma_insert_keeps_items(s: Seq<ChannelView>, c: ChannelView)
    ensures
        insert_by_name(s, c).to_multiset() == s.to_multiset().insert(c),
    decreases s.len(),
{
    broadcast use vstd::seq_lib::group_to_multiset_ensures;

    if s.len() > 0 && name_lt(c.name, s.last().name) {
        lemma_insert_keeps_items(s.drop_last(), c);
        assert(s =~= s.drop_last().push(s.last()));
        assert(insert_by_name(s, c).to_multiset() =~= s.to_multiset().insert(c));
    }
}

/// Sorting by name keeps every channel, and leaves no name before the one in
/// front of it.
pub proof fn law_sort_by_name(s: Seq<ChannelView>)
    ensures
        names_ordered(sort_by_name(s)),
        sort_by_name(s).len() == s.len(),
        sort_by_name(s).to_multiset() == s.to_multiset(),
    decreases s.len(),
{
    broadcast use vstd::seq_lib::group_to_multiset_ensures;

    if s.len() > 0 {
        law_sort_by_name(s.drop_last());
        lemma_insert_keeps_order(sort_by_name(s.drop_last()), s.last());
        lemma_insert_keeps_items(sort_by_name(s.drop_last()), s.last());
        assert(s =~= s.drop_last().push(s.last()));
    }
}

/// Sorting takes one channel after the other, and puts each behind those whose names are not
/// greater: channels of one name stay in their order.
pub proof fn law_sort_step(s: Seq<ChannelView>, c: ChannelView) -> (k: int)
    ensures
        0 <= k <= s.len(),
        sort_by_name(s.push(c)) == sort_by_name(s).insert(k, c),
        k > 0 ==> !name_lt(c.name, sort_by_name(s)[k - 1].name),
        forall|i: int| k <= i < s.len() ==> name_lt(c.name, (#[trigger] sort_by_name(s)[i]).name),
{
    law_sort_by_name(s);
    assert(s.push(c).drop_last() =~= s);
    lemma_insert_place(sort_by_name(s), c)
}

proof fn lemma_insert_place(s: Seq<ChannelView>, c: ChannelView) -> (k: int)
    ensures
        0 <= k <= s.len(),
        insert_by_name(s, c) == s.insert(k, c),
        k > 0 ==> !name_lt(c.name, s[k - 1].name),
        forall|i: int| k <= i < s.len() ==> name_lt(c.name, (#[trigger] s[i]).name),
    decreases s.len(),
{
    if s.len() == 0 || !name_lt(c.name, s.last().name) {
        assert(s.push(c) =~= s.insert(s.len() as int, c));
        s.len() as int
    } else {
        let r = s.drop_last();
        let k = lemma_insert_place(r, c);
        assert(r.insert(k, c).push(s.last()) =~= s.insert(k, c));
        assert forall|i: int| k <= i < s.len() implies name_lt(c.name, (#[trigger] s[i]).name) by {
            if i < r.len() {
                assert(r[i] == s[i]);
            }
        }
        k
    }
}

/// Channels whose names ascend are left as they are by sorting.
pub proof fn law_sort_of_ascending(s: Seq<ChannelView>)
    requires
        names_ascend(s),
    ensures
        sort_by_name(s) == s,
    decreases s.len(),
{
    if s.len() > 0 {
        let r = s.drop_last();
        assert(names_ascend(r)) by {
            assert forall|i: int, j: int|
                #![trigger r[i], r[j]]
                0 <= i && j == i + 1 && j < r.len() implies name_lt(r[i].name, r[j].name) by {
                assert(r[i] == s[i] && r[j] == s[j]);
            }
        }
        law_sort_of_ascending(r);
        if r.len() > 0 {
            assert(s[s.len() - 2] == r.last());
            assert(s[s.len() - 1] == s.last());
            lemma_name_lt_asymmetric(r.last().name, s.last().name);
        }
        assert(r.push(s.last()) =~= s);
    }
}

/// A copy of the channels, sorted by name.
pub fn sorted_by_name(channels: &[Channel]) -> (r: Vec<Channel>)
    ensures
        channel_views(r@) == sort_by_name(channel_views(channels@)),
{
    let mut r: Vec<Channel> = Vec::new();
    let mut i: usize = 0;
    assert(channel_views(channels@).take(0) =~= Seq::empty());
    assert(channel_views(r@) =~= Seq::empty());
    while i < channels.len()
        invariant
            i <= channels@.len(),
            channel_views(r@) == sort_by_name(channel_views(channels@).take(i as int)),
        decreases channels@.len() - i,
    {
        let c: Channel = channels[i].clone();
        let mut at: usize = r.len();
        while at > 0 && str_lt(c.name.as_str(), r[at - 1].name.as_str())
            invariant
                at <= r@.len(),
                forall|j: int| at <= j < r@.len() ==> name_lt(c@.name, (#[trigger] r@[j])@.name),
            ensures
                at <= r@.len(),
                forall|j: int| at <= j < r@.len() ==> name_lt(c@.name, (#[trigger] r@[j])@.name),
                at == 0 || !name_lt(c@.name, r@[at - 1]@.name),
            decreases at,
        {
            at = at - 1;
        }
        proof {
            let v = channel_views(r@);
            let all = channel_views(channels@);
            assert forall|j: int| at <= j < v.len() implies name_lt(c@.name, (#[trigger] v[j]).name) by {
                assert(v[j] == r@[j]@);
            }
            lemma_insert_at(v, c@, at as int);
            assert(channel_views(r@.insert(at as int, c)) =~= v.insert(at as int, c@));
            assert(all.take(i + 1).drop_last() =~= all.take(i as int));
            assert(all.take(i + 1).last() == c@);
        }
        r.insert(at, c);
        i = i + 1;
    }
    assert(channel_views(channels@).take(i as int) =~= channel_views(channels@));
    r
}

} // verus!
