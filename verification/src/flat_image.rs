//! Flat images: what a header says of one, and how the chunks of its pixels
//! are read.

use crate::attrs::{copy_channels, find_attribute, find_named};
use crate::b44::{b44_planes, decode_b44_chunk, LogTable};
use crate::bytes::copy_range;
use crate::deep::overwritten;
use crate::deep_block::plane_views;
use crate::deep_meta::F32_ONE;
use crate::error::{ExrError, Fault};
use crate::flat_block::{
    at_least_one, lemma_row_size, lemma_sampled_monotonic, lemma_sampled_step, line_size, lines_in,
    lines_size, read_lines, rows_in, size_of_lines, spacing, subsampled_dim, tall, wide,
};
use crate::pack::{decompress_buffer, unpacked, zlib_inflate, zlib_inflated};
use crate::types::{
    channel_views, entry_views, Attribute, AttributeValue, AttributeView, Box2i, Channel,
    ChannelView, Compression, EntryView, LineOrder,
};
use vstd::prelude::*;

verus! {

/// One channel of an image: its name, and its samples row by row, as binary32
/// bit patterns.
#[derive(Debug, PartialEq, Eq)]
pub struct ExrPlane {
    pub name: String,
    pub samples: Vec<u32>,
}

/// What an [`ExrPlane`] stands for.
#[verifier::ext_equal]
pub struct PlaneView {
    pub name: Seq<char>,
    pub samples: Seq<u32>,
}

impl View for ExrPlane {
    type V = PlaneView;

    open spec fn view(&self) -> PlaneView {
        PlaneView { name: self.name@, samples: self.samples@ }
    }
}

impl Clone for ExrPlane {
    fn clone(&self) -> (r: Self)
        ensures
            r@ == self@,
    {
        let r: ExrPlane = ExrPlane { name: self.name.clone(), samples: self.samples.clone() };
        assert(r@ =~= self@);
        r
    }
}

/// The planes that a list of [`ExrPlane`] stands for.
pub open spec fn named_views(v: Seq<ExrPlane>) -> Seq<PlaneView> {
    Seq::new(v.len(), |i: int| v[i]@)
}

/// Samples of channels under the names of the channels.
pub open spec fn named_planes(cs: Seq<ChannelView>, planes: Seq<Seq<u32>>) -> Seq<PlaneView> {
    Seq::new(cs.len(), |c: int| PlaneView { name: cs[c].name, samples: planes[c] })
}

/// Put samples under the names of their channels.
pub fn name_planes(channels: &[Channel], planes: Vec<Vec<u32>>) -> (r: Vec<ExrPlane>)
    requires
        planes@.len() == channels@.len(),
    ensures
        named_views(r@) == named_planes(channel_views(channels@), plane_views(planes@)),
{
    let ghost cs = channel_views(channels@);
    let ghost ps = plane_views(planes@);
    let mut left: Vec<Vec<u32>> = planes;
    let mut backwards: Vec<ExrPlane> = Vec::new();
    let n: usize = channels.len();
    let mut k: usize = n;
    while k > 0
        invariant
            k <= n,
            n == channels@.len(),
            cs == channel_views(channels@),
            ps.len() == n,
            left@.len() == k,
            forall|i: int| 0 <= i < k ==> (#[trigger] left@[i])@ == ps[i],
            backwards@.len() == n - k,
            forall|i: int|
                0 <= i < n - k ==> (#[trigger] backwards@[i])@ == (PlaneView {
                    name: cs[n - 1 - i].name,
                    samples: ps[n - 1 - i],
                }),
        decreases k,
    {
        k = k - 1;
        let ghost before = left@;
        match left.pop() {
            Some(samples) => {
                assert(samples == before[k as int]);
                assert(cs[k as int] == channels@[k as int]@);
                backwards.push(ExrPlane { name: channels[k].name.clone(), samples });
            },
            None => {
                assert(false);
            },
        }
    }
    let r: Vec<ExrPlane> = crate::header::reversed(backwards);
    assert(named_views(r@) =~= named_planes(cs, ps));
    r
}

// ----------------------------------------------------------------------
// The header of an image
// ----------------------------------------------------------------------
/// What a header says of an image.
pub struct RequiredAttrs {
    pub channels: Vec<Channel>,
    pub compression: Compression,
    pub data_window: Box2i,
    pub display_window: Box2i,
    pub line_order: LineOrder,
    /// Binary32 bit patterns.
    pub pixel_aspect_ratio: u32,
    pub screen_window_center: (u32, u32),
    pub screen_window_width: u32,
}

/// What a [`RequiredAttrs`] stands for.
#[verifier::ext_equal]
pub struct RequiredView {
    pub channels: Seq<ChannelView>,
    pub compression: Compression,
    pub data_window: Box2i,
    pub display_window: Box2i,
    pub line_order: LineOrder,
    pub pixel_aspect_ratio: u32,
    pub screen_window_center: (u32, u32),
    pub screen_window_width: u32,
}

impl View for RequiredAttrs {
    type V = RequiredView;

    open spec fn view(&self) -> RequiredView {
        RequiredView {
            channels: channel_views(self.channels@),
            compression: self.compression,
            data_window: self.data_window,
            display_window: self.display_window,
            line_order: self.line_order,
            pixel_aspect_ratio: self.pixel_aspect_ratio,
            screen_window_center: self.screen_window_center,
            screen_window_width: self.screen_window_width,
        }
    }
}

/// A number that may be missing, and is then one.
pub open spec fn float_or_one(v: Option<AttributeView>) -> u32 {
    match v {
        Some(AttributeView::Float(f)) => f,
        _ => F32_ONE,
    }
}

/// What a header says of an image. The first attribute of each name counts;
/// only the shape of the pixels and of the screen window may be missing.
pub open spec fn required_of(es: Seq<EntryView>) -> Option<RequiredView> {
    match (
        find_named(es, "channels"@),
        find_named(es, "compression"@),
        find_named(es, "dataWindow"@),
        find_named(es, "displayWindow"@),
        find_named(es, "lineOrder"@),
    ) {
        (
            Some(AttributeView::Channels(channels)),
            Some(AttributeView::Compression(compression)),
            Some(AttributeView::Box2i(data_window)),
            Some(AttributeView::Box2i(display_window)),
            Some(AttributeView::LineOrder(line_order)),
        ) => Some(
            RequiredView {
                channels,
                compression,
                data_window,
                display_window,
                line_order,
                pixel_aspect_ratio: float_or_one(find_named(es, "pixelAspectRatio"@)),
                screen_window_center: match find_named(es, "screenWindowCenter"@) {
                    Some(AttributeView::V2f(x, y)) => (x, y),
                    _ => (0, 0),
                },
                screen_window_width: float_or_one(find_named(es, "screenWindowWidth"@)),
            },
        ),
        _ => None,
    }
}

fn read_float_or_one(attrs: &[Attribute], name: &str) -> (r: u32)
    ensures
        r == float_or_one(find_named(entry_views(attrs@), name@)),
{
    match find_attribute(attrs, name) {
        Some(AttributeValue::Float(f)) => *f,
        _ => F32_ONE,
    }
}

/// Read what a header says of an image.
pub fn extract_required(attrs: &[Attribute]) -> (r: Result<RequiredAttrs, ExrError>)
    ensures
        r matches Ok(m) ==> required_of(entry_views(attrs@)) == Some(m@),
        r matches Err(e) ==> e.fault() == Fault::Invalid && required_of(entry_views(attrs@)) is None,
{
    let channels: Vec<Channel> = match find_attribute(attrs, "channels") {
        Some(AttributeValue::Channels(c)) => copy_channels(c.as_slice()),
        _ => {
            return Err(ExrError::invalid("missing required attribute 'channels'"));
        },
    };
    let compression: Compression = match find_attribute(attrs, "compression") {
        Some(AttributeValue::Compression(c)) => *c,
        _ => {
            return Err(ExrError::invalid("missing required attribute 'compression'"));
        },
    };
    let data_window: Box2i = match find_attribute(attrs, "dataWindow") {
        Some(AttributeValue::Box2i(b)) => *b,
        _ => {
            return Err(ExrError::invalid("missing required attribute 'dataWindow'"));
        },
    };
    let display_window: Box2i = match find_attribute(attrs, "displayWindow") {
        Some(AttributeValue::Box2i(b)) => *b,
        _ => {
            return Err(ExrError::invalid("missing required attribute 'displayWindow'"));
        },
    };
    let line_order: LineOrder = match find_attribute(attrs, "lineOrder") {
        Some(AttributeValue::LineOrder(l)) => *l,
        _ => {
            return Err(ExrError::invalid("missing required attribute 'lineOrder'"));
        },
    };
    let screen_window_center: (u32, u32) = match find_attribute(attrs, "screenWindowCenter") {
        Some(AttributeValue::V2f(x, y)) => (*x, *y),
        _ => (0, 0),
    };
    Ok(
        RequiredAttrs {
            channels,
            compression,
            data_window,
            display_window,
            line_order,
            pixel_aspect_ratio: read_float_or_one(attrs, "pixelAspectRatio"),
            screen_window_center,
            screen_window_width: read_float_or_one(attrs, "screenWindowWidth"),
        },
    )
}

// ----------------------------------------------------------------------
// The planes of an image
// ----------------------------------------------------------------------
/// The samples of every channel have a positive distance.
pub open spec fn is_spaced(cs: Seq<ChannelView>) -> bool {
    forall|i: int| 0 <= i < cs.len() ==> (#[trigger] cs[i]).x_sampling > 0 && cs[i].y_sampling > 0
}

pub fn all_spaced(channels: &[Channel]) -> (r: bool)
    ensures
        r == is_spaced(channel_views(channels@)),
{
    let ghost cs = channel_views(channels@);
    let mut i: usize = 0;
    while i < channels.len()
        invariant
            i <= channels@.len(),
            cs == channel_views(channels@),
            forall|j: int| 0 <= j < i ==> (#[trigger] cs[j]).x_sampling > 0 && cs[j].y_sampling > 0,
        decreases channels@.len() - i,
    {
        assert(cs[i as int] == channels@[i as int]@);
        if channels[i].x_sampling <= 0 || channels[i].y_sampling <= 0 {
            return false;
        }
        i = i + 1;
    }
    true
}

/// The number of samples of a channel in an image.
pub open spec fn plane_len(c: ChannelView, width: int, height: int) -> int {
    tall(c, height) * wide(c, width)
}

/// The samples of every channel can be held.
pub open spec fn is_holdable(cs: Seq<ChannelView>, width: int, height: int) -> bool {
    forall|i: int| 0 <= i < cs.len() ==> plane_len(#[trigger] cs[i], width, height) <= usize::MAX
}

/// Planes without content.
pub open spec fn blank_planes(cs: Seq<ChannelView>, width: int, height: int) -> Seq<Seq<u32>> {
    Seq::new(cs.len(), |c: int| Seq::new(plane_len(cs[c], width, height) as nat, |i: int| 0u32))
}

pub proof fn lemma_plane_len(c: ChannelView, width: int, height: int)
    requires
        0 <= width,
        0 <= height,
    ensures
        0 <= plane_len(c, width, height) <= height * width,
        0 <= tall(c, height) <= height,
        0 <= wide(c, width) <= width,
{
    lemma_sampled_step(height, spacing(c.y_sampling));
    lemma_sampled_step(width, spacing(c.x_sampling));
    let (a, b) = (tall(c, height), wide(c, width));
    assert(0 <= a * b <= height * width) by (nonlinear_arith)
        requires
            0 <= a <= height,
            0 <= b <= width,
    ;
}

/// Planes without content, where they can be held.
pub fn alloc_planes(channels: &[Channel], width: u32, height: u32) -> (r: Option<Vec<Vec<u32>>>)
    ensures
        r is Some <==> is_holdable(channel_views(channels@), width as int, height as int),
        r matches Some(v) ==> plane_views(v@) == blank_planes(
            channel_views(channels@),
            width as int,
            height as int,
        ),
{
    let ghost cs = channel_views(channels@);
    let mut planes: Vec<Vec<u32>> = Vec::new();
    let mut i: usize = 0;
    while i < channels.len()
        invariant
            i <= channels@.len(),
            cs == channel_views(channels@),
            planes@.len() == i,
            forall|j: int|
                0 <= j < i ==> plane_len(#[trigger] cs[j], width as int, height as int) <= usize::MAX,
            forall|j: int|
                0 <= j < i ==> (#[trigger] planes@[j])@ == blank_planes(
                    cs,
                    width as int,
                    height as int,
                )[j],
        decreases channels@.len() - i,
    {
        let c: &Channel = &channels[i];
        assert(cs[i as int] == c@);
        let pw: u32 = subsampled_dim(width, at_least_one(c.x_sampling));
        let ph: u32 = subsampled_dim(height, at_least_one(c.y_sampling));
        assert(0 <= ph * pw <= 0xffff_ffff * 0xffff_ffff) by (nonlinear_arith)
            requires
                0 <= ph <= 0xffff_ffff,
                0 <= pw <= 0xffff_ffff,
        ;
        let n: u64 = ph as u64 * pw as u64;
        assert(n == plane_len(cs[i as int], width as int, height as int));
        if n > usize::MAX as u64 {
            return None;
        }
        let plane: Vec<u32> = vec![0u32; n as usize];
        planes.push(plane);
        assert(planes@[i as int]@ =~= blank_planes(cs, width as int, height as int)[i as int]);
        i = i + 1;
    }
    assert(plane_views(planes@) =~= blank_planes(cs, width as int, height as int));
    Some(planes)
}

/// Write `part` over `v` from `at` on.
pub fn write_over(v: &mut Vec<u32>, at: usize, part: &[u32])
    requires
        at + part@.len() <= old(v)@.len(),
    ensures
        final(v)@ == overwritten(old(v)@, at as int, part@),
{
    let ghost before = v@;
    let mut i: usize = 0;
    assert(v.len() == v@.len());
    while i < part.len()
        invariant
            i <= part@.len(),
            v@.len() == before.len(),
            v@.len() <= usize::MAX,
            at + part@.len() <= v@.len(),
            v@ == overwritten(before, at as int, part@.take(i as int)),
        decreases part@.len() - i,
    {
        v.set(at + i, part[i]);
        i = i + 1;
        assert(v@ =~= overwritten(before, at as int, part@.take(i as int)));
    }
    assert(part@.take(part@.len() as int) =~= part@);
}

// ----------------------------------------------------------------------
// The chunks of an image
// ----------------------------------------------------------------------
/// The bytes of lines that the 24-bit coder stored: as they are where the
/// length is right, else deflated.
pub open spec fn short_unpacked(payload: Seq<u8>, size: int) -> Option<Seq<u8>> {
    if payload.len() == size {
        Some(payload)
    } else {
        match zlib_inflated(payload) {
            Some(v) => if v.len() == size {
                Some(v)
            } else {
                None
            },
            None => None,
        }
    }
}

/// The samples of a chunk of `n` lines from line `y0` on. Files with PIZ and DWA
/// chunks are refused; `decode_scanline_chunk` takes single ones.
pub open spec fn chunk_planes(
    payload: Seq<u8>,
    method: Compression,
    cs: Seq<ChannelView>,
    width: int,
    y0: int,
    n: int,
    log: Seq<u16>,
) -> Result<Seq<Seq<u32>>, Fault> {
    let size = lines_size(cs, width, y0, false, n);
    if size > u64::MAX {
        Err(Fault::Invalid)
    } else {
        match method {
            Compression::Piz | Compression::Dwaa | Compression::Dwab => Err(Fault::Unsupported),
            Compression::B44 | Compression::B44a => if payload.len() == size {
                Ok(lines_in(payload, cs, width, y0, false, n))
            } else {
                match b44_planes(payload, cs, width, y0, n, log, cs.len() as int) {
                    None => Err(Fault::Invalid),
                    Some((planes, end)) => Ok(planes),
                }
            },
            Compression::Pxr24 => match short_unpacked(
                payload,
                lines_size(cs, width, y0, true, n),
            ) {
                None => Err(Fault::Invalid),
                Some(data) => Ok(lines_in(data, cs, width, y0, true, n)),
            },
            _ => match unpacked(payload, size as nat, method) {
                None => Err(Fault::Invalid),
                Some(data) => Ok(lines_in(data, cs, width, y0, false, n)),
            },
        }
    }
}

/// The short form takes no more bytes than the plain one.
proof fn lemma_short_line(cs: Seq<ChannelView>, width: int, y: int, k: int)
    requires
        0 <= width,
        0 <= k <= cs.len(),
    ensures
        line_size(cs, width, y, true, k) <= line_size(cs, width, y, false, k),
    decreases k,
{
    if k > 0 {
        lemma_short_line(cs, width, y, k - 1);
        let c = cs[k - 1];
        lemma_row_size(c, width, y, true);
        let (n, a, b) = (
            wide(c, width),
            crate::flat_block::sample_size(c, true) as int,
            crate::flat_block::sample_size(c, false) as int,
        );
        assert(n * a <= n * b) by (nonlinear_arith)
            requires
                0 <= n,
                a <= b,
        ;
    }
}

proof fn lemma_short_lines(cs: Seq<ChannelView>, width: int, y0: int, n: int)
    requires
        0 <= width,
        0 <= n,
    ensures
        lines_size(cs, width, y0, true, n) <= lines_size(cs, width, y0, false, n),
    decreases n,
{
    if n > 0 {
        lemma_short_lines(cs, width, y0, n - 1);
        lemma_short_line(cs, width, y0 + n - 1, cs.len() as int);
    }
}

/// How many samples the rows of a channel hold.
pub proof fn lemma_rows_len(
    data: Seq<u8>,
    cs: Seq<ChannelView>,
    width: int,
    y0: int,
    short: bool,
    n: int,
    c: int,
)
    requires
        0 <= width,
        0 <= y0,
        0 <= n,
        0 <= c < cs.len(),
    ensures
        rows_in(data, cs, width, y0, short, n, c).len() == (tall(cs[c], y0 + n) - tall(cs[c], y0))
            * wide(cs[c], width),
    decreases n,
{
    let (s, w) = (spacing(cs[c].y_sampling), wide(cs[c], width));
    if n > 0 {
        let y = y0 + n - 1;
        lemma_rows_len(data, cs, width, y0, short, n - 1, c);
        lemma_sampled_step(y, s);
        lemma_row_size(cs[c], width, y, short);
        let (a, b) = (tall(cs[c], y0), tall(cs[c], y));
        assert((b + 1 - a) * w == (b - a) * w + w) by (nonlinear_arith);
    } else {
        assert(0 * w == 0);
    }
}

/// The planes of a chunk have the samples of its lines.
pub proof fn lemma_chunk_planes(
    payload: Seq<u8>,
    method: Compression,
    cs: Seq<ChannelView>,
    width: int,
    y0: int,
    n: int,
    log: Seq<u16>,
    c: int,
)
    requires
        0 <= width,
        0 <= y0,
        0 <= n,
        0 <= c < cs.len(),
    ensures
        chunk_planes(payload, method, cs, width, y0, n, log) matches Ok(planes) ==> {
            &&& planes.len() == cs.len()
            &&& planes[c].len() == (tall(cs[c], y0 + n) - tall(cs[c], y0)) * wide(cs[c], width)
        },
{
    lemma_sampled_monotonic(y0, y0 + n, spacing(cs[c].y_sampling));
    lemma_row_size(cs[c], width, y0, false);
    let (a, w) = (tall(cs[c], y0 + n) - tall(cs[c], y0), wide(cs[c], width));
    assert(0 <= a * w) by (nonlinear_arith)
        requires
            0 <= a,
            0 <= w,
    ;
    match method {
        Compression::Piz | Compression::Dwaa | Compression::Dwab => {},
        Compression::B44 | Compression::B44a => {
            lemma_rows_len(payload, cs, width, y0, false, n, c);
            lemma_b44_len(payload, cs, width, y0, n, log, cs.len() as int, c);
        },
        Compression::Pxr24 => {
            match short_unpacked(payload, lines_size(cs, width, y0, true, n)) {
                Some(data) => {
                    lemma_rows_len(data, cs, width, y0, true, n, c);
                },
                None => {},
            }
        },
        _ => {
            match unpacked(payload, lines_size(cs, width, y0, false, n) as nat, method) {
                Some(data) => {
                    lemma_rows_len(data, cs, width, y0, false, n, c);
                },
                None => {},
            }
        },
    }
}

proof fn lemma_b44_len(
    s: Seq<u8>,
    cs: Seq<ChannelView>,
    width: int,
    y0: int,
    n: int,
    log: Seq<u16>,
    k: int,
    c: int,
)
    requires
        0 <= width,
        0 <= y0,
        0 <= n,
        0 <= k <= cs.len(),
        0 <= c < cs.len(),
        (tall(cs[c], y0 + n) - tall(cs[c], y0)) * wide(cs[c], width) >= 0,
    ensures
        b44_planes(s, cs, width, y0, n, log, k) matches Some((planes, end)) ==> {
            &&& planes.len() == k
            &&& c < k ==> planes[c].len() == (tall(cs[c], y0 + n) - tall(cs[c], y0)) * wide(
                cs[c],
                width,
            )
        },
    decreases k,
{
    if k > 0 {
        lemma_b44_len(s, cs, width, y0, n, log, k - 1, c);
    }
}

/// Read the samples of a chunk of `n` lines from line `y0` on.
pub fn read_chunk(
    payload: &[u8],
    method: Compression,
    channels: &[Channel],
    width: u32,
    y0: u32,
    n: u32,
    log: &LogTable,
) -> (r: Result<Vec<Vec<u32>>, ExrError>)
    requires
        y0 + n <= u32::MAX,
        log.inv(),
    ensures
        r matches Ok(v) ==> chunk_planes(
            payload@,
            method,
            channel_views(channels@),
            width as int,
            y0 as int,
            n as int,
            log@,
        ) == Ok::<Seq<Seq<u32>>, Fault>(plane_views(v@)),
        r matches Err(e) ==> chunk_planes(
            payload@,
            method,
            channel_views(channels@),
            width as int,
            y0 as int,
            n as int,
            log@,
        ) == Err::<Seq<Seq<u32>>, Fault>(e.fault()),
{
    let size: u64 = match size_of_lines(channels, width, y0, false, n) {
        Some(v) => v,
        None => {
            return Err(ExrError::invalid("chunk size overflows"));
        },
    };
    match method {
        Compression::Piz | Compression::Dwaa | Compression::Dwab => Err(
            ExrError::unsupported("compression not yet implemented"),
        ),
        Compression::B44 | Compression::B44a => {
            if payload.len() as u64 == size {
                return Ok(read_lines(channels, payload, width, y0, false, n));
            }
            decode_b44_chunk(payload, channels, width, y0, n, log)
        },
        Compression::Pxr24 => {
            match decode_pxr24_payload(payload, channels, width, y0, n) {
                Ok(data) => Ok(read_lines(channels, data.as_slice(), width, y0, true, n)),
                Err(e) => Err(e),
            }
        },
        _ => match decompress_buffer(payload, size, method) {
            Ok(data) => {
                proof {
                    lemma_unpacked_len(payload@, size as nat, method);
                }
                Ok(read_lines(channels, data.as_slice(), width, y0, false, n))
            },
            Err(e) => Err(e),
        },
    }
}

proof fn lemma_unpacked_len(payload: Seq<u8>, size: nat, method: Compression)
    ensures
        unpacked(payload, size, method) matches Some(d) ==> d.len() == size,
{
    if payload.len() != size {
        if method == Compression::Zips || method == Compression::Zip {
            lemma_unpacked_with_len(zlib_inflated(payload), size);
        } else if method == Compression::Rle {
            lemma_unpacked_with_len(crate::rle::rle_unpacked(payload), size);
        }
    }
}

proof fn lemma_unpacked_with_len(decoded: Option<Seq<u8>>, size: nat)
    ensures
        crate::pack::unpacked_with(decoded, size) matches Some(d) ==> d.len() == size,
{
}

/// Read the bytes of a chunk that the 24-bit coder stored.
fn decode_pxr24_payload(payload: &[u8], channels: &[Channel], width: u32, y0: u32, n: u32) -> (r: Result<
    Vec<u8>,
    ExrError,
>)
    requires
        y0 + n <= u32::MAX,
        lines_size(channel_views(channels@), width as int, y0 as int, false, n as int) <= u64::MAX,
    ensures
        r matches Ok(v) ==> short_unpacked(
            payload@,
            lines_size(channel_views(channels@), width as int, y0 as int, true, n as int),
        ) == Some(v@),
        r matches Err(e) ==> e.fault() == Fault::Invalid && short_unpacked(
            payload@,
            lines_size(channel_views(channels@), width as int, y0 as int, true, n as int),
        ) is None,
{
    proof {
        lemma_short_lines(channel_views(channels@), width as int, y0 as int, n as int);
    }
    let size: u64 = match size_of_lines(channels, width, y0, true, n) {
        Some(v) => v,
        None => {
            assert(false);
            0
        },
    };
    if payload.len() as u64 == size {
        let v: Vec<u8> = copy_range(payload, 0, payload.len());
        assert(v@ =~= payload@);
        return Ok(v);
    }
    match zlib_inflate(payload, size) {
        Ok(v) => {
            if v.len() as u64 != size {
                return Err(ExrError::invalid("PXR24 inflate produced an unexpected length"));
            }
            Ok(v)
        },
        Err(e) => Err(e),
    }
}

/// Planes with the samples of a chunk that begins at line `y0` written over
/// theirs.
pub open spec fn with_chunk(
    planes: Seq<Seq<u32>>,
    cs: Seq<ChannelView>,
    width: int,
    y0: int,
    chunk: Seq<Seq<u32>>,
) -> Seq<Seq<u32>> {
    Seq::new(
        planes.len(),
        |c: int| overwritten(planes[c], tall(cs[c], y0) * wide(cs[c], width), chunk[c]),
    )
}

/// The planes have the samples of an image.
pub open spec fn planes_sized(planes: Seq<Seq<u32>>, cs: Seq<ChannelView>, width: int, height: int) -> bool {
    &&& planes.len() == cs.len()
    &&& forall|c: int|
        0 <= c < cs.len() ==> (#[trigger] planes[c]).len() == plane_len(cs[c], width, height)
}

/// Write the samples of a chunk of `n` lines over those of an image.
pub fn place_chunk(
    planes: &mut Vec<Vec<u32>>,
    channels: &[Channel],
    width: u32,
    height: u32,
    y0: u32,
    n: u32,
    chunk: &Vec<Vec<u32>>,
)
    requires
        planes_sized(
            plane_views(old(planes)@),
            channel_views(channels@),
            width as int,
            height as int,
        ),
        y0 + n <= height,
        chunk@.len() == channels@.len(),
        forall|c: int|
            0 <= c < channels@.len() ==> (#[trigger] chunk@[c])@.len() == (tall(
                channels@[c]@,
                y0 + n,
            ) - tall(channels@[c]@, y0 as int)) * wide(channels@[c]@, width as int),
    ensures
        plane_views(final(planes)@) == with_chunk(
            plane_views(old(planes)@),
            channel_views(channels@),
            width as int,
            y0 as int,
            plane_views(chunk@),
        ),
        planes_sized(
            plane_views(final(planes)@),
            channel_views(channels@),
            width as int,
            height as int,
        ),
{
    let ghost cs = channel_views(channels@);
    let ghost before = planes@;
    let ghost want = with_chunk(
        plane_views(before),
        cs,
        width as int,
        y0 as int,
        plane_views(chunk@),
    );
    let mut k: usize = 0;
    assert(plane_views(before).len() == before.len());
    while k < channels.len()
        invariant
            k <= channels@.len(),
            cs == channel_views(channels@),
            before.len() == cs.len(),
            planes@.len() == cs.len(),
            chunk@.len() == cs.len(),
            planes_sized(plane_views(before), cs, width as int, height as int),
            y0 + n <= height,
            forall|c: int|
                0 <= c < channels@.len() ==> (#[trigger] chunk@[c])@.len() == (tall(
                    channels@[c]@,
                    y0 + n,
                ) - tall(channels@[c]@, y0 as int)) * wide(channels@[c]@, width as int),
            want == with_chunk(
                plane_views(before),
                cs,
                width as int,
                y0 as int,
                plane_views(chunk@),
            ),
            forall|c: int| 0 <= c < k ==> (#[trigger] planes@[c])@ == want[c],
            forall|c: int| k <= c < cs.len() ==> planes@[c] == before[c],
        decreases channels@.len() - k,
    {
        let c: &Channel = &channels[k];
        let step: u32 = at_least_one(c.y_sampling);
        let pw: u32 = subsampled_dim(width, at_least_one(c.x_sampling));
        let row: u32 = subsampled_dim(y0, step);
        proof {
            assert(cs[k as int] == c@);
            assert(plane_views(before)[k as int] == before[k as int]@);
            assert(plane_views(chunk@)[k as int] == chunk@[k as int]@);
            lemma_sampled_monotonic(y0 as int, y0 + n, step as int);
            lemma_sampled_monotonic(y0 + n, height as int, step as int);
            let (a, b, h, w) = (
                tall(c@, y0 as int),
                tall(c@, y0 + n),
                tall(c@, height as int),
                wide(c@, width as int),
            );
            assert(0 <= a * w && a * w + (b - a) * w <= h * w) by (nonlinear_arith)
                requires
                    0 <= a <= b <= h,
                    0 <= w,
            ;
        }
        assert(planes[k as int].len() == planes@[k as int]@.len());
        let at: usize = row as usize * pw as usize;
        let plane: &mut Vec<u32> = &mut planes[k];
        write_over(plane, at, chunk[k].as_slice());
        k = k + 1;
    }
    assert(plane_views(planes@) =~= want);
}

} // verus!
