//! Flat images with several levels, stored in tiles.

use crate::b44::LogTable;
use crate::bytes::{read_u64, slice_range, u64_at};
use crate::deep_block::plane_views;
use crate::deep_meta::{all_full, is_full};
use crate::error::{ExrError, Fault};
use crate::flat::{lemma_blank_sized, read_tile_desc, tile_desc_in};
use crate::flat_image::{
    alloc_planes, blank_planes, extract_required, is_holdable, name_planes, named_planes,
    named_views, plane_len, planes_sized, required_of, ExrPlane, PlaneView, RequiredAttrs,
    RequiredView,
};
use crate::flat_tiles::{
    apply_tile, compute_total_tiles, level_grid, level_tiles, levels_fit, levels_of, list_levels,
    read_tile_head, tile_applied, tile_head_at, LevelShape, TileHead,
};
use crate::grid::Grid;
use crate::header::{header_of, parse_header, ParsedHeader};
use crate::types::{
    channel_views, entry_views, sort_by_name, sorted_by_name, Box2i, Channel, ChannelView,
    Compression, EntryView, TileDesc,
};
use vstd::prelude::*;

verus! {

/// One level of an image.
#[derive(Debug, Clone, PartialEq, Eq)]
pub struct TiledLevel {
    pub level_x: u32,
    pub level_y: u32,
    pub width: u32,
    pub height: u32,
    /// One plane for each channel, in the order of the channel names.
    pub planes: Vec<ExrPlane>,
}

/// What a [`TiledLevel`] stands for.
#[verifier::ext_equal]
pub struct LevelView {
    pub shape: LevelShape,
    pub planes: Seq<PlaneView>,
}

impl View for TiledLevel {
    type V = LevelView;

    open spec fn view(&self) -> LevelView {
        LevelView {
            shape: LevelShape {
                level_x: self.level_x,
                level_y: self.level_y,
                width: self.width,
                height: self.height,
            },
            planes: named_views(self.planes@),
        }
    }
}

pub open spec fn level_views(v: Seq<TiledLevel>) -> Seq<LevelView> {
    Seq::new(v.len(), |i: int| v[i]@)
}

/// The compressions that tiles of several levels may have.
pub open spec fn is_tile_method(c: Compression) -> bool {
    !(c == Compression::Piz || c == Compression::Dwaa || c == Compression::Dwab)
}

pub fn tile_method(c: Compression) -> (r: bool)
    ensures
        r == is_tile_method(c),
{
    !(c == Compression::Piz || c == Compression::Dwaa || c == Compression::Dwab)
}

/// How the levels of an image are stored.
#[verifier::ext_equal]
pub struct FrameView {
    pub channels: Seq<ChannelView>,
    pub compression: Compression,
    pub tile_x: u32,
    pub tile_y: u32,
    pub levels: Seq<LevelShape>,
}

/// A frame whose levels and tiles are not empty, and whose channels have a
/// sample at every pixel.
pub open spec fn frame_valid(f: FrameView) -> bool {
    &&& is_full(f.channels)
    &&& f.tile_x > 0
    &&& f.tile_y > 0
    &&& levels_fit(f.levels, u32::MAX as int, u32::MAX as int)
}

/// How the levels of an image are stored.
pub struct Frame {
    pub channels: Vec<Channel>,
    pub compression: Compression,
    pub tile_x: u32,
    pub tile_y: u32,
    pub levels: Vec<LevelShape>,
}

impl View for Frame {
    type V = FrameView;

    open spec fn view(&self) -> FrameView {
        FrameView {
            channels: channel_views(self.channels@),
            compression: self.compression,
            tile_x: self.tile_x,
            tile_y: self.tile_y,
            levels: self.levels@,
        }
    }
}

/// The first level from `i` on that stands at the given place.
pub open spec fn level_index(levels: Seq<LevelShape>, lx: int, ly: int, i: int) -> Option<int>
    decreases levels.len() - i,
{
    if i >= levels.len() {
        None
    } else if levels[i].level_x == lx && levels[i].level_y == ly {
        Some(i)
    } else {
        level_index(levels, lx, ly, i + 1)
    }
}

fn find_level(levels: &[LevelShape], lx: i32, ly: i32) -> (r: Option<usize>)
    ensures
        r is None <==> level_index(levels@, lx as int, ly as int, 0) is None,
        r matches Some(i) ==> i < levels@.len() && level_index(levels@, lx as int, ly as int, 0)
            == Some(i as int),
{
    let mut i: usize = 0;
    while i < levels.len()
        invariant
            i <= levels@.len(),
            level_index(levels@, lx as int, ly as int, 0) == level_index(
                levels@,
                lx as int,
                ly as int,
                i as int,
            ),
        decreases levels@.len() - i,
    {
        if lx >= 0 && ly >= 0 && levels[i].level_x == lx as u32 && levels[i].level_y == ly as u32 {
            return Some(i);
        }
        i = i + 1;
    }
    None
}

/// The samples of all levels after a stored tile is read.
pub open spec fn level_applied(
    planes: Seq<Seq<Seq<u32>>>,
    f: FrameView,
    tx: int,
    ty: int,
    lx: int,
    ly: int,
    payload: Seq<u8>,
    log: Seq<u16>,
) -> Result<Seq<Seq<Seq<u32>>>, Fault> {
    match level_index(f.levels, lx, ly, 0) {
        None => Err(Fault::Invalid),
        Some(i) => match tile_applied(
            planes[i],
            f.channels,
            level_grid(f.levels[i], f.tile_x, f.tile_y),
            tx,
            ty,
            payload,
            f.compression,
            log,
        ) {
            Err(e) => Err(e),
            Ok(p) => Ok(planes.update(i, p)),
        },
    }
}

/// The samples of levels that are being read.
pub open spec fn stack_views(v: Seq<Vec<Vec<u32>>>) -> Seq<Seq<Seq<u32>>> {
    Seq::new(v.len(), |i: int| plane_views(v[i]@))
}

/// The planes have the samples of the levels.
pub open spec fn levels_sized(planes: Seq<Seq<Seq<u32>>>, f: FrameView) -> bool {
    &&& planes.len() == f.levels.len()
    &&& forall|i: int|
        0 <= i < planes.len() ==> planes_sized(
            #[trigger] planes[i],
            f.channels,
            f.levels[i].width as int,
            f.levels[i].height as int,
        )
}

/// Levels without content.
pub open spec fn blank_levels(f: FrameView) -> Seq<Seq<Seq<u32>>> {
    Seq::new(
        f.levels.len(),
        |i: int| blank_planes(f.channels, f.levels[i].width as int, f.levels[i].height as int),
    )
}

/// Read a stored tile into the level that it belongs to.
pub fn apply_level(
    stack: &mut Vec<Vec<Vec<u32>>>,
    f: &Frame,
    head: &TileHead,
    payload: &[u8],
    log: &LogTable,
) -> (r: Result<(), ExrError>)
    requires
        log.inv(),
        frame_valid(f@),
        levels_sized(stack_views(old(stack)@), f@),
    ensures
        r is Ok ==> level_applied(
            stack_views(old(stack)@),
            f@,
            head.tx as int,
            head.ty as int,
            head.level_x as int,
            head.level_y as int,
            payload@,
            log@,
        ) == Ok::<Seq<Seq<Seq<u32>>>, Fault>(stack_views(final(stack)@)) && levels_sized(
            stack_views(final(stack)@),
            f@,
        ),
        r matches Err(e) ==> level_applied(
            stack_views(old(stack)@),
            f@,
            head.tx as int,
            head.ty as int,
            head.level_x as int,
            head.level_y as int,
            payload@,
            log@,
        ) == Err::<Seq<Seq<Seq<u32>>>, Fault>(e.fault()),
{
    let ghost before = stack@;
    let i: usize = match find_level(f.levels.as_slice(), head.level_x, head.level_y) {
        Some(i) => i,
        None => {
            return Err(ExrError::invalid("tile carries unknown level"));
        },
    };
    let shape: LevelShape = f.levels[i];
    assert(f@.levels[i as int].width > 0);
    let g: Grid = Grid {
        width: shape.width,
        height: shape.height,
        tile_x: f.tile_x,
        tile_y: f.tile_y,
    };
    assert(stack_views(before)[i as int] == plane_views(before[i as int]@));
    assert(stack_views(before).len() == before.len());
    let planes: &mut Vec<Vec<u32>> = &mut stack[i];
    match apply_tile(
        planes,
        f.channels.as_slice(),
        g,
        head.tx,
        head.ty,
        payload,
        f.compression,
        log,
    ) {
        Ok(_) => {},
        Err(e) => {
            return Err(e);
        },
    }
    proof {
        let after = stack_views(stack@);
        assert(after =~= stack_views(before).update(i as int, plane_views(stack@[i as int]@)));
        assert forall|j: int| 0 <= j < after.len() implies planes_sized(
            #[trigger] after[j],
            f@.channels,
            f@.levels[j].width as int,
            f@.levels[j].height as int,
        ) by {
            if j != i {
                assert(after[j] == stack_views(before)[j]);
            }
        }
    }
    Ok(())
}

/// Smaller levels can be held where the full one can.
proof fn lemma_level_holdable(cs: Seq<ChannelView>, width: int, height: int, w: int, h: int)
    requires
        is_full(cs),
        is_holdable(cs, width, height),
        0 <= w <= width,
        0 <= h <= height,
    ensures
        is_holdable(cs, w, h),
{
    assert forall|c: int| 0 <= c < cs.len() implies plane_len(#[trigger] cs[c], w, h) <= usize::MAX by {
        assert(plane_len(cs[c], width, height) <= usize::MAX);
        assert(cs[c].x_sampling == 1 && cs[c].y_sampling == 1);
        assert(h * w <= height * width) by (nonlinear_arith)
            requires
                0 <= w <= width,
                0 <= h <= height,
        ;
    }
}

/// Levels without content.
pub fn blank_stack(f: &Frame, width: u32, height: u32) -> (r: Vec<Vec<Vec<u32>>>)
    requires
        frame_valid(f@),
        levels_fit(f@.levels, width as int, height as int),
        is_holdable(f@.channels, width as int, height as int),
    ensures
        stack_views(r@) == blank_levels(f@),
        levels_sized(stack_views(r@), f@),
{
    let ghost cs = f@.channels;
    let mut r: Vec<Vec<Vec<u32>>> = Vec::new();
    let mut i: usize = 0;
    while i < f.levels.len()
        invariant
            i <= f.levels@.len(),
            cs == f@.channels,
            frame_valid(f@),
            levels_fit(f@.levels, width as int, height as int),
            is_holdable(cs, width as int, height as int),
            r@.len() == i,
            forall|j: int|
                0 <= j < i ==> plane_views((#[trigger] r@[j])@) == blank_planes(
                    cs,
                    f@.levels[j].width as int,
                    f@.levels[j].height as int,
                ),
        decreases f.levels@.len() - i,
    {
        let shape: LevelShape = f.levels[i];
        proof {
            assert(f@.levels[i as int].width <= width);
            lemma_level_holdable(
                cs,
                width as int,
                height as int,
                shape.width as int,
                shape.height as int,
            );
        }
        match alloc_planes(f.channels.as_slice(), shape.width, shape.height) {
            Some(planes) => {
                r.push(planes);
            },
            None => {
                assert(false);
            },
        }
        i = i + 1;
    }
    proof {
        let v = stack_views(r@);
        assert(v =~= blank_levels(f@));
        assert forall|j: int| 0 <= j < v.len() implies planes_sized(
            #[trigger] v[j],
            cs,
            f@.levels[j].width as int,
            f@.levels[j].height as int,
        ) by {
            lemma_blank_sized(cs, f@.levels[j].width as int, f@.levels[j].height as int);
        }
    }
    r
}

/// The levels with their samples.
pub open spec fn levels_with(f: FrameView, planes: Seq<Seq<Seq<u32>>>) -> Seq<LevelView> {
    Seq::new(
        f.levels.len(),
        |i: int| LevelView { shape: f.levels[i], planes: named_planes(f.channels, planes[i]) },
    )
}

/// Put levels and their samples together.
pub fn make_levels(f: &Frame, stack: Vec<Vec<Vec<u32>>>) -> (r: Vec<TiledLevel>)
    requires
        levels_sized(stack_views(stack@), f@),
    ensures
        level_views(r@) == levels_with(f@, stack_views(stack@)),
{
    let ghost planes = stack_views(stack@);
    let mut left: Vec<Vec<Vec<u32>>> = stack;
    let mut backwards: Vec<TiledLevel> = Vec::new();
    let n: usize = f.levels.len();
    let mut k: usize = n;
    assert(planes.len() == left@.len());
    assert forall|i: int| 0 <= i < n implies plane_views((#[trigger] left@[i])@) == planes[i] by {}
    while k > 0
        invariant
            k <= n,
            n == f.levels@.len(),
            left@.len() == k,
            planes.len() == n,
            levels_sized(planes, f@),
            forall|i: int| 0 <= i < k ==> plane_views((#[trigger] left@[i])@) == planes[i],
            backwards@.len() == n - k,
            forall|i: int|
                0 <= i < n - k ==> (#[trigger] backwards@[i])@ == levels_with(f@, planes)[n - 1
                    - i],
        decreases k,
    {
        k = k - 1;
        let ghost before = left@;
        match left.pop() {
            Some(p) => {
                proof {
                    assert(p == before[k as int]);
                    assert(plane_views(p@) == planes[k as int]);
                    assert(planes_sized(
                        planes[k as int],
                        f@.channels,
                        f@.levels[k as int].width as int,
                        f@.levels[k as int].height as int,
                    ));
                    assert(plane_views(p@).len() == p@.len());
                }
                let shape: LevelShape = f.levels[k];
                let named: Vec<ExrPlane> = name_planes(f.channels.as_slice(), p);
                let level: TiledLevel = TiledLevel {
                    level_x: shape.level_x,
                    level_y: shape.level_y,
                    width: shape.width,
                    height: shape.height,
                    planes: named,
                };
                assert(level@ =~= levels_with(f@, planes)[k as int]);
                backwards.push(level);
            },
            None => {
                assert(false);
            },
        }
    }
    let r: Vec<TiledLevel> = crate::header::reversed(backwards);
    assert(level_views(r@) =~= levels_with(f@, planes));
    r
}

// ----------------------------------------------------------------------
// Files with one part
// ----------------------------------------------------------------------
/// An image with all its levels.
#[derive(Debug, Clone, PartialEq, Eq)]
pub struct MultilevelTiledImage {
    pub level_mode: u8,
    pub round_mode: u8,
    pub tile_x: u32,
    pub tile_y: u32,
    pub data_window: Box2i,
    pub display_window: Box2i,
    pub channels: Vec<Channel>,
    pub compression: Compression,
    pub levels: Vec<TiledLevel>,
}

/// What a [`MultilevelTiledImage`] stands for.
#[verifier::ext_equal]
pub struct MultilevelView {
    pub tiles: TileDesc,
    pub data_window: Box2i,
    pub display_window: Box2i,
    pub channels: Seq<ChannelView>,
    pub compression: Compression,
    pub levels: Seq<LevelView>,
}

impl View for MultilevelTiledImage {
    type V = MultilevelView;

    open spec fn view(&self) -> MultilevelView {
        MultilevelView {
            tiles: TileDesc {
                x_size: self.tile_x,
                y_size: self.tile_y,
                level_mode: self.level_mode,
                round_mode: self.round_mode,
            },
            data_window: self.data_window,
            display_window: self.display_window,
            channels: channel_views(self.channels@),
            compression: self.compression,
            levels: level_views(self.levels@),
        }
    }
}

/// The image with the given header and samples.
pub open spec fn multilevel_with(m: RequiredView, t: TileDesc, f: FrameView, planes: Seq<Seq<Seq<u32>>>) -> MultilevelView {
    MultilevelView {
        tiles: t,
        data_window: m.data_window,
        display_window: m.display_window,
        channels: f.channels,
        compression: m.compression,
        levels: levels_with(f, planes),
    }
}

/// How the levels of an image are stored.
pub open spec fn frame_of(m: RequiredView, t: TileDesc) -> FrameView {
    FrameView {
        channels: sort_by_name(m.channels),
        compression: m.compression,
        tile_x: t.x_size,
        tile_y: t.y_size,
        levels: levels_of(
            t.level_mode,
            m.data_window.columns() as int,
            m.data_window.rows() as int,
            t.round_mode != 0,
        ),
    }
}

/// What the header of an image with several levels says.
pub open spec fn multilevel_meta_of(es: Seq<EntryView>) -> Result<(RequiredView, TileDesc), Fault> {
    match required_of(es) {
        None => Err(Fault::Invalid),
        Some(m) => if !is_full(sort_by_name(m.channels)) || !is_tile_method(m.compression) {
            Err(Fault::Unsupported)
        } else {
            match tile_desc_in(es) {
                None => Err(Fault::Invalid),
                Some(t) => if m.data_window.columns() == 0 || m.data_window.rows() == 0 {
                    Err(Fault::Invalid)
                } else {
                    Ok((m, t))
                },
            }
        },
    }
}

/// The samples of all levels after the first `k` tiles of the offset table at
/// `base`.
pub open spec fn levels_after(s: Seq<u8>, base: int, f: FrameView, log: Seq<u16>, k: int) -> Result<
    Seq<Seq<Seq<u32>>>,
    Fault,
>
    decreases k,
{
    if k <= 0 {
        Ok(blank_levels(f))
    } else {
        match levels_after(s, base, f, log, k - 1) {
            Err(e) => Err(e),
            Ok(planes) => match tile_head_at(s, u64_at(s, base + 8 * (k - 1)) as int) {
                None => Err(Fault::Invalid),
                Some((tx, ty, lx, ly, a, b)) => level_applied(
                    planes,
                    f,
                    tx as int,
                    ty as int,
                    lx as int,
                    ly as int,
                    s.subrange(a, b),
                    log,
                ),
            },
        }
    }
}

proof fn lemma_levels_stop(s: Seq<u8>, base: int, f: FrameView, log: Seq<u16>, a: int, b: int)
    requires
        a <= b,
        levels_after(s, base, f, log, a) is Err,
    ensures
        levels_after(s, base, f, log, b) == levels_after(s, base, f, log, a),
    decreases b - a,
{
    if a < b {
        lemma_levels_stop(s, base, f, log, a, b - 1);
    }
}

/// The image with all its levels in a file with one part.
pub open spec fn multilevel_of(s: Seq<u8>, log: Seq<u16>) -> Result<MultilevelView, Fault> {
    match header_of(s) {
        Err(e) => Err(e),
        Ok(h) => if !h.version.single_tile {
            Err(Fault::Invalid)
        } else {
            match multilevel_meta_of(h.entries) {
                Err(e) => Err(e),
                Ok((m, t)) => {
                    let f = frame_of(m, t);
                    let n = level_tiles(f.levels, t.x_size, t.y_size, f.levels.len() as int);
                    if h.end + 8 * n > s.len() || !is_holdable(
                        f.channels,
                        m.data_window.columns() as int,
                        m.data_window.rows() as int,
                    ) {
                        Err(Fault::Invalid)
                    } else {
                        match levels_after(s, h.end, f, log, n) {
                            Err(e) => Err(e),
                            Ok(planes) => Ok(multilevel_with(m, t, f, planes)),
                        }
                    }
                },
            }
        },
    }
}

/// Read what the header of an image with several levels says.
fn read_multilevel_meta(header: &ParsedHeader) -> (r: Result<(RequiredAttrs, TileDesc), ExrError>)
    ensures
        r matches Ok((m, t)) ==> multilevel_meta_of(entry_views(header.attributes@)) == Ok::<
            (RequiredView, TileDesc),
            Fault,
        >((m@, t)),
        r matches Err(e) ==> multilevel_meta_of(entry_views(header.attributes@)) == Err::<
            (RequiredView, TileDesc),
            Fault,
        >(e.fault()),
{
    let m: RequiredAttrs = match extract_required(header.attributes.as_slice()) {
        Ok(m) => m,
        Err(e) => {
            return Err(e);
        },
    };
    let channels: Vec<Channel> = sorted_by_name(m.channels.as_slice());
    if !all_full(channels.as_slice()) {
        return Err(ExrError::unsupported("tiled files require 1x1 sampling"));
    }
    if !tile_method(m.compression) {
        return Err(ExrError::unsupported("tiled multilevel: compression not yet implemented"));
    }
    let t: TileDesc = match read_tile_desc(header.attributes.as_slice()) {
        Ok(t) => t,
        Err(e) => {
            return Err(e);
        },
    };
    if m.data_window.width() == 0 || m.data_window.height() == 0 {
        return Err(ExrError::invalid("tiled multilevel: dataWindow must be > 0"));
    }
    Ok((m, t))
}

/// How the levels of an image are stored.
pub fn make_frame(m: &RequiredAttrs, t: TileDesc) -> (f: Frame)
    requires
        is_full(sort_by_name(m@.channels)),
        t.level_mode <= 2,
        t.x_size > 0,
        t.y_size > 0,
        m.data_window.columns() > 0,
        m.data_window.rows() > 0,
    ensures
        f@ == frame_of(m@, t),
        frame_valid(f@),
        levels_fit(
            f@.levels,
            m.data_window.columns() as int,
            m.data_window.rows() as int,
        ),
        f@.levels.len() <= 33 * 33,
{
    let f: Frame = Frame {
        channels: sorted_by_name(m.channels.as_slice()),
        compression: m.compression,
        tile_x: t.x_size,
        tile_y: t.y_size,
        levels: list_levels(
            t.level_mode,
            m.data_window.width(),
            m.data_window.height(),
            t.round_mode != 0,
        ),
    };
    assert(levels_fit(f@.levels, u32::MAX as int, u32::MAX as int)) by {
        assert forall|i: int| 0 <= i < f@.levels.len() implies 0 < (#[trigger] f@.levels[i]).width
            <= u32::MAX && 0 < f@.levels[i].height <= u32::MAX by {}
    }
    f
}

/// All samples can be held.
pub fn can_hold(channels: &[Channel], width: u32, height: u32) -> (r: bool)
    ensures
        r == is_holdable(channel_views(channels@), width as int, height as int),
{
    let ghost cs = channel_views(channels@);
    let mut i: usize = 0;
    while i < channels.len()
        invariant
            i <= channels@.len(),
            cs == channel_views(channels@),
            forall|j: int|
                0 <= j < i ==> plane_len(#[trigger] cs[j], width as int, height as int) <= usize::MAX,
        decreases channels@.len() - i,
    {
        let c: &Channel = &channels[i];
        assert(cs[i as int] == c@);
        let pw: u32 = crate::flat_block::subsampled_dim(
            width,
            crate::flat_block::at_least_one(c.x_sampling),
        );
        let ph: u32 = crate::flat_block::subsampled_dim(
            height,
            crate::flat_block::at_least_one(c.y_sampling),
        );
        assert(0 <= ph * pw <= 0xffff_ffff * 0xffff_ffff) by (nonlinear_arith)
            requires
                0 <= ph <= 0xffff_ffff,
                0 <= pw <= 0xffff_ffff,
        ;
        let n: u64 = ph as u64 * pw as u64;
        assert(n == plane_len(cs[i as int], width as int, height as int));
        if n > usize::MAX as u64 {
            return false;
        }
        i = i + 1;
    }
    true
}

/// Read a file with one part that is stored in tiles, with all its levels.
pub fn parse_exr_tiled_multilevel(bytes: &[u8], log: &LogTable) -> (r: Result<
    MultilevelTiledImage,
    ExrError,
>)
    requires
        log.inv(),
    ensures
        r matches Ok(v) ==> multilevel_of(bytes@, log@) == Ok::<MultilevelView, Fault>(v@),
        r matches Err(e) ==> multilevel_of(bytes@, log@) == Err::<MultilevelView, Fault>(e.fault()),
{
    let header: ParsedHeader = match parse_header(bytes) {
        Ok(h) => h,
        Err(e) => {
            return Err(e);
        },
    };
    if !header.version.single_tile {
        return Err(ExrError::invalid("file is not tiled"));
    }
    let (m, t): (RequiredAttrs, TileDesc) = match read_multilevel_meta(&header) {
        Ok(v) => v,
        Err(e) => {
            return Err(e);
        },
    };
    let width: u32 = m.data_window.width();
    let height: u32 = m.data_window.height();
    let f: Frame = make_frame(&m, t);
    let total: u128 = compute_total_tiles(f.levels.as_slice(), t.x_size, t.y_size);
    let base: usize = header.end_offset;
    assert(bytes.len() == bytes@.len());
    if 8 * total > (bytes.len() - base) as u128 {
        return Err(ExrError::invalid("tile offset table runs past EOF"));
    }
    if !can_hold(f.channels.as_slice(), width, height) {
        return Err(ExrError::invalid("image too large"));
    }
    let mut stack: Vec<Vec<Vec<u32>>> = blank_stack(&f, width, height);
    let n: usize = total as usize;
    let ghost view = f@;
    let ghost done = levels_after(bytes@, base as int, view, log@, n as int);
    let mut k: usize = 0;
    while k < n
        invariant
            k <= n,
            base + 8 * n <= bytes@.len(),
            bytes@.len() <= usize::MAX,
            log.inv(),
            f@ == view,
            frame_valid(view),
            levels_sized(stack_views(stack@), view),
            done == levels_after(bytes@, base as int, view, log@, n as int),
            done is Err ==> multilevel_of(bytes@, log@) == Err::<MultilevelView, Fault>(
                done->Err_0,
            ),
            levels_after(bytes@, base as int, view, log@, k as int) == Ok::<
                Seq<Seq<Seq<u32>>>,
                Fault,
            >(stack_views(stack@)),
        decreases n - k,
    {
        let off: u64 = read_u64(bytes, base + 8 * k);
        let head: TileHead = match read_tile_head(bytes, off) {
            Some(h) => h,
            None => {
                proof {
                    lemma_levels_stop(bytes@, base as int, view, log@, k + 1, n as int);
                }
                return Err(ExrError::invalid("tile runs past EOF"));
            },
        };
        let payload: &[u8] = slice_range(bytes, head.start, head.end);
        match apply_level(&mut stack, &f, &head, payload, log) {
            Ok(_) => {},
            Err(e) => {
                proof {
                    lemma_levels_stop(bytes@, base as int, view, log@, k + 1, n as int);
                }
                return Err(e);
            },
        }
        k = k + 1;
    }
    let levels: Vec<TiledLevel> = make_levels(&f, stack);
    Ok(
        MultilevelTiledImage {
            level_mode: t.level_mode,
            round_mode: t.round_mode,
            tile_x: t.x_size,
            tile_y: t.y_size,
            data_window: m.data_window,
            display_window: m.display_window,
            channels: f.channels,
            compression: m.compression,
            levels,
        },
    )
}

} // verus!
