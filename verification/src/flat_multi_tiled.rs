//! Flat images with several parts that are stored in tiles.

use crate::attrs::{count_from, find_attribute, find_chunk_count, find_named};
use crate::b44::LogTable;
use crate::bytes::{i32_at, read_i32, slice_range};
use crate::deep_block::plane_views;
use crate::deep_meta::{all_full, is_full};
use crate::deep_multi::{check_types, types_fault};
use crate::error::{ExrError, Fault};
use crate::flat::{image_with, make_image, ExrImage, ImageView};
use crate::flat_image::{
    extract_required, is_holdable, planes_sized, required_of, RequiredAttrs, RequiredView,
};
use crate::flat_levels::{
    apply_level, blank_levels, blank_stack, can_hold, frame_of, frame_valid, is_tile_method,
    level_applied, level_views, levels_sized, make_frame, make_levels, multilevel_with, stack_views,
    tile_method, Frame, MultilevelView, TiledLevel,
};
use crate::flat_multi::{
    chunks_in, count_chunks, counts_stated, image_views,
};
use crate::flat_tiles::{
    compute_total_tiles, level_tiles, levels_fit, read_tile_head, tile_head_at, TileHead,
};
use crate::header::{
    header_views, multipart_headers_of, parse_multipart_headers, reversed, HeaderView, ParsedHeader,
};
use crate::types::{
    channel_views, entry_views, sort_by_name, sorted_by_name, Attribute, AttributeValue,
    AttributeView, Box2i, Channel, Compression, EntryView, TileDesc,
};
use vstd::prelude::*;

verus! {

/// The tile description of a part. Where `single` is set, the part may have
/// one level only.
pub open spec fn part_tiles_of(es: Seq<EntryView>, single: bool) -> Result<TileDesc, Fault> {
    match find_named(es, "tiles"@) {
        Some(AttributeView::TileDesc(t)) => if single && t.level_mode != 0 {
            Err(Fault::Unsupported)
        } else if t.x_size == 0 || t.y_size == 0 || t.level_mode > 2 {
            Err(Fault::Invalid)
        } else {
            Ok(t)
        },
        _ => Err(Fault::Invalid),
    }
}

/// A part states that it has `n` chunks.
pub open spec fn states_count(es: Seq<EntryView>, n: int) -> bool {
    count_from(es, 0) matches Some(v) && v == n
}

/// What the header of a part says.
pub open spec fn tiled_part_of(h: HeaderView, single: bool) -> Result<(RequiredView, TileDesc), Fault> {
    match required_of(h.entries) {
        None => Err(Fault::Invalid),
        Some(m) => if !is_tile_method(m.compression) {
            Err(Fault::Unsupported)
        } else if m.data_window.columns() == 0 || m.data_window.rows() == 0 {
            Err(Fault::Invalid)
        } else if !is_full(sort_by_name(m.channels)) {
            Err(Fault::Unsupported)
        } else {
            match part_tiles_of(h.entries, single) {
                Err(e) => Err(e),
                Ok(t) => {
                    let f = frame_of(m, t);
                    if !states_count(
                        h.entries,
                        level_tiles(f.levels, t.x_size, t.y_size, f.levels.len() as int),
                    ) || !is_holdable(
                        f.channels,
                        m.data_window.columns() as int,
                        m.data_window.rows() as int,
                    ) {
                        Err(Fault::Invalid)
                    } else {
                        Ok((m, t))
                    }
                },
            }
        },
    }
}

/// What the headers of the first `k` parts say.
pub open spec fn tiled_parts_of(hs: Seq<HeaderView>, single: bool, k: int) -> Result<
    Seq<(RequiredView, TileDesc)>,
    Fault,
>
    decreases k,
{
    if k <= 0 {
        Ok(Seq::empty())
    } else {
        match tiled_parts_of(hs, single, k - 1) {
            Err(e) => Err(e),
            Ok(ms) => match tiled_part_of(hs[k - 1], single) {
                Err(e) => Err(e),
                Ok(m) => Ok(ms.push(m)),
            },
        }
    }
}

/// The samples of all parts after the tile at `pos` is read, and the position
/// behind it.
pub open spec fn part_tile_applied(
    parts: Seq<Seq<Seq<Seq<u32>>>>,
    s: Seq<u8>,
    pos: int,
    ms: Seq<(RequiredView, TileDesc)>,
    single: bool,
    log: Seq<u16>,
) -> Result<(Seq<Seq<Seq<Seq<u32>>>>, int), Fault> {
    if pos + 24 > s.len() || i32_at(s, pos) < 0 || i32_at(s, pos) >= ms.len() || i32_at(s, pos + 20)
        < 0 {
        Err(Fault::Invalid)
    } else if single && (i32_at(s, pos + 12) != 0 || i32_at(s, pos + 16) != 0) {
        Err(Fault::Unsupported)
    } else {
        let p = i32_at(s, pos) as int;
        match tile_head_at(s, pos + 4) {
            None => Err(Fault::Invalid),
            Some((tx, ty, lx, ly, a, b)) => match level_applied(
                parts[p],
                frame_of(ms[p].0, ms[p].1),
                tx as int,
                ty as int,
                lx as int,
                ly as int,
                s.subrange(a, b),
                log,
            ) {
                Err(e) => Err(e),
                Ok(planes) => Ok((parts.update(p, planes), b)),
            },
        }
    }
}

/// The samples of all parts after the first `k` tiles from `start` on, and
/// the position behind them.
pub open spec fn part_tiles_after(
    s: Seq<u8>,
    start: int,
    ms: Seq<(RequiredView, TileDesc)>,
    single: bool,
    log: Seq<u16>,
    k: int,
) -> Result<(Seq<Seq<Seq<Seq<u32>>>>, int), Fault>
    decreases k,
{
    if k <= 0 {
        Ok((Seq::new(ms.len(), |i: int| blank_levels(frame_of(ms[i].0, ms[i].1))), start))
    } else {
        match part_tiles_after(s, start, ms, single, log, k - 1) {
            Err(e) => Err(e),
            Ok((parts, pos)) => part_tile_applied(parts, s, pos, ms, single, log),
        }
    }
}

/// The headers of the parts, what they say, and the samples of all levels of
/// all parts.
#[verifier::ext_equal]
pub struct TiledPartsView {
    pub headers: Seq<HeaderView>,
    pub metas: Seq<(RequiredView, TileDesc)>,
    pub samples: Seq<Seq<Seq<Seq<u32>>>>,
}

/// The parts in a file with several parts that are stored in tiles. The tiles
/// are taken one behind the other; the offset tables are passed over.
pub open spec fn tiled_parts_in(s: Seq<u8>, single: bool, log: Seq<u16>) -> Result<TiledPartsView, Fault> {
    match multipart_headers_of(s) {
        Err(e) => Err(e),
        Ok(hs) => if hs.len() == 0 {
            Err(Fault::Invalid)
        } else {
            match types_fault(hs, "tiledimage"@, 0) {
                Some(e) => Err(e),
                None => if hs[0].version.non_image || !counts_stated(hs) {
                    Err(Fault::Invalid)
                } else {
                    match tiled_parts_of(hs, single, hs.len() as int) {
                        Err(e) => Err(e),
                        Ok(ms) => {
                            let n = chunks_in(hs, hs.len() as int);
                            let start = hs.last().end + 8 * n;
                            if start > s.len() {
                                Err(Fault::Invalid)
                            } else {
                                match part_tiles_after(s, start, ms, single, log, n) {
                                    Err(e) => Err(e),
                                    Ok((samples, pos)) => Ok(
                                        TiledPartsView { headers: hs, metas: ms, samples },
                                    ),
                                }
                            }
                        },
                    }
                },
            }
        },
    }
}

/// A part that is being read.
pub struct TiledPart {
    pub required: RequiredAttrs,
    pub tiles: TileDesc,
    pub frame: Frame,
}

impl TiledPart {
    pub open spec fn meta(&self) -> (RequiredView, TileDesc) {
        (self.required@, self.tiles)
    }

    pub open spec fn inv(&self) -> bool {
        &&& self.frame@ == frame_of(self.required@, self.tiles)
        &&& frame_valid(self.frame@)
        &&& levels_fit(
            self.frame@.levels,
            self.required@.data_window.columns() as int,
            self.required@.data_window.rows() as int,
        )
        &&& is_holdable(
            self.frame@.channels,
            self.required@.data_window.columns() as int,
            self.required@.data_window.rows() as int,
        )
    }
}

pub open spec fn part_metas(v: Seq<TiledPart>) -> Seq<(RequiredView, TileDesc)> {
    Seq::new(v.len(), |i: int| v[i].meta())
}

fn read_part_tiles(attrs: &[Attribute], single: bool) -> (r: Result<TileDesc, ExrError>)
    ensures
        r matches Ok(t) ==> part_tiles_of(entry_views(attrs@), single) == Ok::<TileDesc, Fault>(t),
        r matches Err(e) ==> part_tiles_of(entry_views(attrs@), single) == Err::<TileDesc, Fault>(
            e.fault(),
        ),
{
    match find_attribute(attrs, "tiles") {
        Some(AttributeValue::TileDesc(t)) => {
            if single && t.level_mode != 0 {
                return Err(
                    ExrError::unsupported(
                        "multi-part tiled file with several levels: use parse_exr_multipart_tiled_multilevel",
                    ),
                );
            }
            if t.x_size == 0 || t.y_size == 0 {
                return Err(ExrError::invalid("multi-part tiled file: tile size must be > 0"));
            }
            if t.level_mode > 2 {
                return Err(ExrError::invalid("multi-part tiled file: level_mode unknown"));
            }
            Ok(*t)
        },
        _ => Err(ExrError::invalid("multi-part tiled file: missing 'tiles' attribute")),
    }
}

/// Read what the header of a part says.
fn read_tiled_part(h: &ParsedHeader, single: bool) -> (r: Result<TiledPart, ExrError>)
    ensures
        r matches Ok(p) ==> tiled_part_of(h@, single) == Ok::<(RequiredView, TileDesc), Fault>(
            p.meta(),
        ) && p.inv(),
        r matches Err(e) ==> tiled_part_of(h@, single) == Err::<(RequiredView, TileDesc), Fault>(
            e.fault(),
        ),
{
    let m: RequiredAttrs = match extract_required(h.attributes.as_slice()) {
        Ok(m) => m,
        Err(e) => {
            return Err(e);
        },
    };
    if !tile_method(m.compression) {
        return Err(ExrError::unsupported("multi-part tiled file: compression not yet implemented"));
    }
    let width: u32 = m.data_window.width();
    let height: u32 = m.data_window.height();
    if width == 0 || height == 0 {
        return Err(ExrError::invalid("multi-part tiled file: dataWindow must be > 0"));
    }
    let channels: Vec<Channel> = sorted_by_name(m.channels.as_slice());
    if !all_full(channels.as_slice()) {
        return Err(ExrError::unsupported("multi-part tiled file: sub-sampled channel"));
    }
    let t: TileDesc = match read_part_tiles(h.attributes.as_slice(), single) {
        Ok(t) => t,
        Err(e) => {
            return Err(e);
        },
    };
    let frame: Frame = make_frame(&m, t);
    let total: u128 = compute_total_tiles(frame.levels.as_slice(), t.x_size, t.y_size);
    let stated: u128 = match find_chunk_count(h.attributes.as_slice()) {
        Some(n) => n as u128,
        None => {
            return Err(ExrError::invalid("multi-part tiled file: missing chunkCount attribute"));
        },
    };
    if stated != total {
        return Err(ExrError::invalid("multi-part tiled file: chunkCount differs from tile grid"));
    }
    if !can_hold(frame.channels.as_slice(), width, height) {
        return Err(ExrError::invalid("multi-part tiled file: image too large"));
    }
    Ok(TiledPart { required: m, tiles: t, frame })
}

proof fn lemma_metas_stop(hs: Seq<HeaderView>, single: bool, a: int, b: int)
    requires
        a <= b,
        tiled_parts_of(hs, single, a) is Err,
    ensures
        tiled_parts_of(hs, single, b) == tiled_parts_of(hs, single, a),
    decreases b - a,
{
    if a < b {
        lemma_metas_stop(hs, single, a, b - 1);
    }
}

pub open spec fn parts_valid(v: Seq<TiledPart>) -> bool {
    forall|i: int| 0 <= i < v.len() ==> (#[trigger] v[i]).inv()
}

fn read_tiled_parts(hs: &[ParsedHeader], single: bool) -> (r: Result<Vec<TiledPart>, ExrError>)
    ensures
        r matches Ok(v) ==> tiled_parts_of(header_views(hs@), single, hs@.len() as int) == Ok::<
            Seq<(RequiredView, TileDesc)>,
            Fault,
        >(part_metas(v@)) && v@.len() == hs@.len() && parts_valid(v@),
        r matches Err(e) ==> tiled_parts_of(header_views(hs@), single, hs@.len() as int) == Err::<
            Seq<(RequiredView, TileDesc)>,
            Fault,
        >(e.fault()),
{
    let ghost hv = header_views(hs@);
    let mut v: Vec<TiledPart> = Vec::new();
    let mut i: usize = 0;
    assert(part_metas(v@) =~= Seq::<(RequiredView, TileDesc)>::empty());
    while i < hs.len()
        invariant
            i <= hs@.len(),
            hv == header_views(hs@),
            v@.len() == i,
            parts_valid(v@),
            tiled_parts_of(hv, single, i as int) == Ok::<Seq<(RequiredView, TileDesc)>, Fault>(
                part_metas(v@),
            ),
        decreases hs@.len() - i,
    {
        assert(hv[i as int] == hs@[i as int]@);
        match read_tiled_part(&hs[i], single) {
            Ok(p) => {
                let ghost before = v@;
                v.push(p);
                assert(part_metas(v@) =~= part_metas(before).push(p.meta()));
            },
            Err(e) => {
                proof {
                    lemma_metas_stop(hv, single, i + 1, hs@.len() as int);
                }
                return Err(e);
            },
        }
        i = i + 1;
    }
    Ok(v)
}

/// The samples of all levels of parts that are being read.
pub open spec fn pile_views(v: Seq<Vec<Vec<Vec<u32>>>>) -> Seq<Seq<Seq<Seq<u32>>>> {
    Seq::new(v.len(), |i: int| stack_views(v[i]@))
}

/// The planes have the samples of the levels of the parts.
pub open spec fn parts_sized(parts: Seq<Seq<Seq<Seq<u32>>>>, v: Seq<TiledPart>) -> bool {
    &&& parts.len() == v.len()
    &&& forall|i: int| 0 <= i < parts.len() ==> levels_sized(#[trigger] parts[i], v[i].frame@)
}

fn blank_piles(v: &[TiledPart]) -> (r: Vec<Vec<Vec<Vec<u32>>>>)
    requires
        parts_valid(v@),
    ensures
        pile_views(r@) == Seq::new(
            v@.len(),
            |i: int| blank_levels(frame_of(part_metas(v@)[i].0, part_metas(v@)[i].1)),
        ),
        parts_sized(pile_views(r@), v@),
{
    let mut r: Vec<Vec<Vec<Vec<u32>>>> = Vec::new();
    let mut i: usize = 0;
    while i < v.len()
        invariant
            i <= v@.len(),
            parts_valid(v@),
            r@.len() == i,
            forall|j: int|
                0 <= j < i ==> stack_views((#[trigger] r@[j])@) == blank_levels(v@[j].frame@)
                    && levels_sized(stack_views(r@[j]@), v@[j].frame@),
        decreases v@.len() - i,
    {
        let p: &TiledPart = &v[i];
        assert(v@[i as int].inv());
        let stack: Vec<Vec<Vec<u32>>> = blank_stack(
            &p.frame,
            p.required.data_window.width(),
            p.required.data_window.height(),
        );
        r.push(stack);
        i = i + 1;
    }
    proof {
        let w = pile_views(r@);
        let want = Seq::new(
            v@.len(),
            |i: int| blank_levels(frame_of(part_metas(v@)[i].0, part_metas(v@)[i].1)),
        );
        assert forall|j: int| 0 <= j < v@.len() implies w[j] == want[j] && levels_sized(
            w[j],
            v@[j].frame@,
        ) by {
            assert(v@[j].inv());
            assert(stack_views(r@[j]@) == blank_levels(v@[j].frame@));
        }
        assert(w =~= want);
    }
    r
}

/// Read the tile at `pos`.
fn apply_part_tile(
    piles: &mut Vec<Vec<Vec<Vec<u32>>>>,
    bytes: &[u8],
    pos: usize,
    v: &[TiledPart],
    single: bool,
    log: &LogTable,
) -> (r: Result<usize, ExrError>)
    requires
        log.inv(),
        pos <= bytes@.len(),
        parts_valid(v@),
        parts_sized(pile_views(old(piles)@), v@),
    ensures
        r matches Ok(end) ==> part_tile_applied(
            pile_views(old(piles)@),
            bytes@,
            pos as int,
            part_metas(v@),
            single,
            log@,
        ) == Ok::<(Seq<Seq<Seq<Seq<u32>>>>, int), Fault>((pile_views(final(piles)@), end as int))
            && parts_sized(pile_views(final(piles)@), v@) && end <= bytes@.len(),
        r matches Err(e) ==> part_tile_applied(
            pile_views(old(piles)@),
            bytes@,
            pos as int,
            part_metas(v@),
            single,
            log@,
        ) == Err::<(Seq<Seq<Seq<Seq<u32>>>>, int), Fault>(e.fault()),
{
    let ghost before = piles@;
    let ghost ms = part_metas(v@);
    assert(bytes.len() == bytes@.len());
    if bytes.len() - pos < 24 {
        return Err(ExrError::invalid("multi-part tiled file: unexpected EOF at chunk"));
    }
    let number: i32 = read_i32(bytes, pos);
    if number < 0 || number as u64 >= v.len() as u64 {
        return Err(ExrError::invalid("multi-part tiled file: part number out of range"));
    }
    if read_i32(bytes, pos + 20) < 0 {
        return Err(ExrError::invalid("multi-part tiled file: negative payload size"));
    }
    if single && (read_i32(bytes, pos + 12) != 0 || read_i32(bytes, pos + 16) != 0) {
        return Err(ExrError::unsupported("multi-part tiled file: tile of another level"));
    }
    let p: usize = number as usize;
    let head: TileHead = match read_tile_head(bytes, pos as u64 + 4) {
        Some(h) => h,
        None => {
            return Err(ExrError::invalid("multi-part tiled file: tile runs past EOF"));
        },
    };
    let part: &TiledPart = &v[p];
    proof {
        assert(v@[p as int].inv());
        assert(ms[p as int] == part.meta());
        assert(pile_views(before)[p as int] == stack_views(before[p as int]@));
        assert(pile_views(before).len() == before.len());
    }
    let stack: &mut Vec<Vec<Vec<u32>>> = &mut piles[p];
    match apply_level(stack, &part.frame, &head, slice_range(bytes, head.start, head.end), log) {
        Ok(_) => {},
        Err(e) => {
            return Err(e);
        },
    }
    proof {
        let after = pile_views(piles@);
        assert(after =~= pile_views(before).update(p as int, stack_views(piles@[p as int]@)));
        assert forall|j: int| 0 <= j < after.len() implies levels_sized(
            #[trigger] after[j],
            v@[j].frame@,
        ) by {
            if j != p {
                assert(after[j] == pile_views(before)[j]);
            }
        }
    }
    Ok(head.end)
}

proof fn lemma_tiles_stop(
    s: Seq<u8>,
    start: int,
    ms: Seq<(RequiredView, TileDesc)>,
    single: bool,
    log: Seq<u16>,
    a: int,
    b: int,
)
    requires
        a <= b,
        part_tiles_after(s, start, ms, single, log, a) is Err,
    ensures
        part_tiles_after(s, start, ms, single, log, b) == part_tiles_after(
            s,
            start,
            ms,
            single,
            log,
            a,
        ),
    decreases b - a,
{
    if a < b {
        lemma_tiles_stop(s, start, ms, single, log, a, b - 1);
    }
}

/// Read the tiles of all parts.
fn read_piles(bytes: &[u8], start: usize, v: &[TiledPart], n: u128, single: bool, log: &LogTable) -> (r: Result<
    Vec<Vec<Vec<Vec<u32>>>>,
    ExrError,
>)
    requires
        log.inv(),
        start <= bytes@.len(),
        parts_valid(v@),
    ensures
        r matches Ok(w) ==> part_tiles_after(
            bytes@,
            start as int,
            part_metas(v@),
            single,
            log@,
            n as int,
        ) matches Ok((parts, pos)) && parts == pile_views(w@) && parts_sized(parts, v@),
        r matches Err(e) ==> part_tiles_after(
            bytes@,
            start as int,
            part_metas(v@),
            single,
            log@,
            n as int,
        ) == Err::<(Seq<Seq<Seq<Seq<u32>>>>, int), Fault>(e.fault()),
{
    let ghost ms = part_metas(v@);
    let mut piles: Vec<Vec<Vec<Vec<u32>>>> = blank_piles(v);
    let mut pos: usize = start;
    let mut k: u128 = 0;
    assert(ms.len() == v@.len());
    while k < n
        invariant
            k <= n,
            log.inv(),
            pos <= bytes@.len(),
            parts_valid(v@),
            ms == part_metas(v@),
            parts_sized(pile_views(piles@), v@),
            part_tiles_after(bytes@, start as int, ms, single, log@, k as int) == Ok::<
                (Seq<Seq<Seq<Seq<u32>>>>, int),
                Fault,
            >((pile_views(piles@), pos as int)),
        decreases n - k,
    {
        match apply_part_tile(&mut piles, bytes, pos, v, single, log) {
            Ok(end) => {
                pos = end;
            },
            Err(e) => {
                proof {
                    lemma_tiles_stop(bytes@, start as int, ms, single, log@, k + 1, n as int);
                }
                return Err(e);
            },
        }
        k = k + 1;
    }
    Ok(piles)
}

/// Parts that were read: their headers, what these say, and their samples.
pub struct TiledParts {
    pub headers: Vec<ParsedHeader>,
    pub parts: Vec<TiledPart>,
    pub piles: Vec<Vec<Vec<Vec<u32>>>>,
}

impl View for TiledParts {
    type V = TiledPartsView;

    open spec fn view(&self) -> TiledPartsView {
        TiledPartsView {
            headers: header_views(self.headers@),
            metas: part_metas(self.parts@),
            samples: pile_views(self.piles@),
        }
    }
}

impl TiledParts {
    pub open spec fn inv(&self) -> bool {
        &&& self.headers@.len() == self.parts@.len()
        &&& parts_valid(self.parts@)
        &&& parts_sized(pile_views(self.piles@), self.parts@)
    }
}

/// Read a file with several parts that are stored in tiles.
fn read_parts(bytes: &[u8], single: bool, log: &LogTable) -> (r: Result<TiledParts, ExrError>)
    requires
        log.inv(),
    ensures
        r matches Ok(v) ==> tiled_parts_in(bytes@, single, log@) == Ok::<TiledPartsView, Fault>(v@)
            && v.inv(),
        r matches Err(e) ==> tiled_parts_in(bytes@, single, log@) == Err::<TiledPartsView, Fault>(
            e.fault(),
        ),
{
    let headers: Vec<ParsedHeader> = match parse_multipart_headers(bytes) {
        Ok(h) => h,
        Err(e) => {
            return Err(e);
        },
    };
    let ghost hv = header_views(headers@);
    assert(hv.len() == headers@.len());
    if headers.len() == 0 {
        return Err(ExrError::invalid("multi-part tiled file has no parts"));
    }
    match check_types(headers.as_slice(), "tiledimage") {
        Ok(_) => {},
        Err(e) => {
            return Err(e);
        },
    }
    assert(hv[0] == headers@[0]@);
    if headers[0].version.non_image {
        return Err(ExrError::invalid("multi-part deep file: use a deep reader"));
    }
    let n: u128 = match count_chunks(headers.as_slice()) {
        Some(n) => n,
        None => {
            return Err(ExrError::invalid("multi-part tiled file: missing chunkCount attribute"));
        },
    };
    let parts: Vec<TiledPart> = match read_tiled_parts(headers.as_slice(), single) {
        Ok(v) => v,
        Err(e) => {
            return Err(e);
        },
    };
    let base: usize = headers[headers.len() - 1].end_offset;
    assert(hv.last() == headers@.last()@);
    assert(bytes.len() == bytes@.len());
    assert(headers@[headers@.len() - 1].end_offset <= bytes@.len());
    if 8 * n > (bytes.len() - base) as u128 {
        return Err(ExrError::invalid("multi-part tiled offset tables run past EOF"));
    }
    let start: usize = base + 8 * (n as usize);
    let piles: Vec<Vec<Vec<Vec<u32>>>> = match read_piles(
        bytes,
        start,
        parts.as_slice(),
        n,
        single,
        log,
    ) {
        Ok(p) => p,
        Err(e) => {
            return Err(e);
        },
    };
    Ok(TiledParts { headers, parts, piles })
}

// ----------------------------------------------------------------------
// One level
// ----------------------------------------------------------------------
/// The images of parts with one level.
pub open spec fn single_images(v: TiledPartsView) -> Seq<ImageView> {
    Seq::new(
        v.metas.len(),
        |i: int| image_with(v.metas[i].0, v.samples[i][0], v.headers[i].entries),
    )
}

/// The images in a file with several parts that are stored in tiles of one
/// level.
pub open spec fn multipart_tiled_of(s: Seq<u8>, log: Seq<u16>) -> Result<Seq<ImageView>, Fault> {
    match tiled_parts_in(s, true, log) {
        Err(e) => Err(e),
        Ok(v) => Ok(single_images(v)),
    }
}

proof fn lemma_single_level(h: HeaderView)
    ensures
        tiled_part_of(h, true) matches Ok((m, t)) ==> frame_of(m, t).levels.len() == 1,
{
}

proof fn lemma_single_levels(hs: Seq<HeaderView>, k: int, i: int)
    requires
        0 <= i < k <= hs.len(),
    ensures
        tiled_parts_of(hs, true, k) matches Ok(ms) ==> ms.len() == k && frame_of(
            ms[i].0,
            ms[i].1,
        ).levels.len() == 1,
    decreases k,
{
    if k > 1 {
        lemma_single_levels(hs, k - 1, if i < k - 1 {
            i
        } else {
            0
        });
    }
    reveal_with_fuel(tiled_parts_of, 2);
    lemma_single_level(hs[k - 1]);
}

/// Read a file with several parts that are stored in tiles of one level.
pub fn parse_exr_multipart_tiled(bytes: &[u8], log: &LogTable) -> (r: Result<Vec<ExrImage>, ExrError>)
    requires
        log.inv(),
    ensures
        r matches Ok(v) ==> multipart_tiled_of(bytes@, log@) == Ok::<Seq<ImageView>, Fault>(
            image_views(v@),
        ),
        r matches Err(e) ==> multipart_tiled_of(bytes@, log@) == Err::<Seq<ImageView>, Fault>(
            e.fault(),
        ),
{
    let all: TiledParts = match read_parts(bytes, true, log) {
        Ok(v) => v,
        Err(e) => {
            return Err(e);
        },
    };
    let ghost view = all@;
    let ghost want = single_images(view);
    let ghost (h0, v0, p0) = (all.headers@, all.parts@, all.piles@);
    let ghost n = v0.len();
    let mut headers: Vec<ParsedHeader> = all.headers;
    let mut parts: Vec<TiledPart> = all.parts;
    let mut piles: Vec<Vec<Vec<Vec<u32>>>> = all.piles;
    let mut out: Vec<ExrImage> = Vec::new();
    proof {
        assert(pile_views(p0).len() == p0.len());
        assert forall|i: int| 0 <= i < n implies (#[trigger] v0[i]).frame@.levels.len() == 1 by {
            lemma_single_levels(header_views(h0), n as int, i);
            assert(v0[i].inv());
            assert(part_metas(v0)[i] == v0[i].meta());
        }
    }
    while parts.len() > 0
        invariant
            headers@.len() == parts@.len() == piles@.len(),
            parts@.len() + out@.len() == n,
            n == h0.len() == v0.len() == p0.len(),
            parts_valid(v0),
            parts_sized(pile_views(p0), v0),
            view == (TiledPartsView {
                headers: header_views(h0),
                metas: part_metas(v0),
                samples: pile_views(p0),
            }),
            want == single_images(view),
            forall|i: int| 0 <= i < n ==> (#[trigger] v0[i]).frame@.levels.len() == 1,
            forall|i: int|
                #![trigger headers@[i]]
                #![trigger parts@[i]]
                #![trigger piles@[i]]
                0 <= i < parts@.len() ==> headers@[i] == h0[i] && parts@[i] == v0[i] && piles@[i]
                    == p0[i],
            forall|i: int| 0 <= i < out@.len() ==> (#[trigger] out@[i])@ == want[n - 1 - i],
        decreases parts@.len(),
    {
        let ghost k = parts@.len() - 1;
        proof {
            assert(headers@[k] == h0[k] && parts@[k] == v0[k] && piles@[k] == p0[k]);
            assert(v0[k].inv());
            assert(pile_views(p0)[k] == stack_views(p0[k]@));
            assert(levels_sized(pile_views(p0)[k], v0[k].frame@));
            assert(stack_views(p0[k]@).len() == p0[k]@.len());
            assert(stack_views(p0[k]@)[0] == plane_views(p0[k]@[0]@));
            assert(planes_sized(
                stack_views(p0[k]@)[0],
                v0[k].frame@.channels,
                v0[k].frame@.levels[0].width as int,
                v0[k].frame@.levels[0].height as int,
            ));
            assert(plane_views(p0[k]@[0]@).len() == p0[k]@[0]@.len());
            assert(header_views(h0)[k] == h0[k]@);
            assert(part_metas(v0)[k] == v0[k].meta());
        }
        if let (Some(h), Some(p), Some(pile)) = (headers.pop(), parts.pop(), piles.pop()) {
            let mut pile: Vec<Vec<Vec<u32>>> = pile;
            if let Some(planes) = pile.pop() {
                let image: ExrImage = make_image(
                    p.required,
                    p.frame.channels,
                    planes,
                    h.attributes,
                );
                assert(image@ == want[k]);
                out.push(image);
            }
        }
    }
    let r: Vec<ExrImage> = reversed(out);
    assert(image_views(r@) =~= want);
    Ok(r)
}

// ----------------------------------------------------------------------
// All levels
// ----------------------------------------------------------------------
/// A part with all its levels.
#[derive(Debug, Clone, PartialEq, Eq)]
pub struct MultilevelTiledPart {
    pub level_mode: u8,
    pub round_mode: u8,
    pub tile_x: u32,
    pub tile_y: u32,
    pub data_window: Box2i,
    pub display_window: Box2i,
    pub channels: Vec<Channel>,
    pub compression: Compression,
    pub levels: Vec<TiledLevel>,
    pub attributes: Vec<Attribute>,
}

/// What a [`MultilevelTiledPart`] stands for.
#[verifier::ext_equal]
pub struct MultilevelPartView {
    pub image: MultilevelView,
    pub entries: Seq<EntryView>,
}

impl View for MultilevelTiledPart {
    type V = MultilevelPartView;

    open spec fn view(&self) -> MultilevelPartView {
        MultilevelPartView {
            image: MultilevelView {
                tiles: TileDesc {
                    x_size: self.tile_x,
                    y_size: self.tile_y,
                    level_mode: self.level_mode,
                    round_mode: self.round_mode,
                },
                data_window: self.data_window,
                display_window: self.display_window,
                channels: channel_views(self.channels@),
                compression: self.compression,
                levels: level_views(self.levels@),
            },
            entries: entry_views(self.attributes@),
        }
    }
}

pub open spec fn multilevel_part_views(v: Seq<MultilevelTiledPart>) -> Seq<MultilevelPartView> {
    Seq::new(v.len(), |i: int| v[i]@)
}

/// The parts with all their levels.
pub open spec fn multilevel_parts(v: TiledPartsView) -> Seq<MultilevelPartView> {
    Seq::new(
        v.metas.len(),
        |i: int|
            MultilevelPartView {
                image: multilevel_with(
                    v.metas[i].0,
                    v.metas[i].1,
                    frame_of(v.metas[i].0, v.metas[i].1),
                    v.samples[i],
                ),
                entries: v.headers[i].entries,
            },
    )
}

/// The parts with all their levels in a file with several parts that are
/// stored in tiles.
pub open spec fn multipart_multilevel_of(s: Seq<u8>, log: Seq<u16>) -> Result<
    Seq<MultilevelPartView>,
    Fault,
> {
    match tiled_parts_in(s, false, log) {
        Err(e) => Err(e),
        Ok(v) => Ok(multilevel_parts(v)),
    }
}

/// Put a part, its header and its samples together.
fn make_part(h: ParsedHeader, p: TiledPart, pile: Vec<Vec<Vec<u32>>>) -> (r: MultilevelTiledPart)
    requires
        p.inv(),
        levels_sized(stack_views(pile@), p.frame@),
    ensures
        r@ == (MultilevelPartView {
            image: multilevel_with(p.required@, p.tiles, p.frame@, stack_views(pile@)),
            entries: h@.entries,
        }),
{
    let levels: Vec<TiledLevel> = make_levels(&p.frame, pile);
    MultilevelTiledPart {
        level_mode: p.tiles.level_mode,
        round_mode: p.tiles.round_mode,
        tile_x: p.tiles.x_size,
        tile_y: p.tiles.y_size,
        data_window: p.required.data_window,
        display_window: p.required.display_window,
        channels: p.frame.channels,
        compression: p.required.compression,
        levels,
        attributes: h.attributes,
    }
}

/// Read a file with several parts that are stored in tiles, with all their
/// levels.
pub fn parse_exr_multipart_tiled_multilevel(bytes: &[u8], log: &LogTable) -> (r: Result<
    Vec<MultilevelTiledPart>,
    ExrError,
>)
    requires
        log.inv(),
    ensures
        r matches Ok(v) ==> multipart_multilevel_of(bytes@, log@) == Ok::<
            Seq<MultilevelPartView>,
            Fault,
        >(multilevel_part_views(v@)),
        r matches Err(e) ==> multipart_multilevel_of(bytes@, log@) == Err::<
            Seq<MultilevelPartView>,
            Fault,
        >(e.fault()),
{
    let all: TiledParts = match read_parts(bytes, false, log) {
        Ok(v) => v,
        Err(e) => {
            return Err(e);
        },
    };
    let ghost view = all@;
    let ghost want = multilevel_parts(view);
    let ghost (h0, v0, p0) = (all.headers@, all.parts@, all.piles@);
    let ghost n = v0.len();
    let mut headers: Vec<ParsedHeader> = all.headers;
    let mut parts: Vec<TiledPart> = all.parts;
    let mut piles: Vec<Vec<Vec<Vec<u32>>>> = all.piles;
    let mut out: Vec<MultilevelTiledPart> = Vec::new();
    assert(pile_views(p0).len() == p0.len());
    while parts.len() > 0
        invariant
            headers@.len() == parts@.len() == piles@.len(),
            parts@.len() + out@.len() == n,
            n == h0.len() == v0.len() == p0.len(),
            parts_valid(v0),
            parts_sized(pile_views(p0), v0),
            view == (TiledPartsView {
                headers: header_views(h0),
                metas: part_metas(v0),
                samples: pile_views(p0),
            }),
            want == multilevel_parts(view),
            forall|i: int|
                #![trigger headers@[i]]
                #![trigger parts@[i]]
                #![trigger piles@[i]]
                0 <= i < parts@.len() ==> headers@[i] == h0[i] && parts@[i] == v0[i] && piles@[i]
                    == p0[i],
            forall|i: int| 0 <= i < out@.len() ==> (#[trigger] out@[i])@ == want[n - 1 - i],
        decreases parts@.len(),
    {
        let ghost k = parts@.len() - 1;
        proof {
            assert(headers@[k] == h0[k] && parts@[k] == v0[k] && piles@[k] == p0[k]);
            assert(v0[k].inv());
            assert(pile_views(p0)[k] == stack_views(p0[k]@));
            assert(levels_sized(pile_views(p0)[k], v0[k].frame@));
            assert(header_views(h0)[k] == h0[k]@);
            assert(part_metas(v0)[k] == v0[k].meta());
        }
        if let (Some(h), Some(p), Some(pile)) = (headers.pop(), parts.pop(), piles.pop()) {
            let part: MultilevelTiledPart = make_part(h, p, pile);
            assert(part@ == want[k]);
            out.push(part);
        }
    }
    let r: Vec<MultilevelTiledPart> = reversed(out);
    assert(multilevel_part_views(r@) =~= want);
    Ok(r)
}

} // verus!
