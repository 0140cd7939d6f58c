//! Flat images with several parts that are stored line by line.

use crate::attrs::{count_from, find_chunk_count, find_string_attr, find_text};
use crate::b44::LogTable;
use crate::bytes::{i32_at, read_i32, slice_range};
use crate::deep_block::plane_views;
use crate::error::{ExrError, Fault};
use crate::flat::{
    apply_lines, image_with, lemma_blank_sized, line_head_at, lines_applied, make_image,
    read_line_head, ExrImage, ImageView,
};
use crate::flat_image::{
    all_spaced, alloc_planes, blank_planes, extract_required, is_holdable, is_spaced, planes_sized,
    required_of, RequiredAttrs, RequiredView,
};
use crate::flat_levels::{can_hold, is_tile_method, stack_views, tile_method};
use crate::header::{
    header_views, multipart_headers_of, parse_multipart_headers, reversed, HeaderView, ParsedHeader,
};
use crate::text::str_eq;
use crate::types::{channel_views, sort_by_name, sorted_by_name, Channel};
use vstd::prelude::*;

verus! {

// ----------------------------------------------------------------------
// The number of chunks
// ----------------------------------------------------------------------
/// Every part states its number of chunks.
pub open spec fn counts_stated(hs: Seq<HeaderView>) -> bool {
    forall|i: int| 0 <= i < hs.len() ==> count_from((#[trigger] hs[i]).entries, 0) is Some
}

/// The chunks of the first `k` parts.
pub open spec fn chunks_in(hs: Seq<HeaderView>, k: int) -> int
    decreases k,
{
    if k <= 0 {
        0
    } else {
        chunks_in(hs, k - 1) + count_from(hs[k - 1].entries, 0)->Some_0
    }
}

/// The number of chunks of all parts, where every part states its number.
pub fn count_chunks(hs: &[ParsedHeader]) -> (r: Option<u128>)
    ensures
        r is Some <==> counts_stated(header_views(hs@)),
        r matches Some(n) ==> n == chunks_in(header_views(hs@), hs@.len() as int) && n
            <= 0xffff_ffff_ffff_ffff * 0x7fff_ffff,
{
    let ghost hv = header_views(hs@);
    let mut total: u128 = 0;
    let mut i: usize = 0;
    assert(hs.len() == hs@.len());
    while i < hs.len()
        invariant
            i <= hs@.len(),
            hs@.len() <= usize::MAX,
            hv == header_views(hs@),
            total == chunks_in(hv, i as int),
            total <= i * 0x7fff_ffff,
            forall|j: int| 0 <= j < i ==> count_from((#[trigger] hv[j]).entries, 0) is Some,
        decreases hs@.len() - i,
    {
        assert(hv[i as int] == hs@[i as int]@);
        match find_chunk_count(hs[i].attributes.as_slice()) {
            Some(n) => {
                total = total + n as u128;
            },
            None => {
                return None;
            },
        }
        i = i + 1;
    }
    Some(total)
}

// ----------------------------------------------------------------------
// Parts
// ----------------------------------------------------------------------
/// A part of a type that is stored in another way.
pub open spec fn is_foreign(h: HeaderView) -> bool {
    find_text(h.entries, "type"@) matches Some(t) && (t == "deepscanline"@ || t == "deeptile"@ || t
        == "tiledimage"@)
}

fn any_foreign(hs: &[ParsedHeader]) -> (r: bool)
    ensures
        r == exists|i: int| 0 <= i < hs@.len() && is_foreign(#[trigger] header_views(hs@)[i]),
{
    let ghost hv = header_views(hs@);
    let mut i: usize = 0;
    while i < hs.len()
        invariant
            i <= hs@.len(),
            hv == header_views(hs@),
            forall|j: int| 0 <= j < i ==> !is_foreign(#[trigger] hv[j]),
        decreases hs@.len() - i,
    {
        assert(hv[i as int] == hs@[i as int]@);
        if let Some(t) = find_string_attr(hs[i].attributes.as_slice(), "type") {
            let s: &str = t.as_str();
            if str_eq(s, "deepscanline") || str_eq(s, "deeptile") || str_eq(s, "tiledimage") {
                assert(is_foreign(hv[i as int]));
                return true;
            }
        }
        i = i + 1;
    }
    false
}

/// What the header of a part says.
pub open spec fn flat_part_of(h: HeaderView) -> Result<RequiredView, Fault> {
    match required_of(h.entries) {
        None => Err(Fault::Invalid),
        Some(m) => if !is_tile_method(m.compression) {
            Err(Fault::Unsupported)
        } else if m.data_window.columns() == 0 || m.data_window.rows() == 0 || !is_spaced(
            sort_by_name(m.channels),
        ) || !is_holdable(
            sort_by_name(m.channels),
            m.data_window.columns() as int,
            m.data_window.rows() as int,
        ) {
            Err(Fault::Invalid)
        } else {
            Ok(m)
        },
    }
}

/// What the headers of the first `k` parts say.
pub open spec fn flat_parts_of(hs: Seq<HeaderView>, k: int) -> Result<Seq<RequiredView>, Fault>
    decreases k,
{
    if k <= 0 {
        Ok(Seq::empty())
    } else {
        match flat_parts_of(hs, k - 1) {
            Err(e) => Err(e),
            Ok(ms) => match flat_part_of(hs[k - 1]) {
                Err(e) => Err(e),
                Ok(m) => Ok(ms.push(m)),
            },
        }
    }
}

/// The samples of a blank part.
pub open spec fn blank_part(m: RequiredView) -> Seq<Seq<u32>> {
    blank_planes(
        sort_by_name(m.channels),
        m.data_window.columns() as int,
        m.data_window.rows() as int,
    )
}

/// The samples of all parts after the chunk at `pos` is read, and the position
/// behind it.
pub open spec fn part_lines_applied(
    parts: Seq<Seq<Seq<u32>>>,
    s: Seq<u8>,
    pos: int,
    ms: Seq<RequiredView>,
    log: Seq<u16>,
) -> Result<(Seq<Seq<Seq<u32>>>, int), Fault> {
    if pos + 12 > s.len() || i32_at(s, pos) < 0 || i32_at(s, pos) >= ms.len() {
        Err(Fault::Invalid)
    } else {
        let p = i32_at(s, pos) as int;
        match line_head_at(s, pos + 4) {
            None => Err(Fault::Invalid),
            Some((y, a, b)) => match lines_applied(
                parts[p],
                sort_by_name(ms[p].channels),
                ms[p].data_window,
                y,
                s.subrange(a, b),
                ms[p].compression,
                log,
            ) {
                Err(e) => Err(e),
                Ok(planes) => Ok((parts.update(p, planes), b)),
            },
        }
    }
}

/// The samples of all parts after the first `k` chunks from `start` on, and
/// the position behind them.
pub open spec fn part_lines_after(
    s: Seq<u8>,
    start: int,
    ms: Seq<RequiredView>,
    log: Seq<u16>,
    k: int,
) -> Result<(Seq<Seq<Seq<u32>>>, int), Fault>
    decreases k,
{
    if k <= 0 {
        Ok((Seq::new(ms.len(), |i: int| blank_part(ms[i])), start))
    } else {
        match part_lines_after(s, start, ms, log, k - 1) {
            Err(e) => Err(e),
            Ok((parts, pos)) => part_lines_applied(parts, s, pos, ms, log),
        }
    }
}

/// The images of the parts.
pub open spec fn part_images(
    hs: Seq<HeaderView>,
    ms: Seq<RequiredView>,
    parts: Seq<Seq<Seq<u32>>>,
) -> Seq<ImageView> {
    Seq::new(ms.len(), |i: int| image_with(ms[i], parts[i], hs[i].entries))
}

/// The images in a file with several parts. The chunks are taken one behind
/// the other; the offset tables are passed over.
pub open spec fn multipart_of(s: Seq<u8>, log: Seq<u16>) -> Result<Seq<ImageView>, Fault> {
    match multipart_headers_of(s) {
        Err(e) => Err(e),
        Ok(hs) => if hs.len() == 0 {
            Err(Fault::Invalid)
        } else if exists|i: int| 0 <= i < hs.len() && is_foreign(#[trigger] hs[i]) {
            Err(Fault::Unsupported)
        } else {
            let n = chunks_in(hs, hs.len() as int);
            let start = hs.last().end + 8 * n;
            if !counts_stated(hs) || start > s.len() {
                Err(Fault::Invalid)
            } else {
                match flat_parts_of(hs, hs.len() as int) {
                    Err(e) => Err(e),
                    Ok(ms) => match part_lines_after(s, start, ms, log, n) {
                        Err(e) => Err(e),
                        Ok((parts, pos)) => Ok(part_images(hs, ms, parts)),
                    },
                }
            }
        },
    }
}

/// A part that is being read.
pub struct FlatPart {
    pub required: RequiredAttrs,
    /// The channels in the order of their names.
    pub channels: Vec<Channel>,
}

impl FlatPart {
    pub open spec fn sorted(&self) -> bool {
        channel_views(self.channels@) == sort_by_name(self.required@.channels)
    }
}

pub open spec fn required_views(v: Seq<FlatPart>) -> Seq<RequiredView> {
    Seq::new(v.len(), |i: int| v[i].required@)
}

/// Read what the header of a part says.
fn read_flat_part(h: &ParsedHeader) -> (r: Result<FlatPart, ExrError>)
    ensures
        r matches Ok(p) ==> flat_part_of(h@) == Ok::<RequiredView, Fault>(p.required@) && p.sorted(),
        r matches Err(e) ==> flat_part_of(h@) == Err::<RequiredView, Fault>(e.fault()),
{
    let m: RequiredAttrs = match extract_required(h.attributes.as_slice()) {
        Ok(m) => m,
        Err(e) => {
            return Err(e);
        },
    };
    if !tile_method(m.compression) {
        return Err(ExrError::unsupported("multi-part file: compression not yet implemented"));
    }
    let width: u32 = m.data_window.width();
    let height: u32 = m.data_window.height();
    if width == 0 || height == 0 {
        return Err(ExrError::invalid("multi-part file: dataWindow must be > 0"));
    }
    let channels: Vec<Channel> = sorted_by_name(m.channels.as_slice());
    if !all_spaced(channels.as_slice()) {
        return Err(ExrError::invalid("multi-part file: non-positive sampling factor"));
    }
    if !can_hold(channels.as_slice(), width, height) {
        return Err(ExrError::invalid("multi-part file: image too large"));
    }
    Ok(FlatPart { required: m, channels })
}

proof fn lemma_parts_stop(hs: Seq<HeaderView>, a: int, b: int)
    requires
        a <= b,
        flat_parts_of(hs, a) is Err,
    ensures
        flat_parts_of(hs, b) == flat_parts_of(hs, a),
    decreases b - a,
{
    if a < b {
        lemma_parts_stop(hs, a, b - 1);
    }
}

/// Every part can be held, and its channels are in order.
pub open spec fn parts_valid(v: Seq<FlatPart>) -> bool {
    forall|i: int|
        0 <= i < v.len() ==> (#[trigger] v[i]).sorted() && is_holdable(
            sort_by_name(v[i].required@.channels),
            v[i].required@.data_window.columns() as int,
            v[i].required@.data_window.rows() as int,
        )
}

fn read_flat_parts(hs: &[ParsedHeader]) -> (r: Result<Vec<FlatPart>, ExrError>)
    ensures
        r matches Ok(v) ==> flat_parts_of(header_views(hs@), hs@.len() as int) == Ok::<
            Seq<RequiredView>,
            Fault,
        >(required_views(v@)) && v@.len() == hs@.len() && parts_valid(v@),
        r matches Err(e) ==> flat_parts_of(header_views(hs@), hs@.len() as int) == Err::<
            Seq<RequiredView>,
            Fault,
        >(e.fault()),
{
    let ghost hv = header_views(hs@);
    let mut v: Vec<FlatPart> = Vec::new();
    let mut i: usize = 0;
    assert(required_views(v@) =~= Seq::<RequiredView>::empty());
    while i < hs.len()
        invariant
            i <= hs@.len(),
            hv == header_views(hs@),
            v@.len() == i,
            parts_valid(v@),
            flat_parts_of(hv, i as int) == Ok::<Seq<RequiredView>, Fault>(required_views(v@)),
        decreases hs@.len() - i,
    {
        assert(hv[i as int] == hs@[i as int]@);
        match read_flat_part(&hs[i]) {
            Ok(p) => {
                let ghost before = v@;
                v.push(p);
                assert(required_views(v@) =~= required_views(before).push(p.required@));
            },
            Err(e) => {
                proof {
                    lemma_parts_stop(hv, i + 1, hs@.len() as int);
                }
                return Err(e);
            },
        }
        i = i + 1;
    }
    Ok(v)
}

/// The planes have the samples of the parts.
pub open spec fn parts_sized(parts: Seq<Seq<Seq<u32>>>, v: Seq<FlatPart>) -> bool {
    &&& parts.len() == v.len()
    &&& forall|i: int|
        0 <= i < parts.len() ==> planes_sized(
            #[trigger] parts[i],
            channel_views(v[i].channels@),
            v[i].required@.data_window.columns() as int,
            v[i].required@.data_window.rows() as int,
        )
}

fn blank_parts(v: &[FlatPart]) -> (r: Vec<Vec<Vec<u32>>>)
    requires
        parts_valid(v@),
    ensures
        stack_views(r@) == Seq::new(v@.len(), |i: int| blank_part(required_views(v@)[i])),
        parts_sized(stack_views(r@), v@),
{
    let mut r: Vec<Vec<Vec<u32>>> = Vec::new();
    let mut i: usize = 0;
    while i < v.len()
        invariant
            i <= v@.len(),
            parts_valid(v@),
            r@.len() == i,
            forall|j: int|
                0 <= j < i ==> plane_views((#[trigger] r@[j])@) == blank_part(v@[j].required@),
        decreases v@.len() - i,
    {
        let p: &FlatPart = &v[i];
        assert(v@[i as int].sorted());
        match alloc_planes(
            p.channels.as_slice(),
            p.required.data_window.width(),
            p.required.data_window.height(),
        ) {
            Some(planes) => {
                r.push(planes);
            },
            None => {
                assert(false);
            },
        }
        i = i + 1;
    }
    proof {
        let w = stack_views(r@);
        assert(w =~= Seq::new(v@.len(), |i: int| blank_part(required_views(v@)[i])));
        assert forall|j: int| 0 <= j < w.len() implies planes_sized(
            #[trigger] w[j],
            channel_views(v@[j].channels@),
            v@[j].required@.data_window.columns() as int,
            v@[j].required@.data_window.rows() as int,
        ) by {
            assert(v@[j].sorted());
            lemma_blank_sized(
                sort_by_name(v@[j].required@.channels),
                v@[j].required@.data_window.columns() as int,
                v@[j].required@.data_window.rows() as int,
            );
        }
    }
    r
}

/// Read the chunk at `pos`.
fn apply_part_lines(
    stacks: &mut Vec<Vec<Vec<u32>>>,
    bytes: &[u8],
    pos: usize,
    v: &[FlatPart],
    log: &LogTable,
) -> (r: Result<usize, ExrError>)
    requires
        log.inv(),
        pos <= bytes@.len(),
        parts_valid(v@),
        parts_sized(stack_views(old(stacks)@), v@),
    ensures
        r matches Ok(end) ==> part_lines_applied(
            stack_views(old(stacks)@),
            bytes@,
            pos as int,
            required_views(v@),
            log@,
        ) == Ok::<(Seq<Seq<Seq<u32>>>, int), Fault>((stack_views(final(stacks)@), end as int))
            && parts_sized(stack_views(final(stacks)@), v@) && end <= bytes@.len(),
        r matches Err(e) ==> part_lines_applied(
            stack_views(old(stacks)@),
            bytes@,
            pos as int,
            required_views(v@),
            log@,
        ) == Err::<(Seq<Seq<Seq<u32>>>, int), Fault>(e.fault()),
{
    let ghost before = stacks@;
    let ghost ms = required_views(v@);
    assert(bytes.len() == bytes@.len());
    if bytes.len() - pos < 12 {
        return Err(ExrError::invalid("multi-part file: unexpected EOF at chunk"));
    }
    let number: i32 = read_i32(bytes, pos);
    if number < 0 || number as u64 >= v.len() as u64 {
        return Err(ExrError::invalid("multi-part file: part number out of range"));
    }
    let p: usize = number as usize;
    let (y, a, b): (i32, usize, usize) = match read_line_head(bytes, pos as u64 + 4) {
        Some(h) => h,
        None => {
            return Err(ExrError::invalid("multi-part file: chunk runs past EOF"));
        },
    };
    let part: &FlatPart = &v[p];
    proof {
        assert(v@[p as int].sorted());
        assert(ms[p as int] == part.required@);
        assert(stack_views(before)[p as int] == plane_views(before[p as int]@));
        assert(stack_views(before).len() == before.len());
    }
    let planes: &mut Vec<Vec<u32>> = &mut stacks[p];
    match apply_lines(
        planes,
        part.channels.as_slice(),
        part.required.data_window,
        y,
        slice_range(bytes, a, b),
        part.required.compression,
        log,
    ) {
        Ok(_) => {},
        Err(e) => {
            return Err(e);
        },
    }
    proof {
        let after = stack_views(stacks@);
        assert(after =~= stack_views(before).update(p as int, plane_views(stacks@[p as int]@)));
        assert forall|j: int| 0 <= j < after.len() implies planes_sized(
            #[trigger] after[j],
            channel_views(v@[j].channels@),
            v@[j].required@.data_window.columns() as int,
            v@[j].required@.data_window.rows() as int,
        ) by {
            if j != p {
                assert(after[j] == stack_views(before)[j]);
            }
        }
    }
    Ok(b)
}

proof fn lemma_lines_stop(
    s: Seq<u8>,
    start: int,
    ms: Seq<RequiredView>,
    log: Seq<u16>,
    a: int,
    b: int,
)
    requires
        a <= b,
        part_lines_after(s, start, ms, log, a) is Err,
    ensures
        part_lines_after(s, start, ms, log, b) == part_lines_after(s, start, ms, log, a),
    decreases b - a,
{
    if a < b {
        lemma_lines_stop(s, start, ms, log, a, b - 1);
    }
}

/// Read the chunks of all parts.
fn read_part_lines(bytes: &[u8], start: usize, v: &[FlatPart], n: u128, log: &LogTable) -> (r: Result<
    Vec<Vec<Vec<u32>>>,
    ExrError,
>)
    requires
        log.inv(),
        start <= bytes@.len(),
        parts_valid(v@),
    ensures
        r matches Ok(w) ==> part_lines_after(
            bytes@,
            start as int,
            required_views(v@),
            log@,
            n as int,
        ) matches Ok((parts, pos)) && parts == stack_views(w@) && parts_sized(parts, v@),
        r matches Err(e) ==> part_lines_after(
            bytes@,
            start as int,
            required_views(v@),
            log@,
            n as int,
        ) == Err::<(Seq<Seq<Seq<u32>>>, int), Fault>(e.fault()),
{
    let ghost ms = required_views(v@);
    let mut stacks: Vec<Vec<Vec<u32>>> = blank_parts(v);
    let mut pos: usize = start;
    let mut k: u128 = 0;
    assert(ms.len() == v@.len());
    while k < n
        invariant
            k <= n,
            log.inv(),
            pos <= bytes@.len(),
            parts_valid(v@),
            ms == required_views(v@),
            parts_sized(stack_views(stacks@), v@),
            part_lines_after(bytes@, start as int, ms, log@, k as int) == Ok::<
                (Seq<Seq<Seq<u32>>>, int),
                Fault,
            >((stack_views(stacks@), pos as int)),
        decreases n - k,
    {
        match apply_part_lines(&mut stacks, bytes, pos, v, log) {
            Ok(end) => {
                pos = end;
            },
            Err(e) => {
                proof {
                    lemma_lines_stop(bytes@, start as int, ms, log@, k + 1, n as int);
                }
                return Err(e);
            },
        }
        k = k + 1;
    }
    Ok(stacks)
}

/// Put the headers, the parts and their samples together.
fn join_flat_parts(hs: Vec<ParsedHeader>, v: Vec<FlatPart>, stacks: Vec<Vec<Vec<u32>>>) -> (r: Vec<
    ExrImage,
>)
    requires
        hs@.len() == v@.len(),
        parts_valid(v@),
        parts_sized(stack_views(stacks@), v@),
    ensures
        image_views(r@) == part_images(
            header_views(hs@),
            required_views(v@),
            stack_views(stacks@),
        ),
{
    let ghost n = v@.len();
    let ghost (h0, v0, s0) = (hs@, v@, stacks@);
    let ghost want = part_images(header_views(h0), required_views(v0), stack_views(s0));
    let mut hs: Vec<ParsedHeader> = hs;
    let mut v: Vec<FlatPart> = v;
    let mut stacks: Vec<Vec<Vec<u32>>> = stacks;
    let mut out: Vec<ExrImage> = Vec::new();
    assert(stack_views(s0).len() == s0.len());
    while v.len() > 0
        invariant
            hs@.len() == v@.len() == stacks@.len(),
            v@.len() + out@.len() == n,
            n == h0.len() == v0.len() == s0.len(),
            parts_valid(v0),
            parts_sized(stack_views(s0), v0),
            want == part_images(header_views(h0), required_views(v0), stack_views(s0)),
            forall|i: int|
                #![trigger hs@[i]]
                #![trigger v@[i]]
                #![trigger stacks@[i]]
                0 <= i < v@.len() ==> hs@[i] == h0[i] && v@[i] == v0[i] && stacks@[i] == s0[i],
            forall|i: int| 0 <= i < out@.len() ==> (#[trigger] out@[i])@ == want[n - 1 - i],
        decreases v@.len(),
    {
        let ghost k = v@.len() - 1;
        proof {
            assert(hs@[k] == h0[k] && v@[k] == v0[k] && stacks@[k] == s0[k]);
            assert(v0[k].sorted());
            assert(stack_views(s0)[k] == plane_views(s0[k]@));
            assert(planes_sized(
                stack_views(s0)[k],
                channel_views(v0[k].channels@),
                v0[k].required@.data_window.columns() as int,
                v0[k].required@.data_window.rows() as int,
            ));
            assert(plane_views(s0[k]@).len() == s0[k]@.len());
            assert(header_views(h0)[k] == h0[k]@);
        }
        if let (Some(h), Some(p), Some(planes)) = (hs.pop(), v.pop(), stacks.pop()) {
            out.push(make_image(p.required, p.channels, planes, h.attributes));
        }
    }
    let r: Vec<ExrImage> = reversed(out);
    assert(image_views(r@) =~= want);
    r
}

pub open spec fn image_views(v: Seq<ExrImage>) -> Seq<ImageView> {
    Seq::new(v.len(), |i: int| v[i]@)
}

/// Read a file with several parts that are stored line by line.
pub fn parse_exr_multipart(bytes: &[u8], log: &LogTable) -> (r: Result<Vec<ExrImage>, ExrError>)
    requires
        log.inv(),
    ensures
        r matches Ok(v) ==> multipart_of(bytes@, log@) == Ok::<Seq<ImageView>, Fault>(
            image_views(v@),
        ),
        r matches Err(e) ==> multipart_of(bytes@, log@) == Err::<Seq<ImageView>, Fault>(e.fault()),
{
    let hs: Vec<ParsedHeader> = match parse_multipart_headers(bytes) {
        Ok(h) => h,
        Err(e) => {
            return Err(e);
        },
    };
    let ghost hv = header_views(hs@);
    assert(hv.len() == hs@.len());
    if hs.len() == 0 {
        return Err(ExrError::invalid("multi-part file has no parts"));
    }
    if any_foreign(hs.as_slice()) {
        return Err(ExrError::unsupported("multi-part file: part needs another reader"));
    }
    let n: u128 = match count_chunks(hs.as_slice()) {
        Some(n) => n,
        None => {
            return Err(ExrError::invalid("multi-part file: missing chunkCount attribute"));
        },
    };
    let base: usize = hs[hs.len() - 1].end_offset;
    assert(hv.last() == hs@.last()@);
    assert(bytes.len() == bytes@.len());
    assert(hs@[hs@.len() - 1].end_offset <= bytes@.len());
    if 8 * n > (bytes.len() - base) as u128 {
        return Err(ExrError::invalid("multi-part offset tables run past EOF"));
    }
    let start: usize = base + 8 * (n as usize);
    let v: Vec<FlatPart> = match read_flat_parts(hs.as_slice()) {
        Ok(v) => v,
        Err(e) => {
            return Err(e);
        },
    };
    let stacks: Vec<Vec<Vec<u32>>> = match read_part_lines(bytes, start, v.as_slice(), n, log) {
        Ok(s) => s,
        Err(e) => {
            return Err(e);
        },
    };
    Ok(join_flat_parts(hs, v, stacks))
}

} // verus!
