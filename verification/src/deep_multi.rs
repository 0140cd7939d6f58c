//! Deep files with several parts, each stored line by line.

use crate::attrs::{find_string_attr, find_text};
use crate::bytes::{i32_at, lemma_stands_split, lemma_u32_reads_back, read_i32, stands_at};
use crate::deep::{
    count_samples, first_lines, is_sound, lemma_area, lemma_first_lines_ends, lemma_first_lines_step,
    lemma_line_shape, lemma_row_reads_back, line_at, line_labels, make_row_chunks, read_line,
    row_chunk, rows_pack, rows_read_back, samples_counted, scanline_readable, size_agrees, stored_row, DeepView,
    InputView, LineSource,
};
use crate::deep_block::{deep_method, is_deep_method, plane_views, BlockView, DeepBlock};
use crate::deep_input::{
    ascending, check_planes, lemma_no_planes_fault, planes_fault, slice_views, stored_pixels,
    sum_counts,
};
use crate::deep_lines::{
    join_lines, joined, law_joined, lines_fit, take_line, with_line, DeepPixels,
};
use crate::deep_meta::{
    deep_attributes, deep_entries, greatest_count, law_deep_entries, lemma_deep_entries_storable,
    lemma_part_of, part_of, read_part, window_of, DeepLabels, DeepMeta, MetaView,
};
use crate::deep_tiled_multi::board_views;
use crate::deep_tiles::{blank_tiles, no_tiles, tile_views};
use crate::error::{ExrError, Fault};
use crate::header::{
    header_views, length_bytes, lemma_ascii_storable, lemma_multipart_header_reads_back,
    multipart_header_bytes, multipart_headers_of, parse_multipart_headers, put_length, put_magic,
    put_table, reversed, table_bytes, tables_bytes_from, version_of, HeaderView, ParsedHeader,
};
use crate::layout::{
    byte_views, chunk_start, chunks_follow, file_bytes, first_chunk, law_layout, lay_out, lemma_file_parts,
};
use crate::ragged::sum;
use crate::text::str_eq;
use crate::types::{
    channel_views, entry_views, names_ascend, Attribute, Box2i, Channel, Compression, EntryView,
    LineOrder,
};
use vstd::prelude::*;
use vstd::string::*;
use vstd::utf8::*;

verus! {

broadcast use crate::bytes::group_le_len;

/// One part of a deep file, stored line by line.
#[derive(Debug, Clone, PartialEq, Eq)]
pub struct DeepScanlinePart {
    pub name: String,
    pub data_window: Box2i,
    pub display_window: Box2i,
    pub line_order: LineOrder,
    pub compression: Compression,
    pub channels: Vec<Channel>,
    pub samples_per_pixel: Vec<u32>,
    /// Binary32 bit patterns.
    pub channel_samples: Vec<Vec<u32>>,
    pub attributes: Vec<Attribute>,
}

/// What a part stands for.
#[verifier::ext_equal]
pub struct PartView {
    pub name: Seq<char>,
    pub image: DeepView,
}

impl View for DeepScanlinePart {
    type V = PartView;

    open spec fn view(&self) -> PartView {
        PartView {
            name: self.name@,
            image: DeepView {
                meta: MetaView {
                    data_window: self.data_window,
                    display_window: self.display_window,
                    line_order: self.line_order,
                    compression: self.compression,
                    channels: channel_views(self.channels@),
                },
                pixels: BlockView {
                    counts: self.samples_per_pixel@,
                    planes: plane_views(self.channel_samples@),
                },
                entries: entry_views(self.attributes@),
            },
        }
    }
}

/// The parts that a list of [`DeepScanlinePart`] stands for.
pub open spec fn part_views(v: Seq<DeepScanlinePart>) -> Seq<PartView> {
    Seq::new(v.len(), |i: int| v[i]@)
}

impl DeepScanlinePart {
    pub fn width(&self) -> (r: u32)
        ensures
            r == self.data_window.columns(),
    {
        self.data_window.width()
    }

    pub fn height(&self) -> (r: u32)
        ensures
            r == self.data_window.rows(),
    {
        self.data_window.height()
    }

    pub fn total_samples(&self) -> (r: u64)
        requires
            sum(self.samples_per_pixel@) <= u64::MAX,
        ensures
            r == sum(self.samples_per_pixel@),
    {
        count_samples(self.samples_per_pixel.as_slice())
    }
}

// ----------------------------------------------------------------------
// Reading
// ----------------------------------------------------------------------
/// The first fault of the `type` attributes of the parts from `i` on, where
/// every part should have the type `kind`.
pub open spec fn types_fault(hs: Seq<HeaderView>, kind: Seq<char>, i: int) -> Option<Fault>
    decreases hs.len() - i,
{
    if i >= hs.len() {
        None
    } else {
        match find_text(hs[i].entries, "type"@) {
            None => Some(Fault::Invalid),
            Some(t) => if t != kind {
                Some(Fault::Unsupported)
            } else {
                types_fault(hs, kind, i + 1)
            },
        }
    }
}

/// The name of a part and what its header says of it.
#[verifier::ext_equal]
pub struct PartMetaView {
    pub name: Seq<char>,
    pub meta: MetaView,
}

/// What the header of a part says, where the part is stored line by line.
pub open spec fn part_meta_of(h: HeaderView) -> Result<PartMetaView, Fault> {
    match find_text(h.entries, "name"@) {
        None => Err(Fault::Invalid),
        Some(name) => match part_of(h.entries) {
            Err(e) => Err(e),
            Ok((count, meta)) => if size_agrees(meta, count, meta.data_window.rows() as int) {
                Ok(PartMetaView { name, meta })
            } else {
                Err(Fault::Invalid)
            },
        },
    }
}

/// What the headers of the first `k` parts say.
pub open spec fn part_metas_of(hs: Seq<HeaderView>, k: int) -> Result<Seq<PartMetaView>, Fault>
    decreases k,
{
    if k <= 0 {
        Ok(Seq::empty())
    } else {
        match part_metas_of(hs, k - 1) {
            Err(e) => Err(e),
            Ok(ms) => match part_meta_of(hs[k - 1]) {
                Err(e) => Err(e),
                Ok(m) => Ok(ms.push(m)),
            },
        }
    }
}

/// The rows of the first `k` parts.
pub open spec fn rows_of(ms: Seq<PartMetaView>, k: int) -> int
    decreases k,
{
    if k <= 0 {
        0
    } else {
        rows_of(ms, k - 1) + ms[k - 1].meta.data_window.rows()
    }
}

/// The lines of all parts before any chunk.
pub open spec fn blank_parts(ms: Seq<PartMetaView>) -> Seq<Seq<Option<BlockView>>> {
    Seq::new(ms.len(), |i: int| no_tiles(ms[i].meta.data_window.rows() as int))
}

/// The lines of all parts with the one whose chunk stands at `pos`, and the
/// position behind it. A chunk begins with the number of its part.
pub open spec fn with_part_line(
    s: Seq<u8>,
    pos: int,
    ms: Seq<PartMetaView>,
    parts: Seq<Seq<Option<BlockView>>>,
) -> Option<(Seq<Seq<Option<BlockView>>>, int)> {
    let p = i32_at(s, pos) as int;
    if pos + 4 > s.len() || p < 0 || p >= ms.len() {
        None
    } else {
        match line_at(s, pos + 4, ms[p].meta) {
            None => None,
            Some((row, line, end)) => Some(
                (parts.update(p, with_line(parts[p], row, line)), end),
            ),
        }
    }
}

/// The lines of all parts after the first `k` chunks from `start` on, and the
/// position behind those chunks.
pub open spec fn parts_after(s: Seq<u8>, start: int, ms: Seq<PartMetaView>, k: int) -> Option<
    (Seq<Seq<Option<BlockView>>>, int),
>
    decreases k,
{
    if k <= 0 {
        Some((blank_parts(ms), start))
    } else {
        match parts_after(s, start, ms, k - 1) {
            None => None,
            Some((parts, pos)) => with_part_line(s, pos, ms, parts),
        }
    }
}

/// A part, from what its header says and its lines.
pub open spec fn finished_part(
    m: PartMetaView,
    lines: Seq<Option<BlockView>>,
    entries: Seq<EntryView>,
) -> PartView {
    PartView {
        name: m.name,
        image: DeepView {
            meta: m.meta,
            pixels: joined(
                lines,
                m.meta.data_window.columns() as int,
                m.meta.channels.len(),
                m.meta.data_window.rows() as int,
            ),
            entries,
        },
    }
}

/// The parts of a deep file whose parts are stored line by line. Its chunks
/// stand one behind the other; the offset tables in front of them are passed
/// over, for they may hold nothing but zeros. Of a line that stands there more
/// than once the last counts, and one that does not stand there has no samples.
pub open spec fn deep_multipart_of(s: Seq<u8>) -> Result<Seq<PartView>, Fault> {
    match multipart_headers_of(s) {
        Err(e) => Err(e),
        Ok(hs) => if hs.len() == 0 {
            Err(Fault::Invalid)
        } else {
            match types_fault(hs, "deepscanline"@, 0) {
                Some(f) => Err(f),
                None => if !hs[0].version.non_image {
                    Err(Fault::Invalid)
                } else {
                    match part_metas_of(hs, hs.len() as int) {
                        Err(e) => Err(e),
                        Ok(ms) => {
                            let n = rows_of(ms, ms.len() as int);
                            let start = hs[hs.len() - 1].end + 8 * n;
                            if start > s.len() {
                                Err(Fault::Invalid)
                            } else {
                                match parts_after(s, start, ms, n) {
                                    None => Err(Fault::Invalid),
                                    Some((parts, _)) => Ok(
                                        Seq::new(
                                            ms.len(),
                                            |i: int|
                                                finished_part(ms[i], parts[i], hs[i].entries),
                                        ),
                                    ),
                                }
                            }
                        },
                    }
                },
            }
        },
    }
}

/// The name of a part and what its header says of it.
pub struct PartMeta {
    pub name: String,
    pub meta: DeepMeta,
}

impl View for PartMeta {
    type V = PartMetaView;

    open spec fn view(&self) -> PartMetaView {
        PartMetaView { name: self.name@, meta: self.meta@ }
    }
}

pub open spec fn part_meta_views(v: Seq<PartMeta>) -> Seq<PartMetaView> {
    Seq::new(v.len(), |i: int| v[i]@)
}

/// Check the types of all parts.
pub fn check_types(hs: &[ParsedHeader], kind: &str) -> (r: Result<(), ExrError>)
    ensures
        r is Ok <==> types_fault(header_views(hs@), kind@, 0) is None,
        r matches Err(e) ==> types_fault(header_views(hs@), kind@, 0) == Some(e.fault()),
{
    let ghost hv = header_views(hs@);
    let mut i: usize = 0;
    while i < hs.len()
        invariant
            i <= hs@.len(),
            hv == header_views(hs@),
            types_fault(hv, kind@, 0) == types_fault(hv, kind@, i as int),
        decreases hs@.len() - i,
    {
        assert(hv[i as int] == hs@[i as int]@);
        match find_string_attr(hs[i].attributes.as_slice(), "type") {
            Some(t) => {
                if !str_eq(t.as_str(), kind) {
                    return Err(ExrError::unsupported("multi-part file: part of another type"));
                }
            },
            None => {
                return Err(ExrError::invalid("multi-part file: part without a 'type' attribute"));
            },
        }
        i = i + 1;
    }
    Ok(())
}

/// Read what the header of a part says.
fn read_part_meta(h: &ParsedHeader) -> (r: Result<PartMeta, ExrError>)
    ensures
        r matches Ok(m) ==> part_meta_of(h@) == Ok::<PartMetaView, Fault>(m@),
        r matches Err(e) ==> part_meta_of(h@) == Err::<PartMetaView, Fault>(e.fault()),
{
    let name: String = match find_string_attr(h.attributes.as_slice(), "name") {
        Some(t) => t,
        None => {
            return Err(ExrError::invalid("multi-part deep part without a 'name' attribute"));
        },
    };
    let (count, meta) = read_part(h.attributes.as_slice())?;
    let w: u32 = meta.data_window.width();
    let rows: u32 = meta.data_window.height();
    if w == 0 || rows == 0 {
        return Err(ExrError::invalid("multi-part deep dataWindow must not be empty"));
    }
    if count as i64 != rows as i64 {
        return Err(ExrError::invalid("multi-part deep chunkCount disagrees with the height"));
    }
    proof {
        lemma_area(w, rows);
    }
    if w as u64 * rows as u64 > usize::MAX as u64 {
        return Err(ExrError::invalid("multi-part deep dataWindow too large"));
    }
    Ok(PartMeta { name, meta })
}

proof fn lemma_metas_stop(hs: Seq<HeaderView>, k: int, n: int)
    requires
        k <= n,
        part_metas_of(hs, k) is Err,
    ensures
        part_metas_of(hs, n) == part_metas_of(hs, k),
    decreases n - k,
{
    if k < n {
        lemma_metas_stop(hs, k, n - 1);
    }
}

/// Every part that was read has a size that agrees with its chunks.
pub open spec fn metas_valid(ms: Seq<PartMetaView>) -> bool {
    forall|i: int|
        0 <= i < ms.len() ==> {
            let b = (#[trigger] ms[i]).meta.data_window;
            b.columns() > 0 && b.rows() > 0 && b.rows() <= 0x7fff_ffff && b.columns() * b.rows()
                <= usize::MAX
        }
}

fn read_part_metas(hs: &[ParsedHeader]) -> (r: Result<Vec<PartMeta>, ExrError>)
    ensures
        r matches Ok(ms) ==> part_metas_of(header_views(hs@), hs@.len() as int) == Ok::<
            Seq<PartMetaView>,
            Fault,
        >(part_meta_views(ms@)) && ms@.len() == hs@.len() && metas_valid(part_meta_views(ms@)),
        r matches Err(e) ==> part_metas_of(header_views(hs@), hs@.len() as int) == Err::<
            Seq<PartMetaView>,
            Fault,
        >(e.fault()),
{
    let ghost hv = header_views(hs@);
    let mut out: Vec<PartMeta> = Vec::new();
    let mut i: usize = 0;
    assert(part_meta_views(out@) =~= Seq::empty());
    while i < hs.len()
        invariant
            i <= hs@.len(),
            hv == header_views(hs@),
            out@.len() == i,
            metas_valid(part_meta_views(out@)),
            part_metas_of(hv, i as int) == Ok::<Seq<PartMetaView>, Fault>(part_meta_views(out@)),
        decreases hs@.len() - i,
    {
        assert(hv[i as int] == hs@[i as int]@);
        let ghost before = part_meta_views(out@);
        match read_part_meta(&hs[i]) {
            Ok(m) => {
                let ghost mv = m@;
                out.push(m);
                proof {
                    assert(part_meta_views(out@) =~= before.push(mv));
                    assert forall|j: int| 0 <= j < i + 1 implies {
                        let b = (#[trigger] part_meta_views(out@)[j]).meta.data_window;
                        b.columns() > 0 && b.rows() > 0 && b.rows() <= 0x7fff_ffff && b.columns()
                            * b.rows() <= usize::MAX
                    } by {
                        if j < i {
                            assert(before[j] == part_meta_views(out@)[j]);
                        }
                    }
                }
            },
            Err(e) => {
                proof {
                    lemma_metas_stop(hv, i + 1, hs@.len() as int);
                }
                return Err(e);
            },
        }
        i = i + 1;
    }
    Ok(out)
}

/// The number of the rows of all parts.
fn count_rows(ms: &[PartMeta]) -> (r: u128)
    ensures
        r == rows_of(part_meta_views(ms@), ms@.len() as int),
{
    let ghost mv = part_meta_views(ms@);
    let mut n: u128 = 0;
    let mut i: usize = 0;
    let ghost len = ms.len();
    while i < ms.len()
        invariant
            i <= ms@.len(),
            len == ms@.len(),
            mv == part_meta_views(ms@),
            n == rows_of(mv, i as int),
            n <= 0xffff_ffff * i,
        decreases ms@.len() - i,
    {
        assert(mv[i as int] == ms@[i as int]@);
        n = n + ms[i].meta.data_window.height() as u128;
        i = i + 1;
    }
    n
}

/// Lists for the lines of every part.
fn make_line_boards(ms: &[PartMeta]) -> (r: Vec<Vec<Option<DeepBlock>>>)
    ensures
        board_views(r@) == blank_parts(part_meta_views(ms@)),
{
    let ghost mv = part_meta_views(ms@);
    let mut out: Vec<Vec<Option<DeepBlock>>> = Vec::new();
    let mut i: usize = 0;
    while i < ms.len()
        invariant
            i <= ms@.len(),
            mv == part_meta_views(ms@),
            out@.len() == i,
            forall|j: int| 0 <= j < i ==> tile_views((#[trigger] out@[j])@) == blank_parts(mv)[j],
        decreases ms@.len() - i,
    {
        assert(mv[i as int] == ms@[i as int]@);
        out.push(blank_tiles(ms[i].meta.data_window.height() as usize));
        i = i + 1;
    }
    assert(board_views(out@) =~= blank_parts(mv));
    out
}

/// The lines of every part have the shape that its header gives them.
pub open spec fn parts_fit(ms: Seq<PartMetaView>, parts: Seq<Seq<Option<BlockView>>>) -> bool {
    &&& parts.len() == ms.len()
    &&& forall|i: int|
        0 <= i < ms.len() ==> (#[trigger] parts[i]).len() == ms[i].meta.data_window.rows()
            && lines_fit(
            parts[i],
            ms[i].meta.data_window.columns() as int,
            ms[i].meta.channels.len(),
        )
}

/// The lines of the parts keep their shape while chunks are read.
proof fn lemma_parts_shape(s: Seq<u8>, start: int, ms: Seq<PartMetaView>, k: int)
    ensures
        parts_after(s, start, ms, k) matches Some((parts, pos)) ==> parts_fit(ms, parts),
    decreases k,
{
    if k > 0 {
        lemma_parts_shape(s, start, ms, k - 1);
        if let Some((before, pos)) = parts_after(s, start, ms, k - 1) {
            let p = i32_at(s, pos) as int;
            if 0 <= p < ms.len() {
                lemma_line_shape(s, pos + 4, ms[p].meta);
                assert(before[p].len() == ms[p].meta.data_window.rows());
            }
        }
    }
}

proof fn lemma_parts_stop(s: Seq<u8>, start: int, ms: Seq<PartMetaView>, k: int, n: int)
    requires
        k <= n,
        parts_after(s, start, ms, k) is None,
    ensures
        parts_after(s, start, ms, n) is None,
    decreases n - k,
{
    if k < n {
        lemma_parts_stop(s, start, ms, k, n - 1);
    }
}

/// Read the chunk of a part at `pos`.
fn read_part_line(s: &[u8], pos: usize, ms: &[PartMeta]) -> (r: Result<
    (usize, u32, DeepBlock, usize),
    ExrError,
>)
    requires
        pos <= s@.len(),
        metas_valid(part_meta_views(ms@)),
    ensures
        r matches Ok((p, row, line, end)) ==> {
            &&& p < ms@.len()
            &&& pos + 4 <= s@.len()
            &&& i32_at(s@, pos as int) == p
            &&& line_at(s@, pos + 4, ms@[p as int].meta@) == Some((row as int, line@, end as int))
            &&& row < ms@[p as int].meta.data_window.rows()
            &&& end <= s@.len()
        },
        r matches Err(e) ==> e.fault() == Fault::Invalid && {
            let p = i32_at(s@, pos as int) as int;
            ||| pos + 4 > s@.len()
            ||| p < 0
            ||| p >= ms@.len()
            ||| line_at(s@, pos + 4, ms@[p].meta@) is None
        },
{
    let n: usize = s.len();
    if n - pos < 4 {
        return Err(ExrError::invalid("multi-part deep: unexpected EOF at a chunk"));
    }
    let p: i32 = read_i32(s, pos);
    if p < 0 || p as u64 >= ms.len() as u64 {
        return Err(ExrError::invalid("multi-part deep: part number out of range"));
    }
    let part: usize = p as usize;
    assert(part_meta_views(ms@)[part as int] == ms@[part as int]@);
    let (row, line, end) = read_line(s, (pos + 4) as u64, &ms[part].meta)?;
    Ok((part, row, line, end))
}

/// Read the lines of all parts, whose chunks stand from `start` on.
fn read_parts(s: &[u8], start: usize, ms: &[PartMeta], n: u128) -> (r: Result<
    Vec<Vec<Option<DeepBlock>>>,
    ExrError,
>)
    requires
        start <= s@.len(),
        metas_valid(part_meta_views(ms@)),
    ensures
        r matches Ok(v) ==> parts_after(s@, start as int, part_meta_views(ms@), n as int) matches Some(
            (parts, pos),
        ) && parts == board_views(v@),
        r matches Err(e) ==> e.fault() == Fault::Invalid && parts_after(
            s@,
            start as int,
            part_meta_views(ms@),
            n as int,
        ) is None,
{
    let ghost mv = part_meta_views(ms@);
    let mut state: Vec<Vec<Option<DeepBlock>>> = make_line_boards(ms);
    let mut pos: usize = start;
    let mut k: u128 = 0;
    while k < n
        invariant
            k <= n,
            mv == part_meta_views(ms@),
            metas_valid(mv),
            pos <= s@.len(),
            parts_after(s@, start as int, mv, k as int) == Some((board_views(state@), pos as int)),
        decreases n - k,
    {
        proof {
            lemma_parts_shape(s@, start as int, mv, k as int);
        }
        match take_part_line(s, pos, ms, &mut state) {
            Ok(end) => {
                pos = end;
            },
            Err(e) => {
                proof {
                    lemma_parts_stop(s@, start as int, mv, k + 1, n as int);
                }
                return Err(e);
            },
        }
        k = k + 1;
    }
    Ok(state)
}

/// Read the chunk at `pos`, and take its line among those of its part.
fn take_part_line(s: &[u8], pos: usize, ms: &[PartMeta], state: &mut Vec<Vec<Option<DeepBlock>>>) -> (r:
    Result<usize, ExrError>)
    requires
        pos <= s@.len(),
        metas_valid(part_meta_views(ms@)),
        parts_fit(part_meta_views(ms@), board_views(old(state)@)),
    ensures
        r matches Ok(end) ==> end <= s@.len() && with_part_line(
            s@,
            pos as int,
            part_meta_views(ms@),
            board_views(old(state)@),
        ) == Some((board_views(final(state)@), end as int)),
        r matches Err(e) ==> e.fault() == Fault::Invalid && with_part_line(
            s@,
            pos as int,
            part_meta_views(ms@),
            board_views(old(state)@),
        ) is None,
{
    let ghost mv = part_meta_views(ms@);
    let ghost before = board_views(state@);
    match read_part_line(s, pos, ms) {
        Ok((p, row, line, end)) => {
            proof {
                assert(mv[p as int] == ms@[p as int]@);
                assert(before[p as int] == tile_views(state@[p as int]@));
                assert(before[p as int].len() == mv[p as int].meta.data_window.rows());
            }
            let part: &mut Vec<Option<DeepBlock>> = &mut state[p];
            take_line(part, row as usize, line);
            assert(board_views(state@) =~= before.update(p as int, tile_views(state@[p as int]@)));
            Ok(end)
        },
        Err(e) => {
            proof {
                let p = i32_at(s@, pos as int) as int;
                if 0 <= p < ms@.len() {
                    assert(mv[p] == ms@[p]@);
                }
            }
            Err(e)
        },
    }
}

/// Put the lines of every part together.
fn join_boards(ms: &[PartMeta], boards: &[Vec<Option<DeepBlock>>]) -> (r: Vec<DeepPixels>)
    requires
        parts_fit(part_meta_views(ms@), board_views(boards@)),
    ensures
        r@.len() == ms@.len(),
        forall|i: int|
            0 <= i < ms@.len() ==> (#[trigger] r@[i])@ == joined(
                board_views(boards@)[i],
                ms@[i]@.meta.data_window.columns() as int,
                ms@[i]@.meta.channels.len(),
                ms@[i]@.meta.data_window.rows() as int,
            ),
{
    let ghost mv = part_meta_views(ms@);
    let ghost bv = board_views(boards@);
    let mut out: Vec<DeepPixels> = Vec::new();
    let mut i: usize = 0;
    while i < ms.len()
        invariant
            i <= ms@.len(),
            mv == part_meta_views(ms@),
            bv == board_views(boards@),
            parts_fit(mv, bv),
            out@.len() == i,
            forall|j: int|
                0 <= j < i ==> (#[trigger] out@[j])@ == joined(
                    bv[j],
                    ms@[j]@.meta.data_window.columns() as int,
                    ms@[j]@.meta.channels.len(),
                    ms@[j]@.meta.data_window.rows() as int,
                ),
        decreases ms@.len() - i,
    {
        proof {
            assert(mv[i as int] == ms@[i as int]@);
            assert(bv[i as int] == tile_views(boards@[i as int]@));
            assert(bv[i as int].len() == mv[i as int].meta.data_window.rows());
        }
        let pixels: DeepPixels = join_lines(
            boards[i].as_slice(),
            ms[i].meta.data_window.width(),
            ms[i].meta.channels.len(),
        );
        out.push(pixels);
        i = i + 1;
    }
    out
}

/// Put what was read of the parts together.
fn join_parts(hs: Vec<ParsedHeader>, ms: Vec<PartMeta>, pixels: Vec<DeepPixels>) -> (r: Vec<
    DeepScanlinePart,
>)
    requires
        hs@.len() == ms@.len() == pixels@.len(),
    ensures
        part_views(r@) == Seq::new(
            ms@.len(),
            |i: int|
                PartView {
                    name: ms@[i]@.name,
                    image: DeepView {
                        meta: ms@[i]@.meta,
                        pixels: pixels@[i]@,
                        entries: hs@[i]@.entries,
                    },
                },
        ),
{
    let ghost n = ms@.len();
    let ghost (h0, m0, p0) = (hs@, ms@, pixels@);
    let mut hs: Vec<ParsedHeader> = hs;
    let mut ms: Vec<PartMeta> = ms;
    let mut pixels: Vec<DeepPixels> = pixels;
    let mut out: Vec<DeepScanlinePart> = Vec::new();
    while ms.len() > 0
        invariant
            hs@.len() == ms@.len() == pixels@.len(),
            ms@.len() + out@.len() == n,
            n == h0.len() == m0.len() == p0.len(),
            forall|i: int|
                #![trigger hs@[i]]
                #![trigger ms@[i]]
                #![trigger pixels@[i]]
                0 <= i < ms@.len() ==> hs@[i] == h0[i] && ms@[i] == m0[i] && pixels@[i] == p0[i],
            forall|i: int|
                0 <= i < out@.len() ==> (#[trigger] out@[i])@ == (PartView {
                    name: m0[n - 1 - i]@.name,
                    image: DeepView {
                        meta: m0[n - 1 - i]@.meta,
                        pixels: p0[n - 1 - i]@,
                        entries: h0[n - 1 - i]@.entries,
                    },
                }),
        decreases ms@.len(),
    {
        let ghost k = ms@.len() - 1;
        assert(hs@[k] == h0[k] && ms@[k] == m0[k] && pixels@[k] == p0[k]);
        if let (Some(h), Some(m), Some(p)) = (hs.pop(), ms.pop(), pixels.pop()) {
            out.push(
                DeepScanlinePart {
                    name: m.name,
                    data_window: m.meta.data_window,
                    display_window: m.meta.display_window,
                    line_order: m.meta.line_order,
                    compression: m.meta.compression,
                    channels: m.meta.channels,
                    samples_per_pixel: p.counts,
                    channel_samples: p.planes,
                    attributes: h.attributes,
                },
            );
        }
    }
    let r: Vec<DeepScanlinePart> = reversed(out);
    assert(part_views(r@) =~= Seq::new(
        n,
        |i: int|
            PartView {
                name: m0[i]@.name,
                image: DeepView { meta: m0[i]@.meta, pixels: p0[i]@, entries: h0[i]@.entries },
            },
    ));
    r
}

/// Parse a deep file with several parts that are stored line by line.
pub fn parse_exr_deep_multipart(bytes: &[u8]) -> (r: Result<Vec<DeepScanlinePart>, ExrError>)
    ensures
        r matches Ok(v) ==> deep_multipart_of(bytes@) == Ok::<Seq<PartView>, Fault>(part_views(v@)),
        r matches Ok(v) ==> forall|i: int|
            0 <= i < v@.len() ==> samples_counted(#[trigger] part_views(v@)[i].image),
        r matches Err(e) ==> deep_multipart_of(bytes@) == Err::<Seq<PartView>, Fault>(e.fault()),
{
    let headers: Vec<ParsedHeader> = parse_multipart_headers(bytes)?;
    let ghost hv = header_views(headers@);
    let n: usize = headers.len();
    if n == 0 {
        return Err(ExrError::invalid("multi-part deep file has no parts"));
    }
    check_types(headers.as_slice(), "deepscanline")?;
    proof {
        assert(hv[0] == headers@[0]@);
        assert(hv[n - 1] == headers@[n - 1]@);
    }
    if !headers[0].version.non_image {
        return Err(ExrError::invalid("multi-part file without the deep version bit"));
    }
    let metas: Vec<PartMeta> = read_part_metas(headers.as_slice())?;
    let rows: u128 = count_rows(metas.as_slice());
    let end: usize = headers[n - 1].end_offset;
    let left: usize = bytes.len() - end;
    if rows > left as u128 / 8 {
        return Err(ExrError::invalid("multi-part deep offset tables run past EOF"));
    }
    let start: usize = end + 8 * rows as usize;
    let boards: Vec<Vec<Option<DeepBlock>>> = read_parts(bytes, start, metas.as_slice(), rows)?;
    let ghost mv = part_meta_views(metas@);
    let ghost bv = board_views(boards@);
    proof {
        lemma_parts_shape(bytes@, start as int, mv, rows as int);
    }
    let pixels: Vec<DeepPixels> = join_boards(metas.as_slice(), boards.as_slice());
    let ghost (h0, m0, p0) = (headers@, metas@, pixels@);
    let parts: Vec<DeepScanlinePart> = join_parts(headers, metas, pixels);
    proof {
        assert forall|i: int| 0 <= i < mv.len() implies #[trigger] part_views(parts@)[i]
            == finished_part(mv[i], bv[i], hv[i].entries) by {
            assert(mv[i] == m0[i]@);
            assert(hv[i] == h0[i]@);
            assert(p0[i]@ == joined(
                bv[i],
                mv[i].meta.data_window.columns() as int,
                mv[i].meta.channels.len(),
                mv[i].meta.data_window.rows() as int,
            ));
        }
        assert(part_views(parts@) =~= Seq::new(
            mv.len(),
            |i: int| finished_part(mv[i], bv[i], hv[i].entries),
        ));
        assert forall|i: int| 0 <= i < part_views(parts@).len() implies samples_counted(
            #[trigger] part_views(parts@)[i].image,
        ) by {
            assert(bv[i].len() == mv[i].meta.data_window.rows());
            law_joined(
                bv[i],
                mv[i].meta.data_window.columns() as int,
                mv[i].meta.channels.len(),
                mv[i].meta.data_window.rows() as int,
            );
            assert(part_views(parts@)[i] == finished_part(mv[i], bv[i], hv[i].entries));
        }
    }
    Ok(parts)
}

// ----------------------------------------------------------------------
// Writing
// ----------------------------------------------------------------------
/// One part of a deep file to be written line by line.
pub struct MultipartDeepScanlinePart<'a> {
    /// The name of the part, which no other part of the file has.
    pub name: String,
    pub width: u32,
    pub height: u32,
    /// Channels in the order of their names.
    pub channels: Vec<Channel>,
    /// How many samples each pixel has.
    pub samples_per_pixel: &'a [u32],
    /// The samples of each channel, as binary32 bit patterns.
    pub channel_samples: Vec<&'a [u32]>,
    pub compression: Compression,
}

/// What a part to be written stands for.
#[verifier::ext_equal]
pub struct NamedInput {
    pub name: Seq<char>,
    pub input: InputView,
}

impl<'a> View for MultipartDeepScanlinePart<'a> {
    type V = NamedInput;

    open spec fn view(&self) -> NamedInput {
        NamedInput {
            name: self.name@,
            input: InputView {
                width: self.width,
                height: self.height,
                channels: channel_views(self.channels@),
                counts: self.samples_per_pixel@,
                planes: slice_views(self.channel_samples@),
                compression: self.compression,
            },
        }
    }
}

/// The parts that a list of parts to be written stands for.
pub open spec fn input_views(v: Seq<MultipartDeepScanlinePart>) -> Seq<NamedInput> {
    Seq::new(v.len(), |i: int| v[i]@)
}

/// The first fault of a part, apart from its name.
pub open spec fn named_fault(v: InputView) -> Option<Fault> {
    if !is_deep_method(v.compression) {
        Some(Fault::Unsupported)
    } else if v.width == 0 || v.height == 0 || v.counts.len() != v.width * v.height
        || v.channels.len() != v.planes.len() || !names_ascend(v.channels) {
        Some(Fault::Invalid)
    } else {
        planes_fault(v.channels, v.planes, sum(v.counts), 0)
    }
}

/// The name of part `i` is empty, or another part has it too.
pub open spec fn name_clashes(names: Seq<Seq<char>>, i: int) -> bool {
    names[i].len() == 0 || exists|j: int| 0 <= j < names.len() && j != i && names[j] == #[trigger] names[i]
}

/// The names of the parts.
pub open spec fn names_of(v: Seq<NamedInput>) -> Seq<Seq<char>> {
    Seq::new(v.len(), |i: int| v[i].name)
}

/// The first fault of the parts from `i` on.
pub open spec fn parts_fault(v: Seq<NamedInput>, i: int) -> Option<Fault>
    decreases v.len() - i,
{
    if i >= v.len() {
        None
    } else if name_clashes(names_of(v), i) {
        Some(Fault::Invalid)
    } else {
        match named_fault(v[i].input) {
            Some(f) => Some(f),
            None => parts_fault(v, i + 1),
        }
    }
}

/// Parts without faults are sound.
proof fn lemma_no_parts_fault(v: Seq<NamedInput>, i: int)
    requires
        0 <= i,
        parts_fault(v, i) is None,
    ensures
        forall|k: int|
            i <= k < v.len() ==> is_sound((#[trigger] v[k]).input) && v[k].input.width > 0
                && v[k].input.height > 0,
    decreases v.len() - i,
{
    if i < v.len() {
        let x = v[i].input;
        lemma_no_planes_fault(x.channels, x.planes, sum(x.counts), 0);
        lemma_no_parts_fault(v, i + 1);
    }
}

/// The attributes of a part.
pub open spec fn part_entries(v: NamedInput) -> Seq<EntryView> {
    deep_entries(line_labels(v.input), v.input.channels, Some(v.name), None, "deepscanline"@)
}

/// The attribute tables of all parts.
pub open spec fn part_tables(v: Seq<NamedInput>) -> Seq<Seq<EntryView>> {
    Seq::new(v.len(), |i: int| part_entries(v[i]))
}

/// The version field of a deep file with several parts: version 2, and the
/// flags for deep data and for several parts.
pub const DEEP_PARTS_VERSION: u32 = 0x1802;

/// The chunks of part `i`, each behind the number of the part.
pub open spec fn numbered_chunks(v: InputView, i: int) -> Seq<Seq<u8>> {
    Seq::new(v.height as nat, |y: int| length_bytes(i as nat) + row_chunk(v, y))
}

/// The chunks of the first `k` parts.
pub open spec fn all_chunks(v: Seq<NamedInput>, k: int) -> Seq<Seq<u8>>
    decreases k,
{
    if k <= 0 {
        Seq::empty()
    } else {
        all_chunks(v, k - 1) + numbered_chunks(v[k - 1].input, k - 1)
    }
}

/// Every part can be stored.
pub open spec fn parts_pack(v: Seq<NamedInput>) -> bool {
    forall|i: int| 0 <= i < v.len() ==> rows_pack((#[trigger] v[i]).input)
}

/// The header of a deep file with several parts.
pub open spec fn parts_header(v: Seq<NamedInput>) -> Seq<u8> {
    multipart_header_bytes(DEEP_PARTS_VERSION, part_tables(v))
}

/// The file for the parts.
pub open spec fn deep_multipart_file(v: Seq<NamedInput>) -> Result<Seq<u8>, Fault> {
    if v.len() == 0 {
        Err(Fault::Invalid)
    } else {
        match parts_fault(v, 0) {
            Some(f) => Err(f),
            None => if parts_pack(v) {
                Ok(file_bytes(parts_header(v), all_chunks(v, v.len() as int)))
            } else {
                Err(Fault::Invalid)
            },
        }
    }
}

/// Parts whose file reads back: each would alone, its name is not too long,
/// and the parts can be counted in a signed 32-bit integer.
pub open spec fn parts_readable(v: Seq<NamedInput>) -> bool {
    &&& v.len() <= 0x7fff_ffff
    &&& forall|i: int|
        0 <= i < v.len() ==> scanline_readable((#[trigger] v[i]).input) && encode_utf8(v[i].name).len()
            < 0x8000_0000
}

/// What the file for the parts holds.
pub open spec fn part_images(v: Seq<NamedInput>) -> Seq<PartView> {
    Seq::new(
        v.len(),
        |i: int|
            PartView {
                name: v[i].name,
                image: DeepView {
                    meta: image_meta(v[i].input),
                    pixels: stored_pixels(v[i].input.counts, v[i].input.planes, v[i].input.channels),
                    entries: part_entries(v[i]),
                },
            },
    )
}

/// What the header of an image that was written says of it.
pub open spec fn image_meta(v: InputView) -> MetaView {
    MetaView {
        data_window: window_of(v.width, v.height),
        display_window: window_of(v.width, v.height),
        line_order: LineOrder::IncreasingY,
        compression: v.compression,
        channels: v.channels,
    }
}

/// The texts that a list of strings stands for.
pub open spec fn str_views(v: Seq<&str>) -> Seq<Seq<char>> {
    Seq::new(v.len(), |i: int| v[i]@)
}

/// The name of part `i` clashes.
pub fn clashes(names: &Vec<&str>, i: usize) -> (r: bool)
    requires
        i < names@.len(),
    ensures
        r == name_clashes(str_views(names@), i as int),
{
    let ghost nv = str_views(names@);
    assert(nv[i as int] == names@[i as int]@);
    let name: &str = names[i];
    if name.is_empty() {
        return true;
    }
    let mut j: usize = 0;
    while j < names.len()
        invariant
            j <= names@.len(),
            i < names@.len(),
            nv == str_views(names@),
            name@ == nv[i as int],
            forall|k: int| 0 <= k < j && k != i ==> #[trigger] nv[k] != nv[i as int],
        decreases names@.len() - j,
    {
        assert(nv[j as int] == names@[j as int]@);
        if j != i && str_eq(names[j], name) {
            return true;
        }
        j = j + 1;
    }
    false
}

/// The names of the parts.
fn list_names<'b>(parts: &'b [MultipartDeepScanlinePart]) -> (r: Vec<&'b str>)
    ensures
        str_views(r@) == names_of(input_views(parts@)),
{
    let mut r: Vec<&'b str> = Vec::new();
    let mut i: usize = 0;
    while i < parts.len()
        invariant
            i <= parts@.len(),
            r@.len() == i,
            forall|j: int| 0 <= j < i ==> (#[trigger] r@[j])@ == parts@[j].name@,
        decreases parts@.len() - i,
    {
        r.push(parts[i].name.as_str());
        i = i + 1;
    }
    assert(str_views(r@) =~= names_of(input_views(parts@)));
    r
}

/// Check a part, apart from its name.
fn check_part(v: &MultipartDeepScanlinePart) -> (r: Result<(), ExrError>)
    ensures
        r is Ok <==> named_fault(v@.input) is None,
        r matches Err(e) ==> named_fault(v@.input) == Some(e.fault()),
{
    if !deep_method(v.compression) {
        return Err(ExrError::unsupported("deep compression is not one of NONE, RLE and ZIPS"));
    }
    if v.width == 0 || v.height == 0 {
        return Err(ExrError::invalid("deep part: dataWindow must not be empty"));
    }
    proof {
        lemma_area(v.width, v.height);
    }
    if v.samples_per_pixel.len() as u64 != v.width as u64 * v.height as u64 {
        return Err(ExrError::invalid("deep part: samples_per_pixel does not have width * height items"));
    }
    if v.channels.len() != v.channel_samples.len() {
        return Err(ExrError::invalid("deep part: channels and channel_samples differ in number"));
    }
    if !ascending(v.channels.as_slice()) {
        return Err(ExrError::invalid("deep part: channels not alphabetical"));
    }
    let n: u128 = sum_counts(v.samples_per_pixel);
    check_planes(v.channels.as_slice(), &v.channel_samples, n)
}

fn check_parts(parts: &[MultipartDeepScanlinePart]) -> (r: Result<(), ExrError>)
    ensures
        r is Ok <==> parts_fault(input_views(parts@), 0) is None,
        r matches Err(e) ==> parts_fault(input_views(parts@), 0) == Some(e.fault()),
{
    let ghost pv = input_views(parts@);
    let names: Vec<&str> = list_names(parts);
    let mut i: usize = 0;
    assert(str_views(names@).len() == parts@.len());
    while i < parts.len()
        invariant
            i <= parts@.len(),
            pv == input_views(parts@),
            names@.len() == parts@.len(),
            str_views(names@) == names_of(pv),
            parts_fault(pv, 0) == parts_fault(pv, i as int),
        decreases parts@.len() - i,
    {
        assert(pv[i as int] == parts@[i as int]@);
        if clashes(&names, i) {
            return Err(ExrError::invalid("deep part: empty or duplicate name"));
        }
        check_part(&parts[i])?;
        i = i + 1;
    }
    Ok(())
}

/// Append the attribute table of one part.
fn put_part_table(out: &mut Vec<u8>, p: &MultipartDeepScanlinePart)
    requires
        p.width > 0,
        p.height > 0,
    ensures
        final(out)@ == old(out)@ + table_bytes(part_entries(p@)),
{
    let labels: DeepLabels = DeepLabels {
        chunk_count: p.height,
        width: p.width,
        height: p.height,
        max_samples: greatest_count(p.samples_per_pixel),
        compression: p.compression,
    };
    let attributes: Vec<Attribute> = deep_attributes(
        &labels,
        p.channels.as_slice(),
        Some(p.name.as_str()),
        None,
        "deepscanline",
    );
    put_table(out, attributes.as_slice());
}

/// The header of a file with several parts.
fn make_parts_header(parts: &[MultipartDeepScanlinePart]) -> (out: Vec<u8>)
    requires
        forall|i: int| 0 <= i < parts@.len() ==> (#[trigger] parts@[i]).width > 0 && parts@[i].height > 0,
    ensures
        out@ == parts_header(input_views(parts@)),
{
    let ghost pv = input_views(parts@);
    let ghost ts = part_tables(pv);
    let mut out: Vec<u8> = Vec::new();
    put_magic(&mut out, DEEP_PARTS_VERSION);
    let mut i: usize = 0;
    assert(out@ + tables_bytes_from(ts, 0) =~= parts_header(pv));
    while i < parts.len()
        invariant
            i <= parts@.len(),
            pv == input_views(parts@),
            ts == part_tables(pv),
            forall|i: int|
                0 <= i < parts@.len() ==> (#[trigger] parts@[i]).width > 0 && parts@[i].height > 0,
            parts_header(pv) == out@ + tables_bytes_from(ts, i as int),
        decreases parts@.len() - i,
    {
        let ghost before = out@;
        put_part_table(&mut out, &parts[i]);
        proof {
            assert(pv[i as int] == parts@[i as int]@);
            assert(ts[i as int] == part_entries(pv[i as int]));
            assert(before + (table_bytes(ts[i as int]) + tables_bytes_from(ts, i + 1)) =~= out@
                + tables_bytes_from(ts, i + 1));
        }
        i = i + 1;
    }
    let ghost before = out@;
    out.push(0);
    assert(out@ =~= before + seq![0u8]);
    out
}

/// Make the chunks of one part, each behind the number of the part.
fn make_numbered_chunks(p: &MultipartDeepScanlinePart, i: usize) -> (r: Result<Vec<Vec<u8>>, ExrError>)
    requires
        is_sound(p@.input),
        p.width > 0,
    ensures
        r matches Ok(chunks) ==> {
            &&& rows_pack(p@.input)
            &&& byte_views(chunks@) == numbered_chunks(p@.input, i as int)
            &&& scanline_readable(p@.input) ==> rows_read_back(p@.input)
        },
        r matches Err(e) ==> e.fault() == Fault::Invalid && !rows_pack(p@.input),
{
    let source: LineSource = LineSource {
        width: p.width,
        height: p.height,
        channels: p.channels.as_slice(),
        counts: p.samples_per_pixel,
        planes: &p.channel_samples,
        compression: p.compression,
    };
    assert(source@ == p@.input);
    let mut prefix: Vec<u8> = Vec::new();
    put_length(&mut prefix, i);
    let chunks: Vec<Vec<u8>> = make_row_chunks(&source, prefix.as_slice())?;
    proof {
        assert(prefix@ =~= length_bytes(i as nat));
        assert(byte_views(chunks@) =~= numbered_chunks(p@.input, i as int));
    }
    Ok(chunks)
}

/// Make the chunks of all parts.
fn make_part_chunks(parts: &[MultipartDeepScanlinePart]) -> (r: Result<Vec<Vec<u8>>, ExrError>)
    requires
        forall|i: int|
            0 <= i < parts@.len() ==> is_sound((#[trigger] parts@[i])@.input) && parts@[i].width > 0,
    ensures
        r matches Ok(chunks) ==> {
            &&& parts_pack(input_views(parts@))
            &&& byte_views(chunks@) == all_chunks(input_views(parts@), parts@.len() as int)
            &&& forall|i: int|
                0 <= i < parts@.len() && scanline_readable((#[trigger] parts@[i])@.input)
                    ==> rows_read_back(parts@[i]@.input)
        },
        r matches Err(e) ==> e.fault() == Fault::Invalid && !parts_pack(input_views(parts@)),
{
    let ghost pv = input_views(parts@);
    let mut out: Vec<Vec<u8>> = Vec::new();
    let mut i: usize = 0;
    assert(byte_views(out@) =~= Seq::empty());
    while i < parts.len()
        invariant
            i <= parts@.len(),
            pv == input_views(parts@),
            forall|i: int|
                0 <= i < parts@.len() ==> is_sound((#[trigger] parts@[i])@.input) && parts@[i].width > 0,
            byte_views(out@) == all_chunks(pv, i as int),
            forall|j: int| 0 <= j < i ==> rows_pack((#[trigger] parts@[j])@.input),
            forall|j: int|
                0 <= j < i && scanline_readable((#[trigger] parts@[j])@.input) ==> rows_read_back(
                    parts@[j]@.input,
                ),
        decreases parts@.len() - i,
    {
        assert(pv[i as int] == parts@[i as int]@);
        let ghost before = byte_views(out@);
        let mut chunks: Vec<Vec<u8>> = make_numbered_chunks(&parts[i], i)?;
        let ghost added = chunks@;
        out.append(&mut chunks);
        proof {
            assert(byte_views(out@) =~= before + byte_views(added));
        }
        i = i + 1;
    }
    assert forall|j: int| 0 <= j < pv.len() implies rows_pack((#[trigger] pv[j]).input) by {
        assert(pv[j] == parts@[j]@);
    }
    Ok(out)
}

/// Write a deep file with several parts, line by line. What was written reads
/// back.
pub fn encode_exr_multipart_deep_scanline(parts: &[MultipartDeepScanlinePart]) -> (r: Result<
    Vec<u8>,
    ExrError,
>)
    ensures
        r matches Ok(v) ==> deep_multipart_file(input_views(parts@)) == Ok::<Seq<u8>, Fault>(v@),
        r matches Ok(v) ==> parts_readable(input_views(parts@)) ==> deep_multipart_of(v@) == Ok::<
            Seq<PartView>,
            Fault,
        >(part_images(input_views(parts@))),
        r matches Err(e) ==> deep_multipart_file(input_views(parts@)) == Err::<Seq<u8>, Fault>(
            e.fault(),
        ),
{
    let ghost pv = input_views(parts@);
    if parts.len() == 0 {
        return Err(ExrError::invalid("at least one part required"));
    }
    check_parts(parts)?;
    proof {
        lemma_no_parts_fault(pv, 0);
        assert forall|i: int| 0 <= i < parts@.len() implies is_sound((#[trigger] parts@[i])@.input)
            && parts@[i].width > 0 && parts@[i].height > 0 by {
            assert(pv[i] == parts@[i]@);
        }
    }
    let header: Vec<u8> = make_parts_header(parts);
    let chunks: Vec<Vec<u8>> = make_part_chunks(parts)?;
    let out: Vec<u8> = lay_out(header, chunks.as_slice());
    proof {
        assert(out.len() == out@.len());
        if parts_readable(pv) {
            assert forall|i: int| 0 <= i < pv.len() implies part_reads_back((#[trigger] pv[i]).input)
                && pv[i].input.counts.len() <= usize::MAX by {
                assert(pv[i] == parts@[i]@);
                assert(scanline_readable(pv[i].input));
                assert(parts@[i].samples_per_pixel.len() == parts@[i].samples_per_pixel@.len());
            }
            let all = all_chunks(pv, pv.len() as int);
            lemma_file_parts(parts_header(pv), all);
            lemma_all_chunks_len(pv, pv.len() as int);
            assert forall|i: int| 0 <= i < all.len() implies stands_at(
                out@,
                chunk_start(first_chunk(parts_header(pv), all), all, i),
                #[trigger] all[i],
            ) by {
                law_layout(parts_header(pv), all, i);
            }
            lemma_parts_read_back(pv, out@);
        }
    }
    Ok(out)
}

/// The rows of the first `k` parts.
pub open spec fn input_rows(v: Seq<NamedInput>, k: int) -> int
    decreases k,
{
    if k <= 0 {
        0
    } else {
        input_rows(v, k - 1) + v[k - 1].input.height
    }
}

/// The chunks of the parts are as many as their rows, and stand in their
/// order.
proof fn lemma_all_chunks(v: Seq<NamedInput>, k: int, p: int, y: int)
    requires
        0 <= p < k <= v.len(),
        0 <= y < v[p].input.height,
    ensures
        all_chunks(v, k).len() == input_rows(v, k),
        0 <= input_rows(v, p) <= input_rows(v, p) + y < input_rows(v, k),
        all_chunks(v, k)[input_rows(v, p) + y] == length_bytes(p as nat) + row_chunk(v[p].input, y),
    decreases k,
{
    lemma_all_chunks_len(v, k - 1);
    lemma_all_chunks_len(v, k);
    if p < k - 1 {
        lemma_all_chunks(v, k - 1, p, y);
    }
}

proof fn lemma_all_chunks_len(v: Seq<NamedInput>, k: int)
    requires
        0 <= k <= v.len(),
    ensures
        all_chunks(v, k).len() == input_rows(v, k),
        input_rows(v, k) >= 0,
    decreases k,
{
    if k > 0 {
        lemma_all_chunks_len(v, k - 1);
    }
}

/// What the headers of the parts say.
pub open spec fn image_metas(v: Seq<NamedInput>) -> Seq<PartMetaView> {
    Seq::new(v.len(), |i: int| PartMetaView { name: v[i].name, meta: image_meta(v[i].input) })
}

/// The lines of the parts when all parts before `p` are complete, and `p` has
/// its first `y` rows.
pub open spec fn progress(v: Seq<NamedInput>, p: int, y: int) -> Seq<Seq<Option<BlockView>>> {
    Seq::new(
        v.len(),
        |i: int|
            first_lines(
                v[i].input,
                if i < p {
                    v[i].input.height as int
                } else if i == p {
                    y
                } else {
                    0
                },
            ),
    )
}

/// Everything that makes a part read back.
pub open spec fn part_reads_back(x: InputView) -> bool {
    &&& is_sound(x)
    &&& rows_read_back(x)
    &&& 0 < x.width <= 0x8000_0000
    &&& 0 < x.height <= 0x7fff_ffff
}

/// A part's number reads back.
pub proof fn lemma_number_reads_back(s: Seq<u8>, pos: int, p: int)
    requires
        0 <= p <= 0x7fff_ffff,
        stands_at(s, pos, length_bytes(p as nat)),
    ensures
        i32_at(s, pos) == p,
        pos + 4 <= s.len(),
{
    lemma_u32_reads_back(s, pos, (p as nat % 0x1_0000_0000) as u32);
}

proof fn lemma_part_line(s: Seq<u8>, v: Seq<NamedInput>, base: int, p: int, y: int)
    requires
        s.len() <= u64::MAX,
        v.len() <= 0x7fff_ffff,
        0 <= p < v.len(),
        part_reads_back(v[p].input),
        0 <= y < v[p].input.height,
        chunks_follow(s, base, all_chunks(v, v.len() as int)),
    ensures
        ({
            let chunks = all_chunks(v, v.len() as int);
            let g = input_rows(v, p) + y;
            let pos = chunk_start(base, chunks, g);
            let x = v[p].input;
            &&& 0 <= g
            &&& pos + 4 <= s.len()
            &&& i32_at(s, pos) == p
            &&& line_at(s, pos + 4, image_meta(x)) == Some(
                (y, stored_row(x, y), chunk_start(base, chunks, g + 1)),
            )
            &&& image_meta(x).data_window.columns() == x.width
        }),
{
    let chunks = all_chunks(v, v.len() as int);
    let x = v[p].input;
    lemma_part_chunk(s, v, base, p, y);
    let pos = chunk_start(base, chunks, input_rows(v, p) + y);
    lemma_row_reads_back(s, pos + 4, x, y, image_meta(x));
}

proof fn lemma_part_chunk(s: Seq<u8>, v: Seq<NamedInput>, base: int, p: int, y: int)
    requires
        v.len() <= 0x7fff_ffff,
        0 <= p < v.len(),
        0 <= y < v[p].input.height,
        chunks_follow(s, base, all_chunks(v, v.len() as int)),
    ensures
        ({
            let chunks = all_chunks(v, v.len() as int);
            let g = input_rows(v, p) + y;
            let pos = chunk_start(base, chunks, g);
            &&& 0 <= g
            &&& pos + 4 <= s.len()
            &&& i32_at(s, pos) == p
            &&& stands_at(s, pos + 4, row_chunk(v[p].input, y))
            &&& chunk_start(base, chunks, g + 1) == pos + 4 + row_chunk(v[p].input, y).len()
        }),
{
    let chunks = all_chunks(v, v.len() as int);
    lemma_all_chunks(v, v.len() as int, p, y);
    let g = input_rows(v, p) + y;
    let pos = chunk_start(base, chunks, g);
    let head = length_bytes(p as nat);
    let body = row_chunk(v[p].input, y);
    assert(stands_at(s, pos, chunks[g]));
    assert(chunks[g] == head + body);
    lemma_stands_split(s, pos, head, body);
    lemma_number_reads_back(s, pos, p);
    assert(head.len() == 4);
    assert(chunk_start(base, chunks, g + 1) == pos + chunks[g].len());
}

proof fn lemma_progress_start(v: Seq<NamedInput>)
    requires
        forall|i: int| 0 <= i < v.len() ==> part_reads_back((#[trigger] v[i]).input),
    ensures
        progress(v, 0, 0) == blank_parts(image_metas(v)),
{
    let ms = image_metas(v);
    assert forall|i: int| 0 <= i < v.len() implies progress(v, 0, 0)[i] == blank_parts(ms)[i] by {
        assert(part_reads_back(v[i].input));
        lemma_first_lines_ends(v[i].input);
        lemma_window(v[i].input);
    }
    assert(progress(v, 0, 0) =~= blank_parts(ms));
}

/// One chunk more.
proof fn lemma_parts_step(
    s: Seq<u8>,
    start: int,
    ms: Seq<PartMetaView>,
    k: int,
    before: (Seq<Seq<Option<BlockView>>>, int),
    p: int,
    found: (int, BlockView, int),
    lines: Seq<Option<BlockView>>,
)
    requires
        0 < k,
        parts_after(s, start, ms, k - 1) == Some(before),
        before.1 + 4 <= s.len(),
        i32_at(s, before.1) == p,
        0 <= p < ms.len(),
        line_at(s, before.1 + 4, ms[p].meta) == Some(found),
        with_line(before.0[p], found.0, found.1) == lines,
    ensures
        parts_after(s, start, ms, k) == Some((before.0.update(p, lines), found.2)),
{
}

#[verifier::spinoff_prover]
#[verifier::rlimit(40)]
proof fn lemma_progress(s: Seq<u8>, v: Seq<NamedInput>, base: int, p: int, y: int)
    requires
        s.len() <= u64::MAX,
        v.len() <= 0x7fff_ffff,
        forall|i: int| 0 <= i < v.len() ==> part_reads_back((#[trigger] v[i]).input),
        0 <= p < v.len(),
        0 <= y <= v[p].input.height,
        chunks_follow(s, base, all_chunks(v, v.len() as int)),
    ensures
        parts_after(s, base, image_metas(v), input_rows(v, p) + y) == Some(
            (
                progress(v, p, y),
                chunk_start(base, all_chunks(v, v.len() as int), input_rows(v, p) + y),
            ),
        ),
    decreases p, y,
{
    let ms = image_metas(v);
    lemma_all_chunks_len(v, p);
    if y > 0 {
        let x = v[p].input;
        assert(part_reads_back(x));
        lemma_progress(s, v, base, p, y - 1);
        lemma_part_line(s, v, base, p, y - 1);
        lemma_first_lines_step(x, y - 1);
        assert(progress(v, p, y - 1).update(p, first_lines(x, y)) =~= progress(v, p, y));
        assert(ms[p].meta == image_meta(x));
        assert(progress(v, p, y - 1)[p] == first_lines(x, y - 1));
        let chunks = all_chunks(v, v.len() as int);
        let g = input_rows(v, p) + y;
        lemma_parts_step(
            s,
            base,
            ms,
            g,
            (progress(v, p, y - 1), chunk_start(base, chunks, g - 1)),
            p,
            (y - 1, stored_row(x, y - 1), chunk_start(base, chunks, g)),
            first_lines(x, y),
        );
    } else if p > 0 {
        assert(part_reads_back(v[p - 1].input));
        lemma_progress(s, v, base, p - 1, v[p - 1].input.height as int);
        assert(progress(v, p - 1, v[p - 1].input.height as int) =~= progress(v, p, 0));
    } else {
        lemma_progress_start(v);
    }
}

proof fn lemma_window(x: InputView)
    requires
        0 < x.width <= 0x8000_0000,
        0 < x.height <= 0x8000_0000,
    ensures
        image_meta(x).data_window.columns() == x.width,
        image_meta(x).data_window.rows() == x.height,
{
}

proof fn lemma_part_metas(v: Seq<NamedInput>, hs: Seq<HeaderView>, k: int)
    requires
        0 <= k <= v.len() == hs.len(),
        forall|i: int| 0 <= i < v.len() ==> (#[trigger] hs[i]).entries == part_entries(v[i]),
        forall|i: int|
            0 <= i < v.len() ==> part_reads_back((#[trigger] v[i]).input) && v[i].input.counts.len()
                <= usize::MAX,
    ensures
        part_metas_of(hs, k) == Ok::<Seq<PartMetaView>, Fault>(image_metas(v).take(k)),
        rows_of(image_metas(v), k) == input_rows(v, k),
    decreases k,
{
    if k > 0 {
        lemma_part_metas(v, hs, k - 1);
        let x = v[k - 1];
        assert(part_reads_back(x.input));
        assert(hs[k - 1].entries == part_entries(x));
        law_deep_entries(
            line_labels(x.input),
            x.input.channels,
            Some(x.name),
            None,
            "deepscanline"@,
        );
        lemma_window(x.input);
        lemma_part_of(part_entries(x));
        assert(image_metas(v).take(k - 1).push(image_metas(v)[k - 1]) =~= image_metas(v).take(k));
    } else {
        assert(image_metas(v).take(0) =~= Seq::empty());
    }
}

proof fn lemma_part_types(v: Seq<NamedInput>, hs: Seq<HeaderView>, k: int)
    requires
        0 <= k <= v.len() == hs.len(),
        forall|i: int| 0 <= i < v.len() ==> (#[trigger] hs[i]).entries == part_entries(v[i]),
        forall|i: int| 0 <= i < v.len() ==> part_reads_back((#[trigger] v[i]).input),
    ensures
        types_fault(hs, "deepscanline"@, k) is None,
    decreases v.len() - k,
{
    if k < v.len() {
        lemma_part_types(v, hs, k + 1);
        let x = v[k];
        assert(part_reads_back(x.input));
        assert(hs[k].entries == part_entries(x));
        law_deep_entries(
            line_labels(x.input),
            x.input.channels,
            Some(x.name),
            None,
            "deepscanline"@,
        );
    }
}

proof fn lemma_parts_headers(v: Seq<NamedInput>, s: Seq<u8>)
    requires
        parts_readable(v),
        forall|i: int| 0 <= i < v.len() ==> part_reads_back((#[trigger] v[i]).input),
        stands_at(s, 0, parts_header(v)),
    ensures
        multipart_headers_of(s) matches Ok(hs) && {
            &&& hs.len() == v.len()
            &&& forall|i: int|
                0 <= i < v.len() ==> (#[trigger] hs[i]).entries == part_entries(v[i]) && hs[i].end
                    == parts_header(v).len() && hs[i].version == version_of(DEEP_PARTS_VERSION)
        },
{
    let ts = part_tables(v);
    reveal_strlit("deepscanline");
    lemma_ascii_storable("deepscanline"@, 31);
    assert forall|k: int| 0 <= k < ts.len() implies (#[trigger] ts[k]).len() > 0
        && crate::header::entries_storable(ts[k], version_of(DEEP_PARTS_VERSION).name_limit()) by {
        let x = v[k];
        assert(part_reads_back(x.input));
        assert(scanline_readable(x.input));
        lemma_deep_entries_storable(
            line_labels(x.input),
            x.input.channels,
            Some(x.name),
            None,
            "deepscanline"@,
        );
    }
    lemma_multipart_header_reads_back(s, DEEP_PARTS_VERSION, ts);
}

proof fn lemma_parts_scan(v: Seq<NamedInput>, s: Seq<u8>, base: int)
    requires
        0 < v.len() <= 0x7fff_ffff,
        forall|i: int| 0 <= i < v.len() ==> part_reads_back((#[trigger] v[i]).input),
        chunks_follow(s, base, all_chunks(v, v.len() as int)),
        s.len() <= u64::MAX,
    ensures
        parts_after(s, base, image_metas(v), input_rows(v, v.len() as int)) matches Some((parts, pos))
            && parts.len() == v.len() && forall|i: int|
            0 <= i < v.len() ==> joined(
                #[trigger] parts[i],
                v[i].input.width as int,
                v[i].input.channels.len(),
                v[i].input.height as int,
            ) == stored_pixels(v[i].input.counts, v[i].input.planes, v[i].input.channels),
{
    let n = v.len() as int;
    assert(part_reads_back(v[n - 1].input));
    lemma_progress(s, v, base, n - 1, v[n - 1].input.height as int);
    let done = progress(v, n - 1, v[n - 1].input.height as int);
    assert forall|i: int| 0 <= i < n implies joined(
        #[trigger] done[i],
        v[i].input.width as int,
        v[i].input.channels.len(),
        v[i].input.height as int,
    ) == stored_pixels(v[i].input.counts, v[i].input.planes, v[i].input.channels) by {
        assert(part_reads_back(v[i].input));
        lemma_first_lines_ends(v[i].input);
    }
}

proof fn lemma_parts_read_back(v: Seq<NamedInput>, s: Seq<u8>)
    requires
        v.len() > 0,
        parts_readable(v),
        forall|i: int|
            0 <= i < v.len() ==> part_reads_back((#[trigger] v[i]).input) && v[i].input.counts.len()
                <= usize::MAX,
        stands_at(s, 0, parts_header(v)),
        chunks_follow(
            s,
            parts_header(v).len() + 8 * input_rows(v, v.len() as int),
            all_chunks(v, v.len() as int),
        ),
        parts_header(v).len() + 8 * input_rows(v, v.len() as int) <= s.len(),
        s.len() <= usize::MAX,
    ensures
        deep_multipart_of(s) == Ok::<Seq<PartView>, Fault>(part_images(v)),
{
    let n = v.len() as int;
    let header = parts_header(v);
    let base = header.len() + 8 * input_rows(v, n);
    lemma_parts_headers(v, s);
    let hs = multipart_headers_of(s)->Ok_0;
    lemma_part_types(v, hs, 0);
    lemma_part_metas(v, hs, n);
    let ms = image_metas(v);
    assert(ms.take(n) =~= ms);
    lemma_parts_scan(v, s, base);
    let done = (parts_after(s, base, ms, input_rows(v, n))->Some_0).0;
    let got = Seq::new(ms.len(), |i: int| finished_part(ms[i], done[i], hs[i].entries));
    assert forall|i: int| 0 <= i < n implies got[i] == part_images(v)[i] by {
        assert(part_reads_back(v[i].input));
        lemma_window(v[i].input);
        assert(hs[i].entries == part_entries(v[i]));
        assert(joined(
            done[i],
            v[i].input.width as int,
            v[i].input.channels.len(),
            v[i].input.height as int,
        ) == stored_pixels(v[i].input.counts, v[i].input.planes, v[i].input.channels));
    }
    assert(got =~= part_images(v));
    assert(hs[0].version.non_image);
    assert(hs[n - 1].end == header.len());
}

} // verus!
