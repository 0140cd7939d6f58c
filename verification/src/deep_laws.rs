//! Which bytes of a deep file the samples of its pixels come from.

use crate::attrs::find_text;
use crate::deep::{deep_scanline_of, lemma_line_shape, lemma_lines_shape, lines_after, DeepView};
use crate::deep_block::{counts_in, plain_shape, BlockShape, BlockView};
use crate::deep_input::record_block;
use crate::deep_lines::{blank_line, law_joined_row, lines_fit, row_stands};
use crate::deep_meta::{meta_of, part_of, MetaView};
use crate::deep_multi::{
    blank_parts, deep_multipart_of, part_meta_of, part_metas_of, parts_after, rows_of,
    with_part_line, PartMetaView, PartView,
};
use crate::deep_tiles::block_fits;
use crate::error::Fault;
use crate::flat_laws::{bytes_before, entry_of, law_samples, pattern_at, width_of};
use crate::format_laws::{law_numbers, number_at, signed_at};
use crate::header::{multipart_headers_of, single_header_of, HeaderView};
use crate::pack::unpacked;
use crate::ragged::sum;
use crate::samples::sizes;
use crate::types::{ChannelView, Compression};
use vstd::arithmetic::div_mod::lemma_fundamental_div_mod_converse;
use vstd::prelude::*;

verus! {

// ----------------------------------------------------------------------
// Records
// ----------------------------------------------------------------------
/// The bytes of the table of counts of the record at `b`, as they are stored.
pub open spec fn stored_table(s: Seq<u8>, b: int) -> Seq<u8> {
    s.subrange(b + 24, b + 24 + number_at(s, b, 8))
}

/// The bytes of the samples of the record at `b`, as they are stored.
pub open spec fn stored_data(s: Seq<u8>, b: int) -> Seq<u8> {
    let t = number_at(s, b, 8);
    s.subrange(b + 24 + t, b + 24 + t + number_at(s, b + 8, 8))
}

/// Where the record at `b` ends.
pub open spec fn record_end(s: Seq<u8>, b: int) -> int {
    b + 24 + number_at(s, b, 8) + number_at(s, b + 8, 8)
}

/// A record is the number of bytes of its table, of its data and of its data when
/// unpacked, each in eight bytes; then the table, then the data. The table holds for
/// each pixel how many samples its row has up to it. The data holds channel by
/// channel the samples of all pixels.
pub proof fn law_deep_record(
    s: Seq<u8>,
    b: int,
    shape: BlockShape,
    c: Compression,
    cs: Seq<ChannelView>,
    v: BlockView,
    end: int,
    y: int,
    x: int,
)
    requires
        record_block(s, b, shape, c, cs) == Some((v, end)),
        0 <= y < shape.rows,
        0 <= x < shape.cols,
    ensures
        end == record_end(s, b),
        ({
            let size = number_at(s, b + 16, 8);
            let n = sum(v.counts);
            let w = shape.stride as int;
            let i = y * shape.cols + x;
            &&& unpacked(stored_table(s, b), (4 * (shape.table_rows * w)) as nat, c) matches Some(t)
                && signed_at(t, 4 * (y * w + x)) == v.counts[i] + if x == 0 {
                0
            } else {
                signed_at(t, 4 * (y * w + x - 1))
            }
            &&& n * bytes_before(cs, cs.len() as int) == size
            &&& v.planes.len() == cs.len()
            &&& unpacked(stored_data(s, b), size as nat, c) matches Some(d) && forall|q: int, j: int|
                #![trigger v.planes[q][j]]
                0 <= q < cs.len() && 0 <= j < n ==> v.planes[q].len() == n && v.planes[q][j]
                    == pattern_at(
                    cs[q].pixel_type,
                    d,
                    n * bytes_before(cs, q) + j * width_of(cs[q].pixel_type),
                )
        }),
{
    law_numbers(s, b);
    law_numbers(s, b + 8);
    law_numbers(s, b + 16);
    let w = shape.stride as int;
    let cols = shape.cols as int;
    let i = y * cols + x;
    let size = number_at(s, b + 16, 8);
    let n = sum(v.counts);
    let t = unpacked(stored_table(s, b), shape.table_size() as nat, c)->Some_0;
    let d = unpacked(stored_data(s, b), size as nat, c)->Some_0;
    lemma_fundamental_div_mod_converse(i, cols, y, x);
    assert(0 <= i < shape.rows * cols) by (nonlinear_arith)
        requires
            i == y * cols + x,
            0 <= y < shape.rows,
            0 <= x < cols,
    ;
    law_numbers(t, 4 * (y * w + x));
    law_numbers(t, 4 * (y * w + x - 1));
    assert(v.counts == counts_in(t, shape.cells(), cols, w));
    assert(crate::deep_block::entry_before(t, i, cols, w) <= crate::deep_block::entry_of(
        t,
        i,
        cols,
        w,
    ));
    lemma_bytes_before(cs, cs.len() as int);
    assert forall|q: int, j: int|
        #![trigger v.planes[q][j]]
        0 <= q < cs.len() && 0 <= j < n implies v.planes[q].len() == n && v.planes[q][j]
        == pattern_at(
        cs[q].pixel_type,
        d,
        n * bytes_before(cs, q) + j * width_of(cs[q].pixel_type),
    ) by {
        lemma_bytes_before(cs, q);
        law_samples(
            cs[q].pixel_type,
            d,
            n * bytes_before(cs, q) + j * width_of(cs[q].pixel_type),
        );
    }
}

proof fn lemma_bytes_before(cs: Seq<ChannelView>, k: int)
    ensures
        sizes(cs, k) == bytes_before(cs, k),
    decreases k,
{
    if k > 0 {
        lemma_bytes_before(cs, k - 1);
    }
}

/// A record is read from its own bytes alone.
pub proof fn law_deep_record_stands_alone(
    s: Seq<u8>,
    b: int,
    r: Seq<u8>,
    e: int,
    shape: BlockShape,
    c: Compression,
    cs: Seq<ChannelView>,
)
    requires
        0 <= b,
        0 <= e,
        record_block(s, b, shape, c, cs) is Some,
        e + (record_end(s, b) - b) <= r.len(),
        s.subrange(b, record_end(s, b)) == r.subrange(e, e + (record_end(s, b) - b)),
    ensures
        record_block(r, e, shape, c, cs) matches Some((v, end)) && record_block(
            s,
            b,
            shape,
            c,
            cs,
        )->Some_0.0 == v,
{
    let n = record_end(s, b) - b;
    law_numbers(s, b);
    law_numbers(s, b + 8);
    law_numbers(s, b + 16);
    law_numbers(r, e);
    law_numbers(r, e + 8);
    law_numbers(r, e + 16);
    let x = s.subrange(b, b + n);
    let y = r.subrange(e, e + n);
    lemma_number_within(s, b, b + n, 0, 8);
    lemma_number_within(s, b, b + n, 8, 8);
    lemma_number_within(s, b, b + n, 16, 8);
    lemma_number_within(r, e, e + n, 0, 8);
    lemma_number_within(r, e, e + n, 8, 8);
    lemma_number_within(r, e, e + n, 16, 8);
    let t = number_at(s, b, 8);
    assert(stored_table(s, b) =~= x.subrange(24, 24 + t));
    assert(stored_table(r, e) =~= y.subrange(24, 24 + t));
    assert(stored_data(s, b) =~= x.subrange(24 + t, n));
    assert(stored_data(r, e) =~= y.subrange(24 + t, n));
}

proof fn lemma_number_within(s: Seq<u8>, a: int, b: int, i: int, n: nat)
    requires
        0 <= a,
        0 <= i,
        a + i + n <= b <= s.len(),
    ensures
        number_at(s.subrange(a, b), i, n) == number_at(s, a + i, n),
    decreases n,
{
    if n > 0 {
        lemma_number_within(s, a, b, i + 1, (n - 1) as nat);
    }
}

// ----------------------------------------------------------------------
// Lines
// ----------------------------------------------------------------------
/// Row `y` of the window is the one that the chunk at `off` holds: the chunk begins
/// with the coordinate of its line.
pub open spec fn holds_row(s: Seq<u8>, off: int, m: MetaView, y: int) -> bool {
    signed_at(s, off) == m.data_window.y_min + y
}

/// The last of the first `n` entries of the table at `base` whose chunk holds row `y`
/// is entry `k`.
pub open spec fn is_last_of_row(s: Seq<u8>, base: int, m: MetaView, y: int, k: int, n: int) -> bool {
    &&& 0 <= k < n
    &&& holds_row(s, entry_of(s, base, k), m, y)
    &&& forall|j: int| k < j < n ==> !(#[trigger] holds_row(s, entry_of(s, base, j), m, y))
}

/// The line of the chunk at `off`: behind the coordinate stands a record of one row.
pub open spec fn line_record(s: Seq<u8>, off: int, m: MetaView) -> Option<(BlockView, int)> {
    record_block(
        s,
        off + 4,
        plain_shape(1, m.data_window.columns()),
        m.compression,
        m.channels,
    )
}

proof fn lemma_row_found(s: Seq<u8>, base: int, m: MetaView, y: int, k: int, n: int)
    requires
        lines_after(s, base, m, n) is Some,
        0 <= y < m.data_window.rows(),
        is_last_of_row(s, base, m, y, k, n),
    ensures
        line_record(s, entry_of(s, base, k), m) matches Some((line, end)) && lines_after(
            s,
            base,
            m,
            n,
        )->Some_0[y] == Some(line),
    decreases n,
{
    law_numbers(s, base + 8 * (n - 1));
    law_numbers(s, entry_of(s, base, n - 1));
    lemma_lines_shape(s, base, m, n - 1);
    if k < n - 1 {
        assert(!holds_row(s, entry_of(s, base, n - 1), m, y));
        lemma_row_found(s, base, m, y, k, n - 1);
    }
}

proof fn lemma_row_not_found(s: Seq<u8>, base: int, m: MetaView, y: int, n: int)
    requires
        lines_after(s, base, m, n) is Some,
        0 <= y < m.data_window.rows(),
        forall|j: int| 0 <= j < n ==> !(#[trigger] holds_row(s, entry_of(s, base, j), m, y)),
    ensures
        lines_after(s, base, m, n)->Some_0[y] is None,
    decreases n,
{
    if n > 0 {
        law_numbers(s, base + 8 * (n - 1));
        law_numbers(s, entry_of(s, base, n - 1));
        lemma_lines_shape(s, base, m, n - 1);
        assert(!holds_row(s, entry_of(s, base, n - 1), m, y));
        lemma_row_not_found(s, base, m, y, n - 1);
    }
}

/// A deep file of lines: row `y` of the image is the line of the last chunk whose
/// coordinate is `y` below the first of the window, whatever that is; a row that no
/// chunk holds is without samples.
pub proof fn law_deep_lines(
    s: Seq<u8>,
    h: HeaderView,
    count: i32,
    m: MetaView,
    v: DeepView,
    c: int,
    y: int,
)
    requires
        single_header_of(s, true) == Ok::<HeaderView, Fault>(h),
        meta_of(h.entries) == Ok::<(i32, MetaView), Fault>((count, m)),
        deep_scanline_of(s) == Ok::<DeepView, Fault>(v),
        0 <= c < m.channels.len(),
        0 <= y < m.data_window.rows(),
    ensures
        v.meta == m,
        count == m.data_window.rows(),
        forall|k: int|
            #![trigger entry_of(s, h.end, k)]
            is_last_of_row(s, h.end, m, y, k, count as int) ==> (line_record(
                s,
                entry_of(s, h.end, k),
                m,
            ) matches Some((line, end)) && row_stands(
                v.pixels,
                y * m.data_window.columns(),
                line,
                c,
            )),
        (forall|k: int|
            0 <= k < count ==> !(#[trigger] holds_row(s, entry_of(s, h.end, k), m, y))) ==> row_stands(
            v.pixels,
            y * m.data_window.columns(),
            blank_line(m.data_window.columns() as int, m.channels.len()),
            c,
        ),
{
    let n = m.data_window.rows() as int;
    let w = m.data_window.columns() as int;
    let lines = lines_after(s, h.end, m, n)->Some_0;
    lemma_lines_shape(s, h.end, m, n);
    law_joined_row(lines, w, m.channels.len(), n, y, c);
    assert forall|k: int|
        #![trigger entry_of(s, h.end, k)]
        is_last_of_row(s, h.end, m, y, k, count as int) implies (line_record(
        s,
        entry_of(s, h.end, k),
        m,
    ) matches Some((line, end)) && row_stands(v.pixels, y * m.data_window.columns(), line, c)) by {
        lemma_row_found(s, h.end, m, y, k, n);
    }
    if forall|k: int| 0 <= k < count ==> !(#[trigger] holds_row(s, entry_of(s, h.end, k), m, y)) {
        lemma_row_not_found(s, h.end, m, y, n);
    }
}

/// The window of `b` is that of `a`, moved by `d` lines.
pub open spec fn is_shifted(a: MetaView, b: MetaView, d: int) -> bool {
    &&& b.data_window.y_min == a.data_window.y_min + d
    &&& b.data_window.y_max == a.data_window.y_max + d
    &&& b.data_window.x_min == a.data_window.x_min
    &&& b.data_window.x_max == a.data_window.x_max
    &&& b.compression == a.compression
    &&& b.channels == a.channels
}

/// The chunk at `p` of `r` is that at `o` of `s`, moved by `d` lines.
pub open spec fn chunk_shifted(s: Seq<u8>, o: int, r: Seq<u8>, p: int, d: int) -> bool {
    let n = record_end(s, o + 4) - (o + 4);
    &&& signed_at(r, p) == signed_at(s, o) + d
    &&& p + 4 + n <= r.len()
    &&& s.subrange(o + 4, o + 4 + n) == r.subrange(p + 4, p + 4 + n)
}

proof fn lemma_lines_shifted(
    s: Seq<u8>,
    base: int,
    a: MetaView,
    r: Seq<u8>,
    start: int,
    b: MetaView,
    d: int,
    k: int,
)
    requires
        is_shifted(a, b, d),
        a.data_window.rows() == b.data_window.rows(),
        a.data_window.columns() == b.data_window.columns(),
        lines_after(s, base, a, k) is Some,
        forall|j: int|
            #![trigger entry_of(s, base, j)]
            0 <= j < k ==> chunk_shifted(s, entry_of(s, base, j), r, entry_of(r, start, j), d),
    ensures
        lines_after(r, start, b, k) == lines_after(s, base, a, k),
    decreases k,
{
    if k > 0 {
        lemma_lines_shifted(s, base, a, r, start, b, d, k - 1);
        law_numbers(s, base + 8 * (k - 1));
        law_numbers(r, start + 8 * (k - 1));
        let o = entry_of(s, base, k - 1);
        let p = entry_of(r, start, k - 1);
        law_numbers(s, o);
        law_numbers(r, p);
        law_deep_record_stands_alone(
            s,
            o + 4,
            r,
            p + 4,
            plain_shape(1, a.data_window.columns()),
            a.compression,
            a.channels,
        );
    }
}

/// A deep file whose window and chunks are moved by the same number of lines reads
/// to the same pixels.
pub proof fn law_deep_lines_shifted(
    s: Seq<u8>,
    g: HeaderView,
    a: MetaView,
    v: DeepView,
    r: Seq<u8>,
    h: HeaderView,
    b: MetaView,
    count: i32,
    d: int,
)
    requires
        single_header_of(s, true) == Ok::<HeaderView, Fault>(g),
        meta_of(g.entries) == Ok::<(i32, MetaView), Fault>((count, a)),
        deep_scanline_of(s) == Ok::<DeepView, Fault>(v),
        single_header_of(r, true) == Ok::<HeaderView, Fault>(h),
        meta_of(h.entries) == Ok::<(i32, MetaView), Fault>((count, b)),
        h.version.non_image,
        find_text(h.entries, "type"@) == Some("deepscanline"@),
        h.end + 8 * count <= r.len(),
        is_shifted(a, b, d),
        forall|j: int|
            #![trigger entry_of(s, g.end, j)]
            0 <= j < count ==> chunk_shifted(
                s,
                entry_of(s, g.end, j),
                r,
                entry_of(r, h.end, j),
                d,
            ),
    ensures
        deep_scanline_of(r) matches Ok(u) && u.pixels == v.pixels && u.meta == b,
{
    lemma_lines_shifted(s, g.end, a, r, h.end, b, d, a.data_window.rows() as int);
}

/// The chunk at `off` can be read as a line: it is there, its line is one of the window, and its
/// record can be read.
pub open spec fn line_stands(s: Seq<u8>, off: int, m: MetaView) -> bool {
    &&& off + 28 <= s.len()
    &&& m.data_window.y_min <= signed_at(s, off) < m.data_window.y_min + m.data_window.rows()
    &&& line_record(s, off, m) is Some
}

proof fn lemma_lines_accepted(s: Seq<u8>, base: int, m: MetaView, k: int)
    requires
        0 <= k,
    ensures
        lines_after(s, base, m, k) is Some <==> forall|j: int|
            0 <= j < k ==> line_stands(s, #[trigger] entry_of(s, base, j), m),
    decreases k,
{
    if k > 0 {
        lemma_lines_accepted(s, base, m, k - 1);
        law_numbers(s, base + 8 * (k - 1));
        let off = entry_of(s, base, k - 1);
        law_numbers(s, off);
        if forall|j: int| 0 <= j < k ==> line_stands(s, #[trigger] entry_of(s, base, j), m) {
            assert(line_stands(s, off, m));
        }
    }
}

/// A deep file of lines is read if and only if it is described, states as many chunks as it has
/// lines, has pixels that can be counted, and each of its chunks can be read.
pub proof fn law_deep_lines_accepted(s: Seq<u8>, h: HeaderView)
    requires
        single_header_of(s, true) == Ok::<HeaderView, Fault>(h),
        h.version.non_image,
        find_text(h.entries, "type"@) == Some("deepscanline"@),
    ensures
        deep_scanline_of(s) is Ok <==> (meta_of(h.entries) matches Ok((count, m)) && {
            let (w, e) = (m.data_window.columns(), m.data_window.rows());
            &&& w > 0
            &&& e > 0
            &&& w * e <= usize::MAX
            &&& count == e
            &&& h.end + 8 * count <= s.len()
            &&& forall|j: int|
                0 <= j < count ==> line_stands(s, #[trigger] entry_of(s, h.end, j), m)
        }),
{
    if let Ok((count, m)) = meta_of(h.entries) {
        lemma_lines_accepted(s, h.end, m, m.data_window.rows() as int);
    }
}

// ----------------------------------------------------------------------
// Lines of several parts
// ----------------------------------------------------------------------
/// Where chunk `k` stands, the first being at `start`: a chunk is a head of `head`
/// bytes and a record.
pub open spec fn record_chunk_at(s: Seq<u8>, start: int, head: int, k: int) -> int
    decreases k,
{
    if k <= 0 {
        start
    } else {
        record_end(s, record_chunk_at(s, start, head, k - 1) + head)
    }
}

/// Chunk `k` holds row `y` of part `p`: it begins with the number of its part and the
/// coordinate of its line, each in four bytes.
pub open spec fn holds_part_row(s: Seq<u8>, start: int, m: MetaView, p: int, y: int, k: int) -> bool {
    let at = record_chunk_at(s, start, 8, k);
    signed_at(s, at) == p && holds_row(s, at + 4, m, y)
}

/// The last of the first `n` chunks that hold a row of a part is chunk `k`.
pub open spec fn is_last_of_part_row(
    s: Seq<u8>,
    start: int,
    m: MetaView,
    p: int,
    y: int,
    k: int,
    n: int,
) -> bool {
    &&& 0 <= k < n
    &&& holds_part_row(s, start, m, p, y, k)
    &&& forall|j: int| k < j < n ==> !(#[trigger] holds_part_row(s, start, m, p, y, j))
}

/// A row of a part before and after a chunk.
pub open spec fn row_step(
    before: Seq<Option<BlockView>>,
    after: Seq<Option<BlockView>>,
    s: Seq<u8>,
    at: int,
    m: MetaView,
    held: bool,
    y: int,
) -> bool {
    if held {
        line_record(s, at + 4, m) matches Some((line, end)) && after[y] == Some(line)
    } else {
        after[y] == before[y]
    }
}

proof fn lemma_part_line_taken(
    s: Seq<u8>,
    at: int,
    ms: Seq<PartMetaView>,
    before: Seq<Seq<Option<BlockView>>>,
)
    requires
        with_part_line(s, at, ms, before) is Some,
        before.len() == ms.len(),
    ensures
        ({
            let (after, end) = with_part_line(s, at, ms, before)->Some_0;
            let q = signed_at(s, at);
            let m = ms[q].meta;
            &&& 0 <= q < ms.len()
            &&& end == record_end(s, at + 8)
            &&& line_record(s, at + 4, m) matches Some((line, stop)) && block_fits(
                line,
                m.data_window.columns() as int,
                m.channels.len(),
            ) && 0 <= signed_at(s, at + 4) - m.data_window.y_min < m.data_window.rows() && after
                == before.update(
                q,
                before[q].update(signed_at(s, at + 4) - m.data_window.y_min, Some(line)),
            )
        }),
{
    law_numbers(s, at);
    law_numbers(s, at + 4);
    law_numbers(s, at + 8);
    law_numbers(s, at + 16);
    lemma_line_shape(s, at + 4, ms[signed_at(s, at)].meta);
}

proof fn lemma_part_lines_stand(s: Seq<u8>, start: int, ms: Seq<PartMetaView>, k: int, p: int)
    requires
        0 <= k,
        parts_after(s, start, ms, k) is Some,
        0 <= p < ms.len(),
    ensures
        ({
            let (parts, at) = parts_after(s, start, ms, k)->Some_0;
            &&& at == record_chunk_at(s, start, 8, k)
            &&& parts.len() == ms.len()
            &&& parts[p].len() == ms[p].meta.data_window.rows()
            &&& lines_fit(
                parts[p],
                ms[p].meta.data_window.columns() as int,
                ms[p].meta.channels.len(),
            )
        }),
    decreases k,
{
    if k > 0 {
        lemma_part_lines_stand(s, start, ms, k - 1, p);
        let (before, at) = parts_after(s, start, ms, k - 1)->Some_0;
        let (after, end) = parts_after(s, start, ms, k)->Some_0;
        lemma_part_line_taken(s, at, ms, before);
        assert forall|i: int|
            #![trigger after[p][i]]
            0 <= i < after[p].len() implies (after[p][i] matches Some(b) ==> block_fits(
            b,
            ms[p].meta.data_window.columns() as int,
            ms[p].meta.channels.len(),
        )) by {
            assert(before[p][i] matches Some(b) ==> block_fits(
                b,
                ms[p].meta.data_window.columns() as int,
                ms[p].meta.channels.len(),
            ));
        }
    } else {
        assert(parts_after(s, start, ms, k)->Some_0.0 == blank_parts(ms));
    }
}

proof fn lemma_part_row_step(s: Seq<u8>, start: int, ms: Seq<PartMetaView>, k: int, p: int, y: int)
    requires
        0 < k,
        parts_after(s, start, ms, k) is Some,
        0 <= p < ms.len(),
        0 <= y < ms[p].meta.data_window.rows(),
    ensures
        parts_after(s, start, ms, k - 1) is Some,
        row_step(
            parts_after(s, start, ms, k - 1)->Some_0.0[p],
            parts_after(s, start, ms, k)->Some_0.0[p],
            s,
            record_chunk_at(s, start, 8, k - 1),
            ms[p].meta,
            holds_part_row(s, start, ms[p].meta, p, y, k - 1),
            y,
        ),
{
    lemma_part_lines_stand(s, start, ms, k - 1, p);
    let (before, at) = parts_after(s, start, ms, k - 1)->Some_0;
    lemma_part_line_taken(s, at, ms, before);
}

proof fn lemma_part_row_found(
    s: Seq<u8>,
    start: int,
    ms: Seq<PartMetaView>,
    p: int,
    y: int,
    k: int,
    n: int,
)
    requires
        parts_after(s, start, ms, n) is Some,
        0 <= p < ms.len(),
        0 <= y < ms[p].meta.data_window.rows(),
        is_last_of_part_row(s, start, ms[p].meta, p, y, k, n),
    ensures
        line_record(s, record_chunk_at(s, start, 8, k) + 4, ms[p].meta) matches Some((line, end))
            && parts_after(s, start, ms, n)->Some_0.0[p][y] == Some(line),
    decreases n,
{
    lemma_part_row_step(s, start, ms, n, p, y);
    if k < n - 1 {
        assert(!holds_part_row(s, start, ms[p].meta, p, y, n - 1));
        lemma_part_row_found(s, start, ms, p, y, k, n - 1);
    }
}

pub proof fn lemma_deep_part_metas(hs: Seq<HeaderView>, k: int, p: int)
    requires
        0 <= p < k <= hs.len(),
        part_metas_of(hs, k) is Ok,
    ensures
        part_metas_of(hs, k)->Ok_0.len() == k,
        part_meta_of(hs[p]) == Ok::<PartMetaView, Fault>(part_metas_of(hs, k)->Ok_0[p]),
    decreases k,
{
    reveal_with_fuel(part_metas_of, 2);
    if k > 1 {
        lemma_deep_part_metas(
            hs,
            k - 1,
            if p < k - 1 {
                p
            } else {
                0
            },
        );
    }
}

/// How many lines the first `k` parts have together.
pub open spec fn lines_before(v: Seq<PartView>, k: int) -> int
    decreases k,
{
    if k <= 0 {
        0
    } else {
        lines_before(v, k - 1) + v[k - 1].image.meta.data_window.rows()
    }
}

proof fn lemma_lines_before(ms: Seq<PartMetaView>, v: Seq<PartView>, k: int)
    requires
        k <= v.len(),
        forall|i: int| 0 <= i < v.len() ==> (#[trigger] v[i]).image.meta == ms[i].meta,
    ensures
        rows_of(ms, k) == lines_before(v, k),
    decreases k,
{
    if k > 0 {
        lemma_lines_before(ms, v, k - 1);
        assert(v[k - 1].image.meta == ms[k - 1].meta);
    }
}

/// A deep file of several parts: row `y` of part `p` is the line of the last chunk
/// that says it is of that part and has the coordinate of that row. The chunks stand
/// one behind the other behind the offset tables, which have eight bytes for each.
pub proof fn law_deep_parts(
    s: Seq<u8>,
    hs: Seq<HeaderView>,
    v: Seq<PartView>,
    p: int,
    c: int,
    y: int,
    k: int,
)
    requires
        multipart_headers_of(s) == Ok::<Seq<HeaderView>, Fault>(hs),
        deep_multipart_of(s) == Ok::<Seq<PartView>, Fault>(v),
        0 <= p < v.len(),
        0 <= c < v[p].image.meta.channels.len(),
        0 <= y < v[p].image.meta.data_window.rows(),
        is_last_of_part_row(
            s,
            hs.last().end + 8 * lines_before(v, v.len() as int),
            v[p].image.meta,
            p,
            y,
            k,
            lines_before(v, v.len() as int),
        ),
    ensures
        v.len() == hs.len(),
        part_of(hs[p].entries) matches Ok((count, m)) && m == v[p].image.meta && count
            == m.data_window.rows(),
        ({
            let m = v[p].image.meta;
            let start = hs.last().end + 8 * lines_before(v, v.len() as int);
            line_record(s, record_chunk_at(s, start, 8, k) + 4, m) matches Some((line, end))
                && row_stands(v[p].image.pixels, y * m.data_window.columns(), line, c)
        }),
{
    let ms = part_metas_of(hs, hs.len() as int)->Ok_0;
    lemma_deep_part_metas(hs, hs.len() as int, 0);
    lemma_deep_part_metas(hs, hs.len() as int, p);
    let n = rows_of(ms, ms.len() as int);
    let start = hs.last().end + 8 * n;
    assert forall|i: int| 0 <= i < v.len() implies (#[trigger] v[i]).image.meta == ms[i].meta by {}
    lemma_lines_before(ms, v, v.len() as int);
    lemma_part_lines_stand(s, start, ms, n, p);
    lemma_part_row_found(s, start, ms, p, y, k, n);
    let m = ms[p].meta;
    law_joined_row(
        parts_after(s, start, ms, n)->Some_0.0[p],
        m.data_window.columns() as int,
        m.channels.len(),
        m.data_window.rows() as int,
        y,
        c,
    );
}

} // verus!
