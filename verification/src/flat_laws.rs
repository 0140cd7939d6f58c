//! Which bytes of a file the samples of a flat image come from.

use crate::attrs::find_named;
use crate::bytes::u64_at;
use crate::deep_meta::is_full;
use crate::error::Fault;
use crate::flat::{exr_of, line_head_at, lines_applied, scanlines_after, ImageView};
use crate::flat_block::{is_sampled, line_size, lines_size, row_in, rows_in, sampled, tall, wide};
use crate::flat_image::{chunk_planes, plane_len, required_of, RequiredView};
use crate::format_laws::{law_numbers, number_at, signed_at};
use crate::grid::steps;
use crate::half::{half_as_f32, uint_as_f32};
use crate::header::{header_of, HeaderView};
use crate::pack::zlib_inflated;
use crate::rle::rle_unpacked;
use crate::samples::sample_at;
use crate::types::{
    sort_by_name, AttributeView, Box2i, ChannelView, Compression, EntryView, PixelType,
};
use crate::zip::{law_restore_of_prepare, prepared};
use vstd::prelude::*;

verus! {

/// The sample whose bytes begin at `at`: a half of two bytes, a float of four, or
/// an integer of four, as the pattern of a float.
pub open spec fn pattern_at(t: PixelType, s: Seq<u8>, at: int) -> u32 {
    match t {
        PixelType::Half => half_as_f32(number_at(s, at, 2) as u16),
        PixelType::Float => number_at(s, at, 4) as u32,
        PixelType::Uint => uint_as_f32(number_at(s, at, 4) as u32),
    }
}

/// The bytes that a sample takes.
pub open spec fn width_of(t: PixelType) -> int {
    match t {
        PixelType::Half => 2,
        _ => 4,
    }
}

/// The bytes that one pixel takes in the channels in front of channel `k`.
pub open spec fn bytes_before(cs: Seq<ChannelView>, k: int) -> int
    decreases k,
{
    if k <= 0 {
        0
    } else {
        bytes_before(cs, k - 1) + width_of(cs[k - 1].pixel_type)
    }
}

/// Samples are stored with the least significant byte first.
pub proof fn law_samples(t: PixelType, s: Seq<u8>, at: int)
    ensures
        sample_at(t, s, at) == pattern_at(t, s, at),
{
    law_numbers(s, at);
}

/// Samples at every `step`-th place from the first on: as many as there are
/// multiples of `step` below `n`.
pub proof fn law_sampled_size(c: ChannelView, n: int)
    requires
        0 <= n,
        c.x_sampling > 0,
        c.y_sampling > 0,
    ensures
        (wide(c, n) - 1) * c.x_sampling < n <= wide(c, n) * c.x_sampling,
        (tall(c, n) - 1) * c.y_sampling < n <= tall(c, n) * c.y_sampling,
        tall(c, n + 1) == tall(c, n) + if n % c.y_sampling as int == 0 {
            1int
        } else {
            0int
        },
        is_sampled(c, n) <==> n % c.y_sampling as int == 0,
{
    lemma_sampled_bounds(n, c.x_sampling as int);
    lemma_sampled_bounds(n, c.y_sampling as int);
    crate::flat_block::lemma_sampled_step(n, c.y_sampling as int);
}

proof fn lemma_sampled_bounds(n: int, s: int)
    requires
        0 <= n,
        1 <= s,
    ensures
        (sampled(n, s) - 1) * s < n <= sampled(n, s) * s,
{
    let q = sampled(n, s);
    if s > 1 {
        vstd::arithmetic::div_mod::lemma_fundamental_div_mod(n + s - 1, s);
        vstd::arithmetic::div_mod::lemma_mod_bound(n + s - 1, s);
        let r = (n + s - 1) % s;
        assert((q - 1) * s < n && n <= q * s) by (nonlinear_arith)
            requires
                n + s - 1 == s * q + r,
                0 <= r < s,
        ;
    } else {
        assert((q - 1) * s < n && n <= q * s) by (nonlinear_arith)
            requires
                s == 1,
                q == n,
        ;
    }
}

pub proof fn lemma_full_line(cs: Seq<ChannelView>, width: int, y: int, k: int)
    requires
        is_full(cs),
        0 <= k <= cs.len(),
        0 <= width,
    ensures
        line_size(cs, width, y, false, k) == width * bytes_before(cs, k),
        0 <= bytes_before(cs, k),
    decreases k,
{
    if k > 0 {
        lemma_full_line(cs, width, y, k - 1);
        let c = cs[k - 1];
        assert(y % 1 == 0);
        let (a, b) = (bytes_before(cs, k - 1), width_of(c.pixel_type));
        assert(width * (a + b) == width * a + width * b) by (nonlinear_arith);
    } else {
        assert(width * 0 == 0);
    }
}

pub proof fn lemma_full_lines(cs: Seq<ChannelView>, width: int, y0: int, n: int)
    requires
        is_full(cs),
        0 <= n,
        0 <= width,
    ensures
        lines_size(cs, width, y0, false, n) == n * (width * bytes_before(cs, cs.len() as int)),
    decreases n,
{
    let l = width * bytes_before(cs, cs.len() as int);
    if n > 0 {
        lemma_full_lines(cs, width, y0, n - 1);
        lemma_full_line(cs, width, y0 + n - 1, cs.len() as int);
        assert((n - 1) * l + l == n * l) by (nonlinear_arith);
    } else {
        assert(0 * l == 0);
    }
}

pub proof fn lemma_full_rows(
    data: Seq<u8>,
    cs: Seq<ChannelView>,
    width: int,
    y0: int,
    n: int,
    c: int,
)
    requires
        is_full(cs),
        0 <= n,
        0 <= width,
        0 <= c < cs.len(),
    ensures
        rows_in(data, cs, width, y0, false, n, c).len() == n * width,
        forall|j: int, x: int|
            0 <= j < n && 0 <= x < width ==> #[trigger] rows_in(
                data,
                cs,
                width,
                y0,
                false,
                n,
                c,
            )[j * width + x] == pattern_at(
                cs[c].pixel_type,
                data,
                j * (width * bytes_before(cs, cs.len() as int)) + width * bytes_before(cs, c) + x
                    * width_of(cs[c].pixel_type),
            ),
    decreases n,
{
    let l = width * bytes_before(cs, cs.len() as int);
    if n > 0 {
        lemma_full_rows(data, cs, width, y0, n - 1, c);
        lemma_full_lines(cs, width, y0, n - 1);
        lemma_full_line(cs, width, y0 + n - 1, c);
        let before = rows_in(data, cs, width, y0, false, n - 1, c);
        let all = rows_in(data, cs, width, y0, false, n, c);
        let row = row_in(data, cs, width, y0 + n - 1, false, (n - 1) * l, c);
        assert((y0 + n - 1) % 1 == 0);
        assert(all == before + row);
        assert(row.len() == width);
        assert((n - 1) * width + width == n * width) by (nonlinear_arith);
        assert forall|j: int, x: int| 0 <= j < n && 0 <= x < width implies #[trigger] all[j * width
            + x] == pattern_at(
            cs[c].pixel_type,
            data,
            j * l + width * bytes_before(cs, c) + x * width_of(cs[c].pixel_type),
        ) by {
            if j < n - 1 {
                assert(j * width + x < (n - 1) * width && 0 <= j * width) by (nonlinear_arith)
                    requires
                        0 <= j < n - 1,
                        0 <= x < width,
                ;
                assert(all[j * width + x] == before[j * width + x]);
            } else {
                assert(all[j * width + x] == row[x]);
                law_samples(
                    cs[c].pixel_type,
                    data,
                    (n - 1) * l + width * bytes_before(cs, c) + x * width_of(cs[c].pixel_type),
                );
            }
        }
    } else {
        assert(0 * width == 0);
    }
}

/// Lines that are not packed: line by line, in each line channel by channel, in
/// each channel sample by sample.
pub proof fn law_plain_chunk(
    data: Seq<u8>,
    cs: Seq<ChannelView>,
    width: int,
    y0: int,
    n: int,
    log: Seq<u16>,
    c: int,
    j: int,
    x: int,
)
    requires
        is_full(cs),
        0 <= y0,
        0 <= j < n,
        0 <= x < width,
        0 <= c < cs.len(),
        data.len() == n * (width * bytes_before(cs, cs.len() as int)),
        data.len() <= u64::MAX,
    ensures
        chunk_planes(data, Compression::Uncompressed, cs, width, y0, n, log) matches Ok(v)
            && v.len() == cs.len() && v[c].len() == n * width && v[c][j * width + x] == pattern_at(
            cs[c].pixel_type,
            data,
            j * (width * bytes_before(cs, cs.len() as int)) + width * bytes_before(cs, c) + x
                * width_of(cs[c].pixel_type),
        ),
{
    lemma_full_lines(cs, width, y0, n);
    lemma_full_rows(data, cs, width, y0, n, c);
    let v = rows_in(data, cs, width, y0, false, n, c);
    assert(v[j * width + x] == v[j * width + x]);
}

/// A packed chunk of ZIP, ZIPS or runs holds the lines that it holds without
/// packing, parted and told from each other; one that is as long as its lines is
/// not packed.
pub proof fn law_packed_chunk(
    payload: Seq<u8>,
    data: Seq<u8>,
    cs: Seq<ChannelView>,
    width: int,
    y0: int,
    n: int,
    log: Seq<u16>,
)
    requires
        data.len() == lines_size(cs, width, y0, false, n),
        payload.len() != data.len(),
    ensures
        zlib_inflated(payload) == Some(prepared(data)) ==> chunk_planes(
            payload,
            Compression::Zip,
            cs,
            width,
            y0,
            n,
            log,
        ) == chunk_planes(data, Compression::Uncompressed, cs, width, y0, n, log) && chunk_planes(
            payload,
            Compression::Zips,
            cs,
            width,
            y0,
            n,
            log,
        ) == chunk_planes(data, Compression::Uncompressed, cs, width, y0, n, log),
        rle_unpacked(payload) == Some(prepared(data)) ==> chunk_planes(
            payload,
            Compression::Rle,
            cs,
            width,
            y0,
            n,
            log,
        ) == chunk_planes(data, Compression::Uncompressed, cs, width, y0, n, log),
        chunk_planes(data, Compression::Zip, cs, width, y0, n, log) == chunk_planes(
            data,
            Compression::Uncompressed,
            cs,
            width,
            y0,
            n,
            log,
        ),
        chunk_planes(data, Compression::B44, cs, width, y0, n, log) == chunk_planes(
            data,
            Compression::Uncompressed,
            cs,
            width,
            y0,
            n,
            log,
        ),
{
    law_restore_of_prepare(data);
}

// ----------------------------------------------------------------------
// Attributes
// ----------------------------------------------------------------------
/// The attribute at `i` is the first with the given name.
pub open spec fn is_first_named(es: Seq<EntryView>, name: Seq<char>, i: int) -> bool {
    &&& 0 <= i < es.len()
    &&& es[i].name == name
    &&& forall|j: int| 0 <= j < i ==> (#[trigger] es[j]).name != name
}

proof fn lemma_named_from(es: Seq<EntryView>, name: Seq<char>, k: int)
    requires
        0 <= k <= es.len(),
    ensures
        match crate::attrs::named_index(es, name, k) {
            Some(i) => k <= i < es.len() && es[i].name == name && forall|j: int|
                k <= j < i ==> (#[trigger] es[j]).name != name,
            None => forall|j: int| k <= j < es.len() ==> (#[trigger] es[j]).name != name,
        },
    decreases es.len() - k,
{
    if k < es.len() {
        lemma_named_from(es, name, k + 1);
    }
}

/// Of attributes with one name the first counts.
pub proof fn law_first_named(es: Seq<EntryView>, name: Seq<char>)
    ensures
        match find_named(es, name) {
            Some(v) => exists|i: int| #[trigger] is_first_named(es, name, i) && es[i].value == v,
            None => forall|j: int| 0 <= j < es.len() ==> (#[trigger] es[j]).name != name,
        },
{
    lemma_named_from(es, name, 0);
    if let Some(i) = crate::attrs::named_index(es, name, 0) {
        assert(is_first_named(es, name, i));
    }
}

/// The attributes that a flat image is described by. Those for the shape of its
/// pixels and of the screen may be missing: then they are one, and the centre is
/// at zero.
pub proof fn law_required(es: Seq<EntryView>)
    ensures
        required_of(es) is Some <==> (find_named(es, "channels"@) matches Some(v) && v is Channels) && (
        find_named(es, "compression"@) matches Some(v) && v is Compression) && (find_named(
            es,
            "dataWindow"@,
        ) matches Some(v) && v is Box2i) && (find_named(es, "displayWindow"@) matches Some(v)
            && v is Box2i) && (find_named(es, "lineOrder"@) matches Some(v) && v is LineOrder),
        required_of(es) matches Some(m) ==> {
            &&& find_named(es, "channels"@) == Some(AttributeView::Channels(m.channels))
            &&& find_named(es, "compression"@) == Some(AttributeView::Compression(m.compression))
            &&& find_named(es, "dataWindow"@) == Some(AttributeView::Box2i(m.data_window))
            &&& find_named(es, "displayWindow"@) == Some(AttributeView::Box2i(m.display_window))
            &&& find_named(es, "lineOrder"@) == Some(AttributeView::LineOrder(m.line_order))
            &&& m.pixel_aspect_ratio == match find_named(es, "pixelAspectRatio"@) {
                Some(AttributeView::Float(f)) => f,
                _ => 0x3f80_0000,
            }
            &&& m.screen_window_width == match find_named(es, "screenWindowWidth"@) {
                Some(AttributeView::Float(f)) => f,
                _ => 0x3f80_0000,
            }
            &&& match find_named(es, "screenWindowCenter"@) {
                Some(AttributeView::V2f(x, y)) => m.screen_window_center == (x, y),
                _ => m.screen_window_center.0 == 0 && m.screen_window_center.1 == 0,
            }
        },
{
}

// ----------------------------------------------------------------------
// Files of lines
// ----------------------------------------------------------------------
/// Where a window stands does not matter: where it and the coordinate of a chunk
/// are moved by as much, the chunk fills the same lines.
pub proof fn law_lines_moved(
    planes: Seq<Seq<u32>>,
    cs: Seq<ChannelView>,
    a: Box2i,
    b: Box2i,
    y: i32,
    d: int,
    payload: Seq<u8>,
    method: Compression,
    log: Seq<u16>,
)
    requires
        i32::MIN <= y + d <= i32::MAX,
        b.y_min == a.y_min + d,
        b.y_max == a.y_max + d,
        b.x_max - b.x_min == a.x_max - a.x_min,
    ensures
        lines_applied(planes, cs, a, y, payload, method, log) == lines_applied(
            planes,
            cs,
            b,
            (y + d) as i32,
            payload,
            method,
            log,
        ),
        y < a.y_min || y > a.y_max ==> lines_applied(planes, cs, a, y, payload, method, log) == Err::<
            Seq<Seq<u32>>,
            Fault,
        >(Fault::Invalid),
{
}

/// The offset of chunk `k` in the table at `base`: eight bytes each.
pub open spec fn entry_of(s: Seq<u8>, base: int, k: int) -> int {
    number_at(s, base + 8 * k, 8)
}

/// How many lines a chunk holds with a compression, unless the image ends.
pub open spec fn chunk_height(method: Compression) -> int {
    match method {
        Compression::Uncompressed | Compression::Rle | Compression::Zips => 1,
        Compression::Zip | Compression::Pxr24 => 16,
        Compression::Dwab => 256,
        _ => 32,
    }
}

/// Line `y` of the image is one of those of the chunk that stands at `off`: the
/// chunk begins with the coordinate of its first line.
pub open spec fn holds_line(s: Seq<u8>, off: int, window: Box2i, method: Compression, y: int) -> bool {
    let row = signed_at(s, off) - window.y_min;
    row <= y < row + chunk_height(method)
}

/// The samples that the chunk at `off` of a file of lines holds: behind its
/// coordinate stands the number of its bytes.
pub open spec fn chunk_samples(
    s: Seq<u8>,
    off: int,
    cs: Seq<ChannelView>,
    window: Box2i,
    method: Compression,
    log: Seq<u16>,
) -> Result<Seq<Seq<u32>>, Fault> {
    let row = signed_at(s, off) - window.y_min;
    chunk_planes(
        s.subrange(off + 8, off + 8 + signed_at(s, off + 4)),
        method,
        cs,
        window.columns() as int,
        row,
        if row + chunk_height(method) <= window.rows() {
            chunk_height(method)
        } else {
            window.rows() - row
        },
        log,
    )
}

/// What one chunk does: it fills its lines, and leaves the others as they are.
pub proof fn lemma_lines_step(
    before: Seq<Seq<u32>>,
    s: Seq<u8>,
    off: int,
    cs: Seq<ChannelView>,
    window: Box2i,
    method: Compression,
    log: Seq<u16>,
    after: Seq<Seq<u32>>,
    c: int,
    y: int,
    x: int,
)
    requires
        is_full(cs),
        0 <= off,
        line_head_at(s, off) matches Some((t, a, b)) && lines_applied(
            before,
            cs,
            window,
            t,
            s.subrange(a, b),
            method,
            log,
        ) == Ok::<Seq<Seq<u32>>, Fault>(after),
        0 <= c < cs.len(),
        before.len() == cs.len(),
        before[c].len() == window.rows() * window.columns(),
        0 <= y < window.rows(),
        0 <= x < window.columns(),
    ensures
        after.len() == cs.len(),
        after[c].len() == before[c].len(),
        chunk_samples(s, off, cs, window, method, log) matches Ok(chunk) && after[c][y
            * window.columns() + x] == if holds_line(s, off, window, method, y) {
            chunk[c][(y - (signed_at(s, off) - window.y_min)) * window.columns() + x]
        } else {
            before[c][y * window.columns() + x]
        },
        window.y_min <= signed_at(s, off) < window.y_min + window.rows(),
{
    law_numbers(s, off);
    law_numbers(s, off + 4);
    let (w, h) = (window.columns() as int, window.rows() as int);
    let row = signed_at(s, off) - window.y_min;
    let n = if row + chunk_height(method) <= h {
        chunk_height(method)
    } else {
        h - row
    };
    assert(method.block_rows() == chunk_height(method));
    let payload = s.subrange(off + 8, off + 8 + signed_at(s, off + 4));
    let chunk = chunk_planes(payload, method, cs, w, row, n, log)->Ok_0;
    crate::flat_image::lemma_chunk_planes(payload, method, cs, w, row, n, log, c);
    assert((row + n - row) * w == n * w);
    let p = y * w + x;
    assert(0 <= y * w && p < h * w && (row * w <= p <==> row <= y) && (p < row * w + n * w <==> y
        < row + n)) by (nonlinear_arith)
        requires
            p == y * w + x,
            0 <= y < h,
            0 <= x < w,
            0 <= row,
    ;
    assert(p - row * w == (y - row) * w + x) by (nonlinear_arith)
        requires
            p == y * w + x,
    ;
}

proof fn lemma_lines_sized(
    s: Seq<u8>,
    base: int,
    cs: Seq<ChannelView>,
    window: Box2i,
    method: Compression,
    log: Seq<u16>,
    k: int,
    c: int,
)
    requires
        is_full(cs),
        0 <= k,
        0 <= c < cs.len(),
        scanlines_after(s, base, cs, window, method, log, k) is Ok,
    ensures
        scanlines_after(s, base, cs, window, method, log, k) matches Ok(planes) && planes.len()
            == cs.len() && planes[c].len() == window.rows() * window.columns(),
    decreases k,
{
    if k > 0 {
        lemma_lines_sized(s, base, cs, window, method, log, k - 1, c);
    } else {
        let (w, h) = (window.columns() as int, window.rows() as int);
        assert(plane_len(cs[c], w, h) == h * w);
        assert(0 <= h * w) by (nonlinear_arith)
            requires
                0 <= h,
                0 <= w,
        ;
    }
}

/// The last of the first `n` chunks that hold a line is chunk `k`.
pub open spec fn is_last_of_line(
    s: Seq<u8>,
    base: int,
    window: Box2i,
    method: Compression,
    y: int,
    k: int,
    n: int,
) -> bool {
    &&& 0 <= k < n
    &&& holds_line(s, entry_of(s, base, k), window, method, y)
    &&& forall|j: int|
        k < j < n ==> !holds_line(s, #[trigger] entry_of(s, base, j), window, method, y)
}

proof fn lemma_line_found(
    s: Seq<u8>,
    base: int,
    cs: Seq<ChannelView>,
    window: Box2i,
    method: Compression,
    log: Seq<u16>,
    c: int,
    y: int,
    x: int,
    k: int,
    n: int,
)
    requires
        is_full(cs),
        0 <= base,
        scanlines_after(s, base, cs, window, method, log, n) is Ok,
        0 <= c < cs.len(),
        0 <= y < window.rows(),
        0 <= x < window.columns(),
        is_last_of_line(s, base, window, method, y, k, n),
    ensures
        scanlines_after(s, base, cs, window, method, log, n) matches Ok(planes) && (chunk_samples(
            s,
            entry_of(s, base, k),
            cs,
            window,
            method,
            log,
        ) matches Ok(chunk) && planes[c][y * window.columns() + x] == chunk[c][(y - (signed_at(
            s,
            entry_of(s, base, k),
        ) - window.y_min)) * window.columns() + x]),
    decreases n,
{
    let before = scanlines_after(s, base, cs, window, method, log, n - 1)->Ok_0;
    let after = scanlines_after(s, base, cs, window, method, log, n)->Ok_0;
    let off = entry_of(s, base, n - 1);
    law_numbers(s, base + 8 * (n - 1));
    assert(off == u64_at(s, base + 8 * (n - 1)));
    lemma_lines_sized(s, base, cs, window, method, log, n - 1, c);
    lemma_lines_step(before, s, off, cs, window, method, log, after, c, y, x);
    if k < n - 1 {
        assert(!holds_line(s, entry_of(s, base, n - 1), window, method, y));
        lemma_line_found(s, base, cs, window, method, log, c, y, x, k, n - 1);
    }
}

/// The file of an image that is stored in lines: its table has an offset for each
/// chunk. Line `y` of the image comes from the last chunk that holds it, which is
/// known by the coordinate that the chunk begins with, counted from the lower
/// corner of the data window.
pub proof fn law_file_of_lines(
    s: Seq<u8>,
    log: Seq<u16>,
    h: HeaderView,
    m: RequiredView,
    v: ImageView,
    c: int,
    y: int,
    x: int,
    k: int,
    n: int,
)
    requires
        header_of(s) == Ok::<HeaderView, Fault>(h),
        required_of(h.entries) == Some(m),
        exr_of(s, log) == Ok::<ImageView, Fault>(v),
        !h.version.single_tile,
        is_full(sort_by_name(m.channels)),
        0 <= h.end,
        0 <= c < m.channels.len(),
        0 <= y < m.data_window.rows(),
        0 <= x < m.data_window.columns(),
        chunk_height(m.compression) * (n - 1) < m.data_window.rows() <= chunk_height(m.compression)
            * n,
        is_last_of_line(s, h.end, m.data_window, m.compression, y, k, n),
    ensures
        ({
            let cs = sort_by_name(m.channels);
            let w = m.data_window.columns() as int;
            let off = entry_of(s, h.end, k);
            &&& v.planes.len() == cs.len()
            &&& v.planes[c].name == cs[c].name
            &&& chunk_samples(s, off, cs, m.data_window, m.compression, log) matches Ok(chunk)
                && v.planes[c].samples[y * w + x] == chunk[c][(y - (signed_at(s, off)
                - m.data_window.y_min)) * w + x]
        }),
{
    let cs = sort_by_name(m.channels);
    crate::types::law_sort_by_name(m.channels);
    assert(cs.len() == m.channels.len());
    let b = chunk_height(m.compression);
    assert(b == m.compression.block_rows());
    let rows = m.data_window.rows() as int;
    lemma_steps_are(rows, b, n);
    lemma_line_found(s, h.end, cs, m.data_window, m.compression, log, c, y, x, k, n);
}

pub proof fn lemma_steps_are(a: int, b: int, n: int)
    requires
        0 < b,
        b * (n - 1) < a <= b * n,
    ensures
        steps(a, b) == n,
{
    let r = a + b - 1 - b * n;
    assert(a + b - 1 == n * b + r && 0 <= r < b) by (nonlinear_arith)
        requires
            r == a + b - 1 - b * n,
            b * (n - 1) < a <= b * n,
    ;
    vstd::arithmetic::div_mod::lemma_fundamental_div_mod_converse(a + b - 1, b, n, r);
}

} // verus!
