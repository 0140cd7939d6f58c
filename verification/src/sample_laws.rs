//! Where the samples of channels stand that are not sampled at every pixel.

use crate::error::Fault;
use crate::flat::{exr_of, line_head_at, lines_applied, scanlines_after, ImageView};
use crate::flat_block::{
    lemma_sampled_monotonic, lemma_sampled_step, line_size, lines_size, row_at, rows_in, tall, wide,
};
use crate::flat_image::{
    chunk_planes, is_spaced, lemma_chunk_planes, lemma_rows_len, plane_len, planes_sized,
    required_of, short_unpacked, RequiredView,
};
use crate::flat_laws::{
    chunk_height, chunk_samples, entry_of, holds_line, is_last_of_line, law_samples,
    lemma_steps_are, pattern_at, width_of,
};
use crate::format_laws::{law_numbers, signed_at};
use crate::header::{header_of, HeaderView};
use crate::pack::zlib_inflated;
use crate::pxr24::code_row;
use crate::types::{law_sort_by_name, sort_by_name, Box2i, ChannelView, Compression, PixelType};
use vstd::arithmetic::div_mod::{lemma_fundamental_div_mod, lemma_fundamental_div_mod_converse};
use vstd::prelude::*;

verus! {

// ----------------------------------------------------------------------
// Places in a chunk
// ----------------------------------------------------------------------
/// How many multiples of `s` there are from 0 on below `n`.
pub open spec fn multiples(n: int, s: int) -> int {
    (n + s - 1) / s
}

/// The bytes of a sample: in short lines a float has three.
pub open spec fn stored_width(t: PixelType, short: bool) -> int {
    if short && t == PixelType::Float {
        3
    } else {
        width_of(t)
    }
}

/// The bytes of the first `k` channels in line `y`: a channel has samples in the lines
/// whose number is a multiple of its vertical spacing, and there at the columns whose
/// number is one of its horizontal spacing.
pub open spec fn line_span(cs: Seq<ChannelView>, width: int, y: int, short: bool, k: int) -> int
    decreases k,
{
    if k <= 0 {
        0
    } else {
        let c = cs[k - 1];
        line_span(cs, width, y, short, k - 1) + if y % c.y_sampling as int == 0 {
            multiples(width, c.x_sampling as int) * stored_width(c.pixel_type, short)
        } else {
            0
        }
    }
}

/// The bytes of the lines from `y0` on in front of line `y`.
pub open spec fn lines_span(cs: Seq<ChannelView>, width: int, y0: int, y: int, short: bool) -> int
    decreases y - y0,
{
    if y <= y0 {
        0
    } else {
        lines_span(cs, width, y0, y - 1, short) + line_span(
            cs,
            width,
            y - 1,
            short,
            cs.len() as int,
        )
    }
}

proof fn lemma_line_span(cs: Seq<ChannelView>, width: int, y: int, short: bool, k: int)
    requires
        is_spaced(cs),
        0 <= width,
        0 <= y,
        k <= cs.len(),
    ensures
        line_size(cs, width, y, short, k) == line_span(cs, width, y, short, k),
    decreases k,
{
    if k > 0 {
        lemma_line_span(cs, width, y, short, k - 1);
        lemma_counts(cs[k - 1], width);
        assert(cs[k - 1].x_sampling > 0 && cs[k - 1].y_sampling > 0);
    }
}

proof fn lemma_counts(c: ChannelView, n: int)
    requires
        c.x_sampling > 0,
        c.y_sampling > 0,
        0 <= n,
    ensures
        wide(c, n) == multiples(n, c.x_sampling as int),
        tall(c, n) == multiples(n, c.y_sampling as int),
{
    assert(n / 1 == n);
}

proof fn lemma_lines_span(cs: Seq<ChannelView>, width: int, y0: int, short: bool, n: int)
    requires
        is_spaced(cs),
        0 <= width,
        0 <= y0,
        0 <= n,
    ensures
        lines_size(cs, width, y0, short, n) == lines_span(cs, width, y0, y0 + n, short),
    decreases n,
{
    if n > 0 {
        lemma_lines_span(cs, width, y0, short, n - 1);
        lemma_line_span(cs, width, y0 + n - 1, short, cs.len() as int);
    }
}

/// The bytes of a chunk of lines.
pub proof fn law_lines_span(cs: Seq<ChannelView>, width: int, y0: int, short: bool, n: int)
    requires
        is_spaced(cs),
        0 <= width,
        0 <= y0,
        0 <= n,
    ensures
        lines_size(cs, width, y0, short, n) == lines_span(cs, width, y0, y0 + n, short),
{
    lemma_lines_span(cs, width, y0, short, n);
}

proof fn lemma_rows_place(
    data: Seq<u8>,
    cs: Seq<ChannelView>,
    width: int,
    y0: int,
    short: bool,
    n: int,
    c: int,
    y: int,
)
    requires
        is_spaced(cs),
        0 <= width,
        0 <= y0 <= y < y0 + n,
        0 <= c < cs.len(),
        y % cs[c].y_sampling as int == 0,
    ensures
        ({
            let w = multiples(width, cs[c].x_sampling as int);
            let at = (y / cs[c].y_sampling as int - multiples(y0, cs[c].y_sampling as int)) * w;
            let v = rows_in(data, cs, width, y0, short, n, c);
            &&& 0 <= at
            &&& at + w <= v.len()
            &&& v.subrange(at, at + w) == row_at(
                cs[c],
                data,
                lines_span(cs, width, y0, y, short) + line_span(cs, width, y, short, c),
                w,
                short,
            )
        }),
    decreases n,
{
    let ch = cs[c];
    let s = ch.y_sampling as int;
    let w = multiples(width, ch.x_sampling as int);
    lemma_counts(ch, width);
    lemma_counts(ch, y0);
    lemma_counts(ch, y);
    lemma_counts(ch, y0 + n - 1);
    lemma_counts(ch, y0 + n);
    lemma_exact(y, s);
    lemma_sampled_monotonic(y0, y, s);
    lemma_sampled_step(y0 + n - 1, s);
    lemma_rows_len(data, cs, width, y0, short, n, c);
    lemma_rows_len(data, cs, width, y0, short, n - 1, c);
    let (a, b) = (multiples(y0, s), y / s);
    let at = (b - a) * w;
    let u = rows_in(data, cs, width, y0, short, n - 1, c);
    let v = rows_in(data, cs, width, y0, short, n, c);
    lemma_sampled_monotonic(0, width, ch.x_sampling as int);
    assert(0 <= at) by (nonlinear_arith)
        requires
            at == (b - a) * w,
            a <= b,
            0 <= w,
    ;
    if y < y0 + n - 1 {
        lemma_rows_place(data, cs, width, y0, short, n - 1, c, y);
        assert(v.subrange(at, at + w) =~= u.subrange(at, at + w));
    } else {
        lemma_lines_span(cs, width, y0, short, n - 1);
        lemma_line_span(cs, width, y, short, c);
        let row = row_at(ch, data, lines_size(cs, width, y0, short, n - 1) + line_size(
            cs,
            width,
            y,
            short,
            c,
        ), w, short);
        assert(v == u + row);
        assert(u.len() == at);
        assert((b + 1 - a) * w == at + w) by (nonlinear_arith)
            requires
                at == (b - a) * w,
        ;
        assert(v.subrange(at, at + w) =~= row);
    }
}

proof fn lemma_exact(y: int, s: int)
    requires
        0 <= y,
        0 < s,
        y % s == 0,
    ensures
        multiples(y, s) == y / s,
{
    lemma_fundamental_div_mod(y, s);
    let q = y / s;
    assert(y + s - 1 == q * s + (s - 1)) by (nonlinear_arith)
        requires
            y == s * q,
    ;
    lemma_fundamental_div_mod_converse(y + s - 1, s, q, s - 1);
}

/// Lines that are not packed: sample `x` of a channel in line `y` stands behind the lines
/// in front of it and the channels in front of it.
pub proof fn law_sampled_chunk(
    data: Seq<u8>,
    cs: Seq<ChannelView>,
    width: int,
    y0: int,
    n: int,
    log: Seq<u16>,
    c: int,
    y: int,
    x: int,
)
    requires
        is_spaced(cs),
        0 <= width,
        0 <= y0 <= y < y0 + n,
        0 <= c < cs.len(),
        y % cs[c].y_sampling as int == 0,
        0 <= x < multiples(width, cs[c].x_sampling as int),
        data.len() == lines_span(cs, width, y0, y0 + n, false),
        data.len() <= u64::MAX,
    ensures
        ({
            let w = multiples(width, cs[c].x_sampling as int);
            let row = y / cs[c].y_sampling as int - multiples(y0, cs[c].y_sampling as int);
            chunk_planes(data, Compression::Uncompressed, cs, width, y0, n, log) matches Ok(v)
                && v[c][row * w + x] == pattern_at(
                cs[c].pixel_type,
                data,
                lines_span(cs, width, y0, y, false) + line_span(cs, width, y, false, c) + x
                    * width_of(cs[c].pixel_type),
            )
        }),
{
    lemma_lines_span(cs, width, y0, false, n);
    lemma_rows_place(data, cs, width, y0, false, n, c, y);
    let w = multiples(width, cs[c].x_sampling as int);
    let at = (y / cs[c].y_sampling as int - multiples(y0, cs[c].y_sampling as int)) * w;
    let v = rows_in(data, cs, width, y0, false, n, c);
    let off = lines_span(cs, width, y0, y, false) + line_span(cs, width, y, false, c);
    assert(v.subrange(at, at + w)[x] == v[at + x]);
    law_samples(cs[c].pixel_type, data, off + x * width_of(cs[c].pixel_type));
}

/// Short lines are deflated without being parted; those that are as long as they are without
/// packing are not packed.
pub proof fn law_short_unpacked(payload: Seq<u8>, size: int, data: Seq<u8>)
    requires
        short_unpacked(payload, size) == Some(data),
    ensures
        data.len() == size,
        payload.len() == size ==> data == payload,
        payload.len() != size ==> zlib_inflated(payload) == Some(data),
{
}

/// Short lines: a row of samples stands behind the lines in front of it and the channels in
/// front of it.
pub proof fn law_short_chunk(
    payload: Seq<u8>,
    cs: Seq<ChannelView>,
    width: int,
    y0: int,
    n: int,
    log: Seq<u16>,
    v: Seq<Seq<u32>>,
    c: int,
    y: int,
)
    requires
        is_spaced(cs),
        0 <= width,
        0 <= y0 <= y < y0 + n,
        0 <= c < cs.len(),
        y % cs[c].y_sampling as int == 0,
        chunk_planes(payload, Compression::Pxr24, cs, width, y0, n, log) == Ok::<
            Seq<Seq<u32>>,
            Fault,
        >(v),
    ensures
        ({
            let w = multiples(width, cs[c].x_sampling as int);
            let at = (y / cs[c].y_sampling as int - multiples(y0, cs[c].y_sampling as int)) * w;
            short_unpacked(payload, lines_span(cs, width, y0, y0 + n, true)) matches Some(data)
                && data.len() == lines_span(cs, width, y0, y0 + n, true) && v[c].subrange(at, at + w)
                == code_row(
                cs[c].pixel_type,
                data,
                lines_span(cs, width, y0, y, true) + line_span(cs, width, y, true, c),
                w,
            )
        }),
{
    lemma_lines_span(cs, width, y0, true, n);
    let data = short_unpacked(payload, lines_size(cs, width, y0, true, n))->Some_0;
    lemma_rows_place(data, cs, width, y0, true, n, c, y);
}

// ----------------------------------------------------------------------
// Places in an image
// ----------------------------------------------------------------------
proof fn lemma_sampled_line_step(
    before: Seq<Seq<u32>>,
    s: Seq<u8>,
    off: int,
    cs: Seq<ChannelView>,
    window: Box2i,
    method: Compression,
    log: Seq<u16>,
    after: Seq<Seq<u32>>,
    c: int,
    y: int,
    x: int,
)
    requires
        is_spaced(cs),
        0 <= off,
        line_head_at(s, off) matches Some((t, a, b)) && lines_applied(
            before,
            cs,
            window,
            t,
            s.subrange(a, b),
            method,
            log,
        ) == Ok::<Seq<Seq<u32>>, Fault>(after),
        0 <= c < cs.len(),
        planes_sized(before, cs, window.columns() as int, window.rows() as int),
        0 <= y < window.rows(),
        y % cs[c].y_sampling as int == 0,
        0 <= x < multiples(window.columns() as int, cs[c].x_sampling as int),
    ensures
        planes_sized(after, cs, window.columns() as int, window.rows() as int),
        ({
            let w = multiples(window.columns() as int, cs[c].x_sampling as int);
            let d = cs[c].y_sampling as int;
            chunk_samples(s, off, cs, window, method, log) matches Ok(chunk) && after[c][(y / d) * w
                + x] == if holds_line(s, off, window, method, y) {
                chunk[c][(y / d - multiples(signed_at(s, off) - window.y_min, d)) * w + x]
            } else {
                before[c][(y / d) * w + x]
            }
        }),
{
    law_numbers(s, off);
    law_numbers(s, off + 4);
    let ch = cs[c];
    let (width, h) = (window.columns() as int, window.rows() as int);
    let w = multiples(width, ch.x_sampling as int);
    let d = ch.y_sampling as int;
    let row = signed_at(s, off) - window.y_min;
    let n = if row + chunk_height(method) <= h {
        chunk_height(method)
    } else {
        h - row
    };
    assert(method.block_rows() == chunk_height(method));
    let payload = s.subrange(off + 8, off + 8 + signed_at(s, off + 4));
    let chunk = chunk_planes(payload, method, cs, width, row, n, log)->Ok_0;
    lemma_chunk_planes(payload, method, cs, width, row, n, log, c);
    lemma_counts(ch, width);
    lemma_counts(ch, row);
    lemma_counts(ch, row + n);
    lemma_counts(ch, h);
    lemma_counts(ch, y);
    lemma_exact(y, d);
    lemma_sampled_step(y, d);
    lemma_counts(ch, y + 1);
    lemma_sampled_monotonic(y + 1, h, d);
    lemma_sampled_monotonic(row, row + n, d);
    if y < row {
        lemma_sampled_monotonic(y + 1, row, d);
    } else {
        lemma_sampled_monotonic(row, y, d);
        if y < row + n {
            lemma_sampled_monotonic(y + 1, row + n, d);
        } else {
            lemma_sampled_monotonic(row + n, y, d);
        }
    }
    let (q, a, b, e) = (y / d, multiples(row, d), multiples(row + n, d), multiples(h, d));
    let p = q * w + x;
    assert(a <= q < b <==> row <= y < row + n);
    assert(0 <= q * w && p < e * w && (a * w <= p <==> a <= q) && (p < a * w + (b - a) * w <==> q < b)
        && p - a * w == (q - a) * w + x) by (nonlinear_arith)
        requires
            p == q * w + x,
            0 <= q < e,
            0 <= x < w,
            0 <= a <= b,
    ;
    assert(before[c].len() == plane_len(ch, width, h));
}

proof fn lemma_sampled_line_found(
    s: Seq<u8>,
    base: int,
    cs: Seq<ChannelView>,
    window: Box2i,
    method: Compression,
    log: Seq<u16>,
    c: int,
    y: int,
    x: int,
    k: int,
    n: int,
)
    requires
        is_spaced(cs),
        0 <= base,
        scanlines_after(s, base, cs, window, method, log, n) is Ok,
        0 <= c < cs.len(),
        0 <= y < window.rows(),
        y % cs[c].y_sampling as int == 0,
        0 <= x < multiples(window.columns() as int, cs[c].x_sampling as int),
        is_last_of_line(s, base, window, method, y, k, n),
    ensures
        ({
            let w = multiples(window.columns() as int, cs[c].x_sampling as int);
            let d = cs[c].y_sampling as int;
            let off = entry_of(s, base, k);
            chunk_samples(s, off, cs, window, method, log) matches Ok(chunk) && scanlines_after(
                s,
                base,
                cs,
                window,
                method,
                log,
                n,
            )->Ok_0[c][(y / d) * w + x] == chunk[c][(y / d - multiples(
                signed_at(s, off) - window.y_min,
                d,
            )) * w + x]
        }),
    decreases n,
{
    let before = scanlines_after(s, base, cs, window, method, log, n - 1)->Ok_0;
    let after = scanlines_after(s, base, cs, window, method, log, n)->Ok_0;
    let off = entry_of(s, base, n - 1);
    law_numbers(s, base + 8 * (n - 1));
    lemma_planes_sized(s, base, cs, window, method, log, n - 1);
    lemma_sampled_line_step(before, s, off, cs, window, method, log, after, c, y, x);
    if k < n - 1 {
        assert(!holds_line(s, entry_of(s, base, n - 1), window, method, y));
        lemma_sampled_line_found(s, base, cs, window, method, log, c, y, x, k, n - 1);
    }
}

proof fn lemma_planes_sized(
    s: Seq<u8>,
    base: int,
    cs: Seq<ChannelView>,
    window: Box2i,
    method: Compression,
    log: Seq<u16>,
    k: int,
)
    requires
        is_spaced(cs),
        0 <= k,
        scanlines_after(s, base, cs, window, method, log, k) is Ok,
    ensures
        planes_sized(
            scanlines_after(s, base, cs, window, method, log, k)->Ok_0,
            cs,
            window.columns() as int,
            window.rows() as int,
        ),
    decreases k,
{
    if k > 0 {
        lemma_planes_sized(s, base, cs, window, method, log, k - 1);
    } else {
        let (w, h) = (window.columns() as int, window.rows() as int);
        let planes = scanlines_after(s, base, cs, window, method, log, k)->Ok_0;
        assert forall|c: int| 0 <= c < cs.len() implies (#[trigger] planes[c]).len() == plane_len(
            cs[c],
            w,
            h,
        ) by {
            lemma_sampled_monotonic(0, w, cs[c].x_sampling as int);
            lemma_sampled_monotonic(0, h, cs[c].y_sampling as int);
            let (a, b) = (tall(cs[c], h), wide(cs[c], w));
            assert(0 <= a * b) by (nonlinear_arith)
                requires
                    0 <= a,
                    0 <= b,
            ;
        }
    }
}

/// The file of an image that is stored in lines, for every channel: the samples of a channel
/// in line `y` make up one of its rows, which comes from the last chunk that holds the line.
pub proof fn law_file_of_sampled_lines(
    s: Seq<u8>,
    log: Seq<u16>,
    h: HeaderView,
    m: RequiredView,
    v: ImageView,
    c: int,
    y: int,
    x: int,
    k: int,
    n: int,
)
    requires
        header_of(s) == Ok::<HeaderView, Fault>(h),
        required_of(h.entries) == Some(m),
        exr_of(s, log) == Ok::<ImageView, Fault>(v),
        !h.version.single_tile,
        0 <= h.end,
        0 <= c < m.channels.len(),
        0 <= y < m.data_window.rows(),
        y % sort_by_name(m.channels)[c].y_sampling as int == 0,
        0 <= x < multiples(
            m.data_window.columns() as int,
            sort_by_name(m.channels)[c].x_sampling as int,
        ),
        chunk_height(m.compression) * (n - 1) < m.data_window.rows() <= chunk_height(m.compression)
            * n,
        is_last_of_line(s, h.end, m.data_window, m.compression, y, k, n),
    ensures
        ({
            let cs = sort_by_name(m.channels);
            let w = multiples(m.data_window.columns() as int, cs[c].x_sampling as int);
            let d = cs[c].y_sampling as int;
            let off = entry_of(s, h.end, k);
            &&& v.planes.len() == cs.len()
            &&& v.planes[c].name == cs[c].name
            &&& chunk_samples(s, off, cs, m.data_window, m.compression, log) matches Ok(chunk)
                && v.planes[c].samples[(y / d) * w + x] == chunk[c][(y / d - multiples(
                signed_at(s, off) - m.data_window.y_min,
                d,
            )) * w + x]
        }),
{
    let cs = sort_by_name(m.channels);
    law_sort_by_name(m.channels);
    let b = chunk_height(m.compression);
    assert(b == m.compression.block_rows());
    lemma_steps_are(m.data_window.rows() as int, b, n);
    lemma_sampled_line_found(s, h.end, cs, m.data_window, m.compression, log, c, y, x, k, n);
}

} // verus!
