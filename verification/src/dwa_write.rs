//! Writing chunks with the transform coder.

use crate::bytes::put_bytes;
use crate::dwa::{
    all_units_fit, chunk_of, has_lossy_uint, lines_of, lossy_codes, pieces_fit, pieces_of, place_in,
    region_of, regions_of, set_with, ChunkView, DwaPieces, PiecesView,
};
use crate::dwa_blocks::{
    codes_stand, cut_square, every_nth, law_plane_of_squares, square_at, squares_of, unit_views,
    units_fit,
};
use crate::dwa_parts::{
    bytes_of_codes, codes_bytes, gather_scheme, half_codes, law_scheme_part, law_unsplit_of_split,
    lemma_codes_bytes_len, lemma_scheme_bytes_len, lemma_split_parts_fit, lemma_whole_span,
    lossy_values, plane_values, scheme_bytes, split_parts,
};
use crate::dwa_regions::{
    law_joined_of_regions, law_regions_of_joined, lemma_joined_len, lemma_regions_fit, region_in,
    regions_fit, regions_in, rows_of, span_of, split_regions,
};
use crate::dwa_rules::{
    build_lossy_sets, class_from, classes_of, classify_all, default_rule_set, default_rules,
    law_sets_lossy, law_used_rules_suffice, lossy_pair, put_used_rules, rule_fits, run_rules,
    sets_of, used_rules, DwaScheme, LossySet, RuleView, WireRule, NO_SLOT,
};
use crate::dwa_streams::{
    ac_of, dc_of, header_bytes, header_of, header_valid, law_codes_of_bytes, law_header_reads_back,
    law_streams_read_back, put_header, rle_of, streams_bytes, verbatim_of, DwaHeader, StreamsView,
};
use crate::dwa_tables::PerceptualTables;
use crate::dwa_units::{
    all_plain, codes_fit, firsts_of, flat_squares, law_squares_read_back, law_units_read_back,
    lemma_firsts_len, lemma_flat_len, lemma_set_units, lemma_sets_valid, lemma_unit_place,
    numbers_of, set_code_views, set_columns, set_rows, set_size, set_units, set_views,
    squares_stored, store_units,
};
use crate::error::{ExrError, Fault};
use crate::flat_block::{lines_size, wide};
use crate::grid::steps;
use crate::half::{f32_as_half, half_as_f32, law_half_nan_round_trip, law_half_round_trip};
use crate::huf::{huf_compress, huf_payload, huf_values};
use crate::layout::byte_views;
use crate::pack::{zlib_deflate, zlib_deflated, zlib_inflated};
use crate::rle::{law_rle_round_trip, rle_compress, rle_packed};
use crate::types::{channel_views, Channel, ChannelView, PixelType};
use crate::zip::{law_restore_of_prepare, prepare, prepared};
use vstd::prelude::*;

verus! {

broadcast use crate::bytes::group_le_len;

// ----------------------------------------------------------------------
// The channels that are lossy
// ----------------------------------------------------------------------
/// No rule makes a channel of integers lossy.
pub open spec fn spares_uint(rules: Seq<RuleView>) -> bool {
    forall|i: int|
        0 <= i < rules.len() && (#[trigger] rules[i]).scheme == DwaScheme::LossyDct
            ==> rules[i].pixel_type != PixelType::Uint
}

proof fn lemma_spares_both(a: Seq<RuleView>, b: Seq<RuleView>)
    requires
        spares_uint(a),
        spares_uint(b),
    ensures
        spares_uint(a + b),
{
    let c = a + b;
    assert forall|i: int|
        0 <= i < c.len() && (#[trigger] c[i]).scheme == DwaScheme::LossyDct implies c[i].pixel_type
        != PixelType::Uint by {
        if i < a.len() {
            assert(c[i] == a[i]);
        } else {
            assert(c[i] == b[i - a.len()]);
        }
    }
}

proof fn lemma_default_spares()
    ensures
        spares_uint(default_rule_set()),
{
    let a = lossy_pair("R"@, 0, false);
    let b = lossy_pair("G"@, 1, false);
    let c = lossy_pair("B"@, 2, false);
    let d = lossy_pair("Y"@, NO_SLOT, false);
    let e = lossy_pair("BY"@, NO_SLOT, false);
    let f = lossy_pair("RY"@, NO_SLOT, false);
    let g = run_rules("A"@, false);
    assert(spares_uint(a) && spares_uint(b) && spares_uint(c) && spares_uint(d) && spares_uint(e)
        && spares_uint(f) && spares_uint(g));
    lemma_spares_both(a, b);
    lemma_spares_both(a + b, c);
    lemma_spares_both(a + b + c, d);
    lemma_spares_both(a + b + c + d, e);
    lemma_spares_both(a + b + c + d + e, f);
    lemma_spares_both(a + b + c + d + e + f, g);
}

proof fn lemma_class_spares(c: ChannelView, rules: Seq<RuleView>, i: int)
    requires
        spares_uint(rules),
        0 <= i,
        c.pixel_type == PixelType::Uint,
    ensures
        class_from(c, rules, i).0 != DwaScheme::LossyDct,
    decreases rules.len() - i,
{
    if i < rules.len() && !rule_fits(rules[i], c) {
        lemma_class_spares(c, rules, i + 1);
    }
}

/// The default rules make no channel of integers lossy.
pub proof fn law_uint_not_lossy(cs: Seq<ChannelView>)
    ensures
        !has_lossy_uint(cs, classes_of(cs, default_rule_set())),
{
    lemma_default_spares();
    let classes = classes_of(cs, default_rule_set());
    assert forall|c: int| 0 <= c < cs.len() implies !(#[trigger] classes[c].0 == DwaScheme::LossyDct
        && cs[c].pixel_type == PixelType::Uint) by {
        if cs[c].pixel_type == PixelType::Uint {
            lemma_class_spares(cs[c], default_rule_set(), 0);
        }
    }
}

// ----------------------------------------------------------------------
// Taking lines apart
// ----------------------------------------------------------------------
/// The samples of a lossy channel.
pub open spec fn channel_plane(regions: Seq<Seq<u8>>, cs: Seq<ChannelView>, c: int, table: Seq<u16>) -> Seq<
    u32,
> {
    plane_values(half_codes(regions[c], cs[c].pixel_type), cs[c].p_linear, table)
}

/// The squares of the channels of a set.
pub open spec fn cut_units(
    regions: Seq<Seq<u8>>,
    cs: Seq<ChannelView>,
    set: LossySet,
    width: int,
    y0: int,
    n: int,
    table: Seq<u16>,
) -> Seq<Seq<u32>> {
    let nx = set_columns(cs, set, width);
    let count = set.members().len() as int;
    Seq::new(
        set_units(cs, set, width, y0, n) as nat,
        |t: int|
            square_at(
                channel_plane(regions, cs, set.members()[t % count], table),
                nx,
                set_rows(cs, set, y0, n),
                (t / count) % steps(nx, 8),
                (t / count) / steps(nx, 8),
            ),
    )
}

/// The pieces that lines are taken apart into. The squares hold samples.
pub open spec fn split_of(
    raw: Seq<u8>,
    cs: Seq<ChannelView>,
    width: int,
    y0: int,
    n: int,
    table: Seq<u16>,
) -> PiecesView {
    let classes = classes_of(cs, default_rule_set());
    let sets = sets_of(cs, classes);
    let regions = regions_in(raw, cs, width, y0, n);
    PiecesView {
        classes,
        verbatim: scheme_bytes(regions, classes, DwaScheme::Verbatim, cs.len() as int),
        rle: scheme_bytes(split_parts(regions, cs), classes, DwaScheme::Rle, cs.len() as int),
        units: Seq::new(
            sets.len(),
            |j: int| cut_units(regions, cs, sets[j], width, y0, n, table),
        ),
    }
}

proof fn lemma_split_regions_fit(raw: Seq<u8>, cs: Seq<ChannelView>, width: int, y0: int, n: int)
    requires
        0 <= width,
        0 <= y0,
        0 <= n,
        raw.len() == lines_size(cs, width, y0, false, n),
    ensures
        regions_fit(regions_in(raw, cs, width, y0, n), cs, width, y0, n),
{
    let regions = regions_in(raw, cs, width, y0, n);
    assert forall|c: int| 0 <= c < cs.len() implies (#[trigger] regions[c]).len() == span_of(
        cs[c],
        width,
        y0,
        n,
    ) by {
        lemma_regions_fit(raw, cs, width, y0, n, c);
    }
}

/// The pieces that lines are taken apart into are those of a chunk.
pub proof fn lemma_split_fits(
    raw: Seq<u8>,
    cs: Seq<ChannelView>,
    width: int,
    y0: int,
    n: int,
    table: Seq<u16>,
)
    requires
        0 <= width <= u32::MAX,
        0 <= y0,
        0 <= n <= u32::MAX,
        raw.len() == lines_size(cs, width, y0, false, n),
    ensures
        pieces_fit(split_of(raw, cs, width, y0, n, table), cs, width, y0, n),
{
    let p = split_of(raw, cs, width, y0, n, table);
    let regions = regions_in(raw, cs, width, y0, n);
    let sets = sets_of(cs, p.classes);
    law_uint_not_lossy(cs);
    lemma_split_regions_fit(raw, cs, width, y0, n);
    lemma_split_parts_fit(regions, cs, width, y0, n);
    lemma_scheme_bytes_len(
        regions,
        cs,
        p.classes,
        DwaScheme::Verbatim,
        width,
        y0,
        n,
        cs.len() as int,
    );
    lemma_scheme_bytes_len(
        split_parts(regions, cs),
        cs,
        p.classes,
        DwaScheme::Rle,
        width,
        y0,
        n,
        cs.len() as int,
    );
    assert forall|j: int| 0 <= j < sets.len() implies units_fit(
        #[trigger] p.units[j],
        sets[j].members().len() as int,
        set_columns(cs, sets[j], width),
        set_rows(cs, sets[j], y0, n),
    ) by {
        lemma_set_units(cs, sets[j], width, y0, n);
    }
}

/// The samples of a channel are as many as its places.
proof fn lemma_plane_len(
    regions: Seq<Seq<u8>>,
    cs: Seq<ChannelView>,
    c: int,
    table: Seq<u16>,
    width: int,
    y0: int,
    n: int,
)
    requires
        regions_fit(regions, cs, width, y0, n),
        0 <= c < cs.len(),
        0 <= width,
        0 <= y0,
        0 <= n,
    ensures
        channel_plane(regions, cs, c, table).len() == rows_of(cs[c], y0, n) * wide(cs[c], width),
{
    assert(regions[c].len() == span_of(cs[c], width, y0, n));
    lemma_whole_span(cs[c], width, y0, n);
}

/// Cut the channels of a set into squares.
fn cut_set(
    regions: &Vec<Vec<u8>>,
    channels: &[Channel],
    set: LossySet,
    width: u32,
    y0: u32,
    n: u32,
    tables: &PerceptualTables,
) -> (r: Vec<Vec<u32>>)
    requires
        y0 + n <= u32::MAX,
        tables.inv(),
        regions_fit(
            byte_views(regions@),
            channel_views(channels@),
            width as int,
            y0 as int,
            n as int,
        ),
        forall|k: int|
            0 <= k < set.members().len() ==> 0 <= #[trigger] set.members()[k] < channels@.len()
                && channel_views(channels@)[set.members()[k]].pixel_type != PixelType::Uint
                && crate::dwa_rules::same_shape(
                channel_views(channels@)[set.members()[0]],
                channel_views(channels@)[set.members()[k]],
            ),
    ensures
        unit_views(r@) == cut_units(
            byte_views(regions@),
            channel_views(channels@),
            set,
            width as int,
            y0 as int,
            n as int,
            tables.nonlinear_codes(),
        ),
{
    let ghost cs = channel_views(channels@);
    let ghost rs = byte_views(regions@);
    let ghost table = tables.nonlinear_codes();
    let ghost (w, y, h) = (width as int, y0 as int, n as int);
    let ghost all = cut_units(rs, cs, set, w, y, h, table);
    let count: usize = set.component_count();
    assert(0 <= set.members()[0] < channels@.len());
    let (nx, ny): (u32, u32) = set_size(channels, set, width, y0, n);
    let mut planes: Vec<Vec<u32>> = Vec::new();
    let mut k: usize = 0;
    while k < count
        invariant
            k <= count,
            count == set.members().len(),
            0 <= w,
            0 <= y,
            0 <= h,
            w == width,
            y == y0,
            h == n,
            tables.inv(),
            table == tables.nonlinear_codes(),
            cs == channel_views(channels@),
            rs == byte_views(regions@),
            regions_fit(rs, cs, w, y, h),
            nx == set_columns(cs, set, w),
            ny == set_rows(cs, set, y, h),
            forall|i: int|
                0 <= i < set.members().len() ==> 0 <= #[trigger] set.members()[i] < channels@.len()
                    && cs[set.members()[i]].pixel_type != PixelType::Uint
                    && crate::dwa_rules::same_shape(
                    cs[set.members()[0]],
                    cs[set.members()[i]],
                ),
            planes@.len() == k,
            forall|i: int|
                0 <= i < k ==> (#[trigger] planes@[i])@ == channel_plane(
                    rs,
                    cs,
                    set.members()[i],
                    table,
                ) && planes@[i]@.len() == ny * nx,
        decreases count - k,
    {
        let c: usize = set.member(k);
        assert(0 <= set.members()[k as int] < channels@.len());
        let ch: &Channel = &channels[c];
        assert(cs[c as int] == ch@);
        assert(rs[c as int] == regions@[c as int]@);
        assert(rs.len() == regions@.len());
        let plane: Vec<u32> = lossy_values(
            regions[c].as_slice(),
            ch.pixel_type,
            ch.p_linear,
            tables,
        );
        proof {
            lemma_plane_len(rs, cs, c as int, table, w, y, h);
        }
        planes.push(plane);
        k = k + 1;
    }
    proof {
        lemma_set_units(cs, set, w, y, h);
    }
    let across: u64 = (nx as u64 + 7) / 8;
    let down: u64 = (ny as u64 + 7) / 8;
    let blocks: u64 = down * across;
    let total: u64 = blocks * count as u64;
    let mut r: Vec<Vec<u32>> = Vec::new();
    let mut t: u64 = 0;
    while t < total
        invariant
            t <= total,
            1 <= count <= 3,
            count == set.members().len(),
            across == steps(nx as int, 8),
            down == steps(ny as int, 8),
            blocks == down * across,
            total == blocks * count,
            nx == set_columns(cs, set, w),
            ny == set_rows(cs, set, y, h),
            total == set_units(cs, set, w, y, h),
            all == cut_units(rs, cs, set, w, y, h, table),
            planes@.len() == count,
            forall|i: int|
                0 <= i < count ==> (#[trigger] planes@[i])@ == channel_plane(
                    rs,
                    cs,
                    set.members()[i],
                    table,
                ) && planes@[i]@.len() == ny * nx,
            r@.len() == t,
            forall|i: int| 0 <= i < t ==> (#[trigger] r@[i])@ == all[i],
        decreases total - t,
    {
        proof {
            lemma_unit_place(blocks as int, count as int, t as int);
            assert(across > 0 && blocks > 0) by (nonlinear_arith)
                requires
                    0 < blocks * count,
                    blocks == down * across,
                    0 <= across,
                    0 <= blocks,
                    0 <= down,
            ;
            lemma_unit_place(down as int, across as int, (t / count as u64) as int);
        }
        let b: u64 = t / count as u64;
        let plane: &Vec<u32> = &planes[(t % count as u64) as usize];
        let bx: u32 = (b % across) as u32;
        let by: u32 = (b / across) as u32;
        let square: Vec<u32> = cut_square(plane.as_slice(), nx, ny, bx, by);
        assert(square@ == all[t as int]);
        r.push(square);
        t = t + 1;
    }
    assert(unit_views(r@) =~= all);
    r
}

/// Take the lines of a chunk apart. The squares hold samples.
pub fn split_chunk(
    raw: &[u8],
    channels: &[Channel],
    width: u32,
    y0: u32,
    n: u32,
    tables: &PerceptualTables,
) -> (p: DwaPieces)
    requires
        y0 + n <= u32::MAX,
        tables.inv(),
        raw@.len() == lines_size(
            channel_views(channels@),
            width as int,
            y0 as int,
            false,
            n as int,
        ),
    ensures
        p@ == split_of(
            raw@,
            channel_views(channels@),
            width as int,
            y0 as int,
            n as int,
            tables.nonlinear_codes(),
        ),
        p.fits(channel_views(channels@), width as int, y0 as int, n as int),
{
    let ghost cs = channel_views(channels@);
    let ghost (w, y, h) = (width as int, y0 as int, n as int);
    let ghost table = tables.nonlinear_codes();
    let rules: Vec<WireRule> = default_rules();
    let classes: Vec<(DwaScheme, i8)> = classify_all(channels, rules.as_slice());
    let regions: Vec<Vec<u8>> = split_regions(raw, channels, width, y0, n);
    let ghost rs = byte_views(regions@);
    proof {
        lemma_split_regions_fit(raw@, cs, w, y, h);
        law_uint_not_lossy(cs);
    }
    let verbatim: Vec<u8> = gather_scheme(
        regions.as_slice(),
        channels,
        classes.as_slice(),
        DwaScheme::Verbatim,
        false,
        Ghost(w),
        Ghost(y),
        Ghost(h),
    );
    let rle: Vec<u8> = gather_scheme(
        regions.as_slice(),
        channels,
        classes.as_slice(),
        DwaScheme::Rle,
        true,
        Ghost(w),
        Ghost(y),
        Ghost(h),
    );
    let sets: Vec<LossySet> = build_lossy_sets(channels, classes.as_slice());
    let ghost all = split_of(raw@, cs, w, y, h, table).units;
    let mut units: Vec<Vec<Vec<u32>>> = Vec::new();
    let mut j: usize = 0;
    assert(channels.len() == channels@.len());
    while j < sets.len()
        invariant
            j <= sets@.len(),
            y0 + n <= u32::MAX,
            tables.inv(),
            table == tables.nonlinear_codes(),
            cs == channel_views(channels@),
            cs.len() == channels@.len(),
            cs.len() <= usize::MAX,
            rs == byte_views(regions@),
            rs == regions_in(raw@, cs, w, y, h),
            w == width,
            y == y0,
            h == n,
            regions_fit(rs, cs, w, y, h),
            classes@ == classes_of(cs, default_rule_set()),
            !has_lossy_uint(cs, classes@),
            sets@ == sets_of(cs, classes@),
            all == split_of(raw@, cs, w, y, h, table).units,
            units@.len() == j,
            forall|i: int| 0 <= i < j ==> unit_views((#[trigger] units@[i])@) == all[i],
        decreases sets@.len() - j,
    {
        proof {
            let set = sets@[j as int];
            assert forall|k: int| 0 <= k < set.members().len() implies 0
                <= #[trigger] set.members()[k] < channels@.len() && cs[set.members()[k]].pixel_type
                != PixelType::Uint && crate::dwa_rules::same_shape(
                cs[set.members()[0]],
                cs[set.members()[k]],
            ) by {
                law_sets_lossy(cs, classes@, j as int, k);
                assert(classes@[set.members()[k]].0 == DwaScheme::LossyDct);
            }
        }
        let u: Vec<Vec<u32>> = cut_set(&regions, channels, sets[j], width, y0, n, tables);
        assert(unit_views(u@) == all[j as int]);
        units.push(u);
        j = j + 1;
    }
    proof {
        assert(set_views(units@) =~= all);
        lemma_split_fits(raw@, cs, w, y, h, table);
    }
    DwaPieces { classes, sets, verbatim, rle, units }
}

// ----------------------------------------------------------------------
// Laws of taking apart and putting together
// ----------------------------------------------------------------------
/// What stands at the place of a channel that is not lossy is its bytes.
pub proof fn law_kept_exactly(
    raw: Seq<u8>,
    cs: Seq<ChannelView>,
    width: int,
    y0: int,
    n: int,
    nonlinear: Seq<u16>,
    linear: Seq<u16>,
    units: Seq<Seq<Seq<u32>>>,
    c: int,
)
    requires
        0 <= width <= u32::MAX,
        0 <= y0,
        0 <= n <= u32::MAX,
        raw.len() == lines_size(cs, width, y0, false, n),
        all_units_fit(
            units,
            cs,
            sets_of(cs, classes_of(cs, default_rule_set())),
            width,
            y0,
            n,
        ),
        0 <= c < cs.len(),
        classes_of(cs, default_rule_set())[c].0 != DwaScheme::LossyDct,
    ensures
        region_in(
            lines_of(
                (PiecesView { units, ..split_of(raw, cs, width, y0, n, nonlinear) }),
                cs,
                width,
                y0,
                n,
                linear,
            ),
            cs,
            width,
            y0,
            n,
            c,
        ) == region_in(raw, cs, width, y0, n, c),
{
    let p = PiecesView { units, ..split_of(raw, cs, width, y0, n, nonlinear) };
    let regions = regions_in(raw, cs, width, y0, n);
    let m = cs.len() as int;
    lemma_split_fits(raw, cs, width, y0, n, nonlinear);
    lemma_split_regions_fit(raw, cs, width, y0, n);
    lemma_split_parts_fit(regions, cs, width, y0, n);
    lemma_whole_span(cs[c], width, y0, n);
    let scheme = p.classes[c].0;
    assert(regions[c].len() == span_of(cs[c], width, y0, n));
    if scheme == DwaScheme::Verbatim {
        law_scheme_part(regions, cs, p.classes, scheme, width, y0, n, m, c);
    } else {
        law_scheme_part(
            split_parts(regions, cs),
            cs,
            p.classes,
            scheme,
            width,
            y0,
            n,
            m,
            c,
        );
        law_unsplit_of_split(
            regions[c],
            cs[c].pixel_type.size() as int,
            rows_of(cs[c], y0, n) * wide(cs[c], width),
        );
    }
    assert(region_of(p, cs, width, y0, n, linear, c) == regions[c]);
    lemma_region_found(p, cs, width, y0, n, linear, c);
}

/// Lines without lossy channels are put together as they were.
pub proof fn law_lossless_lines(
    raw: Seq<u8>,
    cs: Seq<ChannelView>,
    width: int,
    y0: int,
    n: int,
    nonlinear: Seq<u16>,
    linear: Seq<u16>,
)
    requires
        0 <= width <= u32::MAX,
        0 <= y0,
        0 <= n <= u32::MAX,
        raw.len() == lines_size(cs, width, y0, false, n),
        forall|c: int|
            0 <= c < cs.len() ==> (#[trigger] classes_of(cs, default_rule_set())[c]).0
                != DwaScheme::LossyDct,
    ensures
        lines_of(split_of(raw, cs, width, y0, n, nonlinear), cs, width, y0, n, linear) == raw,
{
    let p = split_of(raw, cs, width, y0, n, nonlinear);
    let got = lines_of(p, cs, width, y0, n, linear);
    lemma_split_fits(raw, cs, width, y0, n, nonlinear);
    crate::dwa::lemma_regions_of_fit(p, cs, width, y0, n, linear);
    lemma_joined_len(regions_of(p, cs, width, y0, n, linear), cs, width, y0, n, n);
    assert forall|c: int| 0 <= c < cs.len() implies region_in(got, cs, width, y0, n, c)
        == region_in(raw, cs, width, y0, n, c) by {
        assert(classes_of(cs, default_rule_set())[c].0 != DwaScheme::LossyDct);
        law_kept_exactly(raw, cs, width, y0, n, nonlinear, linear, p.units, c);
    }
    assert(regions_in(got, cs, width, y0, n) =~= regions_in(raw, cs, width, y0, n));
    law_joined_of_regions(got, cs, width, y0, n, n);
    law_joined_of_regions(raw, cs, width, y0, n, n);
    assert(got.take(got.len() as int) =~= got);
    assert(raw.take(raw.len() as int) =~= raw);
}

/// The bytes of a channel are found in the lines.
proof fn lemma_region_found(
    p: PiecesView,
    cs: Seq<ChannelView>,
    width: int,
    y0: int,
    n: int,
    table: Seq<u16>,
    c: int,
)
    requires
        pieces_fit(p, cs, width, y0, n),
        0 <= width,
        0 <= y0,
        0 <= n,
        0 <= c < cs.len(),
    ensures
        region_in(lines_of(p, cs, width, y0, n, table), cs, width, y0, n, c) == region_of(
            p,
            cs,
            width,
            y0,
            n,
            table,
            c,
        ),
{
    let all = regions_of(p, cs, width, y0, n, table);
    crate::dwa::lemma_regions_of_fit(p, cs, width, y0, n, table);
    law_regions_of_joined(all, cs, width, y0, n, n, c);
    assert(all[c].len() == span_of(cs[c], width, y0, n));
    assert(all[c].take(all[c].len() as int) =~= all[c]);
}

proof fn lemma_half_kept(h: u16)
    ensures
        f32_as_half(half_as_f32(h)) == h,
{
    if h % 32768 <= 31744 {
        law_half_round_trip(h);
    } else {
        law_half_nan_round_trip(h);
    }
}

/// A code through both curves.
pub open spec fn curved(code: u16, is_linear: bool, nonlinear: Seq<u16>, linear: Seq<u16>) -> u16 {
    if is_linear {
        code
    } else {
        linear[nonlinear[code as int] as int]
    }
}

/// Where the squares are left as they were cut, the codes of a lossy channel
/// are those of its samples, through both curves.
pub proof fn law_squares_kept(
    raw: Seq<u8>,
    cs: Seq<ChannelView>,
    width: int,
    y0: int,
    n: int,
    nonlinear: Seq<u16>,
    linear: Seq<u16>,
    c: int,
)
    requires
        0 <= width <= u32::MAX,
        0 <= y0,
        0 <= n <= u32::MAX,
        cs.len() <= usize::MAX,
        raw.len() == lines_size(cs, width, y0, false, n),
        0 <= c < cs.len(),
        classes_of(cs, default_rule_set())[c].0 == DwaScheme::LossyDct,
    ensures
        region_in(
            lines_of(split_of(raw, cs, width, y0, n, nonlinear), cs, width, y0, n, linear),
            cs,
            width,
            y0,
            n,
            c,
        ) == codes_bytes(
            cs[c].pixel_type,
            half_codes(region_in(raw, cs, width, y0, n, c), cs[c].pixel_type).map_values(
                |code: u16| curved(code, cs[c].p_linear, nonlinear, linear),
            ),
        ),
{
    let p = split_of(raw, cs, width, y0, n, nonlinear);
    let regions = regions_in(raw, cs, width, y0, n);
    let sets = sets_of(cs, p.classes);
    lemma_split_fits(raw, cs, width, y0, n, nonlinear);
    lemma_split_regions_fit(raw, cs, width, y0, n);
    crate::dwa::lemma_home(cs, p.classes, c);
    let j = set_with(sets, c, 0);
    let k = place_in(sets[j], c);
    let count = sets[j].members().len() as int;
    let (nx, ny) = (wide(cs[c], width), rows_of(cs[c], y0, n));
    let plane = channel_plane(regions, cs, c, nonlinear);
    lemma_plane_len(regions, cs, c, nonlinear, width, y0, n);
    lemma_set_units(cs, sets[j], width, y0, n);
    let got = lossy_codes(p, cs, width, y0, n, linear, c);
    let codes = half_codes(regions[c], cs[c].pixel_type);
    let want = codes.map_values(|code: u16| curved(code, cs[c].p_linear, nonlinear, linear));
    let blocks = steps(ny, 8) * steps(nx, 8);
    if nx > 0 && ny > 0 {
        assert(every_nth(p.units[j], count, k, blocks) =~= squares_of(plane, nx, ny)) by {
            assert forall|b: int| 0 <= b < blocks implies every_nth(p.units[j], count, k, blocks)[b]
                == squares_of(plane, nx, ny)[b] by {
                lemma_unit_index(blocks, count, b, k);
            }
        }
        law_plane_of_squares(plane, nx, ny);
        assert forall|i: int| 0 <= i < want.len() implies got[i] == want[i] by {
            lemma_half_kept(
                if cs[c].p_linear {
                    codes[i]
                } else {
                    nonlinear[codes[i] as int]
                },
            );
        }
    } else {
        assert(ny * nx == 0) by (nonlinear_arith)
            requires
                nx == 0 || ny == 0,
        ;
    }
    assert(got =~= want);
    lemma_region_found(p, cs, width, y0, n, linear, c);
}

/// Where square `b` of channel `k` of a set stands.
proof fn lemma_unit_index(blocks: int, count: int, b: int, k: int)
    requires
        0 <= b < blocks,
        0 <= k < count,
    ensures
        0 <= b * count + k < blocks * count,
        (b * count + k) / count == b,
        (b * count + k) % count == k,
{
    assert(0 <= b * count && b * count + k < blocks * count) by (nonlinear_arith)
        requires
            0 <= b,
            b + 1 <= blocks,
            0 <= k < count,
    ;
    vstd::arithmetic::div_mod::lemma_fundamental_div_mod_converse(b * count + k, count, b, k);
}

// ----------------------------------------------------------------------
// Storing the pieces
// ----------------------------------------------------------------------
/// The codes of all coefficients but the first.
pub open spec fn ac_codes(codes: Seq<Seq<Seq<u16>>>) -> Seq<u16> {
    squares_stored(flat_squares(codes, codes.len() as int))
}

/// The codes of the first coefficients.
pub open spec fn dc_codes(
    codes: Seq<Seq<Seq<u16>>>,
    cs: Seq<ChannelView>,
    sets: Seq<LossySet>,
    width: int,
    y0: int,
    n: int,
) -> Seq<u16> {
    firsts_of(codes, cs, sets, width, y0, n, sets.len() as int)
}

/// How the bytes that are kept as they are are packed.
pub open spec fn verbatim_stream(data: Seq<u8>) -> Option<Seq<u8>> {
    if data.len() == 0 {
        Some(Seq::empty())
    } else {
        zlib_deflated(data)
    }
}

/// How the codes of the coefficients but the first are packed.
pub open spec fn ac_stream(ac: Seq<u16>) -> Option<Seq<u8>> {
    if ac.len() == 0 {
        Some(Seq::empty())
    } else {
        huf_payload(ac)
    }
}

/// How the codes of the first coefficients are packed.
pub open spec fn dc_stream(dc: Seq<u16>) -> Option<Seq<u8>> {
    if dc.len() == 0 {
        Some(Seq::empty())
    } else {
        zlib_deflated(prepared(codes_bytes(PixelType::Half, dc)))
    }
}

/// The bytes of the channels with runs, as runs.
pub open spec fn runs_of(data: Seq<u8>) -> Seq<u8> {
    if data.len() == 0 {
        Seq::empty()
    } else {
        rle_packed(data)
    }
}

/// How the bytes of the channels with runs are packed.
pub open spec fn rle_stream(data: Seq<u8>) -> Option<Seq<u8>> {
    if data.len() == 0 {
        Some(Seq::empty())
    } else {
        zlib_deflated(runs_of(data))
    }
}

/// The header of a chunk.
pub open spec fn chunk_header(
    p: PiecesView,
    ac: Seq<u16>,
    dc: Seq<u16>,
    verbatim: Seq<u8>,
    ac_data: Seq<u8>,
    dc_data: Seq<u8>,
    rle: Seq<u8>,
) -> DwaHeader {
    DwaHeader {
        version: 2,
        verbatim_raw: p.verbatim.len() as u64,
        verbatim_size: verbatim.len() as u64,
        ac_size: ac_data.len() as u64,
        dc_size: dc_data.len() as u64,
        rle_size: rle.len() as u64,
        rle_packed: runs_of(p.rle).len() as u64,
        rle_raw: p.rle.len() as u64,
        ac_count: ac.len() as u64,
        dc_count: dc.len() as u64,
        ac_compression: 0,
    }
}

/// The bytes of a chunk with the given pieces, whose squares have the given
/// codes.
pub open spec fn stored_of(
    p: PiecesView,
    codes: Seq<Seq<Seq<u16>>>,
    cs: Seq<ChannelView>,
    width: int,
    y0: int,
    n: int,
) -> Option<Seq<u8>> {
    let ac = ac_codes(codes);
    let dc = dc_codes(codes, cs, sets_of(cs, p.classes), width, y0, n);
    match (verbatim_stream(p.verbatim), ac_stream(ac), dc_stream(dc), rle_stream(p.rle)) {
        (Some(a), Some(b), Some(c), Some(d)) => Some(
            streams_bytes(chunk_header(p, ac, dc, a, b, c, d), cs, a, b, c, d),
        ),
        _ => None,
    }
}

/// The pieces of a chunk that was stored.
proof fn lemma_pieces_read_back(
    p: PiecesView,
    codes: Seq<Seq<Seq<u16>>>,
    cs: Seq<ChannelView>,
    width: int,
    y0: int,
    n: int,
    v: StreamsView,
)
    requires
        0 <= width <= u32::MAX,
        0 <= y0,
        0 <= n <= u32::MAX,
        pieces_fit(p, cs, width, y0, n),
        p.classes == classes_of(cs, default_rule_set()),
        codes_fit(codes, cs, sets_of(cs, p.classes), width, y0, n),
        all_plain(flat_squares(codes, codes.len() as int)),
        v.rules == used_rules(cs, default_rule_set()),
        v.header.ac_compression == 0,
        v.header.verbatim_raw == p.verbatim.len(),
        v.header.rle_raw == p.rle.len(),
        v.header.rle_packed == runs_of(p.rle).len(),
        v.header.ac_count == ac_codes(codes).len(),
        v.header.dc_count == dc_codes(
            codes,
            cs,
            sets_of(cs, p.classes),
            width,
            y0,
            n,
        ).len(),
        p.verbatim.len() > 0 ==> zlib_inflated(v.verbatim) == Some(p.verbatim),
        ac_codes(codes).len() > 0 ==> huf_values(v.ac, ac_codes(codes).len() as int) == Some(
            ac_codes(codes),
        ),
        dc_codes(codes, cs, sets_of(cs, p.classes), width, y0, n).len() > 0 ==> zlib_inflated(v.dc)
            == Some(
            prepared(
                codes_bytes(
                    PixelType::Half,
                    dc_codes(codes, cs, sets_of(cs, p.classes), width, y0, n),
                ),
            ),
        ),
        p.rle.len() > 0 ==> zlib_inflated(v.rle) == Some(runs_of(p.rle)),
    ensures
        pieces_of(v, cs, width, y0, n) == Some(PiecesView { units: numbers_of(codes), ..p }),
{
    let sets = sets_of(cs, p.classes);
    let ac = ac_codes(codes);
    let dc = dc_codes(codes, cs, sets, width, y0, n);
    let flat = flat_squares(codes, codes.len() as int);
    assert(classes_of(cs, v.rules) =~= p.classes) by {
        assert forall|c: int| 0 <= c < cs.len() implies classes_of(cs, v.rules)[c] == p.classes[c] by {
            law_used_rules_suffice(cs, c);
        }
    }
    lemma_firsts_len(codes, cs, sets, width, y0, n, sets.len() as int);
    lemma_flat_len(codes, cs, sets, width, y0, n, sets.len() as int);
    lemma_codes_bytes_len(PixelType::Half, dc);
    law_restore_of_prepare(codes_bytes(PixelType::Half, dc));
    law_codes_of_bytes(dc);
    law_rle_round_trip(p.rle);
    assert(verbatim_of(v) == Some(p.verbatim)) by {
        assert(p.verbatim.len() == 0 ==> p.verbatim =~= Seq::<u8>::empty());
    }
    assert(ac_of(v) == Some(ac)) by {
        assert(ac.len() == 0 ==> ac =~= Seq::<u16>::empty());
    }
    assert(dc_of(v) == Some(dc)) by {
        assert(dc.len() == 0 ==> dc =~= Seq::<u16>::empty());
    }
    assert(rle_of(v) == Some(p.rle)) by {
        assert(p.rle.len() == 0 ==> p.rle =~= Seq::<u8>::empty());
    }
    assert(ac.subrange(0, ac.len() as int) =~= ac);
    assert(codes_stand(ac, 0, squares_stored(flat)));
    law_squares_read_back(ac, flat);
    law_units_read_back(codes, cs, sets, width, y0, n);
}

/// Deflate bytes, where there are any.
fn deflate_part(data: &[u8]) -> (r: Result<Vec<u8>, ExrError>)
    ensures
        r matches Ok(v) ==> verbatim_stream(data@) == Some(v@) && (data@.len() > 0
            ==> zlib_inflated(v@) == Some(data@)),
        r matches Err(e) ==> e.fault() == Fault::Invalid && verbatim_stream(data@) is None,
{
    if data.len() == 0 {
        return Ok(Vec::new());
    }
    zlib_deflate(data)
}

/// Pack the codes of the first coefficients.
fn pack_firsts(dc: &[u16]) -> (r: Result<Vec<u8>, ExrError>)
    ensures
        r matches Ok(v) ==> dc_stream(dc@) == Some(v@) && (dc@.len() > 0 ==> zlib_inflated(v@)
            == Some(prepared(codes_bytes(PixelType::Half, dc@)))),
        r matches Err(e) ==> e.fault() == Fault::Invalid && dc_stream(dc@) is None,
{
    if dc.len() == 0 {
        return Ok(Vec::new());
    }
    let bytes: Vec<u8> = bytes_of_codes(PixelType::Half, dc);
    let pre: Vec<u8> = prepare(bytes.as_slice());
    zlib_deflate(pre.as_slice())
}

/// Store a chunk with the given pieces, whose squares have the given codes.
/// What is stored is read back, with the numbers that the codes stand for,
/// unless a code looks like a run, a size is out of range, or the chunk is as
/// long as its lines.
pub fn store_chunk(
    p: &DwaPieces,
    codes: &Vec<Vec<Vec<u16>>>,
    channels: &[Channel],
    width: u32,
    y0: u32,
    n: u32,
) -> (r: Result<Vec<u8>, ExrError>)
    requires
        y0 + n <= u32::MAX,
        p.fits(channel_views(channels@), width as int, y0 as int, n as int),
        p.classes@ == classes_of(channel_views(channels@), default_rule_set()),
        codes_fit(
            set_code_views(codes@),
            channel_views(channels@),
            p.sets@,
            width as int,
            y0 as int,
            n as int,
        ),
    ensures
        r matches Ok(v) ==> stored_of(
            p@,
            set_code_views(codes@),
            channel_views(channels@),
            width as int,
            y0 as int,
            n as int,
        ) == Some(v@),
        r matches Ok(v) ==> all_plain(
            flat_squares(set_code_views(codes@), codes@.len() as int),
        ) && header_of(v@) is Some && v@.len() != lines_size(
            channel_views(channels@),
            width as int,
            y0 as int,
            false,
            n as int,
        ) ==> chunk_of(
            v@,
            channel_views(channels@),
            width as int,
            y0 as int,
            n as int,
        ) == Some(
            ChunkView::Coded(
                (PiecesView { units: numbers_of(set_code_views(codes@)), ..p@ }),
            ),
        ),
        r matches Err(e) ==> e.fault() == Fault::Invalid && stored_of(
            p@,
            set_code_views(codes@),
            channel_views(channels@),
            width as int,
            y0 as int,
            n as int,
        ) is None,
{
    let ghost cs = channel_views(channels@);
    let ghost cv = set_code_views(codes@);
    let ghost (w, y, h) = (width as int, y0 as int, n as int);
    assert(channels.len() == channels@.len());
    proof {
        lemma_sets_valid(cs, p.classes@);
        assert(cv.len() == codes@.len());
    }
    let verbatim: Vec<u8> = match deflate_part(p.verbatim.as_slice()) {
        Ok(v) => v,
        Err(e) => {
            return Err(e);
        },
    };
    let runs: Vec<u8> = if p.rle.len() == 0 {
        Vec::new()
    } else {
        rle_compress(p.rle.as_slice())
    };
    let rle: Vec<u8> = if p.rle.len() == 0 {
        Vec::new()
    } else {
        match zlib_deflate(runs.as_slice()) {
            Ok(v) => v,
            Err(e) => {
                return Err(e);
            },
        }
    };
    let (ac, dc): (Vec<u16>, Vec<u16>) = store_units(
        codes,
        channels,
        p.sets.as_slice(),
        width,
        y0,
        n,
    );
    let ac_data: Vec<u8> = if ac.len() == 0 {
        Vec::new()
    } else {
        match huf_compress(ac.as_slice()) {
            Ok(v) => v,
            Err(e) => {
                return Err(e);
            },
        }
    };
    let dc_data: Vec<u8> = match pack_firsts(dc.as_slice()) {
        Ok(v) => v,
        Err(e) => {
            return Err(e);
        },
    };
    let header: DwaHeader = DwaHeader {
        version: 2,
        verbatim_raw: p.verbatim.len() as u64,
        verbatim_size: verbatim.len() as u64,
        ac_size: ac_data.len() as u64,
        dc_size: dc_data.len() as u64,
        rle_size: rle.len() as u64,
        rle_packed: runs.len() as u64,
        rle_raw: p.rle.len() as u64,
        ac_count: ac.len() as u64,
        dc_count: dc.len() as u64,
        ac_compression: 0,
    };
    let rules: Vec<u8> = put_used_rules(channels);
    let mut out: Vec<u8> = Vec::new();
    put_header(&mut out, header);
    put_bytes(&mut out, rules.as_slice());
    put_bytes(&mut out, verbatim.as_slice());
    put_bytes(&mut out, ac_data.as_slice());
    put_bytes(&mut out, dc_data.as_slice());
    put_bytes(&mut out, rle.as_slice());
    proof {
        let all = streams_bytes(header, cs, verbatim@, ac_data@, dc_data@, rle@);
        assert(out@ =~= all);
        assert(all.subrange(0, header_bytes(header).len() as int) =~= header_bytes(header));
        law_header_reads_back(out@, header);
        if all_plain(flat_squares(cv, cv.len() as int)) && header_valid(header) {
            law_streams_read_back(header, cs, verbatim@, ac_data@, dc_data@, rle@);
            let v = StreamsView {
                header,
                rules: used_rules(cs, default_rule_set()),
                verbatim: verbatim@,
                ac: ac_data@,
                dc: dc_data@,
                rle: rle@,
            };
            lemma_pieces_read_back(p@, cv, cs, w, y, h, v);
        }
    }
    Ok(out)
}

} // verus!
