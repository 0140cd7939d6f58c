//! How the lines of a chunk are coded by the transform, in terms of bytes and samples.

use crate::bytes::{u16_le, u32_le, u64_at};
use crate::deep_meta::is_full;
use crate::dwa::{
    chunk_of, lines_of, lossy_codes, pieces_of, place_in, region_of, set_with, ChunkView,
    PiecesView,
};
use crate::dwa_blocks::{
    codes_from, every_nth, mirrored, plane_of, sample_code, scanned, spread, square_at,
    squares_from,
};
use crate::dwa_parts::{clamped, codes_bytes, half_code, scheme_size, split_bytes, unsplit_bytes};
use crate::dwa_regions::{joined_lines, law_regions_of_joined, lemma_joined_len, region_in, span_of};
use crate::dwa_rules::{
    class_from, default_rule_set, legacy_rule_set, prefix_of, rule_at, rule_fits, rules_from,
    sets_of, singles_upto, slot_from, triple_at, triple_of, triples_upto, DwaScheme, LossySet,
    RuleView,
};
use crate::dwa_streams::{
    ac_of, codes_in, dc_of, header_of, rle_of, streams_of, verbatim_of, StreamsView,
};
use crate::dwa_tables::{law_zigzag, linear_code, nonlinear_code, raster_of};
use crate::dwa_units::{set_blocks, units_of, units_upto};
use crate::flat_block::lines_size;
use crate::flat_laws::{bytes_before, lemma_full_line, lemma_full_lines, width_of};
use crate::format_laws::{law_numbers, law_written_numbers, number_at};
use crate::half::{f32_as_half, half_as_f32};
use crate::header::zero_from;
use crate::huf::huf_values;
use crate::layers::{base_of, last_dot};
use crate::pack::zlib_inflated;
use crate::rle::rle_unpacked;
use crate::text::{alike, mended_text, small};
use crate::types::{ChannelView, PixelType};
use crate::write_laws::{lemma_number_behind, lemma_number_in_front};
use crate::zip::restored;
use vstd::arithmetic::div_mod::lemma_fundamental_div_mod_converse;
use vstd::prelude::*;

verus! {

// ----------------------------------------------------------------------
// Rules
// ----------------------------------------------------------------------
proof fn lemma_zero_found(s: Seq<u8>, from: int, limit: int)
    requires
        from <= limit,
    ensures
        from <= zero_from(s, from, limit) <= limit,
        zero_from(s, from, limit) < limit ==> s[zero_from(s, from, limit)] == 0,
        forall|i: int| from <= i < zero_from(s, from, limit) ==> #[trigger] s[i] != 0,
    decreases limit - from,
{
    if from < limit && s[from] != 0 {
        lemma_zero_found(s, from + 1, limit);
    }
}

/// A rule is a text of at most 128 bytes, a zero byte, a byte of flags and the number of
/// a pixel type. The flags are, from the least digit on: whether case matters not, a
/// digit that is not used, two digits for the scheme, and one more than the slot.
pub proof fn law_rule_fields(data: Seq<u8>, p: int, end: int, r: RuleView, q: int)
    requires
        rule_at(data, p, end) == Some((r, q)),
        0 <= p < end,
    ensures
        p + 3 <= q <= end,
        q <= p + 131,
        data[q - 3] == 0,
        forall|i: int| p <= i < q - 3 ==> #[trigger] data[i] != 0,
        r.suffix == mended_text(data.subrange(p, q - 3)),
        r.case_insensitive <==> data[q - 2] % 2 == 1,
        r.scheme == DwaScheme::Verbatim <==> data[q - 2] / 4 % 4 == 0,
        r.scheme == DwaScheme::LossyDct <==> data[q - 2] / 4 % 4 == 1,
        r.scheme == DwaScheme::Rle <==> data[q - 2] / 4 % 4 == 2,
        r.csc_slot == data[q - 2] / 16 - 1,
        r.csc_slot <= 2,
        r.pixel_type == PixelType::Uint <==> data[q - 1] == 0,
        r.pixel_type == PixelType::Half <==> data[q - 1] == 1,
        r.pixel_type == PixelType::Float <==> data[q - 1] == 2,
{
    let limit = if p + 129 < end {
        p + 129
    } else {
        end
    };
    lemma_zero_found(data, p, limit);
}

/// Rules stand one behind the other.
pub proof fn law_rules_in_order(data: Seq<u8>, p: int, end: int, rules: Seq<RuleView>)
    requires
        rules_from(data, p, end) == Some(rules),
    ensures
        rules.len() == 0 <==> p >= end,
        p < end ==> (rule_at(data, p, end) matches Some((r, q)) && r == rules[0] && rules_from(
            data,
            q,
            end,
        ) == Some(rules.skip(1))),
{
    if p < end {
        let (r, q) = rule_at(data, p, end)->Some_0;
        let rest = rules_from(data, q, end)->Some_0;
        assert(rules == seq![r] + rest);
        assert(rules.skip(1) =~= rest);
    }
}

/// The rules of a chunk from version 2 on stand behind its header, and in front of them
/// the number of their bytes in two bytes, which it counts too; a chunk before has the
/// fixed rules.
pub proof fn law_rules_of_chunk(s: Seq<u8>, v: StreamsView)
    requires
        streams_of(s) == Some(v),
    ensures
        number_at(s, 0, 8) < 2 ==> v.rules == legacy_rule_set() && s.subrange(
            88,
            88 + v.verbatim.len() as int,
        ) == v.verbatim,
        number_at(s, 0, 8) >= 2 ==> ({
            let n = number_at(s, 88, 2);
            &&& 2 <= n
            &&& 88 + n <= s.len()
            &&& rules_from(s.skip(88), 2, n) == Some(v.rules)
            &&& s.subrange(88 + n, 88 + n + v.verbatim.len()) == v.verbatim
        }),
{
    law_numbers(s, 0);
    law_numbers(s, 88);
    law_numbers(s.skip(88), 0);
    if number_at(s, 0, 8) >= 2 {
        assert(s.skip(88).len() >= 2);
        assert(s.skip(88)[0] == s[88] && s.skip(88)[1] == s[89]);
    }
}

/// The class of a channel is that of the first rule that fits it.
pub proof fn law_first_rule(c: ChannelView, rules: Seq<RuleView>, from: int, i: int)
    requires
        0 <= from <= i < rules.len(),
        rule_fits(rules[i], c),
        forall|j: int| from <= j < i ==> !rule_fits(#[trigger] rules[j], c),
    ensures
        class_from(c, rules, from) == (rules[i].scheme, rules[i].csc_slot),
    decreases i - from,
{
    if from < i {
        assert(!rule_fits(rules[from], c));
        law_first_rule(c, rules, from + 1, i);
    }
}

/// A channel that no rule fits is kept as it is.
pub proof fn law_no_rule(c: ChannelView, rules: Seq<RuleView>, from: int)
    requires
        0 <= from <= rules.len(),
        forall|j: int| from <= j < rules.len() ==> !rule_fits(#[trigger] rules[j], c),
    ensures
        class_from(c, rules, from) == (DwaScheme::Verbatim, -1i8),
    decreases rules.len() - from,
{
    if from < rules.len() {
        assert(!rule_fits(rules[from], c));
        law_no_rule(c, rules, from + 1);
    }
}

/// A rule fits the channels of its pixel type with its text behind the last dot of the
/// name, or one that differs from it in case alone where the rule says so.
pub proof fn law_rule_fits(r: RuleView, c: ChannelView)
    ensures
        rule_fits(r, c) ==> r.pixel_type == c.pixel_type && alike(r.suffix, base_of(c.name)),
        r.pixel_type == c.pixel_type && r.suffix == base_of(c.name) ==> rule_fits(r, c),
        r.pixel_type == c.pixel_type && alike(r.suffix, base_of(c.name)) && r.case_insensitive
            ==> rule_fits(r, c),
        rule_fits(r, c) && !r.case_insensitive ==> r.suffix == base_of(c.name),
{
}

/// The class of a channel by the end of its name and its pixel type, without rules.
pub open spec fn plain_class(base: Seq<char>, t: PixelType) -> (DwaScheme, i8) {
    if base == "A"@ {
        (DwaScheme::Rle, -1i8)
    } else if t == PixelType::Uint {
        (DwaScheme::Verbatim, -1i8)
    } else if base == "R"@ {
        (DwaScheme::LossyDct, 0i8)
    } else if base == "G"@ {
        (DwaScheme::LossyDct, 1i8)
    } else if base == "B"@ {
        (DwaScheme::LossyDct, 2i8)
    } else if base == "Y"@ || base == "BY"@ || base == "RY"@ {
        (DwaScheme::LossyDct, -1i8)
    } else {
        (DwaScheme::Verbatim, -1i8)
    }
}

/// By default colour and luminance and chroma go through the transform, unless they are
/// integers; alpha is kept in runs; all else is kept as it is.
pub proof fn law_default_classes(c: ChannelView)
    ensures
        class_from(c, default_rule_set(), 0) == plain_class(base_of(c.name), c.pixel_type),
{
    reveal_strlit("A");
    reveal_strlit("R");
    reveal_strlit("G");
    reveal_strlit("B");
    reveal_strlit("Y");
    reveal_strlit("BY");
    reveal_strlit("RY");
    let rules = default_rule_set();
    let base = base_of(c.name);
    let (f, h) = (rules.len() as int, 0int);
    assert(rules.len() == 15);
    assert("A"@[0] != "R"@[0] && "A"@[0] != "G"@[0] && "A"@[0] != "B"@[0] && "A"@[0] != "Y"@[0]);
    assert("R"@[0] != "G"@[0] && "R"@[0] != "B"@[0] && "R"@[0] != "Y"@[0]);
    assert("G"@[0] != "B"@[0] && "G"@[0] != "Y"@[0]);
    assert("B"@[0] != "Y"@[0]);
    assert("BY"@[0] != "RY"@[0]);
    reveal_with_fuel(class_from, 16);
}

/// The class of a channel in a chunk without rules of its own: the same, whatever the
/// case of the letters, and by longer names too.
pub open spec fn legacy_class(base: Seq<char>, t: PixelType) -> (DwaScheme, i8) {
    if alike("a"@, base) {
        (DwaScheme::Rle, -1i8)
    } else if t == PixelType::Uint {
        (DwaScheme::Verbatim, -1i8)
    } else if alike("r"@, base) || alike("red"@, base) {
        (DwaScheme::LossyDct, 0i8)
    } else if alike("g"@, base) || alike("grn"@, base) || alike("green"@, base) {
        (DwaScheme::LossyDct, 1i8)
    } else if alike("b"@, base) || alike("blu"@, base) || alike("blue"@, base) {
        (DwaScheme::LossyDct, 2i8)
    } else if alike("y"@, base) || alike("by"@, base) || alike("ry"@, base) {
        (DwaScheme::LossyDct, -1i8)
    } else {
        (DwaScheme::Verbatim, -1i8)
    }
}

proof fn lemma_not_both(a: Seq<char>, b: Seq<char>, base: Seq<char>)
    requires
        a.len() > 0,
        b.len() > 0,
        small(a[0]) != small(b[0]) || a.len() != b.len(),
    ensures
        !(alike(a, base) && alike(b, base)),
{
}

/// A chunk without rules of its own has the classes of the fixed rules.
pub proof fn law_legacy_classes(c: ChannelView)
    ensures
        class_from(c, legacy_rule_set(), 0) == legacy_class(base_of(c.name), c.pixel_type),
{
    reveal_strlit("a");
    reveal_strlit("r");
    reveal_strlit("red");
    reveal_strlit("g");
    reveal_strlit("grn");
    reveal_strlit("green");
    reveal_strlit("b");
    reveal_strlit("blu");
    reveal_strlit("blue");
    reveal_strlit("y");
    reveal_strlit("by");
    reveal_strlit("ry");
    let base = base_of(c.name);
    lemma_not_both("a"@, "r"@, base);
    lemma_not_both("a"@, "g"@, base);
    lemma_not_both("a"@, "b"@, base);
    lemma_not_both("a"@, "y"@, base);
    lemma_not_both("a"@, "red"@, base);
    lemma_not_both("a"@, "grn"@, base);
    lemma_not_both("a"@, "green"@, base);
    lemma_not_both("a"@, "blu"@, base);
    lemma_not_both("a"@, "blue"@, base);
    lemma_not_both("a"@, "by"@, base);
    lemma_not_both("a"@, "ry"@, base);
    assert(legacy_rule_set().len() == 25);
    reveal_with_fuel(class_from, 26);
}

/// The channels of a triple are red, green and blue, in this order: each is the first
/// channel of its slot among those with the same text up to the last dot of the name.
pub proof fn law_triples(
    cs: Seq<ChannelView>,
    classes: Seq<(DwaScheme, i8)>,
    prefix: Seq<char>,
    r: int,
    g: int,
    b: int,
)
    requires
        classes.len() == cs.len(),
        triple_of(cs, classes, prefix) == Some((r, g, b)),
    ensures
        is_first_of_slot(cs, classes, prefix, 0, r),
        is_first_of_slot(cs, classes, prefix, 1, g),
        is_first_of_slot(cs, classes, prefix, 2, b),
{
    lemma_first_of_slot(cs, classes, prefix, 0, 0);
    lemma_first_of_slot(cs, classes, prefix, 1, 0);
    lemma_first_of_slot(cs, classes, prefix, 2, 0);
}

/// Channel `i` is in a slot, with a text in front of the end of its name.
pub open spec fn in_slot(
    cs: Seq<ChannelView>,
    classes: Seq<(DwaScheme, i8)>,
    prefix: Seq<char>,
    slot: int,
    i: int,
) -> bool {
    classes[i] == (DwaScheme::LossyDct, slot as i8) && cs[i].name == prefix + base_of(cs[i].name)
}

/// Channel `i` is the first one in a slot.
pub open spec fn is_first_of_slot(
    cs: Seq<ChannelView>,
    classes: Seq<(DwaScheme, i8)>,
    prefix: Seq<char>,
    slot: int,
    i: int,
) -> bool {
    &&& 0 <= i < cs.len()
    &&& in_slot(cs, classes, prefix, slot, i)
    &&& forall|j: int| 0 <= j < i ==> !(#[trigger] in_slot(cs, classes, prefix, slot, j))
}

proof fn lemma_prefix(name: Seq<char>, prefix: Seq<char>)
    ensures
        prefix_of(name) == prefix <==> name == prefix + base_of(name),
{
    lemma_last_dot(name, name.len() as int);
    assert(name =~= prefix_of(name) + base_of(name));
    if name == prefix + base_of(name) {
        assert(prefix =~= name.take(name.len() - base_of(name).len()));
        assert(prefix_of(name) =~= name.take(name.len() - base_of(name).len()));
    }
}

proof fn lemma_last_dot(name: Seq<char>, n: int)
    requires
        n <= name.len(),
    ensures
        last_dot(name, n) matches Some(i) ==> 0 <= i < n,
    decreases n,
{
    if n > 0 {
        lemma_last_dot(name, n - 1);
    }
}

proof fn lemma_first_of_slot(
    cs: Seq<ChannelView>,
    classes: Seq<(DwaScheme, i8)>,
    prefix: Seq<char>,
    slot: int,
    from: int,
)
    requires
        0 <= from,
        0 <= slot <= 2,
        classes.len() == cs.len(),
    ensures
        slot_from(cs, classes, prefix, slot, from) matches Some(i) ==> from <= i < cs.len()
            && in_slot(cs, classes, prefix, slot, i) && forall|j: int|
            from <= j < i ==> !(#[trigger] in_slot(cs, classes, prefix, slot, j)),
    decreases cs.len() - from,
{
    if from < cs.len() {
        lemma_prefix(cs[from].name, prefix);
        lemma_first_of_slot(cs, classes, prefix, slot, from + 1);
    }
}

// ----------------------------------------------------------------------
// Coefficients
// ----------------------------------------------------------------------
/// Coefficients as they are stored: one that is 0xff00 is followed by nothing, and the
/// rest of the square is 0; one that is above stands for as many zeros as it is above;
/// all others stand for themselves. There are 64 in a square.
pub proof fn law_coefficients(ac: Seq<u16>, at: int, pos: int, v: Seq<u16>, end: int)
    requires
        codes_from(ac, at, pos) == Some((v, end)),
        pos < 64,
    ensures
        v.len() == 64 - pos,
        ac[at] < 0xff00 ==> v[0] == ac[at] && codes_from(ac, at + 1, pos + 1) == Some(
            (v.skip(1), end),
        ),
        ac[at] == 0xff00 ==> end == at + 1 && forall|i: int| 0 <= i < v.len() ==> #[trigger] v[i] == 0,
        ac[at] > 0xff00 ==> ({
            let run = ac[at] - 0xff00;
            &&& run <= v.len()
            &&& forall|i: int| 0 <= i < run ==> #[trigger] v[i] == 0
            &&& codes_from(ac, at + 1, pos + run) == Some((v.skip(run), end))
        }),
{
    lemma_coefficient_count(ac, at, pos);
    if ac[at] < 0xff00 {
        let (rest, stop) = codes_from(ac, at + 1, pos + 1)->Some_0;
        assert(v.skip(1) =~= rest);
    } else if ac[at] > 0xff00 {
        let run = ac[at] - 0xff00;
        let (rest, stop) = codes_from(ac, at + 1, pos + run)->Some_0;
        assert(v.skip(run) =~= rest);
    }
}

proof fn lemma_coefficient_count(ac: Seq<u16>, at: int, pos: int)
    requires
        codes_from(ac, at, pos) is Some,
        pos <= 64,
    ensures
        codes_from(ac, at, pos)->Some_0.0.len() == 64 - pos,
    decreases 64 - pos,
{
    if pos < 64 {
        if ac[at] < 0xff00 {
            lemma_coefficient_count(ac, at + 1, pos + 1);
        } else if ac[at] > 0xff00 {
            lemma_coefficient_count(ac, at + 1, pos + (ac[at] - 0xff00));
        }
    }
}

/// The coefficients of a square begin where those of the square in front of it end, and
/// are those from the second on.
pub proof fn law_squares_in_order(ac: Seq<u16>, at: int, n: int, v: Seq<Seq<u16>>, end: int, k: int)
    requires
        squares_from(ac, at, n) == Some((v, end)),
        0 <= k < n,
    ensures
        v.len() == n,
        squares_from(ac, at, k) matches Some((first, from)) && (k == 0 ==> from == at) && (codes_from(
            ac,
            from,
            1,
        ) matches Some((codes, to)) && codes == v[k] && codes.len() == 63 && (k == n - 1 ==> to
            == end)),
    decreases n,
{
    if k < n - 1 {
        let (first, from) = squares_from(ac, at, n - 1)->Some_0;
        law_squares_in_order(ac, at, n - 1, first, from, k);
    } else {
        lemma_squares_count(ac, at, n - 1);
        let (first, from) = squares_from(ac, at, n - 1)->Some_0;
        lemma_coefficient_count(ac, from, 1);
    }
}

proof fn lemma_squares_count(ac: Seq<u16>, at: int, n: int)
    requires
        0 <= n,
        squares_from(ac, at, n) is Some,
    ensures
        squares_from(ac, at, n)->Some_0.0.len() == n,
    decreases n,
{
    if n > 0 {
        lemma_squares_count(ac, at, n - 1);
    }
}

/// Coefficient `k` of those in their order is at its place in the square.
pub proof fn law_places(scan: Seq<u16>, square: Seq<u16>, k: usize)
    requires
        0 <= k < 64,
    ensures
        spread(scan).len() == 64,
        spread(scan)[raster_of(k) as int] == half_as_f32(scan[k as int]),
        scanned(square).len() == 64,
        scanned(square)[k as int] == square[raster_of(k) as int],
{
    law_zigzag(k);
}

/// The squares of a set of channels: those of a block stand together, channel by channel,
/// and so do their coefficients; their first coefficients stand channel by channel, block
/// by block.
pub proof fn law_units(
    dc: Seq<u16>,
    squares: Seq<Seq<u16>>,
    cs: Seq<ChannelView>,
    sets: Seq<LossySet>,
    width: int,
    y0: int,
    n: int,
    j: int,
    b: int,
    k: int,
)
    requires
        0 <= j < sets.len(),
        0 <= b < set_blocks(cs, sets[j], width, y0, n),
        0 <= k < sets[j].members().len(),
    ensures
        ({
            let base = units_upto(cs, sets, width, y0, n, j);
            let blocks = set_blocks(cs, sets[j], width, y0, n);
            let count = sets[j].members().len() as int;
            units_of(dc, squares, cs, sets, width, y0, n)[j][b * count + k] == spread(
                seq![dc[base + k * blocks + b]] + squares[base + b * count + k],
            )
        }),
{
    let blocks = set_blocks(cs, sets[j], width, y0, n);
    let count = sets[j].members().len() as int;
    lemma_fundamental_div_mod_converse(b * count + k, count, b, k);
    assert(0 <= b * count + k < blocks * count) by (nonlinear_arith)
        requires
            0 <= b < blocks,
            0 <= k < count,
    ;
}

/// How many squares a set has: for each channel one for every eight columns and eight rows
/// or less.
pub proof fn law_set_blocks(cs: Seq<ChannelView>, set: LossySet, width: int, y0: int, n: int)
    requires
        0 <= width,
        0 <= y0,
        0 <= n,
        cs[set.members()[0]].x_sampling == 1,
        cs[set.members()[0]].y_sampling == 1,
    ensures
        set_blocks(cs, set, width, y0, n) == ((n + 7) / 8) * ((width + 7) / 8),
{
}

/// Pixel (`x`, `y`) of a channel is in the square of its eight columns and eight rows.
pub proof fn law_plane_of_squares_at(squares: Seq<Seq<u32>>, nx: int, ny: int, x: int, y: int)
    requires
        0 <= x < nx,
        0 <= y < ny,
    ensures
        plane_of(squares, nx, ny).len() == ny * nx,
        plane_of(squares, nx, ny)[y * nx + x] == squares[(y / 8) * ((nx + 7) / 8) + x / 8][8 * (y % 8)
            + x % 8],
{
    lemma_fundamental_div_mod_converse(y * nx + x, nx, y, x);
    assert(0 <= y * nx + x < ny * nx) by (nonlinear_arith)
        requires
            0 <= x < nx,
            0 <= y < ny,
    ;
}

/// Squares that reach beyond the last column or row repeat what is in front of it, in
/// reverse.
pub proof fn law_mirrored(n: int, d: int)
    requires
        0 < n,
    ensures
        d < n ==> mirrored(d, n) == d,
        0 <= d < n ==> mirrored(n - 1 + d, n) == n - 1 - d,
        d >= n ==> mirrored(n - 1 + d, n) == n - 1,
{
}

/// A place of a square that is cut out of a plane.
pub proof fn law_square_cut(plane: Seq<u32>, nx: int, ny: int, bx: int, by: int, x: int, y: int)
    requires
        0 <= x < 8,
        0 <= y < 8,
    ensures
        square_at(plane, nx, ny, bx, by).len() == 64,
        square_at(plane, nx, ny, bx, by)[8 * y + x] == plane[mirrored(8 * by + y, ny) * nx + mirrored(
            8 * bx + x,
            nx,
        )],
{
}

// ----------------------------------------------------------------------
// Samples
// ----------------------------------------------------------------------
/// A channel in runs is stored with the first bytes of all samples in front, then the
/// second bytes, and so on.
pub proof fn law_split(region: Seq<u8>, z: int, count: int, i: int, b: int)
    requires
        region.len() == count * z,
        0 <= i < count,
        0 <= b < z,
    ensures
        split_bytes(region, z).len() == region.len(),
        split_bytes(region, z)[b * count + i] == region[i * z + b],
        unsplit_bytes(region, z)[i * z + b] == region[b * count + i],
{
    lemma_fundamental_div_mod_converse(count * z, z, count, 0);
    lemma_fundamental_div_mod_converse(b * count + i, count, b, i);
    lemma_fundamental_div_mod_converse(i * z + b, z, i, b);
    assert(0 <= b * count + i < count * z && 0 <= i * z + b < count * z) by (nonlinear_arith)
        requires
            0 <= i < count,
            0 <= b < z,
    ;
}

/// Numbers that are too great for a half become the greatest one of their sign; numbers
/// that are not, and what is no number, stay.
pub proof fn law_clamped(v: u32)
    ensures
        v % 0x8000_0000 <= 0x477f_e000 ==> clamped(v) == v,
        v % 0x8000_0000 > 0x7f80_0000 ==> clamped(v) == v,
        0x477f_e000 < v <= 0x7f80_0000 ==> clamped(v) == 0x477f_e000,
        0xc77f_e000 < v <= 0xff80_0000 ==> clamped(v) == 0xc77f_e000,
{
}

/// Sample `i` of a channel as a half: halves stay, floats become the nearest one.
pub proof fn law_half_code(region: Seq<u8>, i: int)
    ensures
        half_code(region, PixelType::Half, i) == number_at(region, 2 * i, 2),
        half_code(region, PixelType::Float, i) == f32_as_half(
            clamped(number_at(region, 4 * i, 4) as u32),
        ),
{
    law_numbers(region, 2 * i);
    law_numbers(region, 4 * i);
}

/// The samples of a channel that is marked linear are not curved; those of all others are.
pub proof fn law_sample_code(v: u32, table: Seq<u16>)
    ensures
        sample_code(v, true, table) == f32_as_half(v),
        sample_code(v, false, table) == table[f32_as_half(v) as int],
{
}

/// The tables follow the curves but at a few places: a number below infinity has the code
/// of the curve, zero has zero, and so has what is no number or infinite.
pub proof fn law_tables(curve: Seq<u16>, x: int)
    requires
        0 <= x < 0x8000,
    ensures
        0 < x < 0x7c00 && curve[x - 1] < 0x8000 ==> {
            &&& x != 0x1919 && x != 0x422c ==> nonlinear_code(curve, x) == curve[x - 1]
            &&& x != 0x24f8 ==> linear_code(curve, x) == curve[x - 1]
        },
        x == 0 || x >= 0x7c00 ==> nonlinear_code(curve, x) == 0 && linear_code(curve, x) == 0,
{
}

// ----------------------------------------------------------------------
// Streams
// ----------------------------------------------------------------------
/// What the streams of a chunk hold: the first is deflated; the second is Huffman coded or
/// deflated, as the last number of the header says; the third is deflated after the bytes
/// were parted; the last is deflated after runs were packed. Coefficients take two bytes.
pub proof fn law_streams(v: StreamsView)
    ensures
        v.header.verbatim_raw > 0 && verbatim_of(v) is Some ==> zlib_inflated(v.verbatim)
            == verbatim_of(v) && verbatim_of(v)->Some_0.len() == v.header.verbatim_raw,
        v.header.ac_count > 0 && v.header.ac_compression == 0 ==> ac_of(v) == huf_values(
            v.ac,
            v.header.ac_count as int,
        ),
        v.header.ac_count > 0 && v.header.ac_compression != 0 && ac_of(v) is Some ==> (zlib_inflated(
            v.ac,
        ) matches Some(data) && data.len() == 2 * v.header.ac_count && are_codes(
            ac_of(v)->Some_0,
            data,
        )),
        v.header.dc_count > 0 && dc_of(v) is Some ==> (zlib_inflated(v.dc) matches Some(data)
            && data.len() == 2 * v.header.dc_count && are_codes(dc_of(v)->Some_0, restored(data))),
        v.header.rle_raw > 0 && rle_of(v) is Some ==> (zlib_inflated(v.rle) matches Some(data)
            && data.len() == v.header.rle_packed && rle_unpacked(data) == rle_of(v)
            && rle_of(v)->Some_0.len() == v.header.rle_raw),
        v.header.verbatim_raw == 0 ==> verbatim_of(v) == Some(Seq::<u8>::empty()),
        v.header.ac_count == 0 ==> ac_of(v) == Some(Seq::<u16>::empty()),
        v.header.dc_count == 0 ==> dc_of(v) == Some(Seq::<u16>::empty()),
        v.header.rle_raw == 0 ==> rle_of(v) == Some(Seq::<u8>::empty()),
{
    if let Some(data) = zlib_inflated(v.ac) {
        lemma_codes(data);
    }
    if let Some(data) = zlib_inflated(v.dc) {
        lemma_codes(restored(data));
    }
}

/// Codes of two bytes each, the least significant first.
pub open spec fn are_codes(codes: Seq<u16>, data: Seq<u8>) -> bool {
    codes.len() == data.len() as int / 2 && forall|i: int|
        0 <= i < codes.len() ==> #[trigger] codes[i] == number_at(data, 2 * i, 2)
}

proof fn lemma_codes(data: Seq<u8>)
    ensures
        are_codes(codes_in(data), data),
{
    assert forall|i: int| 0 <= i < codes_in(data).len() implies #[trigger] codes_in(data)[i]
        == number_at(data, 2 * i, 2) by {
        law_numbers(data, 2 * i);
    }
}

/// A chunk whose bytes are as many as those of its lines is not coded.
pub proof fn law_chunk_as_it_is(payload: Seq<u8>, cs: Seq<ChannelView>, width: int, y0: int, n: int)
    requires
        payload.len() == lines_size(cs, width, y0, false, n),
    ensures
        chunk_of(payload, cs, width, y0, n) == Some(ChunkView::Raw(payload)),
{
}

/// The channels that are kept as they are stand one behind the other in the first stream,
/// those in runs in the last, both in the order of the channels.
pub proof fn law_channel_parts(
    p: PiecesView,
    cs: Seq<ChannelView>,
    width: int,
    y0: int,
    n: int,
    table: Seq<u16>,
    c: int,
)
    requires
        0 <= c < cs.len(),
    ensures
        ({
            let at = parts_before(cs, p.classes, p.classes[c].0, width, y0, n, c);
            let end = at + span_of(cs[c], width, y0, n);
            let region = region_of(p, cs, width, y0, n, table, c);
            &&& p.classes[c].0 == DwaScheme::Verbatim ==> region == p.verbatim.subrange(at, end)
            &&& p.classes[c].0 == DwaScheme::Rle ==> region == unsplit_bytes(
                p.rle.subrange(at, end),
                width_of(cs[c].pixel_type),
            )
            &&& p.classes[c].0 == DwaScheme::LossyDct ==> region == codes_bytes(
                cs[c].pixel_type,
                lossy_codes(p, cs, width, y0, n, table, c),
            )
        }),
{
    lemma_parts_before(cs, p.classes, p.classes[c].0, width, y0, n, c);
}

/// The bytes of the channels in front of channel `k` that are kept by a scheme.
pub open spec fn parts_before(
    cs: Seq<ChannelView>,
    classes: Seq<(DwaScheme, i8)>,
    s: DwaScheme,
    width: int,
    y0: int,
    n: int,
    k: int,
) -> int
    decreases k,
{
    if k <= 0 {
        0
    } else if classes[k - 1].0 == s {
        parts_before(cs, classes, s, width, y0, n, k - 1) + span_of(cs[k - 1], width, y0, n)
    } else {
        parts_before(cs, classes, s, width, y0, n, k - 1)
    }
}

proof fn lemma_parts_before(
    cs: Seq<ChannelView>,
    classes: Seq<(DwaScheme, i8)>,
    s: DwaScheme,
    width: int,
    y0: int,
    n: int,
    k: int,
)
    ensures
        scheme_size(cs, classes, s, width, y0, n, k) == parts_before(cs, classes, s, width, y0, n, k),
    decreases k,
{
    if k > 0 {
        lemma_parts_before(cs, classes, s, width, y0, n, k - 1);
    }
}

/// A channel that is sampled at every pixel has a sample for each.
pub proof fn law_span(c: ChannelView, width: int, y0: int, n: int)
    requires
        0 <= width,
        0 <= y0,
        0 <= n,
        c.x_sampling == 1,
        c.y_sampling == 1,
    ensures
        span_of(c, width, y0, n) == n * (width * width_of(c.pixel_type)),
{
}

// ----------------------------------------------------------------------
// Lines
// ----------------------------------------------------------------------
/// The lines of a chunk are taken apart into channels: the samples of a channel in a line
/// stand behind those of the channels in front of it, and are those of the line in the
/// channel.
pub proof fn law_region(
    raw: Seq<u8>,
    cs: Seq<ChannelView>,
    width: int,
    y0: int,
    n: int,
    c: int,
    y: int,
    i: int,
)
    requires
        is_full(cs),
        0 <= width,
        0 <= y0,
        0 <= y < n,
        0 <= c < cs.len(),
        raw.len() == n * (width * bytes_before(cs, cs.len() as int)),
        0 <= i < width * width_of(cs[c].pixel_type),
    ensures
        region_in(raw, cs, width, y0, n, c).len() == n * (width * width_of(cs[c].pixel_type)),
        region_in(raw, cs, width, y0, n, c)[y * (width * width_of(cs[c].pixel_type)) + i] == raw[y * (
        width * bytes_before(cs, cs.len() as int)) + width * bytes_before(cs, c) + i],
{
    lemma_region(raw, cs, width, y0, n, n, c);
    let l = width * bytes_before(cs, cs.len() as int);
    let r = width * width_of(cs[c].pixel_type);
    let v = region_in(raw, cs, width, y0, n, c);
    assert(v.subrange(y * r, y * r + r) == raw.subrange(
        y * l + width * bytes_before(cs, c),
        y * l + width * bytes_before(cs, c) + r,
    ));
    lemma_line_within(cs, width, n, y, c);
    assert(0 <= y * r && y * r + r <= n * r) by (nonlinear_arith)
        requires
            0 <= y < n,
            0 <= r,
    ;
    assert(v.subrange(y * r, y * r + r)[i] == v[y * r + i]);
    assert(raw.subrange(
        y * l + width * bytes_before(cs, c),
        y * l + width * bytes_before(cs, c) + r,
    )[i] == raw[y * l + width * bytes_before(cs, c) + i]);
}

proof fn lemma_line_within(cs: Seq<ChannelView>, width: int, n: int, y: int, c: int)
    requires
        0 <= width,
        0 <= y < n,
        0 <= c < cs.len(),
    ensures
        ({
            let l = width * bytes_before(cs, cs.len() as int);
            let a = y * l + width * bytes_before(cs, c);
            0 <= a && a + width * width_of(cs[c].pixel_type) <= n * l
        }),
{
    let (a, b, z) = (
        bytes_before(cs, c),
        bytes_before(cs, cs.len() as int),
        width_of(cs[c].pixel_type),
    );
    lemma_before_grows(cs, 0, c);
    lemma_before_grows(cs, c + 1, cs.len() as int);
    assert(a + z <= b);
    assert(0 <= y * (width * b) + width * a && y * (width * b) + width * a + width * z <= n * (width
        * b)) by (nonlinear_arith)
        requires
            0 <= width,
            0 <= y < n,
            0 <= a,
            0 <= z,
            a + z <= b,
    ;
}

proof fn lemma_before_grows(cs: Seq<ChannelView>, a: int, b: int)
    requires
        0 <= a <= b,
    ensures
        0 <= bytes_before(cs, a) <= bytes_before(cs, b),
    decreases b,
{
    if a < b {
        lemma_before_grows(cs, a, b - 1);
    } else if b > 0 {
        lemma_before_grows(cs, a - 1, b - 1);
    }
}

proof fn lemma_region(
    raw: Seq<u8>,
    cs: Seq<ChannelView>,
    width: int,
    y0: int,
    n: int,
    k: int,
    c: int,
)
    requires
        is_full(cs),
        0 <= width,
        0 <= y0,
        0 <= k <= n,
        0 <= c < cs.len(),
        raw.len() == n * (width * bytes_before(cs, cs.len() as int)),
    ensures
        ({
            let l = width * bytes_before(cs, cs.len() as int);
            let r = width * width_of(cs[c].pixel_type);
            let v = region_in(raw, cs, width, y0, k, c);
            &&& v.len() == k * r
            &&& forall|y: int|
                0 <= y < k ==> #[trigger] v.subrange(y * r, y * r + r) == raw.subrange(
                    y * l + width * bytes_before(cs, c),
                    y * l + width * bytes_before(cs, c) + r,
                )
        }),
    decreases k,
{
    let l = width * bytes_before(cs, cs.len() as int);
    let r = width * width_of(cs[c].pixel_type);
    if k > 0 {
        lemma_region(raw, cs, width, y0, n, k - 1, c);
        lemma_full_lines(cs, width, y0, k - 1);
        lemma_full_line(cs, width, y0 + k - 1, c);
        lemma_line_within(cs, width, n, k - 1, c);
        assert(0 <= r) by (nonlinear_arith)
            requires
                r == width * width_of(cs[c].pixel_type),
                0 <= width,
        ;
        let u = region_in(raw, cs, width, y0, k - 1, c);
        let v = region_in(raw, cs, width, y0, k, c);
        let at = (k - 1) * l + width * bytes_before(cs, c);
        assert(cs[c].x_sampling == 1 && cs[c].y_sampling == 1);
        assert(v =~= u + raw.subrange(at, at + r));
        assert(k * r == (k - 1) * r + r) by (nonlinear_arith);
        assert forall|y: int| 0 <= y < k implies #[trigger] v.subrange(y * r, y * r + r)
            == raw.subrange(
            y * l + width * bytes_before(cs, c),
            y * l + width * bytes_before(cs, c) + r,
        ) by {
            if y < k - 1 {
                assert(0 <= y * r && y * r + r <= (k - 1) * r) by (nonlinear_arith)
                    requires
                        0 <= y < k - 1,
                        0 <= r,
                ;
                assert(v.subrange(y * r, y * r + r) =~= u.subrange(y * r, y * r + r));
            } else {
                assert(v.subrange(y * r, y * r + r) =~= raw.subrange(at, at + r));
            }
        }
    } else {
        assert(0 * r == 0);
    }
}

/// Channels are put together to lines in the same way.
pub proof fn law_lines_of_regions(
    regions: Seq<Seq<u8>>,
    cs: Seq<ChannelView>,
    width: int,
    y0: int,
    n: int,
    c: int,
    y: int,
    i: int,
)
    requires
        is_full(cs),
        0 <= width,
        0 <= y0,
        0 <= y < n,
        0 <= c < cs.len(),
        regions.len() == cs.len(),
        forall|k: int|
            0 <= k < cs.len() ==> (#[trigger] regions[k]).len() == n * (width * width_of(
                cs[k].pixel_type,
            )),
        0 <= i < width * width_of(cs[c].pixel_type),
    ensures
        joined_lines(regions, cs, width, y0, n)[y * (width * bytes_before(cs, cs.len() as int)) + width
            * bytes_before(cs, c) + i] == regions[c][y * (width * width_of(cs[c].pixel_type)) + i],
{
    assert forall|k: int| 0 <= k < cs.len() implies (#[trigger] regions[k]).len() == span_of(
        cs[k],
        width,
        y0,
        n,
    ) by {
        assert(cs[k].x_sampling == 1 && cs[k].y_sampling == 1);
        law_span(cs[k], width, y0, n);
    }
    let raw = joined_lines(regions, cs, width, y0, n);
    law_regions_of_joined(regions, cs, width, y0, n, n, c);
    lemma_joined_len(regions, cs, width, y0, n, n);
    lemma_full_lines(cs, width, y0, n);
    assert(cs[c].x_sampling == 1 && cs[c].y_sampling == 1);
    law_span(cs[c], width, y0, n);
    assert(regions[c].take(regions[c].len() as int) =~= regions[c]);
    law_region(raw, cs, width, y0, n, c, y, i);
}

// ----------------------------------------------------------------------
// Lossy channels
// ----------------------------------------------------------------------
/// Sample (`x`, `y`) of a channel that goes through the transform: the channel is in one set, at
/// one place of it, and the sample in the square of that place of its block.
pub proof fn law_lossy_sample(
    p: PiecesView,
    cs: Seq<ChannelView>,
    width: int,
    y0: int,
    n: int,
    table: Seq<u16>,
    c: int,
    j: int,
    k: int,
    x: int,
    y: int,
)
    requires
        is_full(cs),
        0 <= width,
        0 <= y0,
        0 <= n,
        0 <= c < cs.len(),
        0 <= j < sets_of(cs, p.classes).len(),
        0 <= k < sets_of(cs, p.classes)[j].members().len(),
        sets_of(cs, p.classes)[j].members()[k] == c,
        forall|i: int| 0 <= i < k ==> sets_of(cs, p.classes)[j].members()[i] != c,
        forall|i: int|
            0 <= i < j ==> !(#[trigger] sets_of(cs, p.classes)[i]).members().contains(c),
        0 <= x < width,
        0 <= y < n,
    ensures
        ({
            let count = sets_of(cs, p.classes)[j].members().len() as int;
            let b = (y / 8) * ((width + 7) / 8) + x / 8;
            let v = p.units[j][b * count + k][8 * (y % 8) + x % 8];
            &&& lossy_codes(p, cs, width, y0, n, table, c).len() == n * width
            &&& lossy_codes(p, cs, width, y0, n, table, c)[y * width + x] == if cs[c].p_linear {
                f32_as_half(v)
            } else {
                table[f32_as_half(v) as int]
            }
        }),
{
    let sets = sets_of(cs, p.classes);
    lemma_set_with(sets, c, 0, j, k);
    lemma_place_in(sets[j], c, k);
    assert(cs[c].x_sampling == 1 && cs[c].y_sampling == 1);
    let count = sets[j].members().len() as int;
    let blocks = ((n + 7) / 8) * ((width + 7) / 8);
    let b = (y / 8) * ((width + 7) / 8) + x / 8;
    assert(0 <= b < blocks) by (nonlinear_arith)
        requires
            b == (y / 8) * ((width + 7) / 8) + x / 8,
            blocks == ((n + 7) / 8) * ((width + 7) / 8),
            0 <= x / 8 < (width + 7) / 8,
            0 <= y / 8 < (n + 7) / 8,
    ;
    let squares = every_nth(p.units[j], count, k, blocks);
    law_plane_of_squares_at(squares, width, n, x, y);
    assert(0 <= y * width + x < n * width) by (nonlinear_arith)
        requires
            0 <= x < width,
            0 <= y < n,
    ;
}

proof fn lemma_set_with(sets: Seq<LossySet>, c: int, i: int, j: int, k: int)
    requires
        0 <= i <= j < sets.len(),
        0 <= k < sets[j].members().len(),
        sets[j].members()[k] == c,
        forall|q: int| 0 <= q < j ==> !(#[trigger] sets[q]).members().contains(c),
    ensures
        set_with(sets, c, i) == j,
    decreases j - i,
{
    assert(sets[j].members().contains(c));
    if i < j {
        assert(!sets[i].members().contains(c));
        lemma_set_with(sets, c, i + 1, j, k);
    }
}

proof fn lemma_place_in(set: LossySet, c: int, k: int)
    requires
        0 <= k < set.members().len(),
        set.members()[k] == c,
        forall|i: int| 0 <= i < k ==> set.members()[i] != c,
    ensures
        place_in(set, c) == k,
{
    if k > 0 {
        assert(set.members()[0] != c);
    }
    if k > 1 {
        assert(set.members()[1] != c);
    }
}

/// The codes of a channel become bytes again: a half two, a float those of the float that is
/// the half.
pub proof fn law_codes_bytes(codes: Seq<u16>, i: int)
    requires
        0 <= i < codes.len(),
    ensures
        codes_bytes(PixelType::Half, codes).len() == 2 * codes.len(),
        number_at(codes_bytes(PixelType::Half, codes), 2 * i, 2) == codes[i],
        codes_bytes(PixelType::Float, codes).len() == 4 * codes.len(),
        number_at(codes_bytes(PixelType::Float, codes), 4 * i, 4) == half_as_f32(codes[i]),
    decreases codes.len(),
{
    let rest = codes.drop_last();
    let last = codes.last();
    let (a, b) = (codes_bytes(PixelType::Half, rest), codes_bytes(PixelType::Float, rest));
    let (x, y) = (u16_le(last), u32_le(half_as_f32(last)));
    law_written_numbers(last, half_as_f32(last), 0, 0);
    reveal(u16_le);
    reveal(u32_le);
    lemma_codes_len(rest);
    if i < rest.len() {
        law_codes_bytes(rest, i);
        lemma_number_in_front(a, x, 2 * i, 2);
        lemma_number_in_front(b, y, 4 * i, 4);
    } else {
        lemma_number_behind(a, x, 0, 2);
        lemma_number_behind(b, y, 0, 4);
    }
}

proof fn lemma_codes_len(codes: Seq<u16>)
    ensures
        codes_bytes(PixelType::Half, codes).len() == 2 * codes.len(),
        codes_bytes(PixelType::Float, codes).len() == 4 * codes.len(),
    decreases codes.len(),
{
    reveal(u16_le);
    reveal(u32_le);
    if codes.len() > 0 {
        lemma_codes_len(codes.drop_last());
    }
}

/// Number `k` of the header of a chunk, of eight bytes.
pub open spec fn header_number(s: Seq<u8>, k: int) -> int {
    number_at(s, 8 * k, 8)
}

/// The header of a chunk is refused where its version is above 2, its coefficients are coded in
/// an unknown way, one of its sizes is above the limit, or there are first coefficients but no
/// bytes for them.
pub proof fn law_header_accepted(s: Seq<u8>)
    ensures
        header_of(s) is Some <==> {
            &&& s.len() >= 88
            &&& header_number(s, 0) <= 2
            &&& header_number(s, 10) <= 1
            &&& forall|k: int|
                1 <= k <= 9 ==> #[trigger] header_number(s, k) <= 0xf_ffff_fff0 && header_number(s, k)
                    <= usize::MAX
            &&& header_number(s, 9) > 0 ==> header_number(s, 4) > 0
        },
{
    law_numbers(s, 0);
    law_numbers(s, 8);
    law_numbers(s, 16);
    law_numbers(s, 24);
    law_numbers(s, 32);
    law_numbers(s, 40);
    law_numbers(s, 48);
    law_numbers(s, 56);
    law_numbers(s, 64);
    law_numbers(s, 72);
    law_numbers(s, 80);
    assert(header_number(s, 1) == u64_at(s, 8) && header_number(s, 2) == u64_at(s, 16));
    assert(header_number(s, 3) == u64_at(s, 24) && header_number(s, 4) == u64_at(s, 32));
    assert(header_number(s, 5) == u64_at(s, 40) && header_number(s, 6) == u64_at(s, 48));
    assert(header_number(s, 7) == u64_at(s, 56) && header_number(s, 8) == u64_at(s, 64));
    assert(header_number(s, 9) == u64_at(s, 72) && header_number(s, 10) == u64_at(s, 80));
    assert forall|k: int| 1 <= k <= 9 && header_of(s) is Some implies #[trigger] header_number(s, k)
        <= 0xf_ffff_fff0 && header_number(s, k) <= usize::MAX by {
        assert(k == 1 || k == 2 || k == 3 || k == 4 || k == 5 || k == 6 || k == 7 || k == 8 || k == 9);
    }
}

// ----------------------------------------------------------------------
// Chunks
// ----------------------------------------------------------------------
/// The pieces of a chunk are what its streams hold, with the classes that its rules give the
/// channels. The header states how long they are.
pub proof fn law_pieces(
    v: StreamsView,
    cs: Seq<ChannelView>,
    width: int,
    y0: int,
    n: int,
    p: PiecesView,
    c: int,
)
    requires
        pieces_of(v, cs, width, y0, n) == Some(p),
        0 <= c < cs.len(),
    ensures
        p.classes.len() == cs.len(),
        p.classes[c] == class_from(cs[c], v.rules, 0),
        p.classes[c].0 == DwaScheme::LossyDct ==> cs[c].pixel_type != PixelType::Uint,
        verbatim_of(v) == Some(p.verbatim),
        rle_of(v) == Some(p.rle),
        v.header.verbatim_raw == parts_before(
            cs,
            p.classes,
            DwaScheme::Verbatim,
            width,
            y0,
            n,
            cs.len() as int,
        ),
        v.header.rle_raw == parts_before(
            cs,
            p.classes,
            DwaScheme::Rle,
            width,
            y0,
            n,
            cs.len() as int,
        ),
        (ac_of(v), dc_of(v)) matches (Some(ac), Some(dc)) && (squares_from(
            ac,
            0,
            v.header.dc_count as int,
        ) matches Some((squares, end)) && end == v.header.ac_count && p.units == units_of(
            dc,
            squares,
            cs,
            sets_of(cs, p.classes),
            width,
            y0,
            n,
        )),
{
    lemma_parts_before(cs, p.classes, DwaScheme::Verbatim, width, y0, n, cs.len() as int);
    lemma_parts_before(cs, p.classes, DwaScheme::Rle, width, y0, n, cs.len() as int);
}

/// The lines of a chunk are put together of its channels.
pub proof fn law_lines_of_pieces(
    p: PiecesView,
    cs: Seq<ChannelView>,
    width: int,
    y0: int,
    n: int,
    table: Seq<u16>,
    c: int,
    y: int,
    i: int,
)
    requires
        is_full(cs),
        0 <= width,
        0 <= y0,
        0 <= y < n,
        0 <= c < cs.len(),
        forall|k: int|
            0 <= k < cs.len() ==> (#[trigger] region_of(p, cs, width, y0, n, table, k)).len() == n * (
            width * width_of(cs[k].pixel_type)),
        0 <= i < width * width_of(cs[c].pixel_type),
    ensures
        lines_of(p, cs, width, y0, n, table)[y * (width * bytes_before(cs, cs.len() as int)) + width
            * bytes_before(cs, c) + i] == region_of(p, cs, width, y0, n, table, c)[y * (width * width_of(
            cs[c].pixel_type,
        )) + i],
{
    let regions = crate::dwa::regions_of(p, cs, width, y0, n, table);
    assert forall|k: int| 0 <= k < cs.len() implies (#[trigger] regions[k]).len() == n * (width
        * width_of(cs[k].pixel_type)) by {
        assert(regions[k] == region_of(p, cs, width, y0, n, table, k));
    }
    law_lines_of_regions(regions, cs, width, y0, n, c, y, i);
}

/// The first channel of a set.
pub open spec fn first_member(set: LossySet) -> int {
    match set {
        LossySet::Triple(r, g, b) => if r <= g && r <= b {
            r as int
        } else if g <= b {
            g as int
        } else {
            b as int
        },
        LossySet::Single(i) => i as int,
    }
}

proof fn lemma_triples_ascend(cs: Seq<ChannelView>, classes: Seq<(DwaScheme, i8)>, k: int)
    requires
        0 <= k <= cs.len() <= usize::MAX,
        classes.len() == cs.len(),
    ensures
        ({
            let v = triples_upto(cs, classes, k);
            &&& forall|i: int| 0 <= i < v.len() ==> (#[trigger] v[i]) is Triple && first_member(v[i]) < k
            &&& forall|i: int, j: int|
                #![trigger v[i], v[j]]
                0 <= i < j < v.len() ==> first_member(v[i]) < first_member(v[j])
        }),
    decreases k,
{
    if k > 0 {
        lemma_triples_ascend(cs, classes, k - 1);
        if let Some((r, g, b)) = triple_at(cs, classes, k - 1) {
            let prefix = prefix_of(cs[k - 1].name);
            lemma_first_of_slot(cs, classes, prefix, 0, 0);
            lemma_first_of_slot(cs, classes, prefix, 1, 0);
            lemma_first_of_slot(cs, classes, prefix, 2, 0);
        }
    }
}

proof fn lemma_singles_ascend(cs: Seq<ChannelView>, classes: Seq<(DwaScheme, i8)>, k: int)
    requires
        0 <= k <= cs.len() <= usize::MAX,
    ensures
        ({
            let v = singles_upto(cs, classes, k);
            &&& forall|i: int| 0 <= i < v.len() ==> (#[trigger] v[i]) is Single && first_member(v[i]) < k
            &&& forall|i: int, j: int|
                #![trigger v[i], v[j]]
                0 <= i < j < v.len() ==> first_member(v[i]) < first_member(v[j])
        }),
    decreases k,
{
    if k > 0 {
        lemma_singles_ascend(cs, classes, k - 1);
    }
}

/// Triples stand in front of the channels that are in none, both in the order of their first
/// channels.
pub proof fn law_set_order(cs: Seq<ChannelView>, classes: Seq<(DwaScheme, i8)>, i: int, j: int)
    requires
        cs.len() <= usize::MAX,
        classes.len() == cs.len(),
        0 <= i < j < sets_of(cs, classes).len(),
    ensures
        ({
            let v = sets_of(cs, classes);
            &&& v[i] is Single ==> v[j] is Single
            &&& (v[i] is Single <==> v[j] is Single) ==> first_member(v[i]) < first_member(v[j])
        }),
{
    lemma_triples_ascend(cs, classes, cs.len() as int);
    lemma_singles_ascend(cs, classes, cs.len() as int);
    let a = triples_upto(cs, classes, cs.len() as int);
    let b = singles_upto(cs, classes, cs.len() as int);
    let v = sets_of(cs, classes);
    assert(v[i] == if i < a.len() {
        a[i]
    } else {
        b[i - a.len()]
    });
    assert(v[j] == if j < a.len() {
        a[j]
    } else {
        b[j - a.len()]
    });
}

} // verus!
