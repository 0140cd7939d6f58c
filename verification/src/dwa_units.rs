//! The squares of the lossy channels of a chunk, and the two lists of codes
//! in which they are stored.

use crate::dwa_blocks::{
    codes_stand, is_plain, law_codes_read_back, law_spread_of_scanned, lemma_squares_stop,
    put_codes, read_codes, scan_square, scanned, spread, spread_square, squares_from, stored_codes,
    unit_views,
};
use crate::dwa_parts::{column_count, counted, row_count};
use crate::dwa_regions::{lemma_rows_bound, rows_of};
use crate::dwa_rules::{law_sets_lossy, sets_of, DwaScheme, LossySet};
use crate::dwa_tables::raster_of;
use crate::flat_block::{lemma_row_size, wide};
use crate::grid::steps;
use crate::half::half_as_f32;
use crate::types::{channel_views, Channel, ChannelView};
use vstd::arithmetic::div_mod::*;
use vstd::prelude::*;

verus! {

// ----------------------------------------------------------------------
// Numbers of squares
// ----------------------------------------------------------------------
/// The number of samples in a row of the channels of a set.
pub open spec fn set_columns(cs: Seq<ChannelView>, set: LossySet, width: int) -> int {
    wide(cs[set.members()[0]], width)
}

/// The number of rows of the channels of a set.
pub open spec fn set_rows(cs: Seq<ChannelView>, set: LossySet, y0: int, n: int) -> int {
    rows_of(cs[set.members()[0]], y0, n)
}

/// The number of squares of a channel of a set.
pub open spec fn set_blocks(cs: Seq<ChannelView>, set: LossySet, width: int, y0: int, n: int) -> int {
    steps(set_rows(cs, set, y0, n), 8) * steps(set_columns(cs, set, width), 8)
}

/// The number of squares of the channels of a set.
pub open spec fn set_units(cs: Seq<ChannelView>, set: LossySet, width: int, y0: int, n: int) -> int {
    set_blocks(cs, set, width, y0, n) * set.members().len()
}

/// The number of squares of the first `j` sets.
pub open spec fn units_upto(
    cs: Seq<ChannelView>,
    sets: Seq<LossySet>,
    width: int,
    y0: int,
    n: int,
    j: int,
) -> int
    decreases j,
{
    if j <= 0 {
        0
    } else {
        units_upto(cs, sets, width, y0, n, j - 1) + set_units(cs, sets[j - 1], width, y0, n)
    }
}

pub proof fn lemma_set_units(cs: Seq<ChannelView>, set: LossySet, width: int, y0: int, n: int)
    requires
        0 <= width <= u32::MAX,
        0 <= y0,
        0 <= n <= u32::MAX,
    ensures
        0 <= set_columns(cs, set, width) <= u32::MAX,
        0 <= set_rows(cs, set, y0, n) <= u32::MAX,
        0 <= steps(set_columns(cs, set, width), 8) <= 0x2000_0000,
        0 <= steps(set_rows(cs, set, y0, n), 8) <= 0x2000_0000,
        0 <= set_blocks(cs, set, width, y0, n) <= 0x400_0000_0000_0000,
        0 <= set_units(cs, set, width, y0, n) <= 0xc00_0000_0000_0000,
        set_blocks(cs, set, width, y0, n) <= set_units(cs, set, width, y0, n),
{
    let c = cs[set.members()[0]];
    lemma_rows_bound(c, y0, n);
    lemma_row_size(c, width, y0, false);
    let (a, b) = (steps(set_rows(cs, set, y0, n), 8), steps(set_columns(cs, set, width), 8));
    assert(0 <= a * b <= 0x400_0000_0000_0000) by (nonlinear_arith)
        requires
            0 <= a <= 0x2000_0000,
            0 <= b <= 0x2000_0000,
    ;
    let (blocks, count) = (a * b, set.members().len() as int);
    assert(1 <= count <= 3);
    assert(blocks <= blocks * count <= 0xc00_0000_0000_0000) by (nonlinear_arith)
        requires
            0 <= blocks <= 0x400_0000_0000_0000,
            1 <= count <= 3,
    ;
}

pub proof fn lemma_units_upto(
    cs: Seq<ChannelView>,
    sets: Seq<LossySet>,
    width: int,
    y0: int,
    n: int,
    a: int,
    b: int,
)
    requires
        0 <= width <= u32::MAX,
        0 <= y0,
        0 <= n <= u32::MAX,
        0 <= a <= b <= sets.len(),
    ensures
        0 <= units_upto(cs, sets, width, y0, n, a) <= units_upto(cs, sets, width, y0, n, b),
        a < b ==> units_upto(cs, sets, width, y0, n, a) + set_units(cs, sets[a], width, y0, n)
            <= units_upto(cs, sets, width, y0, n, b),
    decreases b,
{
    if b > 0 {
        lemma_set_units(cs, sets[b - 1], width, y0, n);
        if a < b {
            lemma_units_upto(cs, sets, width, y0, n, a, b - 1);
        } else {
            lemma_units_upto(cs, sets, width, y0, n, b - 1, b - 1);
        }
    }
}

/// The sets name channels.
pub open spec fn sets_valid(sets: Seq<LossySet>, count: int) -> bool {
    forall|j: int, k: int|
        0 <= j < sets.len() && 0 <= k < sets[j].members().len() ==> 0 <= #[trigger] sets[j].members()[k]
            < count
}

/// The lossy channels are sets of channels.
pub proof fn lemma_sets_valid(cs: Seq<ChannelView>, classes: Seq<(DwaScheme, i8)>)
    requires
        cs.len() <= usize::MAX,
        classes.len() == cs.len(),
    ensures
        sets_valid(sets_of(cs, classes), cs.len() as int),
{
    let sets = sets_of(cs, classes);
    assert forall|j: int, k: int|
        0 <= j < sets.len() && 0 <= k < sets[j].members().len() implies 0
        <= #[trigger] sets[j].members()[k] < cs.len() by {
        law_sets_lossy(cs, classes, j, k);
    }
}

/// The columns and rows of the squares of a set.
pub fn set_size(channels: &[Channel], set: LossySet, width: u32, y0: u32, n: u32) -> (r: (u32, u32))
    requires
        y0 + n <= u32::MAX,
        0 <= set.members()[0] < channels@.len(),
    ensures
        r.0 == set_columns(channel_views(channels@), set, width as int),
        r.1 == set_rows(channel_views(channels@), set, y0 as int, n as int),
{
    let c: &Channel = &channels[set.member(0)];
    assert(channel_views(channels@)[set.members()[0]] == c@);
    (column_count(c, width), row_count(c, y0, n))
}

/// The number of squares of a channel of a set.
pub fn count_blocks(channels: &[Channel], set: LossySet, width: u32, y0: u32, n: u32) -> (r: u64)
    requires
        y0 + n <= u32::MAX,
        0 <= set.members()[0] < channels@.len(),
    ensures
        r == set_blocks(channel_views(channels@), set, width as int, y0 as int, n as int),
        r <= 0x400_0000_0000_0000,
{
    let (nx, ny): (u32, u32) = set_size(channels, set, width, y0, n);
    proof {
        lemma_set_units(channel_views(channels@), set, width as int, y0 as int, n as int);
    }
    let a: u64 = (ny as u64 + 7) / 8;
    let b: u64 = (nx as u64 + 7) / 8;
    a * b
}

/// The number of squares of all sets, as far as they can be counted.
pub fn count_units(channels: &[Channel], sets: &[LossySet], width: u32, y0: u32, n: u32) -> (r: u64)
    requires
        y0 + n <= u32::MAX,
        sets_valid(sets@, channels@.len() as int),
    ensures
        r == counted(
            units_upto(
                channel_views(channels@),
                sets@,
                width as int,
                y0 as int,
                n as int,
                sets@.len() as int,
            ),
        ),
{
    let ghost cs = channel_views(channels@);
    let mut total: u64 = 0;
    let mut j: usize = 0;
    while j < sets.len()
        invariant
            j <= sets@.len(),
            y0 + n <= u32::MAX,
            cs == channel_views(channels@),
            sets_valid(sets@, channels@.len() as int),
            total == counted(units_upto(cs, sets@, width as int, y0 as int, n as int, j as int)),
        decreases sets@.len() - j,
    {
        proof {
            lemma_units_upto(
                cs,
                sets@,
                width as int,
                y0 as int,
                n as int,
                j as int,
                j as int,
            );
            lemma_set_units(cs, sets@[j as int], width as int, y0 as int, n as int);
            assert(0 <= sets@[j as int].members()[0] < channels@.len());
        }
        let blocks: u64 = count_blocks(channels, sets[j], width, y0, n);
        let more: u128 = total as u128 + blocks as u128 * sets[j].component_count() as u128;
        total = if more > u64::MAX as u128 {
            u64::MAX
        } else {
            more as u64
        };
        j = j + 1;
    }
    total
}

// ----------------------------------------------------------------------
// Reading
// ----------------------------------------------------------------------
pub open spec fn code_views(v: Seq<Vec<u16>>) -> Seq<Seq<u16>> {
    Seq::new(v.len(), |i: int| v[i]@)
}

/// Read the coefficients of `n` squares but their first.
pub fn read_squares(ac: &[u16], n: usize) -> (r: Option<(Vec<Vec<u16>>, usize)>)
    ensures
        r is None <==> squares_from(ac@, 0, n as int) is None,
        r matches Some((v, end)) ==> squares_from(ac@, 0, n as int) == Some(
            (code_views(v@), end as int),
        ) && v@.len() == n && forall|i: int| 0 <= i < n ==> (#[trigger] v@[i])@.len() == 63,
{
    let mut v: Vec<Vec<u16>> = Vec::new();
    let mut p: usize = 0;
    let mut i: usize = 0;
    assert(code_views(v@) =~= Seq::<Seq<u16>>::empty());
    while i < n
        invariant
            i <= n,
            p <= ac@.len(),
            v@.len() == i,
            squares_from(ac@, 0, i as int) == Some((code_views(v@), p as int)),
            forall|k: int| 0 <= k < i ==> (#[trigger] v@[k])@.len() == 63,
        decreases n - i,
    {
        match read_codes(ac, p) {
            Some((codes, end)) => {
                let ghost before = code_views(v@);
                let ghost cv = codes@;
                v.push(codes);
                assert(code_views(v@) =~= before.push(cv));
                p = end;
            },
            None => {
                proof {
                    lemma_squares_stop(ac@, 0, i + 1, n as int);
                }
                return None;
            },
        }
        i = i + 1;
    }
    Some((v, p))
}

/// Square `t` of a set, whose squares are numbered from `base` on. The first
/// coefficients stand channel by channel, the others square by square.
pub open spec fn unit_of(
    dc: Seq<u16>,
    squares: Seq<Seq<u16>>,
    base: int,
    blocks: int,
    count: int,
    t: int,
) -> Seq<u32> {
    spread(seq![dc[base + (t % count) * blocks + t / count]] + squares[base + t])
}

/// The squares of a set.
pub open spec fn units_of_set(
    dc: Seq<u16>,
    squares: Seq<Seq<u16>>,
    base: int,
    blocks: int,
    count: int,
) -> Seq<Seq<u32>> {
    Seq::new((blocks * count) as nat, |t: int| unit_of(dc, squares, base, blocks, count, t))
}

/// The squares of all sets.
pub open spec fn units_of(
    dc: Seq<u16>,
    squares: Seq<Seq<u16>>,
    cs: Seq<ChannelView>,
    sets: Seq<LossySet>,
    width: int,
    y0: int,
    n: int,
) -> Seq<Seq<Seq<u32>>> {
    Seq::new(
        sets.len(),
        |j: int|
            units_of_set(
                dc,
                squares,
                units_upto(cs, sets, width, y0, n, j),
                set_blocks(cs, sets[j], width, y0, n),
                sets[j].members().len() as int,
            ),
    )
}

/// Where the first coefficient of a square stands.
pub proof fn lemma_unit_place(blocks: int, count: int, t: int)
    requires
        0 <= t < blocks * count,
        0 < count,
    ensures
        0 <= t / count < blocks,
        0 <= t % count < count,
        0 <= (t % count) * blocks,
        0 <= (t % count) * blocks + t / count < blocks * count,
        (t / count) * count + t % count == t,
        ((t % count) * blocks + t / count) % blocks == t / count,
        ((t % count) * blocks + t / count) / blocks == t % count,
{
    let (b, k) = (t / count, t % count);
    lemma_fundamental_div_mod(t, count);
    lemma_mod_bound(t, count);
    lemma_div_pos_is_pos(t, count);
    assert(b * count + k == t) by (nonlinear_arith)
        requires
            t == count * b + k,
    ;
    assert(b < blocks) by (nonlinear_arith)
        requires
            b * count + k == t,
            t < blocks * count,
            0 <= k,
            0 < count,
    ;
    assert(0 <= k * blocks && k * blocks + b < blocks * count) by (nonlinear_arith)
        requires
            0 <= k,
            k + 1 <= count,
            0 <= b < blocks,
    ;
    lemma_fundamental_div_mod_converse(k * blocks + b, blocks, k, b);
}

fn make_set_units(dc: &[u16], squares: &Vec<Vec<u16>>, base: usize, blocks: u64, count: usize) -> (r: Vec<
    Vec<u32>,
>)
    requires
        1 <= count <= 3,
        blocks <= 0x400_0000_0000_0000,
        base + blocks * count <= dc@.len(),
        dc@.len() == squares@.len(),
        forall|i: int| 0 <= i < squares@.len() ==> (#[trigger] squares@[i])@.len() == 63,
    ensures
        unit_views(r@) == units_of_set(
            dc@,
            code_views(squares@),
            base as int,
            blocks as int,
            count as int,
        ),
{
    let ghost sv = code_views(squares@);
    let ghost all = units_of_set(dc@, sv, base as int, blocks as int, count as int);
    let mut r: Vec<Vec<u32>> = Vec::new();
    assert(dc.len() == dc@.len());
    assert(0 <= blocks * count) by (nonlinear_arith)
        requires
            0 <= blocks,
            0 <= count,
    ;
    assert(blocks <= blocks * count) by (nonlinear_arith)
        requires
            0 <= blocks,
            1 <= count,
    ;
    let wide: usize = blocks as usize;
    let total: usize = wide * count;
    let mut t: usize = 0;
    while t < total
        invariant
            t <= total,
            1 <= count <= 3,
            wide == blocks,
            total == blocks * count,
            base + total <= dc@.len(),
            dc@.len() <= usize::MAX,
            dc@.len() == squares@.len(),
            forall|i: int| 0 <= i < squares@.len() ==> (#[trigger] squares@[i])@.len() == 63,
            sv == code_views(squares@),
            all == units_of_set(dc@, sv, base as int, blocks as int, count as int),
            r@.len() == t,
            forall|i: int| 0 <= i < t ==> (#[trigger] r@[i])@ == all[i],
        decreases total - t,
    {
        proof {
            lemma_unit_place(blocks as int, count as int, t as int);
        }
        let first: u16 = dc[base + (t % count) * wide + t / count];
        assert(sv[base + t] == squares@[base + t]@);
        let u: Vec<u32> = spread_square(first, squares[base + t].as_slice());
        assert(u@ == all[t as int]);
        r.push(u);
        t = t + 1;
    }
    assert(unit_views(r@) =~= all);
    r
}

pub open spec fn set_views(v: Seq<Vec<Vec<u32>>>) -> Seq<Seq<Seq<u32>>> {
    Seq::new(v.len(), |j: int| unit_views(v[j]@))
}

/// Put the coefficients of all squares together.
pub fn make_units(
    dc: &[u16],
    squares: &Vec<Vec<u16>>,
    channels: &[Channel],
    sets: &[LossySet],
    width: u32,
    y0: u32,
    n: u32,
) -> (r: Vec<Vec<Vec<u32>>>)
    requires
        y0 + n <= u32::MAX,
        sets_valid(sets@, channels@.len() as int),
        dc@.len() == units_upto(
            channel_views(channels@),
            sets@,
            width as int,
            y0 as int,
            n as int,
            sets@.len() as int,
        ),
        dc@.len() == squares@.len(),
        forall|i: int| 0 <= i < squares@.len() ==> (#[trigger] squares@[i])@.len() == 63,
    ensures
        set_views(r@) == units_of(
            dc@,
            code_views(squares@),
            channel_views(channels@),
            sets@,
            width as int,
            y0 as int,
            n as int,
        ),
{
    let ghost cs = channel_views(channels@);
    let ghost sv = code_views(squares@);
    let ghost all = units_of(dc@, sv, cs, sets@, width as int, y0 as int, n as int);
    let mut r: Vec<Vec<Vec<u32>>> = Vec::new();
    let mut base: usize = 0;
    let mut j: usize = 0;
    assert(dc.len() == dc@.len());
    while j < sets.len()
        invariant
            j <= sets@.len(),
            y0 + n <= u32::MAX,
            cs == channel_views(channels@),
            sets_valid(sets@, channels@.len() as int),
            dc@.len() <= usize::MAX,
            dc@.len() == units_upto(
                cs,
                sets@,
                width as int,
                y0 as int,
                n as int,
                sets@.len() as int,
            ),
            dc@.len() == squares@.len(),
            forall|i: int| 0 <= i < squares@.len() ==> (#[trigger] squares@[i])@.len() == 63,
            sv == code_views(squares@),
            all == units_of(dc@, sv, cs, sets@, width as int, y0 as int, n as int),
            base == units_upto(cs, sets@, width as int, y0 as int, n as int, j as int),
            r@.len() == j,
            forall|i: int| 0 <= i < j ==> unit_views((#[trigger] r@[i])@) == all[i],
        decreases sets@.len() - j,
    {
        proof {
            lemma_units_upto(
                cs,
                sets@,
                width as int,
                y0 as int,
                n as int,
                j as int,
                sets@.len() as int,
            );
            lemma_set_units(cs, sets@[j as int], width as int, y0 as int, n as int);
            assert(0 <= sets@[j as int].members()[0] < channels@.len());
        }
        let blocks: u64 = count_blocks(channels, sets[j], width, y0, n);
        let count: usize = sets[j].component_count();
        let u: Vec<Vec<u32>> = make_set_units(dc, squares, base, blocks, count);
        assert(unit_views(u@) == all[j as int]);
        base = base + blocks as usize * count;
        r.push(u);
        j = j + 1;
    }
    assert(set_views(r@) =~= all);
    r
}

// ----------------------------------------------------------------------
// Writing
// ----------------------------------------------------------------------
pub open spec fn set_code_views(v: Seq<Vec<Vec<u16>>>) -> Seq<Seq<Seq<u16>>> {
    Seq::new(v.len(), |j: int| code_views(v[j]@))
}

/// There are codes for the squares of all sets.
pub open spec fn codes_fit(
    codes: Seq<Seq<Seq<u16>>>,
    cs: Seq<ChannelView>,
    sets: Seq<LossySet>,
    width: int,
    y0: int,
    n: int,
) -> bool {
    &&& codes.len() == sets.len()
    &&& forall|j: int|
        0 <= j < sets.len() ==> (#[trigger] codes[j]).len() == set_units(cs, sets[j], width, y0, n)
    &&& forall|j: int, t: int|
        0 <= j < sets.len() && 0 <= t < codes[j].len() ==> (#[trigger] codes[j][t]).len() == 64
}

/// The squares of the first `j` sets, one behind the other.
pub open spec fn flat_squares(codes: Seq<Seq<Seq<u16>>>, j: int) -> Seq<Seq<u16>>
    decreases j,
{
    if j <= 0 {
        Seq::empty()
    } else {
        flat_squares(codes, j - 1) + codes[j - 1]
    }
}

/// How the coefficients of squares but their first are stored.
pub open spec fn squares_stored(flat: Seq<Seq<u16>>) -> Seq<u16>
    decreases flat.len(),
{
    if flat.len() == 0 {
        Seq::empty()
    } else {
        squares_stored(flat.drop_last()) + stored_codes(scanned(flat.last()), 1)
    }
}

/// The first coefficients of a set, channel by channel.
pub open spec fn firsts_of_set(codes: Seq<Seq<u16>>, blocks: int, count: int) -> Seq<u16> {
    Seq::new((blocks * count) as nat, |i: int| codes[(i % blocks) * count + i / blocks][0])
}

/// The first coefficients of the first `j` sets.
pub open spec fn firsts_of(
    codes: Seq<Seq<Seq<u16>>>,
    cs: Seq<ChannelView>,
    sets: Seq<LossySet>,
    width: int,
    y0: int,
    n: int,
    j: int,
) -> Seq<u16>
    decreases j,
{
    if j <= 0 {
        Seq::empty()
    } else {
        firsts_of(codes, cs, sets, width, y0, n, j - 1) + firsts_of_set(
            codes[j - 1],
            set_blocks(cs, sets[j - 1], width, y0, n),
            sets[j - 1].members().len() as int,
        )
    }
}

/// Append how the coefficients of squares but their first are stored.
fn put_squares(out: &mut Vec<u16>, codes: &Vec<Vec<u16>>, Ghost(flat): Ghost<Seq<Seq<u16>>>)
    requires
        old(out)@ == squares_stored(flat),
        forall|t: int| 0 <= t < codes@.len() ==> (#[trigger] codes@[t])@.len() == 64,
    ensures
        final(out)@ == squares_stored(flat + code_views(codes@)),
{
    let ghost cv = code_views(codes@);
    let mut t: usize = 0;
    assert(flat + cv.take(0) =~= flat);
    while t < codes.len()
        invariant
            t <= codes@.len(),
            cv == code_views(codes@),
            forall|i: int| 0 <= i < codes@.len() ==> (#[trigger] codes@[i])@.len() == 64,
            out@ == squares_stored(flat + cv.take(t as int)),
        decreases codes@.len() - t,
    {
        let scan: Vec<u16> = scan_square(codes[t].as_slice());
        put_codes(out, scan.as_slice());
        proof {
            let next = flat + cv.take(t + 1);
            assert(next.drop_last() =~= flat + cv.take(t as int));
            assert(next.last() == codes@[t as int]@);
        }
        t = t + 1;
    }
    assert(cv.take(t as int) =~= cv);
}

/// Append the first coefficients of a set.
fn put_firsts(out: &mut Vec<u16>, codes: &Vec<Vec<u16>>, blocks: u64, count: usize)
    requires
        1 <= count <= 3,
        codes@.len() == blocks * count,
        forall|t: int| 0 <= t < codes@.len() ==> (#[trigger] codes@[t])@.len() == 64,
    ensures
        final(out)@ == old(out)@ + firsts_of_set(code_views(codes@), blocks as int, count as int),
{
    let ghost start = out@;
    let ghost cv = code_views(codes@);
    let ghost all = firsts_of_set(cv, blocks as int, count as int);
    let total: usize = codes.len();
    let mut i: usize = 0;
    assert(start + all.take(0) =~= start);
    assert(blocks <= blocks * count) by (nonlinear_arith)
        requires
            0 <= blocks,
            1 <= count,
    ;
    let wide: usize = blocks as usize;
    while i < total
        invariant
            i <= total,
            total == codes@.len(),
            wide == blocks,
            1 <= count <= 3,
            codes@.len() == blocks * count,
            forall|t: int| 0 <= t < codes@.len() ==> (#[trigger] codes@[t])@.len() == 64,
            cv == code_views(codes@),
            all == firsts_of_set(cv, blocks as int, count as int),
            out@ == start + all.take(i as int),
        decreases total - i,
    {
        proof {
            assert(blocks > 0) by (nonlinear_arith)
                requires
                    0 < blocks * count,
                    0 <= count,
            ;
            assert(count * blocks == blocks * count) by (nonlinear_arith);
            lemma_unit_place(count as int, blocks as int, i as int);
        }
        let at: usize = (i % wide) * count + i / wide;
        assert(cv[at as int] == codes@[at as int]@);
        let first: u16 = codes[at][0];
        out.push(first);
        proof {
            assert(first == all[i as int]);
            assert(out@ =~= start + all.take(i + 1));
        }
        i = i + 1;
    }
    assert(all.take(i as int) =~= all);
}

/// How the squares of all sets are stored: all coefficients but the first, and
/// the first ones.
pub fn store_units(
    codes: &Vec<Vec<Vec<u16>>>,
    channels: &[Channel],
    sets: &[LossySet],
    width: u32,
    y0: u32,
    n: u32,
) -> (r: (Vec<u16>, Vec<u16>))
    requires
        y0 + n <= u32::MAX,
        sets_valid(sets@, channels@.len() as int),
        codes_fit(
            set_code_views(codes@),
            channel_views(channels@),
            sets@,
            width as int,
            y0 as int,
            n as int,
        ),
    ensures
        r.0@ == squares_stored(flat_squares(set_code_views(codes@), sets@.len() as int)),
        r.1@ == firsts_of(
            set_code_views(codes@),
            channel_views(channels@),
            sets@,
            width as int,
            y0 as int,
            n as int,
            sets@.len() as int,
        ),
{
    let ghost cs = channel_views(channels@);
    let ghost cv = set_code_views(codes@);
    let mut ac: Vec<u16> = Vec::new();
    let mut dc: Vec<u16> = Vec::new();
    let mut j: usize = 0;
    while j < sets.len()
        invariant
            j <= sets@.len(),
            y0 + n <= u32::MAX,
            cs == channel_views(channels@),
            cv == set_code_views(codes@),
            sets_valid(sets@, channels@.len() as int),
            codes_fit(cv, cs, sets@, width as int, y0 as int, n as int),
            ac@ == squares_stored(flat_squares(cv, j as int)),
            dc@ == firsts_of(cv, cs, sets@, width as int, y0 as int, n as int, j as int),
        decreases sets@.len() - j,
    {
        assert(cv.len() == codes@.len());
        assert(cv[j as int] == code_views(codes@[j as int]@));
        assert(0 <= sets@[j as int].members()[0] < channels@.len());
        assert forall|t: int| 0 <= t < codes@[j as int]@.len() implies (
        #[trigger] codes@[j as int]@[t])@.len() == 64 by {
            assert(cv[j as int][t].len() == 64);
        }
        let blocks: u64 = count_blocks(channels, sets[j], width, y0, n);
        let count: usize = sets[j].component_count();
        put_squares(&mut ac, &codes[j], Ghost(flat_squares(cv, j as int)));
        put_firsts(&mut dc, &codes[j], blocks, count);
        j = j + 1;
    }
    (ac, dc)
}

// ----------------------------------------------------------------------
// Reading what was written
// ----------------------------------------------------------------------
/// The coefficients but the first of every square.
pub open spec fn rests(flat: Seq<Seq<u16>>) -> Seq<Seq<u16>> {
    Seq::new(flat.len(), |i: int| scanned(flat[i]).skip(1))
}

/// Codes of squares that can be told from runs.
pub open spec fn all_plain(flat: Seq<Seq<u16>>) -> bool {
    forall|i: int| 0 <= i < flat.len() ==> is_plain(scanned(#[trigger] flat[i]))
}

/// The coefficients of squares that are stored are read back.
pub proof fn law_squares_read_back(ac: Seq<u16>, flat: Seq<Seq<u16>>)
    requires
        all_plain(flat),
        codes_stand(ac, 0, squares_stored(flat)),
    ensures
        squares_from(ac, 0, flat.len() as int) == Some(
            (rests(flat), squares_stored(flat).len() as int),
        ),
    decreases flat.len(),
{
    if flat.len() > 0 {
        let init = flat.drop_last();
        let head = squares_stored(init);
        let scan = scanned(flat.last());
        let last = stored_codes(scan, 1);
        assert(all_plain(init)) by {
            assert forall|i: int| 0 <= i < init.len() implies is_plain(
                scanned(#[trigger] init[i]),
            ) by {
                assert(init[i] == flat[i]);
            }
        }
        let whole = ac.subrange(0, (head + last).len() as int);
        assert(ac.subrange(0, head.len() as int) =~= whole.subrange(0, head.len() as int));
        assert((head + last).subrange(0, head.len() as int) =~= head);
        assert(codes_stand(ac, 0, head));
        law_squares_read_back(ac, init);
        let at = head.len() as int;
        assert(ac.subrange(at, at + last.len()) =~= whole.subrange(at, at + last.len()));
        assert((head + last).subrange(at, at + last.len()) =~= last);
        assert(is_plain(scanned(flat[flat.len() - 1])));
        law_codes_read_back(ac, at, scan, 1);
        assert(rests(flat) =~= rests(init).push(scan.skip(1)));
    } else {
        assert(rests(flat) =~= Seq::<Seq<u16>>::empty());
    }
}

proof fn lemma_flat_squares(
    codes: Seq<Seq<Seq<u16>>>,
    cs: Seq<ChannelView>,
    sets: Seq<LossySet>,
    width: int,
    y0: int,
    n: int,
    m: int,
    j: int,
    t: int,
)
    requires
        codes_fit(codes, cs, sets, width, y0, n),
        0 <= width <= u32::MAX,
        0 <= y0,
        0 <= n <= u32::MAX,
        0 <= j < m <= sets.len(),
        0 <= t < codes[j].len(),
    ensures
        0 <= units_upto(cs, sets, width, y0, n, j) + t < flat_squares(codes, m).len(),
        flat_squares(codes, m)[units_upto(cs, sets, width, y0, n, j) + t] == codes[j][t],
    decreases m,
{
    lemma_flat_len(codes, cs, sets, width, y0, n, m);
    lemma_flat_len(codes, cs, sets, width, y0, n, m - 1);
    lemma_units_upto(cs, sets, width, y0, n, j, m);
    if j < m - 1 {
        lemma_flat_squares(codes, cs, sets, width, y0, n, m - 1, j, t);
    }
}

pub proof fn lemma_flat_len(
    codes: Seq<Seq<Seq<u16>>>,
    cs: Seq<ChannelView>,
    sets: Seq<LossySet>,
    width: int,
    y0: int,
    n: int,
    m: int,
)
    requires
        codes_fit(codes, cs, sets, width, y0, n),
        0 <= m <= sets.len(),
    ensures
        flat_squares(codes, m).len() == units_upto(cs, sets, width, y0, n, m),
    decreases m,
{
    if m > 0 {
        lemma_flat_len(codes, cs, sets, width, y0, n, m - 1);
    }
}

pub proof fn lemma_firsts_len(
    codes: Seq<Seq<Seq<u16>>>,
    cs: Seq<ChannelView>,
    sets: Seq<LossySet>,
    width: int,
    y0: int,
    n: int,
    m: int,
)
    requires
        0 <= width <= u32::MAX,
        0 <= y0,
        0 <= n <= u32::MAX,
        0 <= m <= sets.len(),
    ensures
        firsts_of(codes, cs, sets, width, y0, n, m).len() == units_upto(cs, sets, width, y0, n, m),
    decreases m,
{
    if m > 0 {
        lemma_firsts_len(codes, cs, sets, width, y0, n, m - 1);
        lemma_set_units(cs, sets[m - 1], width, y0, n);
    }
}

proof fn lemma_first_at(
    codes: Seq<Seq<Seq<u16>>>,
    cs: Seq<ChannelView>,
    sets: Seq<LossySet>,
    width: int,
    y0: int,
    n: int,
    m: int,
    j: int,
    i: int,
)
    requires
        0 <= width <= u32::MAX,
        0 <= y0,
        0 <= n <= u32::MAX,
        0 <= j < m <= sets.len(),
        0 <= i < set_units(cs, sets[j], width, y0, n),
    ensures
        firsts_of(codes, cs, sets, width, y0, n, m)[units_upto(cs, sets, width, y0, n, j) + i]
            == firsts_of_set(
            codes[j],
            set_blocks(cs, sets[j], width, y0, n),
            sets[j].members().len() as int,
        )[i],
    decreases m,
{
    lemma_firsts_len(codes, cs, sets, width, y0, n, m);
    lemma_firsts_len(codes, cs, sets, width, y0, n, m - 1);
    lemma_units_upto(cs, sets, width, y0, n, j, m);
    lemma_units_upto(cs, sets, width, y0, n, j, j);
    lemma_set_units(cs, sets[m - 1], width, y0, n);
    if j < m - 1 {
        lemma_units_upto(cs, sets, width, y0, n, j, m - 1);
        lemma_first_at(codes, cs, sets, width, y0, n, m - 1, j, i);
    }
}

/// The numbers that codes stand for.
pub open spec fn numbers_of(codes: Seq<Seq<Seq<u16>>>) -> Seq<Seq<Seq<u32>>> {
    Seq::new(
        codes.len(),
        |j: int|
            Seq::new(
                codes[j].len(),
                |t: int| Seq::new(64, |r: int| half_as_f32(codes[j][t][r])),
            ),
    )
}

/// The squares that are stored are read back.
pub proof fn law_units_read_back(
    codes: Seq<Seq<Seq<u16>>>,
    cs: Seq<ChannelView>,
    sets: Seq<LossySet>,
    width: int,
    y0: int,
    n: int,
)
    requires
        codes_fit(codes, cs, sets, width, y0, n),
        0 <= width <= u32::MAX,
        0 <= y0,
        0 <= n <= u32::MAX,
    ensures
        units_of(
            firsts_of(codes, cs, sets, width, y0, n, sets.len() as int),
            rests(flat_squares(codes, sets.len() as int)),
            cs,
            sets,
            width,
            y0,
            n,
        ) == numbers_of(codes),
{
    let m = sets.len() as int;
    let dc = firsts_of(codes, cs, sets, width, y0, n, m);
    let flat = flat_squares(codes, m);
    let got = units_of(dc, rests(flat), cs, sets, width, y0, n);
    assert forall|j: int| 0 <= j < m implies got[j] == numbers_of(codes)[j] by {
        let base = units_upto(cs, sets, width, y0, n, j);
        let blocks = set_blocks(cs, sets[j], width, y0, n);
        let count = sets[j].members().len() as int;
        lemma_set_units(cs, sets[j], width, y0, n);
        assert(codes[j].len() == set_units(cs, sets[j], width, y0, n));
        assert forall|t: int| 0 <= t < codes[j].len() implies got[j][t] == numbers_of(codes)[j][t] by {
            lemma_unit_place(blocks, count, t);
            let i = (t % count) * blocks + t / count;
            lemma_first_at(codes, cs, sets, width, y0, n, m, j, i);
            lemma_flat_squares(codes, cs, sets, width, y0, n, m, j, t);
            let square = codes[j][t];
            assert(square.len() == 64);
            assert(dc[base + i] == square[0]);
            assert(base + (t % count) * blocks + t / count == base + i);
            assert(seq![square[0]] + scanned(square).skip(1) =~= scanned(square)) by {
                assert(raster_of(0) == 0);
            }
            law_spread_of_scanned(square);
            assert(got[j][t] =~= numbers_of(codes)[j][t]);
        }
        assert(got[j] =~= numbers_of(codes)[j]);
    }
    assert(got =~= numbers_of(codes));
}

} // verus!
