//! Squares of eight by eight samples: how their coefficients are stored, and
//! how they are cut out of a plane and put together again.

use crate::dwa_tables::{law_zigzag, raster_of, scan_of, zigzag_raster, zigzag_scan, PerceptualTables};
use crate::grid::steps;
use crate::half::{f32_as_half, f32_to_half, half_as_f32, half_to_f32};
use vstd::arithmetic::div_mod::*;
use vstd::prelude::*;

verus! {

// ----------------------------------------------------------------------
// Runs of zeros
// ----------------------------------------------------------------------
/// `n` zeros.
pub open spec fn zero_codes(n: int) -> Seq<u16> {
    Seq::new(n as nat, |i: int| 0u16)
}

/// The coefficients of a square from number `pos` on, which are stored from
/// `at` on, and the position behind them. Codes from 0xff00 on stand for as
/// many zeros as their low byte says, or for zeros up to the end.
pub open spec fn codes_from(ac: Seq<u16>, at: int, pos: int) -> Option<(Seq<u16>, int)>
    decreases 64 - pos,
{
    if pos >= 64 {
        Some((Seq::empty(), at))
    } else if at >= ac.len() {
        None
    } else {
        let elem = ac[at];
        if elem == 0xff00 {
            Some((zero_codes(64 - pos), at + 1))
        } else if elem > 0xff00 {
            let run = elem - 0xff00;
            if pos + run > 64 {
                None
            } else {
                match codes_from(ac, at + 1, pos + run) {
                    None => None,
                    Some((rest, end)) => Some((zero_codes(run) + rest, end)),
                }
            }
        } else {
            match codes_from(ac, at + 1, pos + 1) {
                None => None,
                Some((rest, end)) => Some((seq![elem] + rest, end)),
            }
        }
    }
}

pub proof fn lemma_codes_from(ac: Seq<u16>, at: int, pos: int)
    requires
        0 <= pos,
        0 <= at <= ac.len(),
    ensures
        codes_from(ac, at, pos) matches Some((codes, end)) ==> {
            &&& at <= end <= ac.len()
            &&& pos <= 64 ==> codes.len() == 64 - pos
            &&& pos < 64 ==> at < end
        },
    decreases 64 - pos,
{
    if pos < 64 && at < ac.len() {
        let elem = ac[at];
        if elem > 0xff00 {
            if pos + (elem - 0xff00) <= 64 {
                lemma_codes_from(ac, at + 1, pos + (elem - 0xff00));
            }
        } else if elem < 0xff00 {
            lemma_codes_from(ac, at + 1, pos + 1);
        }
    }
}

/// What was read, behind what was read before.
proof fn lemma_behind(before: Seq<u16>, part: Seq<u16>, r: Option<(Seq<u16>, int)>)
    ensures
        r matches Some((rest, end)) ==> before + (part + rest) == (before + part) + rest,
{
    if let Some((rest, end)) = r {
        assert(before + (part + rest) =~= (before + part) + rest);
    }
}

/// Read the coefficients of a square but the first.
pub fn read_codes(ac: &[u16], at: usize) -> (r: Option<(Vec<u16>, usize)>)
    requires
        at <= ac@.len(),
    ensures
        r is None <==> codes_from(ac@, at as int, 1) is None,
        r matches Some((codes, end)) ==> codes_from(ac@, at as int, 1) == Some(
            (codes@, end as int),
        ) && codes@.len() == 63 && end <= ac@.len(),
{
    let ghost all = codes_from(ac@, at as int, 1);
    let mut codes: Vec<u16> = Vec::new();
    let mut pos: usize = 1;
    let mut p: usize = at;
    assert(ac.len() == ac@.len());
    proof {
        lemma_codes_from(ac@, at as int, 1);
        assert(all is Some ==> Seq::<u16>::empty() + all->Some_0.0 =~= all->Some_0.0);
    }
    while pos < 64
        invariant
            1 <= pos <= 64,
            at <= p <= ac@.len(),
            ac@.len() <= usize::MAX,
            all == codes_from(ac@, at as int, 1),
            all is None <==> codes_from(ac@, p as int, pos as int) is None,
            all matches Some((c, end)) ==> codes_from(ac@, p as int, pos as int) matches Some(
                (rest, e),
            ) && c == codes@ + rest && end == e,
            codes@.len() == pos - 1,
        decreases 64 - pos,
    {
        if p >= ac.len() {
            return None;
        }
        let elem: u16 = ac[p];
        let ghost before = codes@;
        p = p + 1;
        if elem >= 0xff00 {
            let run: usize = if elem == 0xff00 {
                64 - pos
            } else {
                elem as usize - 0xff00
            };
            if run > 64 - pos {
                return None;
            }
            let mut i: usize = 0;
            assert(before + zero_codes(0) =~= before);
            while i < run
                invariant
                    i <= run,
                    codes@ == before + zero_codes(i as int),
                decreases run - i,
            {
                codes.push(0);
                i = i + 1;
                assert(codes@ =~= before + zero_codes(i as int));
            }
            proof {
                lemma_behind(before, zero_codes(run as int), codes_from(ac@, p as int, pos + run));
                if elem == 0xff00 {
                    assert(zero_codes(run as int) + Seq::<u16>::empty() =~= zero_codes(run as int));
                }
            }
            pos = pos + run;
        } else {
            codes.push(elem);
            proof {
                assert(codes@ =~= before + seq![elem]);
                lemma_behind(before, seq![elem], codes_from(ac@, p as int, pos + 1));
            }
            pos = pos + 1;
        }
    }
    assert(codes@ + Seq::<u16>::empty() =~= codes@);
    Some((codes, p))
}

/// The coefficients of `n` squares but their first, which are stored from `at`
/// on, and the position behind them.
pub open spec fn squares_from(ac: Seq<u16>, at: int, n: int) -> Option<(Seq<Seq<u16>>, int)>
    decreases n,
{
    if n <= 0 {
        Some((Seq::empty(), at))
    } else {
        match squares_from(ac, at, n - 1) {
            None => None,
            Some((squares, p)) => match codes_from(ac, p, 1) {
                None => None,
                Some((codes, end)) => Some((squares.push(codes), end)),
            },
        }
    }
}

pub proof fn lemma_squares_stop(ac: Seq<u16>, at: int, a: int, b: int)
    requires
        a <= b,
        squares_from(ac, at, a) is None,
    ensures
        squares_from(ac, at, b) is None,
    decreases b - a,
{
    if a < b {
        lemma_squares_stop(ac, at, a, b - 1);
    }
}

/// The number of zeros from `pos` on.
pub open spec fn zeros_from(scan: Seq<u16>, pos: int) -> int
    decreases scan.len() - pos,
{
    if pos >= scan.len() || scan[pos] != 0 {
        0
    } else {
        1 + zeros_from(scan, pos + 1)
    }
}

proof fn lemma_zeros_from(scan: Seq<u16>, pos: int)
    requires
        0 <= pos <= scan.len(),
    ensures
        0 <= zeros_from(scan, pos) <= scan.len() - pos,
        pos < scan.len() && scan[pos] == 0 ==> zeros_from(scan, pos) > 0,
        forall|i: int| pos <= i < pos + zeros_from(scan, pos) ==> scan[i] == 0,
    decreases scan.len() - pos,
{
    if pos < scan.len() && scan[pos] == 0 {
        lemma_zeros_from(scan, pos + 1);
    }
}

/// How the coefficients of a square from number `pos` on are stored.
pub open spec fn stored_codes(scan: Seq<u16>, pos: int) -> Seq<u16>
    decreases 64 - pos,
    when 0 <= pos && scan.len() == 64
    via stored_codes_decreases
{
    if pos >= 64 {
        Seq::empty()
    } else if scan[pos] == 0 {
        let run = zeros_from(scan, pos);
        if pos + run >= 64 {
            seq![0xff00u16]
        } else {
            seq![(0xff00 + run) as u16] + stored_codes(scan, pos + run)
        }
    } else {
        seq![scan[pos]] + stored_codes(scan, pos + 1)
    }
}

#[via_fn]
proof fn stored_codes_decreases(scan: Seq<u16>, pos: int) {
    if pos <= scan.len() {
        lemma_zeros_from(scan, pos);
    }
}

/// A square whose coefficients can be told from runs.
pub open spec fn is_plain(scan: Seq<u16>) -> bool {
    scan.len() == 64 && forall|i: int| 1 <= i < 64 ==> #[trigger] scan[i] < 0xff00
}

/// The codes of a square stand at `at`.
pub open spec fn codes_stand(ac: Seq<u16>, at: int, codes: Seq<u16>) -> bool {
    0 <= at && at + codes.len() <= ac.len() && ac.subrange(at, at + codes.len()) == codes
}

proof fn lemma_codes_split(ac: Seq<u16>, at: int, a: Seq<u16>, b: Seq<u16>)
    requires
        codes_stand(ac, at, a + b),
    ensures
        codes_stand(ac, at, a),
        codes_stand(ac, at + a.len(), b),
{
    let w = ac.subrange(at, at + a.len() + b.len());
    assert(ac.subrange(at, at + a.len()) =~= w.subrange(0, a.len() as int));
    assert((a + b).subrange(0, a.len() as int) =~= a);
    assert(ac.subrange(at + a.len(), at + a.len() + b.len()) =~= w.subrange(
        a.len() as int,
        (a.len() + b.len()) as int,
    ));
    assert((a + b).subrange(a.len() as int, (a.len() + b.len()) as int) =~= b);
}

/// The coefficients of a square that are stored are read back.
pub proof fn law_codes_read_back(ac: Seq<u16>, at: int, scan: Seq<u16>, pos: int)
    requires
        is_plain(scan),
        1 <= pos <= 64,
        codes_stand(ac, at, stored_codes(scan, pos)),
    ensures
        codes_from(ac, at, pos) == Some((scan.skip(pos), at + stored_codes(scan, pos).len())),
    decreases 64 - pos,
{
    if pos >= 64 {
        assert(scan.skip(pos) =~= Seq::<u16>::empty());
    } else if scan[pos] == 0 {
        lemma_zeros_from(scan, pos);
        let run = zeros_from(scan, pos);
        if pos + run >= 64 {
            assert(ac.subrange(at, at + 1)[0] == 0xff00);
            assert(scan.skip(pos) =~= zero_codes(64 - pos));
        } else {
            let head = seq![(0xff00 + run) as u16];
            lemma_codes_split(ac, at, head, stored_codes(scan, pos + run));
            assert(ac.subrange(at, at + 1)[0] == head[0]);
            law_codes_read_back(ac, at + 1, scan, pos + run);
            assert(scan.skip(pos) =~= zero_codes(run) + scan.skip(pos + run));
        }
    } else {
        let head = seq![scan[pos]];
        lemma_codes_split(ac, at, head, stored_codes(scan, pos + 1));
        assert(ac.subrange(at, at + 1)[0] == head[0]);
        law_codes_read_back(ac, at + 1, scan, pos + 1);
        assert(scan.skip(pos) =~= seq![scan[pos]] + scan.skip(pos + 1));
    }
}

/// Append how the coefficients of a square but the first are stored.
pub fn put_codes(out: &mut Vec<u16>, scan: &[u16])
    requires
        scan@.len() == 64,
    ensures
        final(out)@ == old(out)@ + stored_codes(scan@, 1),
{
    let ghost start = out@;
    let ghost all = stored_codes(scan@, 1);
    let mut pos: usize = 1;
    let ghost mut done = Seq::<u16>::empty();
    assert(start + done =~= start);
    assert(done + stored_codes(scan@, 1) =~= all);
    while pos < 64
        invariant
            1 <= pos <= 64,
            scan@.len() == 64,
            all == stored_codes(scan@, 1),
            all == done + stored_codes(scan@, pos as int),
            out@ == start + done,
        decreases 64 - pos,
    {
        let ghost before = done;
        if scan[pos] == 0 {
            let mut run: usize = 1;
            while pos + run < 64 && scan[pos + run] == 0
                invariant
                    1 <= run,
                    1 <= pos,
                    pos + run <= 64,
                    scan@.len() == 64,
                    zeros_from(scan@, pos as int) == run + zeros_from(scan@, pos + run),
                decreases 64 - run,
            {
                run = run + 1;
            }
            proof {
                lemma_zeros_from(scan@, pos + run);
                assert(zeros_from(scan@, pos as int) == run);
            }
            let code: u16 = if pos + run == 64 {
                0xff00
            } else {
                0xff00 + run as u16
            };
            out.push(code);
            proof {
                done = done.push(code);
                assert(out@ =~= start + done);
                if pos + run == 64 {
                    assert(before + seq![code] =~= done);
                    assert(stored_codes(scan@, 64) =~= Seq::<u16>::empty());
                    assert(done + Seq::<u16>::empty() =~= done);
                } else {
                    assert(before + (seq![code] + stored_codes(scan@, pos + run)) =~= done
                        + stored_codes(scan@, pos + run));
                }
            }
            pos = pos + run;
        } else {
            let code: u16 = scan[pos];
            out.push(code);
            proof {
                done = done.push(code);
                assert(out@ =~= start + done);
                assert(before + (seq![code] + stored_codes(scan@, pos + 1)) =~= done
                    + stored_codes(scan@, pos + 1));
            }
            pos = pos + 1;
        }
    }
    assert(done + stored_codes(scan@, 64) =~= done);
}

// ----------------------------------------------------------------------
// Coefficients as numbers
// ----------------------------------------------------------------------
/// The coefficients of a square in the order of its places, as binary32 bit
/// patterns.
pub open spec fn spread(scan: Seq<u16>) -> Seq<u32> {
    Seq::new(64, |r: int| half_as_f32(scan[scan_of(r as usize) as int]))
}

/// The codes of a square in the order in which they are stored.
pub open spec fn scanned(square: Seq<u16>) -> Seq<u16> {
    Seq::new(64, |k: int| square[raster_of(k as usize) as int])
}

/// The coefficients of a square in the order of its places.
pub fn spread_square(first: u16, codes: &[u16]) -> (r: Vec<u32>)
    requires
        codes@.len() == 63,
    ensures
        r@ == spread(seq![first] + codes@),
{
    let mut r: Vec<u32> = Vec::new();
    let mut i: usize = 0;
    while i < 64
        invariant
            i <= 64,
            codes@.len() == 63,
            r@.len() == i,
            forall|j: int| 0 <= j < i ==> r@[j] == spread(seq![first] + codes@)[j],
        decreases 64 - i,
    {
        let k: usize = zigzag_scan(i);
        let code: u16 = if k == 0 {
            first
        } else {
            codes[k - 1]
        };
        r.push(half_to_f32(code));
        i = i + 1;
    }
    assert(r@ =~= spread(seq![first] + codes@));
    r
}

/// The codes of a square in the order in which they are stored.
pub fn scan_square(square: &[u16]) -> (r: Vec<u16>)
    requires
        square@.len() == 64,
    ensures
        r@ == scanned(square@),
{
    let mut r: Vec<u16> = Vec::new();
    let mut k: usize = 0;
    while k < 64
        invariant
            k <= 64,
            square@.len() == 64,
            r@.len() == k,
            forall|j: int| 0 <= j < k ==> r@[j] == scanned(square@)[j],
        decreases 64 - k,
    {
        r.push(square[zigzag_raster(k)]);
        k = k + 1;
    }
    assert(r@ =~= scanned(square@));
    r
}

/// Codes in the order in which they are stored, spread again, stand where they
/// stood.
pub proof fn law_spread_of_scanned(square: Seq<u16>)
    requires
        square.len() == 64,
    ensures
        spread(scanned(square)) == Seq::new(64, |r: int| half_as_f32(square[r])),
{
    assert forall|r: int| 0 <= r < 64 implies #[trigger] spread(scanned(square))[r] == half_as_f32(
        square[r],
    ) by {
        law_zigzag(r as usize);
    }
    assert(spread(scanned(square)) =~= Seq::new(64, |r: int| half_as_f32(square[r])));
}

// ----------------------------------------------------------------------
// Squares of a plane
// ----------------------------------------------------------------------
/// The position that stands for `i`, where there are `n`: positions behind the
/// end are mirrored, and those that are mirrored out of the start fall on the
/// end.
pub open spec fn mirrored(i: int, n: int) -> int {
    if i < n {
        i
    } else if 2 * (n - 1) - i >= 0 {
        2 * (n - 1) - i
    } else {
        n - 1
    }
}

fn mirror(i: u64, n: u32) -> (r: usize)
    requires
        0 < n,
        i < n + 8,
    ensures
        r == mirrored(i as int, n as int),
        r < n,
{
    if i < n as u64 {
        i as usize
    } else if 2 * (n as u64 - 1) >= i {
        (2 * (n as u64 - 1) - i) as usize
    } else {
        n as usize - 1
    }
}

/// The square in column `bx` and row `by` of a plane.
pub open spec fn square_at(plane: Seq<u32>, nx: int, ny: int, bx: int, by: int) -> Seq<u32> {
    Seq::new(
        64,
        |r: int| plane[mirrored(8 * by + r / 8, ny) * nx + mirrored(8 * bx + r % 8, nx)],
    )
}

/// All squares of a plane, row by row.
pub open spec fn squares_of(plane: Seq<u32>, nx: int, ny: int) -> Seq<Seq<u32>> {
    Seq::new(
        (steps(ny, 8) * steps(nx, 8)) as nat,
        |b: int| square_at(plane, nx, ny, b % steps(nx, 8), b / steps(nx, 8)),
    )
}

/// The plane that squares are the squares of.
pub open spec fn plane_of(squares: Seq<Seq<u32>>, nx: int, ny: int) -> Seq<u32> {
    Seq::new(
        (ny * nx) as nat,
        |i: int|
            squares[((i / nx) / 8) * steps(nx, 8) + (i % nx) / 8][8 * ((i / nx) % 8) + (i % nx) % 8],
    )
}

/// The place of a sample among the squares.
pub proof fn lemma_square_index(nx: int, ny: int, y: int, x: int)
    requires
        0 <= y < ny,
        0 <= x < nx,
    ensures
        (y * nx + x) / nx == y,
        (y * nx + x) % nx == x,
        0 <= y * nx + x < ny * nx,
        0 <= (y / 8) * steps(nx, 8) + x / 8 < steps(ny, 8) * steps(nx, 8),
        ((y / 8) * steps(nx, 8) + x / 8) / steps(nx, 8) == y / 8,
        ((y / 8) * steps(nx, 8) + x / 8) % steps(nx, 8) == x / 8,
{
    lemma_fundamental_div_mod_converse(y * nx + x, nx, y, x);
    let (a, b, h, w) = (y / 8, x / 8, steps(ny, 8), steps(nx, 8));
    assert(0 <= a * w && a * w + b < h * w) by (nonlinear_arith)
        requires
            0 <= a,
            a + 1 <= h,
            0 <= b < w,
    ;
    assert(0 <= y * nx && y * nx + x < ny * nx) by (nonlinear_arith)
        requires
            0 <= y,
            y + 1 <= ny,
            0 <= x < nx,
    ;
    lemma_fundamental_div_mod_converse(a * w + b, w, a, b);
}

/// Every sample is a place in a row and a column.
proof fn lemma_sample_place(nx: int, ny: int, i: int)
    requires
        0 <= i < ny * nx,
        0 < nx,
    ensures
        0 <= i / nx < ny,
        0 <= i % nx < nx,
        i == (i / nx) * nx + i % nx,
{
    let (y, x) = (i / nx, i % nx);
    lemma_fundamental_div_mod(i, nx);
    lemma_mod_bound(i, nx);
    lemma_div_pos_is_pos(i, nx);
    assert(i == y * nx + x) by (nonlinear_arith)
        requires
            i == nx * y + x,
    ;
    assert(y < ny) by (nonlinear_arith)
        requires
            i == y * nx + x,
            i < ny * nx,
            0 <= x,
            0 < nx,
    ;
}

/// A plane is put together again from its squares.
pub proof fn law_plane_of_squares(plane: Seq<u32>, nx: int, ny: int)
    requires
        0 < nx,
        0 < ny,
        plane.len() == ny * nx,
    ensures
        plane_of(squares_of(plane, nx, ny), nx, ny) == plane,
{
    let got = plane_of(squares_of(plane, nx, ny), nx, ny);
    assert forall|i: int| 0 <= i < plane.len() implies got[i] == plane[i] by {
        lemma_sample_place(nx, ny, i);
        let (y, x) = (i / nx, i % nx);
        lemma_square_index(nx, ny, y, x);
        let r = 8 * (y % 8) + x % 8;
        assert(r / 8 == y % 8 && r % 8 == x % 8);
        assert(8 * (y / 8) + y % 8 == y && 8 * (x / 8) + x % 8 == x);
    }
    assert(got =~= plane);
}

/// Cut a square out of a plane.
pub fn cut_square(plane: &[u32], nx: u32, ny: u32, bx: u32, by: u32) -> (r: Vec<u32>)
    requires
        0 < nx,
        0 < ny,
        plane@.len() == ny * nx,
        8 * bx < nx,
        8 * by < ny,
    ensures
        r@ == square_at(plane@, nx as int, ny as int, bx as int, by as int),
{
    let mut r: Vec<u32> = Vec::new();
    let mut i: u64 = 0;
    while i < 64
        invariant
            i <= 64,
            0 < nx,
            0 < ny,
            plane@.len() == ny * nx,
            8 * bx < nx,
            8 * by < ny,
            r@.len() == i,
            forall|j: int|
                0 <= j < i ==> r@[j] == square_at(
                    plane@,
                    nx as int,
                    ny as int,
                    bx as int,
                    by as int,
                )[j],
        decreases 64 - i,
    {
        let y: usize = mirror(8 * by as u64 + i / 8, ny);
        let x: usize = mirror(8 * bx as u64 + i % 8, nx);
        proof {
            lemma_square_index(nx as int, ny as int, y as int, x as int);
            assert(plane.len() == plane@.len());
            assert(0 <= y * nx) by (nonlinear_arith)
                requires
                    0 <= y,
            ;
        }
        r.push(plane[y * nx as usize + x]);
        i = i + 1;
    }
    assert(r@ =~= square_at(plane@, nx as int, ny as int, bx as int, by as int));
    r
}

/// Every `n`-th of some squares from number `k` on.
pub open spec fn every_nth(units: Seq<Seq<u32>>, n: int, k: int, count: int) -> Seq<Seq<u32>> {
    Seq::new(count as nat, |b: int| units[b * n + k])
}

/// The code of a sample: a half, taken back to linear numbers where the
/// channel is not linear.
pub open spec fn sample_code(v: u32, linear: bool, table: Seq<u16>) -> u16 {
    if linear {
        f32_as_half(v)
    } else {
        table[f32_as_half(v) as int]
    }
}

/// The codes of a plane that component `k` of `n` holds.
pub open spec fn code_plane(
    units: Seq<Seq<u32>>,
    n: int,
    k: int,
    nx: int,
    ny: int,
    linear: bool,
    table: Seq<u16>,
) -> Seq<u16> {
    let plane = plane_of(every_nth(units, n, k, steps(ny, 8) * steps(nx, 8)), nx, ny);
    Seq::new((ny * nx) as nat, |i: int| sample_code(plane[i], linear, table))
}

/// The units are the squares of `n` planes.
pub open spec fn units_fit(units: Seq<Seq<u32>>, n: int, nx: int, ny: int) -> bool {
    &&& units.len() == steps(ny, 8) * steps(nx, 8) * n
    &&& forall|t: int| 0 <= t < units.len() ==> (#[trigger] units[t]).len() == 64
}

pub open spec fn unit_views(v: Seq<Vec<u32>>) -> Seq<Seq<u32>> {
    Seq::new(v.len(), |i: int| v[i]@)
}

/// Put the codes of a plane together.
pub fn join_plane(
    units: &Vec<Vec<u32>>,
    n: usize,
    k: usize,
    nx: u32,
    ny: u32,
    linear: bool,
    tables: &PerceptualTables,
) -> (r: Vec<u16>)
    requires
        tables.inv(),
        0 < n <= 3,
        k < n,
        units_fit(unit_views(units@), n as int, nx as int, ny as int),
    ensures
        r@ == code_plane(
            unit_views(units@),
            n as int,
            k as int,
            nx as int,
            ny as int,
            linear,
            tables.linear_codes(),
        ),
{
    let ghost uv = unit_views(units@);
    let ghost all = code_plane(
        uv,
        n as int,
        k as int,
        nx as int,
        ny as int,
        linear,
        tables.linear_codes(),
    );
    let across: u64 = (nx as u64 + 7) / 8;
    let mut r: Vec<u16> = Vec::new();
    let mut y: u32 = 0;
    assert(units.len() == units@.len());
    assert(0 * nx == 0);
    assert(all.len() == ny * nx) by {
        assert(0 <= ny * nx) by (nonlinear_arith)
            requires
                0 <= ny,
                0 <= nx,
        ;
    }
    while y < ny
        invariant
            y <= ny,
            tables.inv(),
            0 < n <= 3,
            k < n,
            uv == unit_views(units@),
            units@.len() <= usize::MAX,
            units_fit(uv, n as int, nx as int, ny as int),
            across == steps(nx as int, 8),
            all == code_plane(
                uv,
                n as int,
                k as int,
                nx as int,
                ny as int,
                linear,
                tables.linear_codes(),
            ),
            all.len() == ny * nx,
            y * nx <= all.len(),
            r@ == all.take(y * nx),
        decreases ny - y,
    {
        let mut x: u32 = 0;
        assert((y + 1) * nx <= ny * nx && (y + 1) * nx == y * nx + nx) by (nonlinear_arith)
            requires
                y + 1 <= ny,
        ;
        while x < nx
            invariant
                y < ny,
                x <= nx,
                tables.inv(),
                0 < n <= 3,
                k < n,
                uv == unit_views(units@),
                units@.len() <= usize::MAX,
                units_fit(uv, n as int, nx as int, ny as int),
                across == steps(nx as int, 8),
                all == code_plane(
                    uv,
                    n as int,
                    k as int,
                    nx as int,
                    ny as int,
                    linear,
                    tables.linear_codes(),
                ),
                all.len() == ny * nx,
                y * nx + nx <= all.len(),
                r@ == all.take(y * nx + x),
            decreases nx - x,
        {
            let ghost b = (y / 8) * across + x / 8;
            proof {
                lemma_square_index(nx as int, ny as int, y as int, x as int);
                let count = steps(ny as int, 8) * steps(nx as int, 8);
                assert(0 <= b < count);
                assert(0 <= b * n && b * n + k < count * n) by (nonlinear_arith)
                    requires
                        0 <= b,
                        b + 1 <= count,
                        0 <= k < n,
                ;
                assert(0 <= (y / 8) * across <= b) by (nonlinear_arith)
                    requires
                        0 <= y,
                        0 <= across,
                        b == (y / 8) * across + x / 8,
                ;
                assert(b <= b * n) by (nonlinear_arith)
                    requires
                        0 <= b,
                        1 <= n,
                ;
            }
            let row: usize = (y / 8) as usize * across as usize + (x / 8) as usize;
            let t: usize = row * n + k;
            assert(uv[t as int] == units@[t as int]@);
            let v: u32 = units[t][(8 * (y % 8) + x % 8) as usize];
            let h: u16 = f32_to_half(v);
            let code: u16 = if linear {
                h
            } else {
                tables.to_linear(h)
            };
            r.push(code);
            proof {
                assert(code == all[y * nx + x]);
                assert(all.take(y * nx + x + 1) =~= all.take(y * nx + x).push(all[y * nx + x]));
            }
            x = x + 1;
        }
        y = y + 1;
    }
    assert(all.take(ny * nx) =~= all);
    r
}

} // verus!
