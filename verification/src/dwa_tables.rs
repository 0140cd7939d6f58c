//! The fixed tables of the DCT compressions.

use vstd::prelude::*;

verus! {

// ----------------------------------------------------------------------
// The order of coefficients
// ----------------------------------------------------------------------
/// The place in the square of the coefficient that is stored as number `k`:
/// the coefficients are stored along the diagonals.
pub open spec fn raster_of(k: usize) -> usize {
    match k {
        0 => 0,
        1 => 1,
        2 => 8,
        3 => 16,
        4 => 9,
        5 => 2,
        6 => 3,
        7 => 10,
        8 => 17,
        9 => 24,
        10 => 32,
        11 => 25,
        12 => 18,
        13 => 11,
        14 => 4,
        15 => 5,
        16 => 12,
        17 => 19,
        18 => 26,
        19 => 33,
        20 => 40,
        21 => 48,
        22 => 41,
        23 => 34,
        24 => 27,
        25 => 20,
        26 => 13,
        27 => 6,
        28 => 7,
        29 => 14,
        30 => 21,
        31 => 28,
        32 => 35,
        33 => 42,
        34 => 49,
        35 => 56,
        36 => 57,
        37 => 50,
        38 => 43,
        39 => 36,
        40 => 29,
        41 => 22,
        42 => 15,
        43 => 23,
        44 => 30,
        45 => 37,
        46 => 44,
        47 => 51,
        48 => 58,
        49 => 59,
        50 => 52,
        51 => 45,
        52 => 38,
        53 => 31,
        54 => 39,
        55 => 46,
        56 => 53,
        57 => 60,
        58 => 61,
        59 => 54,
        60 => 47,
        61 => 55,
        62 => 62,
        _ => 63,
    }
}

/// The number of the coefficient at place `r` of the square.
pub open spec fn scan_of(r: usize) -> usize {
    match r {
        0 => 0,
        1 => 1,
        2 => 5,
        3 => 6,
        4 => 14,
        5 => 15,
        6 => 27,
        7 => 28,
        8 => 2,
        9 => 4,
        10 => 7,
        11 => 13,
        12 => 16,
        13 => 26,
        14 => 29,
        15 => 42,
        16 => 3,
        17 => 8,
        18 => 12,
        19 => 17,
        20 => 25,
        21 => 30,
        22 => 41,
        23 => 43,
        24 => 9,
        25 => 11,
        26 => 18,
        27 => 24,
        28 => 31,
        29 => 40,
        30 => 44,
        31 => 53,
        32 => 10,
        33 => 19,
        34 => 23,
        35 => 32,
        36 => 39,
        37 => 45,
        38 => 52,
        39 => 54,
        40 => 20,
        41 => 22,
        42 => 33,
        43 => 38,
        44 => 46,
        45 => 51,
        46 => 55,
        47 => 60,
        48 => 21,
        49 => 34,
        50 => 37,
        51 => 47,
        52 => 50,
        53 => 56,
        54 => 59,
        55 => 61,
        56 => 35,
        57 => 36,
        58 => 48,
        59 => 49,
        60 => 57,
        61 => 58,
        62 => 62,
        _ => 63,
    }
}

/// The place in the square of the coefficient that is stored as number `k`.
pub fn zigzag_raster(k: usize) -> (r: usize)
    requires
        k < 64,
    ensures
        r == raster_of(k),
        r < 64,
{
    match k {
        0 => 0,
        1 => 1,
        2 => 8,
        3 => 16,
        4 => 9,
        5 => 2,
        6 => 3,
        7 => 10,
        8 => 17,
        9 => 24,
        10 => 32,
        11 => 25,
        12 => 18,
        13 => 11,
        14 => 4,
        15 => 5,
        16 => 12,
        17 => 19,
        18 => 26,
        19 => 33,
        20 => 40,
        21 => 48,
        22 => 41,
        23 => 34,
        24 => 27,
        25 => 20,
        26 => 13,
        27 => 6,
        28 => 7,
        29 => 14,
        30 => 21,
        31 => 28,
        32 => 35,
        33 => 42,
        34 => 49,
        35 => 56,
        36 => 57,
        37 => 50,
        38 => 43,
        39 => 36,
        40 => 29,
        41 => 22,
        42 => 15,
        43 => 23,
        44 => 30,
        45 => 37,
        46 => 44,
        47 => 51,
        48 => 58,
        49 => 59,
        50 => 52,
        51 => 45,
        52 => 38,
        53 => 31,
        54 => 39,
        55 => 46,
        56 => 53,
        57 => 60,
        58 => 61,
        59 => 54,
        60 => 47,
        61 => 55,
        62 => 62,
        _ => 63,
    }
}

/// The number of the coefficient at place `r` of the square.
pub fn zigzag_scan(r: usize) -> (k: usize)
    requires
        r < 64,
    ensures
        k == scan_of(r),
        k < 64,
{
    match r {
        0 => 0,
        1 => 1,
        2 => 5,
        3 => 6,
        4 => 14,
        5 => 15,
        6 => 27,
        7 => 28,
        8 => 2,
        9 => 4,
        10 => 7,
        11 => 13,
        12 => 16,
        13 => 26,
        14 => 29,
        15 => 42,
        16 => 3,
        17 => 8,
        18 => 12,
        19 => 17,
        20 => 25,
        21 => 30,
        22 => 41,
        23 => 43,
        24 => 9,
        25 => 11,
        26 => 18,
        27 => 24,
        28 => 31,
        29 => 40,
        30 => 44,
        31 => 53,
        32 => 10,
        33 => 19,
        34 => 23,
        35 => 32,
        36 => 39,
        37 => 45,
        38 => 52,
        39 => 54,
        40 => 20,
        41 => 22,
        42 => 33,
        43 => 38,
        44 => 46,
        45 => 51,
        46 => 55,
        47 => 60,
        48 => 21,
        49 => 34,
        50 => 37,
        51 => 47,
        52 => 50,
        53 => 56,
        54 => 59,
        55 => 61,
        56 => 35,
        57 => 36,
        58 => 48,
        59 => 49,
        60 => 57,
        61 => 58,
        62 => 62,
        _ => 63,
    }
}

/// The order of the coefficients is a permutation of the places of a square.
pub proof fn law_zigzag(k: usize)
    requires
        0 <= k < 64,
    ensures
        0 <= raster_of(k) < 64,
        0 <= scan_of(k) < 64,
        scan_of(raster_of(k)) == k,
        raster_of(scan_of(k)) == k,
{
}

/// The diagonal of the square on which coefficient `k` stands: row plus column.
pub open spec fn diagonal_of(k: usize) -> int {
    raster_of(k) / 8 + raster_of(k) % 8
}

/// Coefficient `k` comes before coefficient `j` on the way through the square:
/// diagonal by diagonal, down on those of odd number and up on the others.
pub open spec fn is_ahead(k: usize, j: usize) -> bool {
    let (row, other) = (raster_of(k) / 8, raster_of(j) / 8);
    diagonal_of(k) < diagonal_of(j) || (diagonal_of(k) == diagonal_of(j) && if diagonal_of(k) % 2
        == 1 {
        row < other
    } else {
        row > other
    })
}

/// The coefficients are stored along the diagonals of the square, the direction
/// turning from each to the next. With [`law_zigzag`] this fixes their order.
pub proof fn law_zigzag_order(k: usize, j: usize)
    requires
        0 <= k < j < 64,
    ensures
        is_ahead(k, j),
    decreases j - k,
{
    if j == k + 1 {
        lemma_zigzag_step(k);
    } else {
        let m = (j - 1) as usize;
        law_zigzag_order(k, m);
        lemma_zigzag_step(m);
    }
}

proof fn lemma_zigzag_step(k: usize)
    requires
        0 <= k < 63,
    ensures
        is_ahead(k, (k + 1) as usize),
{
}

// ----------------------------------------------------------------------
// The factors of the transform
// ----------------------------------------------------------------------
/// Half the cosines of multiples of a sixteenth of the half circle, as
/// binary32 bit patterns: those of four, one, two, three, five, six and seven
/// sixteenths.
pub const DCT_A: u32 = 0x3eb5_04fb;

pub const DCT_B: u32 = 0x3efb_14bf;

pub const DCT_C: u32 = 0x3eec_8360;

pub const DCT_D: u32 = 0x3ed4_db36;

pub const DCT_E: u32 = 0x3e8e_39e5;

pub const DCT_F: u32 = 0x3e43_ef33;

pub const DCT_G: u32 = 0x3dc7_c60b;

// ----------------------------------------------------------------------
// Perceptual tables
// ----------------------------------------------------------------------
/// The code for half `x`: zero for an infinity or a NaN, and else the entry
/// for its magnitude with its sign. Zero keeps its sign.
pub open spec fn signed_code(curve: Seq<u16>, x: int) -> u16 {
    let magnitude = x % 0x8000;
    if magnitude >= 0x7c00 {
        0
    } else {
        let code = if magnitude == 0 {
            0
        } else {
            curve[magnitude - 1] as int
        };
        if x >= 0x8000 {
            (0x8000 + code % 0x8000) as u16
        } else {
            (code % 0x8000) as u16
        }
    }
}

/// The codes of the curve from linear to perceptual numbers. Four entries are
/// fixed.
pub open spec fn nonlinear_code(curve: Seq<u16>, x: int) -> u16 {
    if x == 0x1919 {
        0x2c32
    } else if x == 0x422c {
        0x3e0c
    } else if x == 0x9919 {
        0xac32
    } else if x == 0xc22c {
        0xbe0c
    } else {
        signed_code(curve, x)
    }
}

/// The codes of the curve from perceptual to linear numbers. Two entries are
/// fixed.
pub open spec fn linear_code(curve: Seq<u16>, x: int) -> u16 {
    if x == 0x24f8 {
        0x099c
    } else if x == 0xa4f8 {
        0x899c
    } else {
        signed_code(curve, x)
    }
}

/// The codes of both curves for all halves.
pub struct PerceptualTables {
    nonlinear: Vec<u16>,
    linear: Vec<u16>,
}

impl PerceptualTables {
    pub closed spec fn nonlinear_codes(&self) -> Seq<u16> {
        self.nonlinear@
    }

    pub closed spec fn linear_codes(&self) -> Seq<u16> {
        self.linear@
    }

    pub open spec fn inv(&self) -> bool {
        &&& self.nonlinear_codes().len() == 0x1_0000
        &&& self.linear_codes().len() == 0x1_0000
    }

    /// The perceptual code for a linear half.
    pub fn to_nonlinear(&self, code: u16) -> (r: u16)
        requires
            self.inv(),
        ensures
            r == self.nonlinear_codes()[code as int],
    {
        self.nonlinear[code as usize]
    }

    /// The linear half for a perceptual code.
    pub fn to_linear(&self, code: u16) -> (r: u16)
        requires
            self.inv(),
        ensures
            r == self.linear_codes()[code as int],
    {
        self.linear[code as usize]
    }
}

fn code_with_sign(curve: &[u16], x: u32) -> (r: u16)
    requires
        curve@.len() == 0x7bff,
        x < 0x1_0000,
    ensures
        r == signed_code(curve@, x as int),
{
    let magnitude: u32 = x % 0x8000;
    if magnitude >= 0x7c00 {
        return 0;
    }
    let code: u16 = if magnitude == 0 {
        0
    } else {
        curve[magnitude as usize - 1]
    };
    if x >= 0x8000 {
        0x8000 + code % 0x8000
    } else {
        code % 0x8000
    }
}

/// The codes of both curves for all halves, where the arguments hold those for
/// the positive finite halves in ascending order.
pub fn compute_luts(nonlinear: &[u16], linear: &[u16]) -> (r: PerceptualTables)
    requires
        nonlinear@.len() == 0x7bff,
        linear@.len() == 0x7bff,
    ensures
        r.inv(),
        r.nonlinear_codes() == Seq::new(0x1_0000, |x: int| nonlinear_code(nonlinear@, x)),
        r.linear_codes() == Seq::new(0x1_0000, |x: int| linear_code(linear@, x)),
{
    let mut a: Vec<u16> = Vec::new();
    let mut b: Vec<u16> = Vec::new();
    let mut x: u32 = 0;
    while x < 0x1_0000
        invariant
            x <= 0x1_0000,
            nonlinear@.len() == 0x7bff,
            linear@.len() == 0x7bff,
            a@.len() == x,
            b@.len() == x,
            forall|i: int| 0 <= i < x ==> a@[i] == nonlinear_code(nonlinear@, i),
            forall|i: int| 0 <= i < x ==> b@[i] == linear_code(linear@, i),
        decreases 0x1_0000 - x,
    {
        let up: u16 = match x {
            0x1919 => 0x2c32,
            0x422c => 0x3e0c,
            0x9919 => 0xac32,
            0xc22c => 0xbe0c,
            _ => code_with_sign(nonlinear, x),
        };
        let down: u16 = match x {
            0x24f8 => 0x099c,
            0xa4f8 => 0x899c,
            _ => code_with_sign(linear, x),
        };
        a.push(up);
        b.push(down);
        x = x + 1;
    }
    let r: PerceptualTables = PerceptualTables { nonlinear: a, linear: b };
    assert(r.nonlinear_codes() =~= Seq::new(0x1_0000, |x: int| nonlinear_code(nonlinear@, x)));
    assert(r.linear_codes() =~= Seq::new(0x1_0000, |x: int| linear_code(linear@, x)));
    r
}

/// The tables are symmetric: a number and its negative have codes that differ
/// in the sign alone.
pub proof fn law_tables_symmetric(curve: Seq<u16>, x: int)
    requires
        0 <= x < 0x7c00,
    ensures
        nonlinear_code(curve, x + 0x8000) == nonlinear_code(curve, x) + 0x8000,
        linear_code(curve, x + 0x8000) == linear_code(curve, x) + 0x8000,
{
}

} // verus!
