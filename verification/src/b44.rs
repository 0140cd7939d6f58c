//! The block coder for channels of halves: squares of four by four samples,
//! each in fourteen bytes, or in three where all samples are equal.

use crate::bits::{bits_in, peek, read_bits};
use crate::bytes::slice_range;
use crate::deep_block::plane_views;
use crate::error::{ExrError, Fault};
use crate::flat_block::{at_least_one, row_at, subsampled_dim, tall, wide};
use crate::grid::steps;
use crate::half::{half_as_f32, half_to_f32, power_of_two};
use crate::samples::read_sample;
use crate::types::{channel_views, Channel, ChannelView, PixelType};
use vstd::prelude::*;

verus! {

/// The code that a linear channel has for half `x`: nothing for an infinity,
/// a NaN or a negative number, negative infinity for zero, and the entry of
/// `logs` for the others.
pub open spec fn log_code(logs: Seq<u16>, x: int) -> u16 {
    if x / 0x400 % 0x20 == 0x1f || x > 0x8000 {
        0
    } else if x == 0 || x == 0x8000 {
        0xfc00
    } else {
        logs[x - 1]
    }
}

/// The codes that a linear channel has for all halves.
pub struct LogTable {
    codes: Vec<u16>,
}

impl View for LogTable {
    type V = Seq<u16>;

    closed spec fn view(&self) -> Seq<u16> {
        self.codes@
    }
}

impl LogTable {
    pub open spec fn inv(&self) -> bool {
        self@.len() == 0x1_0000
    }

    /// The code for a half.
    pub fn code(&self, x: u16) -> (r: u16)
        requires
            self.inv(),
        ensures
            r == self@[x as int],
    {
        self.codes[x as usize]
    }
}

/// The codes that a linear channel has for all halves, where `logs` holds
/// those for the positive finite ones in ascending order: eight times the
/// natural logarithm, as a half.
pub fn build_log_table(logs: &[u16]) -> (r: LogTable)
    requires
        logs@.len() == 0x7bff,
    ensures
        r.inv(),
        r@ == Seq::new(0x1_0000, |x: int| log_code(logs@, x)),
{
    let mut codes: Vec<u16> = Vec::new();
    let mut x: u32 = 0;
    while x < 0x1_0000
        invariant
            x <= 0x1_0000,
            logs@.len() == 0x7bff,
            codes@.len() == x,
            forall|i: int| 0 <= i < x ==> codes@[i] == log_code(logs@, i),
        decreases 0x1_0000 - x,
    {
        let code: u16 = if x / 0x400 % 0x20 == 0x1f || x > 0x8000 {
            0
        } else if x == 0 || x == 0x8000 {
            0xfc00
        } else {
            logs[x as usize - 1]
        };
        codes.push(code);
        x = x + 1;
    }
    let r: LogTable = LogTable { codes };
    assert(r@ =~= Seq::new(0x1_0000, |x: int| log_code(logs@, x)));
    r
}

/// The half whose place in the order of all halves is `t`.
pub open spec fn ordered_half(t: int) -> u16 {
    if t >= 0x8000 {
        (t - 0x8000) as u16
    } else {
        (0xffff - t) as u16
    }
}

fn half_in_order(t: u16) -> (r: u16)
    ensures
        r == ordered_half(t as int),
{
    if t >= 0x8000 {
        t - 0x8000
    } else {
        0xffff - t
    }
}

/// How far the differences of a block are shifted.
pub open spec fn block_shift(b: Seq<u8>) -> nat {
    peek(bits_in(b), 16, 6)
}

/// Difference `k` of a block.
pub open spec fn block_field(b: Seq<u8>, k: int) -> nat {
    peek(bits_in(b), 22 + 6 * k, 6)
}

/// The place in the order of sample `i` of a block. The first sample of a row
/// is told from the one above it, and every other one from the one before it.
pub open spec fn block_place(b: Seq<u8>, i: int) -> int
    decreases i,
{
    if i <= 0 {
        peek(bits_in(b), 0, 16) as int
    } else if i % 4 == 0 {
        stepped(block_place(b, i - 4), block_field(b, i / 4 - 1), block_shift(b))
    } else {
        stepped(
            block_place(b, i - 1),
            block_field(b, 3 + 4 * (i % 4 - 1) + i / 4),
            block_shift(b),
        )
    }
}

/// The place that a difference leads to.
pub open spec fn stepped(place: int, field: nat, shift: nat) -> int {
    (place + (field - 32) * power_of_two(shift)) % 0x1_0000
}

/// The samples of a block of fourteen bytes.
pub open spec fn block14(b: Seq<u8>) -> Seq<u16> {
    Seq::new(16, |i: int| ordered_half(block_place(b, i)))
}

/// The samples of a block of three bytes.
pub open spec fn block3(b: Seq<u8>) -> Seq<u16> {
    Seq::new(16, |i: int| ordered_half(peek(bits_in(b), 0, 16) as int))
}

fn step_place(place: u16, field: u32, power: u32, Ghost(shift): Ghost<nat>) -> (r: u16)
    requires
        field < 64,
        power == power_of_two(shift),
    ensures
        r == stepped(place as int, field as nat, shift),
{
    assert(0 <= field * power <= 64 * 0xffff_ffff) by (nonlinear_arith)
        requires
            0 <= field < 64,
            0 <= power <= 0xffff_ffff,
    ;
    let v: u64 = place as u64 + field as u64 * power as u64 + power as u64 * 2_097_120;
    proof {
        let (p, f, w) = (place as int, field as int, power as int);
        assert(v == p + (f - 32) * w + 0x1_0000 * (32 * w)) by (nonlinear_arith)
            requires
                v == p + f * w + w * 2_097_120,
        ;
        vstd::arithmetic::div_mod::lemma_mod_multiples_vanish(
            32 * w,
            p + (f - 32) * w,
            0x1_0000,
        );
    }
    (v % 0x1_0000) as u16
}

/// The power of two of a shift.
fn power_for(shift: u32) -> (r: u32)
    requires
        shift < 32,
    ensures
        r == power_of_two(shift as nat),
{
    let mut r: u32 = 1;
    let mut i: u32 = 0;
    assert(power_of_two(0) == 1);
    while i < shift
        invariant
            i <= shift < 32,
            r == power_of_two(i as nat),
        decreases shift - i,
    {
        proof {
            reveal_with_fuel(power_of_two, 33);
        }
        r = 2 * r;
        i = i + 1;
    }
    r
}

/// Unpack a block of fourteen bytes.
pub fn unpack14(b: &[u8]) -> (r: Vec<u16>)
    requires
        b@.len() == 14,
        block_shift(b@) < 32,
    ensures
        r@ == block14(b@),
{
    let ghost bits = bits_in(b@);
    assert(bits.take(112) =~= bits);
    let mut t: Vec<u16> = Vec::new();
    proof {
        reveal_with_fuel(power_of_two, 18);
    }
    let first: u32 = read_bits(b, 112, 0, 16);
    t.push(first as u16);
    let shift: u32 = read_bits(b, 112, 16, 6);
    let power: u32 = power_for(shift);
    let mut i: usize = 1;
    while i < 16
        invariant
            1 <= i <= 16,
            b@.len() == 14,
            bits == bits_in(b@),
            bits.take(112) == bits,
            shift == block_shift(b@),
            power == power_of_two(shift as nat),
            t@.len() == i,
            forall|j: int| 0 <= j < i ==> t@[j] == block_place(b@, j),
        decreases 16 - i,
    {
        let (from, k): (usize, usize) = if i % 4 == 0 {
            (i - 4, i / 4 - 1)
        } else {
            (i - 1, 3 + 4 * (i % 4 - 1) + i / 4)
        };
        let field: u32 = read_bits(b, 112, (22 + 6 * k) as u128, 6);
        proof {
            reveal_with_fuel(power_of_two, 7);
        }
        t.push(step_place(t[from], field, power, Ghost(shift as nat)));
        i = i + 1;
    }
    let mut s: Vec<u16> = Vec::new();
    let mut j: usize = 0;
    while j < 16
        invariant
            j <= 16,
            t@.len() == 16,
            forall|i: int| 0 <= i < 16 ==> t@[i] == block_place(b@, i),
            s@.len() == j,
            forall|i: int| 0 <= i < j ==> s@[i] == ordered_half(block_place(b@, i)),
        decreases 16 - j,
    {
        s.push(half_in_order(t[j]));
        j = j + 1;
    }
    assert(s@ =~= block14(b@));
    s
}

/// Unpack a block of three bytes.
pub fn unpack3(b: &[u8]) -> (r: Vec<u16>)
    requires
        b@.len() == 3,
    ensures
        r@ == block3(b@),
{
    let ghost bits = bits_in(b@);
    assert(bits.take(24) =~= bits);
    proof {
        reveal_with_fuel(power_of_two, 18);
    }
    let t: u32 = read_bits(b, 24, 0, 16);
    let r: Vec<u16> = vec![half_in_order(t as u16); 16];
    assert(r@ =~= block3(b@));
    r
}

// ----------------------------------------------------------------------
// A channel
// ----------------------------------------------------------------------
/// A block of three bytes stands at `p`.
pub open spec fn is_short_block(s: Seq<u8>, p: int) -> bool {
    p + 3 <= s.len() && s[p + 2] >= 0x34
}

/// The end of the block at `p`.
pub open spec fn block_end(s: Seq<u8>, p: int) -> Option<int> {
    if is_short_block(s, p) {
        Some(p + 3)
    } else if p + 14 <= s.len() {
        Some(p + 14)
    } else {
        None
    }
}

/// The samples of the block at `p`.
pub open spec fn block_at(s: Seq<u8>, p: int) -> Seq<u16> {
    if is_short_block(s, p) {
        block3(s.subrange(p, p + 3))
    } else {
        block14(s.subrange(p, p + 14))
    }
}

/// The position behind the first `n` blocks from `p` on.
pub open spec fn blocks_end(s: Seq<u8>, p: int, n: int) -> Option<int>
    decreases n,
{
    if n <= 0 {
        Some(p)
    } else {
        match blocks_end(s, p, n - 1) {
            None => None,
            Some(q) => block_end(s, q),
        }
    }
}

/// The samples of block `j` from `p` on.
pub open spec fn block_of(s: Seq<u8>, p: int, j: int) -> Seq<u16> {
    block_at(s, blocks_end(s, p, j)->0)
}

/// The code of sample `i` of a plane of the given width whose blocks stand
/// from `p` on.
pub open spec fn half_code(s: Seq<u8>, p: int, pw: int, i: int) -> u16 {
    let (y, x) = (i / pw, i % pw);
    block_of(s, p, (y / 4) * steps(pw, 4) + x / 4)[4 * (y % 4) + x % 4]
}

/// The sample for a code.
pub open spec fn half_sample(code: u16, linear: bool, log: Seq<u16>) -> u32 {
    if linear {
        half_as_f32(log[code as int])
    } else {
        half_as_f32(code)
    }
}

/// A plane of halves from `p` on, and the position behind it.
pub open spec fn half_plane(s: Seq<u8>, p: int, pw: int, ph: int, linear: bool, log: Seq<u16>) -> Option<
    (Seq<u32>, int),
> {
    match blocks_end(s, p, steps(ph, 4) * steps(pw, 4)) {
        None => None,
        Some(end) => Some(
            (
                Seq::new(
                    (ph * pw) as nat,
                    |i: int| half_sample(half_code(s, p, pw, i), linear, log),
                ),
                end,
            ),
        ),
    }
}

/// Where the first blocks end, there the others begin.
proof fn lemma_blocks_end(s: Seq<u8>, p: int, a: int, b: int)
    requires
        0 <= p <= s.len(),
        0 <= a <= b,
        blocks_end(s, p, b) is Some,
    ensures
        blocks_end(s, p, a) is Some,
        p <= blocks_end(s, p, a)->0 <= s.len(),
    decreases b,
{
    if b > 0 && a < b {
        lemma_blocks_end(s, p, a, b - 1);
    } else if b > 0 {
        lemma_blocks_end(s, p, b - 1, b - 1);
    }
}

/// A block of fourteen bytes has no large shift.
proof fn lemma_small_shift(b: Seq<u8>)
    requires
        b.len() == 14,
        b[2] < 0x34,
    ensures
        block_shift(b) < 32,
{
    let bits = bits_in(b);
    reveal_with_fuel(peek, 7);
    assert(bits[16] == crate::bits::bit_of(b[2], 0));
    assert(!bits[16]);
}

/// The block at `p`, and the position behind it.
fn read_block(payload: &[u8], p: usize) -> (r: Option<(Vec<u16>, usize)>)
    requires
        p <= payload@.len(),
    ensures
        r is None <==> block_end(payload@, p as int) is None,
        r matches Some((v, end)) ==> v@ == block_at(payload@, p as int) && Some(end as int)
            == block_end(payload@, p as int) && end <= payload@.len(),
{
    assert(payload.len() == payload@.len());
    let rest: usize = payload.len() - p;
    if rest >= 3 && payload[p + 2] >= 0x34 {
        let b: &[u8] = slice_range(payload, p, p + 3);
        return Some((unpack3(b), p + 3));
    }
    if rest < 14 {
        return None;
    }
    let b: &[u8] = slice_range(payload, p, p + 14);
    proof {
        assert(b@[2] == payload@[p + 2]);
        lemma_small_shift(b@);
    }
    Some((unpack14(b), p + 14))
}

/// The blocks of a plane, and the position behind them.
fn read_blocks(payload: &[u8], p: usize, n: u64) -> (r: Option<(Vec<Vec<u16>>, usize)>)
    requires
        p <= payload@.len(),
    ensures
        r is None <==> blocks_end(payload@, p as int, n as int) is None,
        r matches Some((v, end)) ==> {
            &&& v@.len() == n
            &&& forall|j: int| 0 <= j < n ==> (#[trigger] v@[j])@ == block_of(payload@, p as int, j)
            &&& Some(end as int) == blocks_end(payload@, p as int, n as int)
            &&& end <= payload@.len()
        },
{
    let mut blocks: Vec<Vec<u16>> = Vec::new();
    let mut q: usize = p;
    let mut i: u64 = 0;
    while i < n
        invariant
            i <= n,
            p <= payload@.len(),
            q <= payload@.len(),
            blocks@.len() == i,
            Some(q as int) == blocks_end(payload@, p as int, i as int),
            forall|j: int|
                0 <= j < i ==> (#[trigger] blocks@[j])@ == block_of(payload@, p as int, j),
        decreases n - i,
    {
        match read_block(payload, q) {
            None => {
                proof {
                    if blocks_end(payload@, p as int, n as int) is Some {
                        lemma_blocks_end(payload@, p as int, i + 1, n as int);
                    }
                }
                return None;
            },
            Some((b, end)) => {
                blocks.push(b);
                q = end;
            },
        }
        i = i + 1;
    }
    Some((blocks, q))
}

/// Where a sample stands among the blocks.
pub proof fn lemma_block_index(pw: int, ph: int, y: int, x: int)
    requires
        0 <= y < ph,
        0 <= x < pw,
    ensures
        (y * pw + x) / pw == y,
        (y * pw + x) % pw == x,
        0 <= (y / 4) * steps(pw, 4) + x / 4 < steps(ph, 4) * steps(pw, 4),
{
    vstd::arithmetic::div_mod::lemma_fundamental_div_mod_converse(y * pw + x, pw, y, x);
    let (a, b, h, w) = (y / 4, x / 4, steps(ph, 4), steps(pw, 4));
    assert(0 <= a * w && a * w + b < h * w) by (nonlinear_arith)
        requires
            0 <= a,
            a + 1 <= h,
            0 <= b < w,
    ;
}

/// Read a plane of halves from `p` on.
pub fn decode_half_plane(payload: &[u8], p: usize, pw: u32, ph: u32, p_linear: bool, log: &LogTable) -> (r: Result<
    (Vec<u32>, usize),
    ExrError,
>)
    requires
        p <= payload@.len(),
        log.inv(),
    ensures
        r matches Ok((v, end)) ==> half_plane(
            payload@,
            p as int,
            pw as int,
            ph as int,
            p_linear,
            log@,
        ) == Some((v@, end as int)) && end <= payload@.len(),
        r matches Err(e) ==> e.fault() == Fault::Invalid && half_plane(
            payload@,
            p as int,
            pw as int,
            ph as int,
            p_linear,
            log@,
        ) is None,
{
    let across: u64 = (pw as u64 + 3) / 4;
    let down: u64 = (ph as u64 + 3) / 4;
    assert(0 <= down * across <= 0x4000_0000 * 0x4000_0000) by (nonlinear_arith)
        requires
            0 <= across <= 0x4000_0000,
            0 <= down <= 0x4000_0000,
    ;
    let (blocks, end): (Vec<Vec<u16>>, usize) = match read_blocks(payload, p, down * across) {
        None => {
            return Err(ExrError::invalid("B44 block stream truncated"));
        },
        Some(b) => b,
    };
    let ghost all = Seq::new(
        (ph * pw) as nat,
        |i: int| half_sample(half_code(payload@, p as int, pw as int, i), p_linear, log@),
    );
    let mut out: Vec<u32> = Vec::new();
    let mut y: u32 = 0;
    assert(0 * pw == 0);
    while y < ph
        invariant
            y <= ph,
            across == steps(pw as int, 4),
            down == steps(ph as int, 4),
            0 <= down * across <= 0x4000_0000 * 0x4000_0000,
            log.inv(),
            blocks@.len() == down * across,
            forall|j: int|
                0 <= j < down * across ==> (#[trigger] blocks@[j])@ == block_of(
                    payload@,
                    p as int,
                    j,
                ),
            all == Seq::new(
                (ph * pw) as nat,
                |i: int|
                    half_sample(half_code(payload@, p as int, pw as int, i), p_linear, log@),
            ),
            out@ == all.take(y * pw),
            y * pw <= all.len(),
        decreases ph - y,
    {
        let mut x: u32 = 0;
        assert((y + 1) * pw <= ph * pw && (y + 1) * pw == y * pw + pw) by (nonlinear_arith)
            requires
                y + 1 <= ph,
        ;
        while x < pw
            invariant
                y < ph,
                x <= pw,
                across == steps(pw as int, 4),
                down == steps(ph as int, 4),
                0 <= down * across <= 0x4000_0000 * 0x4000_0000,
                log.inv(),
                blocks@.len() == down * across,
                forall|j: int|
                    0 <= j < down * across ==> (#[trigger] blocks@[j])@ == block_of(
                        payload@,
                        p as int,
                        j,
                    ),
                all == Seq::new(
                    (ph * pw) as nat,
                    |i: int|
                        half_sample(half_code(payload@, p as int, pw as int, i), p_linear, log@),
                ),
                y * pw + pw <= all.len(),
                out@ == all.take(y * pw + x),
            decreases pw - x,
        {
            proof {
                lemma_block_index(pw as int, ph as int, y as int, x as int);
            }
            assert(blocks.len() == blocks@.len());
            assert(0 <= (y / 4) * across) by (nonlinear_arith)
                requires
                    0 <= y,
                    0 <= across,
            ;
            let j: usize = ((y / 4) as u64 * across + (x / 4) as u64) as usize;
            assert(blocks@[j as int]@ == block_of(payload@, p as int, j as int));
            let code: u16 = blocks[j][(4 * (y % 4) + x % 4) as usize];
            let v: u32 = if p_linear {
                half_to_f32(log.code(code))
            } else {
                half_to_f32(code)
            };
            out.push(v);
            proof {
                assert(v == all[y * pw + x]);
                assert(all.take(y * pw + x + 1) =~= all.take(y * pw + x).push(all[y * pw + x]));
            }
            x = x + 1;
        }
        y = y + 1;
    }
    assert(all.take(ph * pw) =~= all);
    Ok((out, end))
}

/// The plane of a channel from `p` on, and the position behind it.
pub open spec fn b44_plane(s: Seq<u8>, p: int, c: ChannelView, pw: int, ph: int, log: Seq<u16>) -> Option<
    (Seq<u32>, int),
> {
    match c.pixel_type {
        PixelType::Half => half_plane(s, p, pw, ph, c.p_linear, log),
        _ => if p + 4 * (ph * pw) > s.len() {
            None
        } else {
            Some((row_at(c, s, p, ph * pw, false), p + 4 * (ph * pw)))
        },
    }
}

/// The planes of the first `k` channels, and the position behind them, in a
/// chunk of `n` lines from line `y0` on.
pub open spec fn b44_planes(
    s: Seq<u8>,
    cs: Seq<ChannelView>,
    width: int,
    y0: int,
    n: int,
    log: Seq<u16>,
    k: int,
) -> Option<(Seq<Seq<u32>>, int)>
    decreases k,
{
    if k <= 0 {
        Some((Seq::empty(), 0))
    } else {
        match b44_planes(s, cs, width, y0, n, log, k - 1) {
            None => None,
            Some((planes, p)) => match b44_plane(
                s,
                p,
                cs[k - 1],
                wide(cs[k - 1], width),
                tall(cs[k - 1], y0 + n) - tall(cs[k - 1], y0),
                log,
            ) {
                None => None,
                Some((plane, end)) => Some((planes.push(plane), end)),
            },
        }
    }
}

/// Read the plane of a channel from `p` on.
fn read_b44_plane(payload: &[u8], p: usize, c: &Channel, pw: u32, ph: u32, log: &LogTable) -> (r: Result<
    (Vec<u32>, usize),
    ExrError,
>)
    requires
        p <= payload@.len(),
        log.inv(),
    ensures
        r matches Ok((v, end)) ==> b44_plane(
            payload@,
            p as int,
            c@,
            pw as int,
            ph as int,
            log@,
        ) == Some((v@, end as int)) && end <= payload@.len(),
        r matches Err(e) ==> e.fault() == Fault::Invalid && b44_plane(
            payload@,
            p as int,
            c@,
            pw as int,
            ph as int,
            log@,
        ) is None,
{
    if c.pixel_type == PixelType::Half {
        return decode_half_plane(payload, p, pw, ph, c.p_linear, log);
    }
    assert(0 <= ph * pw <= 0xffff_ffff * 0xffff_ffff) by (nonlinear_arith)
        requires
            0 <= ph <= 0xffff_ffff,
            0 <= pw <= 0xffff_ffff,
    ;
    let count: u64 = ph as u64 * pw as u64;
    assert(payload.len() == payload@.len());
    if p as u128 + 4 * (count as u128) > payload.len() as u128 {
        return Err(ExrError::invalid("B44 raw channel runs past chunk end"));
    }
    let n: usize = count as usize;
    let ghost all = row_at(c@, payload@, p as int, n as int, false);
    let mut out: Vec<u32> = Vec::new();
    let mut i: usize = 0;
    while i < n
        invariant
            i <= n,
            p + 4 * n <= payload@.len(),
            payload@.len() <= usize::MAX,
            c@.pixel_type.size() == 4,
            all == row_at(c@, payload@, p as int, n as int, false),
            out@ == all.take(i as int),
        decreases n - i,
    {
        out.push(read_sample(c.pixel_type, payload, p + 4 * i));
        proof {
            assert(all.take(i + 1) =~= all.take(i as int).push(all[i as int]));
        }
        i = i + 1;
    }
    assert(all.take(n as int) =~= all);
    Ok((out, p + 4 * n))
}

/// Read the planes of a chunk of `n` lines from line `y0` on.
pub fn decode_b44_chunk(payload: &[u8], channels: &[Channel], width: u32, y0: u32, n: u32, log: &LogTable) -> (r: Result<
    Vec<Vec<u32>>,
    ExrError,
>)
    requires
        y0 + n <= u32::MAX,
        log.inv(),
    ensures
        r matches Ok(v) ==> b44_planes(
            payload@,
            channel_views(channels@),
            width as int,
            y0 as int,
            n as int,
            log@,
            channels@.len() as int,
        ) matches Some((planes, end)) && planes == plane_views(v@),
        r matches Err(e) ==> e.fault() == Fault::Invalid && b44_planes(
            payload@,
            channel_views(channels@),
            width as int,
            y0 as int,
            n as int,
            log@,
            channels@.len() as int,
        ) is None,
{
    let ghost cs = channel_views(channels@);
    let mut planes: Vec<Vec<u32>> = Vec::new();
    let mut p: usize = 0;
    let mut k: usize = 0;
    assert(plane_views(planes@) =~= Seq::<Seq<u32>>::empty());
    while k < channels.len()
        invariant
            k <= channels@.len(),
            p <= payload@.len(),
            y0 + n <= u32::MAX,
            log.inv(),
            cs == channel_views(channels@),
            b44_planes(payload@, cs, width as int, y0 as int, n as int, log@, k as int) == Some(
                (plane_views(planes@), p as int),
            ),
        decreases channels@.len() - k,
    {
        let c: &Channel = &channels[k];
        assert(cs[k as int] == c@);
        let step: u32 = at_least_one(c.y_sampling);
        let pw: u32 = subsampled_dim(width, at_least_one(c.x_sampling));
        proof {
            crate::flat_block::lemma_sampled_monotonic(y0 as int, y0 + n, step as int);
        }
        let ph: u32 = subsampled_dim(y0 + n, step) - subsampled_dim(y0, step);
        match read_b44_plane(payload, p, c, pw, ph, log) {
            Err(e) => {
                proof {
                    lemma_b44_stops(
                        payload@,
                        cs,
                        width as int,
                        y0 as int,
                        n as int,
                        log@,
                        k + 1,
                        cs.len() as int,
                    );
                }
                return Err(e);
            },
            Ok((plane, end)) => {
                let ghost before = plane_views(planes@);
                planes.push(plane);
                p = end;
                assert(plane_views(planes@) =~= before.push(plane@));
            },
        }
        k = k + 1;
    }
    Ok(planes)
}

/// A channel that cannot be read stops the others.
proof fn lemma_b44_stops(
    s: Seq<u8>,
    cs: Seq<ChannelView>,
    width: int,
    y0: int,
    n: int,
    log: Seq<u16>,
    a: int,
    b: int,
)
    requires
        a <= b,
        b44_planes(s, cs, width, y0, n, log, a) is None,
    ensures
        b44_planes(s, cs, width, y0, n, log, b) is None,
    decreases b - a,
{
    if a < b {
        lemma_b44_stops(s, cs, width, y0, n, log, a, b - 1);
    }
}

// ----------------------------------------------------------------------
// Laws
// ----------------------------------------------------------------------
/// Different places in the order are different halves.
pub proof fn law_order_one_to_one(a: int, b: int)
    requires
        0 <= a < 0x1_0000,
        0 <= b < 0x1_0000,
        ordered_half(a) == ordered_half(b),
    ensures
        a == b,
{
}

proof fn lemma_peek_bound(bits: Seq<bool>, pos: int, n: nat)
    ensures
        peek(bits, pos, n as int) < power_of_two(n),
    decreases n,
{
    if n > 0 {
        lemma_peek_bound(bits, pos, (n - 1) as nat);
    }
}

proof fn lemma_constant_place(b: Seq<u8>, i: int)
    requires
        forall|k: int| 0 <= k < 15 ==> #[trigger] block_field(b, k) == 32,
        peek(bits_in(b), 0, 16) < 0x1_0000,
        0 <= i < 16,
    ensures
        block_place(b, i) == peek(bits_in(b), 0, 16),
    decreases i,
{
    let w = power_of_two(block_shift(b)) as int;
    assert((32 - 32) * w == 0);
    if i > 0 {
        if i % 4 == 0 {
            lemma_constant_place(b, i - 4);
            assert(block_field(b, i / 4 - 1) == 32);
        } else {
            lemma_constant_place(b, i - 1);
            assert(block_field(b, 3 + 4 * (i % 4 - 1) + i / 4) == 32);
        }
    }
}

/// A block without differences holds its first sample sixteen times.
pub proof fn law_constant_block(b: Seq<u8>)
    requires
        b.len() == 14,
        forall|k: int| 0 <= k < 15 ==> #[trigger] block_field(b, k) == 32,
    ensures
        block14(b) == Seq::new(16, |i: int| ordered_half(peek(bits_in(b), 0, 16) as int)),
        block14(b) == block3(b),
{
    lemma_peek_bound(bits_in(b), 0, 16);
    assert(peek(bits_in(b), 0, 16) < 0x1_0000) by {
        reveal_with_fuel(power_of_two, 17);
    }
    assert forall|i: int| 0 <= i < 16 implies #[trigger] block14(b)[i] == ordered_half(
        peek(bits_in(b), 0, 16) as int,
    ) by {
        lemma_constant_place(b, i);
    }
    assert(block14(b) =~= block3(b));
}

} // verus!
