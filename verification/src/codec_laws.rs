//! What the bytes of compressed data stand for.

use crate::b44::{
    b44_planes, block14, block3, block_field, block_of, block_place, block_shift, blocks_end,
    half_plane, log_code, ordered_half, stepped,
};
use crate::bits::{bit_of, bits_in, digit, peek};
use crate::deep_meta::is_full;
use crate::dwa_streams::{header_of, streams_of, DwaHeader};
use crate::flat_laws::{law_samples, pattern_at};
use crate::format_laws::{law_numbers, number_at};
use crate::half::{half_as_f32, power_of_two};
use crate::pxr24::{code_row, code_sum, planar, short_size};
use crate::rle::{literal_end, packet_text, rle_packed, rle_packed_from, rle_unpacked, run_end};
use crate::types::{ChannelView, PixelType};
use crate::zip::{interleaved, predicted, prepared, uninterleaved};
use vstd::prelude::*;

verus! {

// ----------------------------------------------------------------------
// Bits
// ----------------------------------------------------------------------
/// The bits of a byte are taken from the most significant on: eight of them make
/// up the byte, and sixteen two bytes, the first of higher weight.
pub proof fn law_bits_of_bytes(s: Seq<u8>, i: int)
    requires
        0 <= i < s.len(),
    ensures
        peek(bits_in(s), 8 * i, 8) == s[i],
        peek(bits_in(s), 8 * i, 1) == s[i] / 128,
        i + 1 < s.len() ==> peek(bits_in(s), 8 * i, 16) == 256 * s[i] + s[i + 1],
{
    lemma_byte_peek(s, i);
    reveal_with_fuel(peek, 2);
    lemma_byte_digits(s, i);
    if i + 1 < s.len() {
        lemma_byte_peek(s, i + 1);
        lemma_peek_joined(bits_in(s), 8 * i, 8, 8);
        reveal_with_fuel(power_of_two, 9);
        assert(power_of_two(8) == 256);
        assert(8 * i + 8 == 8 * (i + 1));
        assert(peek(bits_in(s), 8 * i, 16) == s[i] * 256 + peek(bits_in(s), 8 * (i + 1), 8));
    }
}

proof fn lemma_byte_peek(s: Seq<u8>, i: int)
    requires
        0 <= i < s.len(),
    ensures
        peek(bits_in(s), 8 * i, 8) == s[i],
{
    reveal_with_fuel(peek, 9);
    lemma_byte_digits(s, i);
    lemma_byte_sums(s[i]);
}

/// Bits that are taken at once are worth as much as those taken in two goes.
proof fn lemma_peek_joined(bits: Seq<bool>, pos: int, a: int, b: nat)
    requires
        0 <= a,
    ensures
        peek(bits, pos, a + b) == peek(bits, pos, a) * power_of_two(b) + peek(
            bits,
            pos + a,
            b as int,
        ),
    decreases b,
{
    if b > 0 {
        lemma_peek_joined(bits, pos, a, (b - 1) as nat);
        let (x, w) = (peek(bits, pos, a) as int, power_of_two((b - 1) as nat) as int);
        assert(2 * (x * w) == x * (2 * w)) by (nonlinear_arith);
    } else {
        assert(peek(bits, pos, a) * 1 == peek(bits, pos, a));
    }
}

/// A byte and parts of it as sums of its bits.
proof fn lemma_byte_sums(b: u8)
    ensures
        b == 128 * (b / 128) + 64 * (b / 64 % 2) + 32 * (b / 32 % 2) + 16 * (b / 16 % 2) + 8 * (b / 8
            % 2) + 4 * (b / 4 % 2) + 2 * (b / 2 % 2) + b % 2,
        b / 4 == 32 * (b / 128) + 16 * (b / 64 % 2) + 8 * (b / 32 % 2) + 4 * (b / 16 % 2) + 2 * (b
            / 8 % 2) + (b / 4 % 2),
        b / 16 == 8 * (b / 128) + 4 * (b / 64 % 2) + 2 * (b / 32 % 2) + (b / 16 % 2),
        b / 64 == 2 * (b / 128) + (b / 64 % 2),
        b % 64 == 32 * (b / 32 % 2) + 16 * (b / 16 % 2) + 8 * (b / 8 % 2) + 4 * (b / 4 % 2) + 2 * (b
            / 2 % 2) + b % 2,
        b % 16 == 8 * (b / 8 % 2) + 4 * (b / 4 % 2) + 2 * (b / 2 % 2) + b % 2,
        b % 4 == 2 * (b / 2 % 2) + b % 2,
{
    assert(b == 128 * (b / 128) + 64 * (b / 64 % 2) + 32 * (b / 32 % 2) + 16 * (b / 16 % 2) + 8 * (b
        / 8 % 2) + 4 * (b / 4 % 2) + 2 * (b / 2 % 2) + b % 2 && b / 4 == 32 * (b / 128) + 16 * (b
        / 64 % 2) + 8 * (b / 32 % 2) + 4 * (b / 16 % 2) + 2 * (b / 8 % 2) + (b / 4 % 2) && b / 16
        == 8 * (b / 128) + 4 * (b / 64 % 2) + 2 * (b / 32 % 2) + (b / 16 % 2) && b / 64 == 2 * (b
        / 128) + (b / 64 % 2) && b % 64 == 32 * (b / 32 % 2) + 16 * (b / 16 % 2) + 8 * (b / 8 % 2)
        + 4 * (b / 4 % 2) + 2 * (b / 2 % 2) + b % 2 && b % 16 == 8 * (b / 8 % 2) + 4 * (b / 4 % 2)
        + 2 * (b / 2 % 2) + b % 2 && b % 4 == 2 * (b / 2 % 2) + b % 2) by (bit_vector);
}

proof fn lemma_byte_digits(s: Seq<u8>, i: int)
    requires
        0 <= i < s.len(),
    ensures
        digit(bits_in(s), 8 * i) == s[i] / 128,
        digit(bits_in(s), 8 * i + 1) == s[i] / 64 % 2,
        digit(bits_in(s), 8 * i + 2) == s[i] / 32 % 2,
        digit(bits_in(s), 8 * i + 3) == s[i] / 16 % 2,
        digit(bits_in(s), 8 * i + 4) == s[i] / 8 % 2,
        digit(bits_in(s), 8 * i + 5) == s[i] / 4 % 2,
        digit(bits_in(s), 8 * i + 6) == s[i] / 2 % 2,
        digit(bits_in(s), 8 * i + 7) == s[i] % 2,
{
    let bits = bits_in(s);
    assert forall|j: int| 0 <= j < 8 implies #[trigger] bits[8 * i + j] == bit_of(s[i], j) by {}
    assert(bits[8 * i + 0] == bit_of(s[i], 0));
    assert(bits[8 * i + 1] == bit_of(s[i], 1));
    assert(bits[8 * i + 2] == bit_of(s[i], 2));
    assert(bits[8 * i + 3] == bit_of(s[i], 3));
    assert(bits[8 * i + 4] == bit_of(s[i], 4));
    assert(bits[8 * i + 5] == bit_of(s[i], 5));
    assert(bits[8 * i + 6] == bit_of(s[i], 6));
    assert(bits[8 * i + 7] == bit_of(s[i], 7));
}

/// Six bits from the start of a byte.
proof fn lemma_six_first(s: Seq<u8>, i: int)
    requires
        0 <= i < s.len(),
    ensures
        peek(bits_in(s), 8 * i, 6) == s[i] / 4,
{
    reveal_with_fuel(peek, 7);
    lemma_byte_digits(s, i);
    lemma_byte_sums(s[i]);
}

/// Six bits up to the end of a byte.
proof fn lemma_six_last(s: Seq<u8>, i: int)
    requires
        0 <= i < s.len(),
    ensures
        peek(bits_in(s), 8 * i + 2, 6) == s[i] % 64,
{
    reveal_with_fuel(peek, 7);
    lemma_byte_digits(s, i);
    lemma_byte_sums(s[i]);
}

/// Four bits of a byte and two of the next.
proof fn lemma_six_early(s: Seq<u8>, i: int)
    requires
        0 <= i < s.len() - 1,
    ensures
        peek(bits_in(s), 8 * i + 4, 6) == (s[i] % 16) * 4 + s[i + 1] / 64,
{
    reveal_with_fuel(peek, 7);
    lemma_byte_digits(s, i);
    lemma_byte_digits(s, i + 1);
    lemma_byte_sums(s[i]);
    lemma_byte_sums(s[i + 1]);
}

/// Two bits of a byte and four of the next.
proof fn lemma_six_late(s: Seq<u8>, i: int)
    requires
        0 <= i < s.len() - 1,
    ensures
        peek(bits_in(s), 8 * i + 6, 6) == (s[i] % 4) * 16 + s[i + 1] / 16,
{
    reveal_with_fuel(peek, 7);
    lemma_byte_digits(s, i);
    lemma_byte_digits(s, i + 1);
    lemma_byte_sums(s[i]);
    lemma_byte_sums(s[i + 1]);
}

// ----------------------------------------------------------------------
// Blocks of four by four
// ----------------------------------------------------------------------
/// A block of fourteen bytes holds the place of its first sample in two bytes,
/// the more significant first, then the shift in the upper six bits of the third
/// byte, then fifteen fields of six bits, four of them in three bytes.
pub proof fn law_block_fields(b: Seq<u8>, k: int)
    requires
        b.len() == 14,
        0 <= k < 15,
    ensures
        block_place(b, 0) == 256 * b[0] + b[1],
        block_shift(b) == b[2] / 4,
        ({
            let i = 2 + 3 * (k / 4);
            block_field(b, k) == if k % 4 == 0 {
                (b[i] % 4) * 16 + b[i + 1] / 16
            } else if k % 4 == 1 {
                (b[i + 1] % 16) * 4 + b[i + 2] / 64
            } else if k % 4 == 2 {
                (b[i + 2] % 64) as int
            } else {
                (b[i + 3] / 4) as int
            }
        }),
{
    law_bits_of_bytes(b, 0);
    lemma_six_first(b, 2);
    let i = 2 + 3 * (k / 4);
    assert(22 + 6 * k == 8 * i + 6 + 6 * (k % 4));
    if k % 4 == 0 {
        lemma_six_late(b, i);
    } else if k % 4 == 1 {
        lemma_six_early(b, i + 1);
    } else if k % 4 == 2 {
        lemma_six_last(b, i + 2);
    } else {
        lemma_six_first(b, i + 3);
    }
}

/// The place of a half in the order of all halves, the negative ones first.
pub open spec fn order_of(h: u16) -> int {
    if h < 0x8000 {
        0x8000 + h
    } else {
        0xffff - h
    }
}

/// Sample (`x`, `y`) of a block is moved by field `k`: the first three fields
/// move the rows from the second, third and fourth on, and of the others each
/// four move a column and those behind it, one row each.
pub open spec fn is_moved(k: int, x: int, y: int) -> bool {
    if k < 3 {
        y > k
    } else {
        y == (k - 3) % 4 && x > (k - 3) / 4
    }
}

/// A block in which only field `k` is not 32 holds its first sample, but for the
/// samples that the field moves: they stand in the order of halves as many places
/// higher as the field is above 32, shifted to the left.
pub proof fn law_block_moves(b: Seq<u8>, k: int, x: int, y: int)
    requires
        b.len() == 14,
        b[2] < 0x34,
        0 <= k < 15,
        0 <= x < 4,
        0 <= y < 4,
        forall|j: int| 0 <= j < 15 && j != k ==> #[trigger] block_field(b, j) == 32,
    ensures
        block14(b).len() == 16,
        order_of(block14(b)[0]) == 256 * b[0] + b[1],
        order_of(block14(b)[4 * y + x]) == if is_moved(k, x, y) {
            (256 * b[0] + b[1] + (block_field(b, k) - 32) * power_of_two((b[2] / 4) as nat))
                % 0x1_0000
        } else {
            256 * b[0] + b[1]
        },
{
    law_block_fields(b, k);
    let t = 256 * b[0] + b[1];
    let w = power_of_two((b[2] / 4) as nat);
    let m = (t + (block_field(b, k) - 32) * w) % 0x1_0000;
    assert((32 - 32) * w == 0);
    assert forall|i: int| 0 <= i < 16 implies #[trigger] block_place(b, i) == if is_moved(
        k,
        i % 4,
        i / 4,
    ) {
        m
    } else {
        t
    } by {
        lemma_moved_place(b, k, i, t, m);
    }
    let i = 4 * y + x;
    assert(i % 4 == x && i / 4 == y);
    assert(block_place(b, i) == block_place(b, 4 * y + x));
    assert(block_place(b, 0) == t);
}

proof fn lemma_moved_place(b: Seq<u8>, k: int, i: int, t: int, m: int)
    requires
        0 <= k < 15,
        0 <= i < 16,
        0 <= t < 0x1_0000,
        block_place(b, 0) == t,
        m == stepped(t, block_field(b, k), block_shift(b)),
        forall|j: int| 0 <= j < 15 && j != k ==> #[trigger] block_field(b, j) == 32,
    ensures
        block_place(b, i) == if is_moved(k, i % 4, i / 4) {
            m
        } else {
            t
        },
    decreases i,
{
    let w = power_of_two(block_shift(b)) as int;
    assert((32 - 32) * w == 0);
    assert(stepped(t, 32, block_shift(b)) == t);
    assert(0 <= m < 0x1_0000);
    assert(stepped(m, 32, block_shift(b)) == m);
    if i > 0 && i % 4 == 0 {
        lemma_moved_place(b, k, i - 4, t, m);
        if i / 4 - 1 != k {
            assert(block_field(b, i / 4 - 1) == 32);
        }
    } else if i > 0 {
        lemma_moved_place(b, k, i - 1, t, m);
        let j = 3 + 4 * (i % 4 - 1) + i / 4;
        if j != k {
            assert(block_field(b, j) == 32);
        }
    }
}

/// A block of three bytes holds one half sixteen times, whose place in the order
/// is in its first two bytes.
pub proof fn law_short_block(b: Seq<u8>, i: int)
    requires
        b.len() == 3,
        0 <= i < 16,
    ensures
        block3(b).len() == 16,
        order_of(block3(b)[i]) == 256 * b[0] + b[1],
{
    law_bits_of_bytes(b, 0);
}

/// Blocks lie across a plane row of blocks by row of blocks: where all blocks
/// are of three bytes, sample (`x`, `y`) is that of block `x / 4` in row `y / 4`.
pub proof fn law_blocks_in_plane(s: Seq<u8>, pw: int, ph: int, log: Seq<u16>, x: int, y: int)
    requires
        0 <= x < pw,
        0 <= y < ph,
        s.len() == 3 * (((pw + 3) / 4) * ((ph + 3) / 4)),
        forall|j: int| 0 <= j < s.len() && j % 3 == 2 ==> #[trigger] s[j] >= 0x34,
    ensures
        half_plane(s, 0, pw, ph, false, log) matches Some((v, end)) && end == s.len() && v.len() == pw
            * ph && ({
            let j = 3 * ((y / 4) * ((pw + 3) / 4) + x / 4);
            v[y * pw + x] == half_as_f32(ordered_half(256 * s[j] + s[j + 1]))
        }),
{
    let (across, down) = ((pw + 3) / 4, (ph + 3) / 4);
    let n = down * across;
    assert(across * down == down * across) by (nonlinear_arith);
    assert(ph * pw == pw * ph) by (nonlinear_arith);
    crate::b44::lemma_block_index(pw, ph, y, x);
    let j = (y / 4) * across + x / 4;
    lemma_short_blocks(s, n);
    lemma_short_blocks(s, j);
    assert(s[3 * j + 2] >= 0x34) by {
        assert((3 * j + 2) % 3 == 2);
    }
    let b = s.subrange(3 * j, 3 * j + 3);
    law_short_block(b, 4 * (y % 4) + x % 4);
    assert(0 <= y * pw && y * pw + x < ph * pw) by (nonlinear_arith)
        requires
            0 <= y < ph,
            0 <= x < pw,
    ;
}

proof fn lemma_short_blocks(s: Seq<u8>, n: int)
    requires
        0 <= n,
        3 * n <= s.len(),
        forall|j: int| 0 <= j < s.len() && j % 3 == 2 ==> #[trigger] s[j] >= 0x34,
    ensures
        crate::b44::blocks_end(s, 0, n) == Some(3 * n),
    decreases n,
{
    if n > 0 {
        lemma_short_blocks(s, n - 1);
        assert((3 * n - 1) % 3 == 2);
        assert(s[3 * n - 1] >= 0x34);
    }
}

// ----------------------------------------------------------------------
// The header of a transformed chunk
// ----------------------------------------------------------------------
/// Where the fields of the header of a transformed chunk stand.
pub proof fn law_transform_header(s: Seq<u8>, h: DwaHeader)
    requires
        header_of(s) == Some(h),
    ensures
        s.len() >= 88,
        h.version == number_at(s, 0, 8),
        h.verbatim_raw == number_at(s, 8, 8),
        h.verbatim_size == number_at(s, 16, 8),
        h.ac_size == number_at(s, 24, 8),
        h.dc_size == number_at(s, 32, 8),
        h.rle_size == number_at(s, 40, 8),
        h.rle_packed == number_at(s, 48, 8),
        h.rle_raw == number_at(s, 56, 8),
        h.ac_count == number_at(s, 64, 8),
        h.dc_count == number_at(s, 72, 8),
        h.ac_compression == number_at(s, 80, 8),
{
    law_numbers(s, 0);
    law_numbers(s, 8);
    law_numbers(s, 16);
    law_numbers(s, 24);
    law_numbers(s, 32);
    law_numbers(s, 40);
    law_numbers(s, 48);
    law_numbers(s, 56);
    law_numbers(s, 64);
    law_numbers(s, 72);
    law_numbers(s, 80);
}

/// The streams of a transformed chunk stand one behind the other: what is kept
/// as it is, the coefficients but the first, the first coefficients, the runs.
/// Byte 24 on holds the length of the second in eight bytes, byte 32 on that of
/// the third, byte 16 on that of the first, and byte 40 on that of the last. In a
/// chunk before version 2 they begin behind the header.
pub proof fn law_transform_streams(s: Seq<u8>)
    requires
        streams_of(s) is Some,
    ensures
        ({
            let v = streams_of(s)->Some_0;
            let all = v.verbatim + v.ac + v.dc + v.rle;
            &&& v.verbatim.len() == number_at(s, 16, 8)
            &&& v.ac.len() == number_at(s, 24, 8)
            &&& v.dc.len() == number_at(s, 32, 8)
            &&& v.rle.len() == number_at(s, 40, 8)
            &&& exists|at: int|
                88 <= at && at + all.len() <= s.len() && #[trigger] s.subrange(at, at + all.len())
                    == all && (number_at(s, 0, 8) < 2 ==> at == 88)
        }),
{
    let h = header_of(s)->Some_0;
    law_transform_header(s, h);
    let v = streams_of(s)->Some_0;
    let (rules, used) = crate::dwa_streams::rules_in(s, h.version)->Some_0;
    lemma_rules_used(s, h.version);
    let at = 88 + used;
    let all = v.verbatim + v.ac + v.dc + v.rle;
    assert(s.subrange(at, at + all.len()) =~= all);
}

/// Rules take no negative number of bytes.
proof fn lemma_rules_used(s: Seq<u8>, version: u64)
    ensures
        crate::dwa_streams::rules_in(s, version) matches Some((rules, used)) ==> used >= 0,
{
}

// ----------------------------------------------------------------------
// Bytes before they are packed
// ----------------------------------------------------------------------
/// Bytes are parted into those at even and those at odd places: bytes that are
/// taken in turn from `a` and `b` become `a`, then `b`.
pub proof fn law_parted(s: Seq<u8>, a: Seq<u8>, b: Seq<u8>)
    requires
        s.len() == a.len() + b.len(),
        b.len() <= a.len() <= b.len() + 1,
        forall|i: int| 0 <= i < a.len() ==> #[trigger] a[i] == s[2 * i],
        forall|i: int| 0 <= i < b.len() ==> #[trigger] b[i] == s[2 * i + 1],
    ensures
        interleaved(s) == a + b,
        uninterleaved(a + b) == s,
        prepared(s) == predicted(a + b),
{
    assert(interleaved(s) =~= a + b);
    assert forall|i: int| 0 <= i < s.len() implies uninterleaved(a + b)[i] == s[i] by {
        if i % 2 == 0 {
            assert(a[i / 2] == s[2 * (i / 2)]);
        } else {
            assert(b[i / 2] == s[2 * (i / 2) + 1]);
        }
    }
    assert(uninterleaved(a + b) =~= s);
}

/// A byte is told from the one before it: no difference is 128, and a difference
/// is that much more, all modulo 256. The first byte stays.
pub proof fn law_predicted(s: Seq<u8>, i: int)
    requires
        0 < i < s.len(),
    ensures
        predicted(s).len() == s.len(),
        predicted(s)[0] == s[0],
        predicted(s)[i] == 128 <==> s[i] == s[i - 1],
        s[i] >= s[i - 1] && s[i] - s[i - 1] < 128 ==> predicted(s)[i] == 128 + (s[i] - s[i - 1]),
        s[i] < s[i - 1] && s[i - 1] - s[i] <= 128 ==> predicted(s)[i] == 128 - (s[i - 1] - s[i]),
{
}

// ----------------------------------------------------------------------
// Runs
// ----------------------------------------------------------------------
/// A byte below 128 and another stand for one more copies of the other than the
/// first says.
pub proof fn law_run_packet(n: u8, b: u8, rest: Seq<u8>)
    requires
        n < 128,
    ensures
        rle_unpacked(seq![n, b] + rest) == match rle_unpacked(rest) {
            Some(d) => Some(Seq::new((n + 1) as nat, |i: int| b) + d),
            None => None,
        },
{
    let s = seq![n, b] + rest;
    assert(s.skip(2) =~= rest);
    assert(packet_text(s) =~= Seq::new((n + 1) as nat, |i: int| b));
}

/// A byte of 256 less `k` stands for the `k` bytes behind it, of which there are
/// at most 128.
pub proof fn law_literal_packet(text: Seq<u8>, rest: Seq<u8>)
    requires
        1 <= text.len() <= 128,
    ensures
        rle_unpacked(seq![(256 - text.len()) as u8] + text + rest) == match rle_unpacked(rest) {
            Some(d) => Some(text + d),
            None => None,
        },
{
    let s = seq![(256 - text.len()) as u8] + text + rest;
    assert(s.skip(1 + text.len() as int) =~= rest);
    assert(s.subrange(1, 1 + text.len() as int) =~= text);
}

/// A packet that is cut short stands for nothing.
pub proof fn law_cut_packet(s: Seq<u8>)
    requires
        s.len() == 1 || (s.len() > 0 && s[0] >= 128 && s.len() < 257 - s[0]),
    ensures
        rle_unpacked(s) is None,
{
}

/// Three to 128 equal bytes are packed into two.
pub proof fn law_run_packed(n: int, b: u8)
    requires
        3 <= n <= 128,
    ensures
        rle_packed(Seq::new(n as nat, |i: int| b)) == seq![(n - 1) as u8, b],
{
    let d = Seq::new(n as nat, |i: int| b);
    lemma_run_ends(d, 1, n);
    assert(rle_packed_from(d, n) =~= Seq::empty());
    assert(rle_packed(d) =~= seq![(n - 1) as u8, b]);
}

proof fn lemma_run_ends(d: Seq<u8>, e: int, n: int)
    requires
        1 <= e <= n <= 128,
        d.len() == n,
        forall|i: int| 0 <= i < n ==> #[trigger] d[i] == d[0],
    ensures
        run_end(d, 0, e) == n,
    decreases n - e,
{
    if e < n {
        lemma_run_ends(d, e + 1, n);
    }
}

// ----------------------------------------------------------------------
// Short samples
// ----------------------------------------------------------------------
/// The difference that is stored for sample `x` of a row of `n`: one byte in each
/// of two, three or four rows of bytes, the most significant first.
pub open spec fn stored_difference(t: PixelType, data: Seq<u8>, off: int, n: int, x: int) -> int {
    match t {
        PixelType::Half => 0x100 * data[off + x] + data[off + n + x],
        PixelType::Float => 0x1_0000 * data[off + x] + 0x100 * data[off + n + x] + data[off + 2 * n
            + x],
        PixelType::Uint => 0x100_0000 * data[off + x] + 0x1_0000 * data[off + n + x] + 0x100
            * data[off + 2 * n + x] + data[off + 3 * n + x],
    }
}

/// The code of sample `i` is that of the sample before it and the stored difference, in 32 bits.
pub open spec fn is_next_code(
    t: PixelType,
    data: Seq<u8>,
    off: int,
    n: int,
    codes: Seq<int>,
    i: int,
) -> bool {
    codes[i] == (stored_difference(t, data, off, n, i) + if i > 0 {
        codes[i - 1]
    } else {
        0
    }) % 0x1_0000_0000
}

/// The samples of a short row: each is told from the one before it. A float is
/// the upper three bytes of its pattern, a half is whole.
pub proof fn law_short_row(t: PixelType, data: Seq<u8>, off: int, n: int, codes: Seq<int>, x: int)
    requires
        0 <= x < n == codes.len(),
        forall|i: int| 0 <= i < n ==> #[trigger] is_next_code(t, data, off, n, codes, i),
    ensures
        code_row(t, data, off, n).len() == n,
        t is Float ==> code_row(t, data, off, n)[x] == codes[x] % 0x100_0000 * 0x100,
        t is Half ==> code_row(t, data, off, n)[x] == half_as_f32((codes[x] % 0x1_0000) as u16),
        t is Uint ==> code_row(t, data, off, n)[x] == crate::half::uint_as_f32(codes[x] as u32),
{
    lemma_short_code(t, data, off, n, codes, x);
}

proof fn lemma_stored_difference(t: PixelType, data: Seq<u8>, off: int, n: int, x: int)
    ensures
        planar(data, off, n, x, short_size(t) as int) == stored_difference(t, data, off, n, x),
{
    reveal_with_fuel(planar, 5);
    assert(0 * n == 0 && 1 * n == n && 2 * n == n + n && 3 * n == n + n + n);
}

proof fn lemma_short_code(t: PixelType, data: Seq<u8>, off: int, n: int, codes: Seq<int>, x: int)
    requires
        0 <= x < n == codes.len(),
        forall|i: int| 0 <= i < n ==> #[trigger] is_next_code(t, data, off, n, codes, i),
    ensures
        code_sum(t, data, off, n, x) == codes[x],
    decreases x,
{
    lemma_stored_difference(t, data, off, n, x);
    if x > 0 {
        lemma_short_code(t, data, off, n, codes, x - 1);
    } else {
        assert(code_sum(t, data, off, n, -1) == 0);
    }
    assert(is_next_code(t, data, off, n, codes, x));
}

// ----------------------------------------------------------------------
// Runs that are packed
// ----------------------------------------------------------------------
/// From three to 128 equal bytes on that others follow, or that are 128, two bytes are made.
pub proof fn law_run_made(d: Seq<u8>, start: int, n: int)
    requires
        0 <= start,
        3 <= n <= 128,
        start + n <= d.len(),
        forall|i: int| start <= i < start + n ==> #[trigger] d[i] == d[start],
        n == 128 || start + n == d.len() || d[start + n] != d[start],
    ensures
        rle_packed_from(d, start) == seq![(n - 1) as u8, d[start]] + rle_packed_from(d, start + n),
{
    lemma_run_until(d, start, start + 1, n);
}

proof fn lemma_run_until(d: Seq<u8>, start: int, e: int, n: int)
    requires
        0 <= start < e <= start + n,
        1 <= n <= 128,
        start + n <= d.len(),
        forall|i: int| start <= i < start + n ==> #[trigger] d[i] == d[start],
        n == 128 || start + n == d.len() || d[start + n] != d[start],
    ensures
        run_end(d, start, e) == start + n,
    decreases start + n - e,
{
    if e < start + n {
        assert(d[e] == d[start]);
        lemma_run_until(d, start, e + 1, n);
    }
}

/// Three equal bytes stand from `e` on.
pub open spec fn run_begins(d: Seq<u8>, e: int) -> bool {
    e + 2 < d.len() && d[e] == d[e + 1] && d[e] == d[e + 2]
}

/// Other bytes are taken as they are, behind their number below 256: up to where three equal
/// bytes begin, at most 127.
pub proof fn law_literal_made(d: Seq<u8>, start: int, n: int)
    requires
        0 <= start,
        1 <= n <= 127,
        start + n <= d.len(),
        forall|i: int| start <= i < start + n ==> !(#[trigger] run_begins(d, i)),
        n == 127 || start + n == d.len() || run_begins(d, start + n),
    ensures
        rle_packed_from(d, start) == seq![(256 - n) as u8] + d.subrange(start, start + n)
            + rle_packed_from(d, start + n),
{
    assert(!run_begins(d, start));
    let e = if start + 1 < d.len() && d[start + 1] == d[start] {
        start + 2
    } else {
        start + 1
    };
    lemma_run_until(d, start, start + 1, e - start);
    if e == start + 2 && n == 1 {
        assert(run_begins(d, start + 1));
        assert(d[start + 1] == d[start + 2]);
    }
    lemma_literal_until(d, start, e, n);
}

proof fn lemma_literal_until(d: Seq<u8>, start: int, e: int, n: int)
    requires
        0 <= start < e <= start + n,
        1 <= n <= 127,
        start + n <= d.len(),
        forall|i: int| start <= i < start + n ==> !(#[trigger] run_begins(d, i)),
        n == 127 || start + n == d.len() || run_begins(d, start + n),
    ensures
        literal_end(d, start, e) == start + n,
    decreases start + n - e,
{
    if e < start + n {
        assert(!run_begins(d, e));
        lemma_literal_until(d, start, e + 1, n);
    }
}

// ----------------------------------------------------------------------
// Planes of blocks
// ----------------------------------------------------------------------
/// Blocks stand one behind the other. One whose third byte is 52 or more has three bytes, each
/// other fourteen.
pub proof fn law_blocks_in_order(s: Seq<u8>, p: int, j: int, at: int)
    requires
        0 <= j,
        0 <= p,
        blocks_end(s, p, j) == Some(at),
    ensures
        blocks_end(s, p, 0) == Some(p),
        at + 3 <= s.len() && s[at + 2] >= 52 ==> blocks_end(s, p, j + 1) == Some(at + 3) && block_of(
            s,
            p,
            j,
        ) == block3(s.subrange(at, at + 3)),
        at + 14 <= s.len() && s[at + 2] < 52 ==> blocks_end(s, p, j + 1) == Some(at + 14) && block_of(
            s,
            p,
            j,
        ) == block14(s.subrange(at, at + 14)),
        at + 3 > s.len() || (at + 14 > s.len() && s[at + 2] < 52) ==> blocks_end(s, p, j + 1) is None,
{
}

/// A plane of halves: sample (`x`, `y`) is in the block of its four columns and four rows. In
/// a channel that is marked linear its logarithm is stored, and the table gives it back.
pub proof fn law_plane_of_blocks(
    s: Seq<u8>,
    p: int,
    pw: int,
    ph: int,
    linear: bool,
    log: Seq<u16>,
    v: Seq<u32>,
    end: int,
    x: int,
    y: int,
)
    requires
        half_plane(s, p, pw, ph, linear, log) == Some((v, end)),
        0 <= x < pw,
        0 <= y < ph,
    ensures
        v.len() == ph * pw,
        blocks_end(s, p, ((ph + 3) / 4) * ((pw + 3) / 4)) == Some(end),
        ({
            let code = block_of(s, p, (y / 4) * ((pw + 3) / 4) + x / 4)[4 * (y % 4) + x % 4];
            &&& !linear ==> v[y * pw + x] == half_as_f32(code)
            &&& linear ==> v[y * pw + x] == half_as_f32(log[code as int])
        }),
{
    vstd::arithmetic::div_mod::lemma_fundamental_div_mod_converse(y * pw + x, pw, y, x);
    assert(0 <= y * pw + x < ph * pw) by (nonlinear_arith)
        requires
            0 <= x < pw,
            0 <= y < ph,
    ;
}

/// The channels of a chunk of blocks stand one behind the other. Those that are not halves are
/// not packed: four bytes for each sample, line by line.
pub proof fn law_planes_in_order(
    s: Seq<u8>,
    cs: Seq<ChannelView>,
    width: int,
    y0: int,
    n: int,
    log: Seq<u16>,
    k: int,
    planes: Seq<Seq<u32>>,
    end: int,
)
    requires
        0 < k <= cs.len(),
        is_full(cs),
        0 <= y0,
        0 <= n,
        0 <= width,
        b44_planes(s, cs, width, y0, n, log, k) == Some((planes, end)),
    ensures
        b44_planes(s, cs, width, y0, n, log, 0) matches Some((none, at)) && at == 0,
        b44_planes(s, cs, width, y0, n, log, k - 1) matches Some((first, at)) && planes
            == first.push(planes.last()) && {
            let c = cs[k - 1];
            &&& c.pixel_type == PixelType::Half ==> half_plane(s, at, width, n, c.p_linear, log)
                == Some((planes.last(), end))
            &&& c.pixel_type != PixelType::Half ==> end == at + 4 * (n * width)
                && planes.last().len() == n * width && forall|i: int|
                0 <= i < n * width ==> #[trigger] planes.last()[i] == pattern_at(
                    c.pixel_type,
                    s,
                    at + 4 * i,
                )
        },
{
    let (first, at) = b44_planes(s, cs, width, y0, n, log, k - 1)->Some_0;
    let c = cs[k - 1];
    assert(c.x_sampling == 1 && c.y_sampling == 1);
    assert(0 <= n * width) by (nonlinear_arith)
        requires
            0 <= n,
            0 <= width,
    ;
    if c.pixel_type != PixelType::Half {
        assert forall|i: int| 0 <= i < n * width implies #[trigger] planes.last()[i] == pattern_at(
            c.pixel_type,
            s,
            at + 4 * i,
        ) by {
            law_samples(c.pixel_type, s, at + 4 * i);
        }
    }
    assert(first.push(planes.last()) =~= planes);
}

/// The table for linear channels has the logarithm of every number above zero below infinity;
/// zero goes to the infinity below zero, and all others to zero.
pub proof fn law_log_codes(logs: Seq<u16>, x: int)
    requires
        0 <= x < 0x1_0000,
    ensures
        0 < x < 0x7c00 ==> log_code(logs, x) == logs[x - 1],
        x == 0 || x == 0x8000 ==> log_code(logs, x) == 0xfc00,
        0x7c00 <= x < 0x8000 || 0x8000 < x ==> log_code(logs, x) == 0,
{
}

} // verus!
