//! Payloads of 16-bit values in a static prefix code.
//!
//! A payload has five 32-bit numbers: the lowest and the highest symbol, the
//! length of the table of code lengths, the number of bits of the data, and
//! zero. Behind them stand the code lengths and the data. The highest symbol
//! is no value: it says that the value before it is repeated.

use crate::bits::{
    bits_in, lemma_msb_len, lemma_packed_bits, lemma_peek_msb, msb, packed_bits, peek, read_bits,
    BitWriter,
};
use crate::bytes::{
    lemma_stands_split, lemma_u32_reads_back, put_bytes, put_u32, read_u32, slice_range, u32_at,
    u32_le,
};
use crate::code::{
    code_of, codes_fit, is_complete_code, law_symbol_reads_back, lemma_code_names,
    lemma_complete_codes_fit, lemma_complete_fits, lemma_symbol_at, lens_valid, symbol_at,
    CodeTable,
};
use crate::error::{ExrError, Fault};
use crate::half::power_of_two;
use crate::tree::{
    build_code_lengths, code_lengths, covers, freq_sum, law_code_lengths, leaves, lemma_leaves,
};
use vstd::prelude::*;

verus! {

broadcast use crate::bytes::group_le_len;

/// The number of symbols: all 16-bit values and one more.
pub const ALPHABET: u32 = 0x1_0001;

// ----------------------------------------------------------------------
// Code lengths
// ----------------------------------------------------------------------
/// How many lengths from `k` on are zero, up to `cap`.
pub open spec fn zeros(lens: Seq<u8>, k: int, cap: int) -> int
    decreases cap,
{
    if cap <= 0 || k >= lens.len() || lens[k] != 0 {
        0
    } else {
        1 + zeros(lens, k + 1, cap - 1)
    }
}

/// The bits for a run of zero lengths.
pub open spec fn run_bits(r: int) -> Seq<bool> {
    if r >= 6 {
        msb(63, 6) + msb((r - 6) as nat, 8)
    } else if r >= 2 {
        msb((57 + r) as nat, 6)
    } else {
        msb(0, 6)
    }
}

/// The bits for the code lengths from `k` on. A length has six bits; a run of
/// up to five zeros too, and one of up to 261 zeros has eight more.
pub open spec fn length_bits(lens: Seq<u8>, k: int) -> Seq<bool>
    decreases lens.len() - k,
    via length_bits_decreases
{
    if k >= lens.len() || k < 0 {
        Seq::empty()
    } else if lens[k] != 0 {
        msb(lens[k] as nat, 6) + length_bits(lens, k + 1)
    } else {
        let r = zeros(lens, k, 261);
        run_bits(r) + length_bits(lens, k + r)
    }
}

#[via_fn]
proof fn length_bits_decreases(lens: Seq<u8>, k: int) {
    if 0 <= k {
        lemma_zeros(lens, k, 261);
    }
}

/// What was read before, and what is read behind it.
pub open spec fn after(first: Seq<u8>, rest: Option<(Seq<u8>, int)>) -> Option<(Seq<u8>, int)> {
    match rest {
        Some((lens, pos)) => Some((first + lens, pos)),
        None => None,
    }
}

/// A number of zero lengths.
pub open spec fn zero_lens(n: int) -> Seq<u8> {
    Seq::new(n as nat, |i: int| 0u8)
}

/// The `n` code lengths that stand at `pos`, and the position behind them.
pub open spec fn lengths_at(bits: Seq<bool>, pos: int, n: int) -> Option<(Seq<u8>, int)>
    decreases n,
{
    if n <= 0 {
        Some((Seq::empty(), pos))
    } else if pos + 6 > bits.len() {
        None
    } else {
        let s = peek(bits, pos, 6) as int;
        if s <= 58 {
            after(seq![s as u8], lengths_at(bits, pos + 6, n - 1))
        } else if s < 63 {
            let run = s - 57;
            if run > n {
                None
            } else {
                after(zero_lens(run), lengths_at(bits, pos + 6, n - run))
            }
        } else if pos + 14 > bits.len() {
            None
        } else {
            let run = peek(bits, pos + 6, 8) as int + 6;
            if run > n {
                None
            } else {
                after(zero_lens(run), lengths_at(bits, pos + 14, n - run))
            }
        }
    }
}

/// A part lies at a position among bits.
pub open spec fn lies_at(bits: Seq<bool>, pos: int, part: Seq<bool>) -> bool {
    &&& 0 <= pos
    &&& pos + part.len() <= bits.len()
    &&& bits.subrange(pos, pos + part.len()) == part
}

pub proof fn lemma_lies_split(bits: Seq<bool>, pos: int, a: Seq<bool>, b: Seq<bool>)
    requires
        lies_at(bits, pos, a + b),
    ensures
        lies_at(bits, pos, a),
        lies_at(bits, pos + a.len(), b),
{
    let all = bits.subrange(pos, pos + (a + b).len());
    assert(bits.subrange(pos, pos + a.len()) =~= a) by {
        assert forall|i: int| 0 <= i < a.len() implies bits[pos + i] == a[i] by {
            assert(all[i] == (a + b)[i]);
        }
    }
    assert(bits.subrange(pos + a.len(), pos + a.len() + b.len()) =~= b) by {
        assert forall|i: int| 0 <= i < b.len() implies bits[pos + a.len() + i] == b[i] by {
            assert(all[a.len() + i] == (a + b)[a.len() + i]);
        }
    }
}

/// A number that lies among bits is read back.
proof fn lemma_number_at(bits: Seq<bool>, pos: int, v: nat, n: nat)
    requires
        lies_at(bits, pos, msb(v, n)),
        v < power_of_two(n),
    ensures
        peek(bits, pos, n as int) == v,
        pos + n <= bits.len(),
{
    lemma_msb_len(v, n);
    lemma_peek_msb(bits, pos, v, n);
}

proof fn lemma_zeros(lens: Seq<u8>, k: int, cap: int)
    requires
        0 <= k,
    ensures
        0 <= zeros(lens, k, cap),
        cap >= 0 ==> zeros(lens, k, cap) <= cap,
        k <= lens.len() ==> k + zeros(lens, k, cap) <= lens.len(),
        forall|i: int| k <= i < k + zeros(lens, k, cap) ==> #[trigger] lens[i] == 0,
        cap >= 1 && k < lens.len() && lens[k] == 0 ==> zeros(lens, k, cap) >= 1,
    decreases cap,
{
    if !(cap <= 0 || k >= lens.len() || lens[k] != 0) {
        lemma_zeros(lens, k + 1, cap - 1);
    }
}

/// A run of zeros that lies among bits is read back.
proof fn lemma_run_at(bits: Seq<bool>, pos: int, r: int, n: int)
    requires
        1 <= r <= 261,
        r <= n,
        lies_at(bits, pos, run_bits(r)),
    ensures
        lengths_at(bits, pos, n) == after(
            zero_lens(r),
            lengths_at(bits, pos + run_bits(r).len(), n - r),
        ),
{
    assert(power_of_two(6) == 64 && power_of_two(8) == 256) by {
        reveal_with_fuel(power_of_two, 9);
    }
    if r >= 6 {
        lemma_lies_split(bits, pos, msb(63, 6), msb((r - 6) as nat, 8));
        lemma_msb_len(63, 6);
        lemma_msb_len((r - 6) as nat, 8);
        lemma_number_at(bits, pos, 63, 6);
        lemma_number_at(bits, pos + 6, (r - 6) as nat, 8);
    } else if r >= 2 {
        lemma_msb_len((57 + r) as nat, 6);
        lemma_number_at(bits, pos, (57 + r) as nat, 6);
    } else {
        lemma_msb_len(0, 6);
        lemma_number_at(bits, pos, 0, 6);
        assert(seq![0u8] =~= zero_lens(1));
    }
}

/// Code lengths that lie among bits are read back.
pub proof fn law_lengths_read_back(lens: Seq<u8>, k: int, bits: Seq<bool>, pos: int)
    requires
        lens_valid(lens),
        0 <= k <= lens.len(),
        lies_at(bits, pos, length_bits(lens, k)),
    ensures
        lengths_at(bits, pos, lens.len() - k) == Some(
            (lens.skip(k), pos + length_bits(lens, k).len()),
        ),
    decreases lens.len() - k,
{
    if k == lens.len() {
        assert(lens.skip(k) =~= Seq::empty());
    } else if lens[k] != 0 {
        let head = msb(lens[k] as nat, 6);
        assert(power_of_two(6) == 64) by {
            reveal_with_fuel(power_of_two, 7);
        }
        lemma_lies_split(bits, pos, head, length_bits(lens, k + 1));
        lemma_msb_len(lens[k] as nat, 6);
        lemma_number_at(bits, pos, lens[k] as nat, 6);
        law_lengths_read_back(lens, k + 1, bits, pos + 6);
        assert(seq![lens[k]] + lens.skip(k + 1) =~= lens.skip(k));
    } else {
        let r = zeros(lens, k, 261);
        lemma_zeros(lens, k, 261);
        lemma_lies_split(bits, pos, run_bits(r), length_bits(lens, k + r));
        lemma_run_at(bits, pos, r, lens.len() - k);
        law_lengths_read_back(lens, k + r, bits, pos + run_bits(r).len());
        assert(zero_lens(r) + lens.skip(k + r) =~= lens.skip(k));
    }
}

/// The number of zero lengths from `k` on.
fn count_zeros(lens: &[u8], k: usize) -> (r: usize)
    requires
        k < lens@.len(),
    ensures
        r == zeros(lens@, k as int, 261),
{
    let n: usize = lens.len();
    let mut r: usize = 0;
    while r < 261 && k + r < n && lens[k + r] == 0
        invariant
            r <= 261,
            n == lens@.len(),
            k + r <= n,
            zeros(lens@, k as int, 261) == r + zeros(lens@, k + r, 261 - r),
        decreases 261 - r,
    {
        r = r + 1;
    }
    r
}

/// Write the code lengths.
pub fn pack_code_lengths(lens: &[u8]) -> (r: Vec<u8>)
    requires
        lens_valid(lens@),
        lens@.len() <= 0x1_0001,
    ensures
        r@ == packed_bits(length_bits(lens@, 0)),
{
    let ghost all = length_bits(lens@, 0);
    let mut w: BitWriter = BitWriter::new();
    let n: usize = lens.len();
    let mut k: usize = 0;
    assert(Seq::<bool>::empty() + all =~= all);
    while k < n
        invariant
            k <= n,
            n == lens@.len(),
            n <= 0x1_0001,
            lens_valid(lens@),
            w.inv(),
            w@.len() <= 14 * k,
            all == w@ + length_bits(lens@, k as int),
        decreases n - k,
    {
        let ghost before = w@;
        let l: u8 = lens[k];
        if l != 0 {
            proof {
                lemma_msb_len(l as nat, 6);
            }
            w.put(l as u64, 6);
            proof {
                assert(all =~= w@ + length_bits(lens@, k + 1));
            }
            k = k + 1;
        } else {
            let r: usize = count_zeros(lens, k);
            proof {
                lemma_zeros(lens@, k as int, 261);
                lemma_msb_len(63, 6);
                lemma_msb_len((r - 6) as nat, 8);
                lemma_msb_len((57 + r) as nat, 6);
                lemma_msb_len(0, 6);
            }
            if r >= 6 {
                w.put(63, 6);
                w.put((r - 6) as u64, 8);
            } else if r >= 2 {
                w.put(57 + r as u64, 6);
            } else {
                w.put(0, 6);
            }
            proof {
                assert(w@ =~= before + run_bits(r as int));
                assert(all =~= w@ + length_bits(lens@, k + r));
            }
            k = k + r;
        }
    }
    assert(w@ =~= all);
    let (out, _count) = w.finish();
    out
}

/// What was read before, behind what was read before that.
proof fn lemma_after(a: Seq<u8>, b: Seq<u8>, r: Option<(Seq<u8>, int)>)
    ensures
        after(a, after(b, r)) == after(a + b, r),
{
    if let Some((lens, pos)) = r {
        assert(a + (b + lens) =~= (a + b) + lens);
    }
}

/// Read `n` code lengths, and the number of bytes that they take.
pub fn unpack_code_lengths(data: &[u8], n: usize) -> (r: Result<(Vec<u8>, usize), ExrError>)
    requires
        n <= 0x1_0001,
    ensures
        r matches Ok((lens, used)) ==> lens_valid(lens@) && lens@.len() == n && used <= data@.len() && (
        lengths_at(bits_in(data@), 0, n as int) matches Some((v, pos)) && v == lens@ && used == (pos
            + 7) / 8),
        r matches Err(e) ==> e.fault() == Fault::Invalid && lengths_at(
            bits_in(data@),
            0,
            n as int,
        ) is None,
{
    let ghost bits = bits_in(data@);
    let limit: u128 = 8 * data.len() as u128;
    let mut lens: Vec<u8> = Vec::new();
    let mut pos: u128 = 0;
    proof {
        assert(bits.take(limit as int) =~= bits);
        let r = lengths_at(bits, 0, n as int);
        if let Some((v, p)) = r {
            assert(Seq::<u8>::empty() + v =~= v);
        }
    }
    while lens.len() < n
        invariant
            lens@.len() <= n <= 0x1_0001,
            limit == 8 * data@.len(),
            bits == bits_in(data@),
            bits.take(limit as int) == bits,
            pos <= limit,
            lens_valid(lens@),
            lengths_at(bits, 0, n as int) == after(
                lens@,
                lengths_at(bits, pos as int, n - lens@.len()),
            ),
        decreases n - lens@.len(),
    {
        let left: usize = n - lens.len();
        let ghost before = lens@;
        if limit - pos < 6 {
            return Err(ExrError::invalid("Huffman payload: bit stream exhausted"));
        }
        proof {
            reveal_with_fuel(power_of_two, 9);
        }
        let s: u32 = read_bits(data, limit, pos, 6);
        if s <= 58 {
            lens.push(s as u8);
            proof {
                assert(lens@ =~= before + seq![s as u8]);
                lemma_after(before, seq![s as u8], lengths_at(bits, pos + 6, left - 1));
            }
            pos = pos + 6;
        } else {
            let run: usize;
            let step: u128;
            if s < 63 {
                run = (s - 57) as usize;
                step = 6;
            } else {
                if limit - pos < 14 {
                    return Err(ExrError::invalid("Huffman payload: bit stream exhausted"));
                }
                run = read_bits(data, limit, pos + 6, 8) as usize + 6;
                step = 14;
            }
            if run > left {
                return Err(ExrError::invalid("Huffman payload: zero-length run past iM"));
            }
            push_zeros(&mut lens, run);
            proof {
                lemma_after(before, zero_lens(run as int), lengths_at(bits, pos + step, left - run));
            }
            pos = pos + step;
        }
    }
    assert(lens@ + Seq::<u8>::empty() =~= lens@);
    let used: usize = ((pos + 7) / 8) as usize;
    Ok((lens, used))
}

/// Append zero lengths.
fn push_zeros(lens: &mut Vec<u8>, n: usize)
    requires
        lens_valid(old(lens)@),
    ensures
        final(lens)@ == old(lens)@ + zero_lens(n as int),
        lens_valid(final(lens)@),
{
    let ghost before = lens@;
    let mut i: usize = 0;
    assert(before + zero_lens(0) =~= before);
    while i < n
        invariant
            i <= n,
            lens@ == before + zero_lens(i as int),
            lens_valid(lens@),
        decreases n - i,
    {
        lens.push(0);
        assert(lens@ =~= before + zero_lens(i + 1));
        i = i + 1;
    }
}

// ----------------------------------------------------------------------
// Reading
// ----------------------------------------------------------------------
/// Some symbol has a code.
pub open spec fn has_codes(lens: Seq<u8>) -> bool {
    exists|k: int| 0 <= k < lens.len() && #[trigger] lens[k] != 0
}

/// `n` copies of a value.
pub open spec fn copies(v: u16, n: int) -> Seq<u16> {
    Seq::new(n as nat, |i: int| v)
}

/// The values behind `out`, up to `expected` of them, from the bits at `pos`.
/// Symbol `k` stands for the value `im + k`. The last symbol, and eight bits
/// behind it, repeat the value before.
pub open spec fn decoded(
    lens: Seq<u8>,
    im: int,
    bits: Seq<bool>,
    pos: int,
    out: Seq<u16>,
    expected: int,
) -> Option<Seq<u16>>
    decreases bits.len() - pos,
    via decoded_decreases
{
    if out.len() >= expected {
        Some(out)
    } else {
        match symbol_at(lens, bits, pos) {
            None => None,
            Some((k, n)) => if k != lens.len() - 1 {
                decoded(lens, im, bits, pos + n, out.push((im + k) as u16), expected)
            } else if pos + n + 8 > bits.len() {
                None
            } else {
                let c = peek(bits, pos + n, 8) as int;
                if out.len() == 0 || out.len() + c > expected {
                    None
                } else {
                    decoded(lens, im, bits, pos + n + 8, out + copies(out.last(), c), expected)
                }
            },
        }
    }
}

#[via_fn]
proof fn decoded_decreases(
    lens: Seq<u8>,
    im: int,
    bits: Seq<bool>,
    pos: int,
    out: Seq<u16>,
    expected: int,
) {
    lemma_symbol_at(lens, bits, pos);
}

/// The values of a payload, which are `expected` in number.
pub open spec fn huf_values(s: Seq<u8>, expected: int) -> Option<Seq<u16>> {
    if expected == 0 {
        Some(Seq::empty())
    } else if s.len() < 20 {
        None
    } else {
        let low = u32_at(s, 0) as int;
        let high = u32_at(s, 4) as int;
        let count = u32_at(s, 12) as int;
        let body = s.skip(20);
        if high >= 0x1_0001 || low > high {
            None
        } else {
            match lengths_at(bits_in(body), 0, high - low + 1) {
                None => None,
                Some((lens, pos)) => {
                    let data = body.skip((pos + 7) / 8);
                    if 8 * data.len() < count || !has_codes(lens) || !codes_fit(lens) {
                        None
                    } else {
                        decoded(lens, low, bits_in(data).take(count), 0, Seq::empty(), expected)
                    }
                },
            }
        }
    }
}

/// The table of a payload is read and its data holds the bits it states, but
/// its lengths ask for more codes than there are.
pub open spec fn is_over_subscribed(s: Seq<u8>) -> bool {
    let low = u32_at(s, 0) as int;
    let high = u32_at(s, 4) as int;
    let body = s.skip(20);
    &&& s.len() >= 20
    &&& low <= high < 0x1_0001
    &&& lengths_at(bits_in(body), 0, high - low + 1) matches Some((lens, pos)) && 8 * body.skip(
        (pos + 7) / 8,
    ).len() >= u32_at(s, 12) && has_codes(lens) && !codes_fit(lens)
}

/// Some length is not zero.
fn any_code(lens: &[u8]) -> (r: bool)
    ensures
        r == has_codes(lens@),
{
    let mut k: usize = 0;
    while k < lens.len()
        invariant
            k <= lens@.len(),
            forall|i: int| 0 <= i < k ==> #[trigger] lens@[i] == 0,
        decreases lens@.len() - k,
    {
        if lens[k] != 0 {
            assert(lens@[k as int] != 0);
            return true;
        }
        k = k + 1;
    }
    false
}

/// Append copies of a value.
fn push_copies(out: &mut Vec<u16>, v: u16, n: u32)
    ensures
        final(out)@ == old(out)@ + copies(v, n as int),
{
    let ghost before = out@;
    let mut i: u32 = 0;
    assert(before + copies(v, 0) =~= before);
    while i < n
        invariant
            i <= n,
            out@ == before + copies(v, i as int),
        decreases n - i,
    {
        out.push(v);
        assert(out@ =~= before + copies(v, i + 1));
        i = i + 1;
    }
}

/// Read values until there are `expected` of them.
fn read_values(t: &CodeTable, low: u32, data: &[u8], limit: u128, expected: usize) -> (r: Result<
    Vec<u16>,
    ExrError,
>)
    requires
        t.inv(),
        low + t.lens@.len() <= 0x1_0001,
        t.lens@.len() >= 1,
        limit <= 8 * data@.len(),
    ensures
        r matches Ok(v) ==> decoded(
            t.lens@,
            low as int,
            bits_in(data@).take(limit as int),
            0,
            Seq::empty(),
            expected as int,
        ) == Some(v@),
        r matches Err(e) ==> e.fault() == Fault::Invalid && decoded(
            t.lens@,
            low as int,
            bits_in(data@).take(limit as int),
            0,
            Seq::empty(),
            expected as int,
        ) is None,
{
    let ghost bits = bits_in(data@).take(limit as int);
    let ghost lens = t.lens@;
    let mut out: Vec<u16> = Vec::new();
    let mut pos: u128 = 0;
    assert(out@ =~= Seq::empty());
    while out.len() < expected
        invariant
            t.inv(),
            lens == t.lens@,
            low + lens.len() <= 0x1_0001,
            lens.len() >= 1,
            limit <= 8 * data@.len(),
            bits == bits_in(data@).take(limit as int),
            pos <= limit,
            decoded(lens, low as int, bits, 0, Seq::empty(), expected as int) == decoded(
                lens,
                low as int,
                bits,
                pos as int,
                out@,
                expected as int,
            ),
        decreases limit - pos,
    {
        proof {
            lemma_symbol_at(lens, bits, pos as int);
        }
        let (k, n) = match t.read_symbol(data, limit, pos) {
            Some(p) => p,
            None => {
                return Err(ExrError::invalid("Huffman payload: no code at this place"));
            },
        };
        let next: u128 = pos + n as u128;
        if k as usize != t.lens.len() - 1 {
            out.push((low + k) as u16);
            pos = next;
        } else {
            if limit - next < 8 {
                return Err(ExrError::invalid("Huffman payload: bit stream exhausted"));
            }
            proof {
                reveal_with_fuel(power_of_two, 9);
            }
            let c: u32 = read_bits(data, limit, next, 8);
            let have: usize = out.len();
            if have == 0 {
                return Err(ExrError::invalid("Huffman payload: run escape before any value"));
            }
            if expected - have < c as usize {
                return Err(ExrError::invalid("Huffman payload: run overruns expected output"));
            }
            let last: u16 = out[have - 1];
            push_copies(&mut out, last, c);
            pos = next + 8;
        }
    }
    Ok(out)
}

/// Read exactly `expected` values from a payload. The error for code lengths
/// that ask for too many codes says so.
pub fn huf_decompress(payload: &[u8], expected: usize) -> (r: Result<Vec<u16>, ExrError>)
    ensures
        r matches Ok(v) ==> huf_values(payload@, expected as int) == Some(v@),
        r matches Err(e) ==> e.fault() == Fault::Invalid && huf_values(
            payload@,
            expected as int,
        ) is None,
        expected > 0 && is_over_subscribed(payload@) ==> (r matches Err(e) && e.text()
            == "Huffman payload: code lengths over-subscribe the code space"@),
{
    if expected == 0 {
        let none: Vec<u16> = Vec::new();
        assert(none@ =~= Seq::empty());
        return Ok(none);
    }
    let n: usize = payload.len();
    if n < 20 {
        return Err(ExrError::invalid("Huffman payload header truncated"));
    }
    let low: u32 = read_u32(payload, 0);
    let high: u32 = read_u32(payload, 4);
    let count: u32 = read_u32(payload, 12);
    if high >= ALPHABET || low > high {
        return Err(ExrError::invalid("Huffman payload: symbol range out of bounds"));
    }
    let body: &[u8] = slice_range(payload, 20, n);
    assert(body@ =~= payload@.skip(20));
    let (lens, used) = unpack_code_lengths(body, (high - low + 1) as usize)?;
    let data: &[u8] = slice_range(body, used, body.len());
    assert(data@ =~= body@.skip(used as int));
    if (data.len() as u128) * 8 < count as u128 {
        return Err(ExrError::invalid("Huffman payload: data cannot hold the stated bits"));
    }
    if !any_code(lens.as_slice()) {
        return Err(ExrError::invalid("Huffman payload: no coded symbols"));
    }
    let t: CodeTable = CodeTable::new(lens);
    if t.find_excess().is_some() {
        return Err(ExrError::invalid("Huffman payload: code lengths over-subscribe the code space"));
    }
    read_values(&t, low, data, count as u128, expected)
}

// ----------------------------------------------------------------------
// Writing
// ----------------------------------------------------------------------
/// How many values from `i` on are `v`, up to `cap`.
pub open spec fn repeats(values: Seq<u16>, v: u16, i: int, cap: int) -> int
    decreases cap,
{
    if cap <= 0 || i >= values.len() || values[i] != v {
        0
    } else {
        1 + repeats(values, v, i + 1, cap - 1)
    }
}

/// The smallest of the first `n` values.
pub open spec fn smallest(values: Seq<u16>, n: int) -> u16
    decreases n,
{
    if n <= 1 {
        values[0]
    } else if values[n - 1] < smallest(values, n - 1) {
        values[n - 1]
    } else {
        smallest(values, n - 1)
    }
}

/// The largest of the first `n` values.
pub open spec fn largest(values: Seq<u16>, n: int) -> u16
    decreases n,
{
    if n <= 1 {
        values[0]
    } else if values[n - 1] > largest(values, n - 1) {
        values[n - 1]
    } else {
        largest(values, n - 1)
    }
}

/// How often `v` occurs among the first `n` values.
pub open spec fn occurrences(values: Seq<u16>, v: int, n: int) -> int
    decreases n,
{
    if n <= 0 {
        0
    } else {
        occurrences(values, v, n - 1) + (if values[n - 1] == v {
            1int
        } else {
            0int
        })
    }
}

/// The frequencies of the values from the smallest to the largest, and of the
/// symbol behind them, which counts once.
pub open spec fn value_freqs(values: Seq<u16>, low: int, high: int) -> Seq<u128> {
    Seq::new(
        (high - low + 2) as nat,
        |k: int|
            if k == high - low + 1 {
                1u128
            } else {
                occurrences(values, low + k, values.len() as int) as u128
            },
    )
}

/// The lowest symbol.
pub open spec fn low_of(values: Seq<u16>) -> int {
    smallest(values, values.len() as int) as int
}

/// The highest value.
pub open spec fn high_of(values: Seq<u16>) -> int {
    largest(values, values.len() as int) as int
}

/// The code lengths for some values.
pub open spec fn value_lens(values: Seq<u16>) -> Seq<u8> {
    code_lengths(value_freqs(values, low_of(values), high_of(values)))
}

/// The code of a symbol.
pub open spec fn symbol_bits(lens: Seq<u8>, k: int) -> Seq<bool> {
    msb(code_of(lens, k) as nat, lens[k] as nat)
}

/// `n` copies of some bits.
pub open spec fn bit_copies(part: Seq<bool>, n: int) -> Seq<bool>
    decreases n,
{
    if n <= 0 {
        Seq::empty()
    } else {
        part + bit_copies(part, n - 1)
    }
}

/// The bits for a value and `c` repetitions of it: a run where that is
/// shorter.
pub open spec fn group_bits(lens: Seq<u8>, k: int, c: int) -> Seq<bool> {
    let e = lens.len() - 1;
    if lens[k] + lens[e] + 8 < lens[k] * c {
        symbol_bits(lens, k) + (symbol_bits(lens, e) + msb(c as nat, 8))
    } else {
        bit_copies(symbol_bits(lens, k), c + 1)
    }
}

/// The bits for the values from `i` on.
pub open spec fn value_bits(values: Seq<u16>, lens: Seq<u8>, low: int, i: int) -> Seq<bool>
    decreases values.len() - i,
    via value_bits_decreases
{
    if i >= values.len() || i < 0 {
        Seq::empty()
    } else {
        let c = repeats(values, values[i], i + 1, 255);
        group_bits(lens, values[i] - low, c) + value_bits(values, lens, low, i + 1 + c)
    }
}

#[via_fn]
proof fn value_bits_decreases(values: Seq<u16>, lens: Seq<u8>, low: int, i: int) {
    if 0 <= i < values.len() {
        lemma_repeats(values, values[i], i + 1, 255);
    }
}

proof fn lemma_repeats(values: Seq<u16>, v: u16, i: int, cap: int)
    requires
        0 <= i <= values.len(),
    ensures
        0 <= repeats(values, v, i, cap),
        cap >= 0 ==> repeats(values, v, i, cap) <= cap,
        i + repeats(values, v, i, cap) <= values.len(),
        forall|j: int| i <= j < i + repeats(values, v, i, cap) ==> #[trigger] values[j] == v,
    decreases cap,
{
    if !(cap <= 0 || i >= values.len() || values[i] != v) {
        lemma_repeats(values, v, i + 1, cap - 1);
    }
}

/// The payload for some values; nothing where there are none, or where their
/// bits cannot be counted in 32 bits.
pub open spec fn huf_payload(values: Seq<u16>) -> Option<Seq<u8>> {
    if values.len() == 0 {
        None
    } else {
        let low = low_of(values);
        let high = high_of(values);
        let lens = value_lens(values);
        let bits = value_bits(values, lens, low, 0);
        let table = packed_bits(length_bits(lens, 0));
        if bits.len() > u32::MAX {
            None
        } else {
            Some(
                u32_le(low as u32) + (u32_le((high + 1) as u32) + (u32_le(table.len() as u32) + (
                u32_le(bits.len() as u32) + (u32_le(0) + (table + packed_bits(bits)))))),
            )
        }
    }
}

proof fn lemma_extremes(values: Seq<u16>, n: int)
    requires
        1 <= n <= values.len(),
    ensures
        forall|i: int|
            0 <= i < n ==> smallest(values, n) <= #[trigger] values[i] && values[i] <= largest(
                values,
                n,
            ),
        exists|i: int| 0 <= i < n && #[trigger] values[i] == smallest(values, n),
        exists|i: int| 0 <= i < n && #[trigger] values[i] == largest(values, n),
    decreases n,
{
    if n > 1 {
        lemma_extremes(values, n - 1);
        let a = choose|i: int| 0 <= i < n - 1 && #[trigger] values[i] == smallest(values, n - 1);
        let b = choose|i: int| 0 <= i < n - 1 && #[trigger] values[i] == largest(values, n - 1);
        assert(values[a] == smallest(values, n - 1));
        assert(values[b] == largest(values, n - 1));
        if values[n - 1] < smallest(values, n - 1) {
            assert(values[n - 1] == smallest(values, n));
        } else {
            assert(values[a] == smallest(values, n));
        }
        if values[n - 1] > largest(values, n - 1) {
            assert(values[n - 1] == largest(values, n));
        } else {
            assert(values[b] == largest(values, n));
        }
    } else {
        assert(values[0] == smallest(values, n));
    }
}

proof fn lemma_occurrences(values: Seq<u16>, v: int, n: int)
    requires
        0 <= n <= values.len(),
    ensures
        0 <= occurrences(values, v, n) <= n,
        forall|i: int| 0 <= i < n && #[trigger] values[i] == v ==> occurrences(values, v, n) >= 1,
    decreases n,
{
    if n > 0 {
        lemma_occurrences(values, v, n - 1);
    }
}

/// The code for some values: it is complete, and each value has a code, as has
/// the last symbol.
proof fn lemma_value_code(values: Seq<u16>)
    requires
        1 <= values.len() <= u64::MAX,
    ensures
        ({
            let low = low_of(values);
            let lens = value_lens(values);
            &&& 0 <= low <= high_of(values) <= 0xffff
            &&& lens.len() == high_of(values) - low + 2
            &&& is_complete_code(lens)
            &&& lens_valid(lens)
            &&& 1 <= lens[lens.len() - 1] <= 58
            &&& forall|i: int|
                0 <= i < values.len() ==> 0 <= #[trigger] values[i] - low < lens.len() - 1 && 1
                    <= lens[values[i] - low] <= 58
        }),
{
    let n = values.len() as int;
    let low = low_of(values);
    let high = high_of(values);
    lemma_extremes(values, n);
    let freqs = value_freqs(values, low, high);
    let m = freqs.len() as int;
    assert(low <= values[0] <= high);
    lemma_leaves(freqs, m);
    assert forall|i: int| 0 <= i < n implies freqs[#[trigger] values[i] - low] > 0 by {
        lemma_occurrences(values, values[i] as int, n);
    }
    let s = leaves(freqs, m);
    // The first value and the last symbol occur, in different leaves.
    assert(covers(s, values[0] - low) && covers(s, m - 1));
    let a = choose|i: int| 0 <= i < s.len() && #[trigger] crate::tree::bears(s[i].tree, values[0] - low);
    let b = choose|i: int| 0 <= i < s.len() && #[trigger] crate::tree::bears(s[i].tree, m - 1);
    assert(a != b);
    law_code_lengths(freqs);
    let lens = value_lens(values);
    assert forall|i: int| 0 <= i < n implies 0 <= #[trigger] values[i] - low < lens.len() - 1 && 1
        <= lens[values[i] - low] <= 58 by {
        assert(freqs[values[i] - low] > 0);
        assert(1 <= code_lengths(freqs)[values[i] - low] <= 58);
    }
    assert forall|k: int| 0 <= k < lens.len() implies #[trigger] lens[k] <= 58 by {}
    assert(freqs[m - 1] == 1);
    assert(1 <= code_lengths(freqs)[m - 1] <= 58);
}

// ----------------------------------------------------------------------
// Writing values
// ----------------------------------------------------------------------
/// The smallest and the largest value.
fn find_range(values: &[u16]) -> (r: (u16, u16))
    requires
        values@.len() > 0,
    ensures
        r.0 == low_of(values@),
        r.1 == high_of(values@),
{
    let mut low: u16 = values[0];
    let mut high: u16 = values[0];
    let mut i: usize = 1;
    while i < values.len()
        invariant
            1 <= i <= values@.len(),
            low == smallest(values@, i as int),
            high == largest(values@, i as int),
        decreases values@.len() - i,
    {
        if values[i] < low {
            low = values[i];
        }
        if values[i] > high {
            high = values[i];
        }
        i = i + 1;
    }
    (low, high)
}

/// Count the values.
fn count_values(values: &[u16], low: u16, high: u16) -> (r: Vec<u128>)
    requires
        values@.len() > 0,
        low == low_of(values@),
        high == high_of(values@),
    ensures
        r@ == value_freqs(values@, low as int, high as int),
        r@.len() == high - low + 2,
        low <= high,
        forall|k: int| 0 <= k < r@.len() ==> #[trigger] r@[k] <= 0x1_0000_0000_0000_0000,
{
    proof {
        lemma_extremes(values@, values@.len() as int);
        assert(low <= values@[0] <= high);
    }
    let m: usize = (high - low) as usize + 2;
    let mut freqs: Vec<u128> = vec![0u128; m];
    let n: usize = values.len();
    let mut i: usize = 0;
    while i < n
        invariant
            i <= n,
            n == values@.len(),
            low <= high,
            m == high - low + 2,
            freqs@.len() == m,
            forall|j: int| 0 <= j < n ==> low <= #[trigger] values@[j] <= high,
            freqs@[m - 1] == 0,
            forall|k: int|
                0 <= k < m - 1 ==> #[trigger] freqs@[k] == occurrences(values@, low + k, i as int),
        decreases n - i,
    {
        assert(low <= values@[i as int] <= high);
        let k: usize = (values[i] - low) as usize;
        proof {
            lemma_occurrences(values@, low + k, i as int);
        }
        freqs.set(k, freqs[k] + 1);
        i = i + 1;
    }
    freqs.set(m - 1, 1);
    proof {
        assert forall|k: int| 0 <= k < m implies #[trigger] freqs@[k] <= 0x1_0000_0000_0000_0000 by {
            if k < m - 1 {
                lemma_occurrences(values@, low + k, n as int);
            }
        }
        assert(freqs@ =~= value_freqs(values@, low as int, high as int));
    }
    freqs
}

proof fn lemma_freqs_sum(freqs: Seq<u128>, k: int)
    requires
        0 <= k <= freqs.len(),
        forall|i: int| 0 <= i < freqs.len() ==> #[trigger] freqs[i] <= 0x1_0000_0000_0000_0000,
    ensures
        freq_sum(freqs, k) <= 0x1_0000_0000_0000_0000 * k,
    decreases k,
{
    if k > 0 {
        lemma_freqs_sum(freqs, k - 1);
    }
}

/// How many further values are the same as value `i`, up to 255.
fn count_repeats(values: &[u16], i: usize) -> (r: usize)
    requires
        i < values@.len(),
    ensures
        r == repeats(values@, values@[i as int], i + 1, 255),
{
    let n: usize = values.len();
    let v: u16 = values[i];
    let mut r: usize = 0;
    while r < 255 && i + 1 + r < n && values[i + 1 + r] == v
        invariant
            r <= 255,
            n == values@.len(),
            i + 1 + r <= n,
            v == values@[i as int],
            repeats(values@, v, i + 1, 255) == r + repeats(values@, v, i + 1 + r, 255 - r),
        decreases 255 - r,
    {
        r = r + 1;
    }
    r
}

/// Write a code `n` times.
fn put_copies(w: &mut BitWriter, code: u64, len: u32, n: usize)
    requires
        old(w).inv(),
        old(w)@.len() <= 0x1_0000_0000,
        len <= 58,
        n <= 256,
    ensures
        final(w).inv(),
        final(w)@ == old(w)@ + bit_copies(msb(code as nat, len as nat), n as int),
        final(w)@.len() <= old(w)@.len() + 58 * n,
{
    let ghost before = w@;
    let ghost part = msb(code as nat, len as nat);
    let mut i: usize = 0;
    proof {
        lemma_msb_len(code as nat, len as nat);
        assert(before + bit_copies(part, n as int) =~= w@ + bit_copies(part, n as int));
    }
    while i < n
        invariant
            i <= n <= 256,
            w.inv(),
            len <= 58,
            part == msb(code as nat, len as nat),
            part.len() == len,
            before.len() <= 0x1_0000_0000,
            w@.len() <= before.len() + 58 * i,
            before + bit_copies(part, n as int) == w@ + bit_copies(part, n - i),
        decreases n - i,
    {
        let ghost now = w@;
        w.put(code, len);
        assert(now + (part + bit_copies(part, n - i - 1)) =~= w@ + bit_copies(part, n - i - 1));
        i = i + 1;
    }
    assert(w@ + bit_copies(part, 0) =~= w@);
}

/// Write the values; nothing where their bits cannot be counted in 32 bits.
fn put_values(values: &[u16], lens: &[u8], codes: &[u64], low: u16) -> (r: Option<BitWriter>)
    requires
        1 <= values@.len(),
        low == low_of(values@),
        lens@ == value_lens(values@),
        codes@.len() == lens@.len(),
        forall|k: int|
            0 <= k < lens@.len() ==> #[trigger] codes@[k] == (if lens@[k] == 0 {
                0
            } else {
                code_of(lens@, k)
            }),
    ensures
        r matches Some(w) ==> w.inv() && w@ == value_bits(values@, lens@, low as int, 0) && w@.len()
            <= u32::MAX,
        r is None ==> value_bits(values@, lens@, low as int, 0).len() > u32::MAX,
{
    let ghost all = value_bits(values@, lens@, low as int, 0);
    let n: usize = values.len();
    proof {
        lemma_value_code(values@);
    }
    let e: usize = lens.len() - 1;
    let esc_code: u64 = codes[e];
    let esc_len: u32 = lens[e] as u32;
    let mut w: BitWriter = BitWriter::new();
    let mut i: usize = 0;
    assert(Seq::<bool>::empty() + all =~= all);
    while i < n
        invariant
            i <= n,
            n == values@.len(),
            1 <= n,
            low == low_of(values@),
            lens@ == value_lens(values@),
            codes@.len() == lens@.len(),
            e == lens@.len() - 1,
            1 <= lens@[e as int] <= 58,
            esc_len == lens@[e as int],
            esc_code == code_of(lens@, e as int),
            forall|k: int|
                0 <= k < lens@.len() ==> #[trigger] codes@[k] == (if lens@[k] == 0 {
                    0
                } else {
                    code_of(lens@, k)
                }),
            forall|j: int|
                0 <= j < n ==> 0 <= #[trigger] values@[j] - low < lens@.len() - 1 && 1
                    <= lens@[values@[j] - low] <= 58,
            all == value_bits(values@, lens@, low as int, 0),
            w.inv(),
            w@.len() <= u32::MAX,
            all == w@ + value_bits(values@, lens@, low as int, i as int),
        decreases n - i,
    {
        let ghost before = w@;
        let c: usize = count_repeats(values, i);
        proof {
            lemma_repeats(values@, values@[i as int], i + 1, 255);
            assert(0 <= values@[i as int] - low < lens@.len() - 1);
        }
        let k: usize = (values[i] - low) as usize;
        let code: u64 = codes[k];
        let len: u32 = lens[k] as u32;
        proof {
            assert(1 <= lens@[k as int] <= 58);
            assert(codes@[k as int] == code_of(lens@, k as int));
            lemma_msb_len(code as nat, len as nat);
            lemma_msb_len(esc_code as nat, esc_len as nat);
            lemma_msb_len(c as nat, 8);
            assert(0 <= len * c <= 58 * 255) by (nonlinear_arith)
                requires
                    0 <= len <= 58,
                    0 <= c <= 255,
            ;
        }
        if len + esc_len + 8 < len * c as u32 {
            w.put(code, len);
            w.put(esc_code, esc_len);
            w.put(c as u64, 8);
            assert(w@ =~= before + group_bits(lens@, k as int, c as int));
        } else {
            put_copies(&mut w, code, len, c + 1);
            assert(w@ =~= before + group_bits(lens@, k as int, c as int));
        }
        proof {
            let rest = value_bits(values@, lens@, low as int, i + 1 + c);
            assert(before + (group_bits(lens@, k as int, c as int) + rest) =~= w@ + rest);
        }
        if w.written() > 0xffff_ffff {
            return None;
        }
        i = i + 1 + c;
    }
    assert(w@ + Seq::<bool>::empty() =~= w@);
    Some(w)
}

/// Write a payload for some values. It holds them.
pub fn huf_compress(values: &[u16]) -> (r: Result<Vec<u8>, ExrError>)
    ensures
        r matches Ok(v) ==> huf_payload(values@) == Some(v@) && huf_values(
            v@,
            values@.len() as int,
        ) == Some(values@),
        r matches Err(e) ==> e.fault() == Fault::Invalid && huf_payload(values@) is None,
{
    if values.len() == 0 {
        return Err(ExrError::invalid("Huffman payload: nothing to encode"));
    }
    let (low, high) = find_range(values);
    let freqs: Vec<u128> = count_values(values, low, high);
    proof {
        lemma_freqs_sum(freqs@, freqs@.len() as int);
        lemma_value_code(values@);
    }
    let lens: Vec<u8> = build_code_lengths(freqs);
    let table: Vec<u8> = pack_code_lengths(lens.as_slice());
    let t: CodeTable = CodeTable::new(lens);
    let codes: Vec<u64> = t.codes();
    let w: BitWriter = match put_values(values, t.lens.as_slice(), codes.as_slice(), low) {
        Some(w) => w,
        None => {
            return Err(ExrError::invalid("Huffman payload: bit count overflows u32"));
        },
    };
    let (data, count) = w.finish();
    proof {
        lemma_table_len(t.lens@, 0);
        lemma_packed_bits(length_bits(t.lens@, 0));
    }
    let mut out: Vec<u8> = Vec::new();
    put_u32(&mut out, low as u32);
    put_u32(&mut out, high as u32 + 1);
    put_u32(&mut out, table.len() as u32);
    put_u32(&mut out, count as u32);
    put_u32(&mut out, 0);
    put_bytes(&mut out, table.as_slice());
    put_bytes(&mut out, data.as_slice());
    proof {
        assert(out@ =~= huf_payload(values@)->Some_0);
        law_huf_round_trip(values@);
    }
    Ok(out)
}

/// The table of code lengths is short.
proof fn lemma_table_len(lens: Seq<u8>, k: int)
    requires
        0 <= k <= lens.len(),
    ensures
        length_bits(lens, k).len() <= 14 * (lens.len() - k),
    decreases lens.len() - k,
{
    if k < lens.len() {
        if lens[k] != 0 {
            lemma_msb_len(lens[k] as nat, 6);
            lemma_table_len(lens, k + 1);
        } else {
            let r = zeros(lens, k, 261);
            lemma_zeros(lens, k, 261);
            lemma_msb_len(63, 6);
            lemma_msb_len((r - 6) as nat, 8);
            lemma_msb_len((57 + r) as nat, 6);
            lemma_msb_len(0, 6);
            lemma_table_len(lens, k + r);
        }
    }
}

// ----------------------------------------------------------------------
// What was written reads back
// ----------------------------------------------------------------------
/// Where the code of a symbol lies, the symbol is read.
proof fn lemma_symbol_lies(lens: Seq<u8>, bits: Seq<bool>, pos: int, k: int)
    requires
        is_complete_code(lens),
        0 <= k < lens.len(),
        1 <= lens[k] <= 58,
        lies_at(bits, pos, symbol_bits(lens, k)),
    ensures
        symbol_at(lens, bits, pos) == Some((k, lens[k] as int)),
        symbol_bits(lens, k).len() == lens[k],
{
    let c = code_of(lens, k);
    let n = lens[k] as int;
    lemma_code_names(lens, k);
    lemma_complete_fits(lens, n);
    crate::code::lemma_first_code_bound(lens, n);
    lemma_msb_len(c as nat, n as nat);
    lemma_number_at(bits, pos, c as nat, n as nat);
    law_symbol_reads_back(lens, bits, pos, k);
}

/// Copies of a code that lie among the bits are read as copies of its value.
proof fn lemma_copies_read(
    lens: Seq<u8>,
    low: int,
    bits: Seq<bool>,
    pos: int,
    out: Seq<u16>,
    expected: int,
    k: int,
    n: int,
)
    requires
        is_complete_code(lens),
        0 <= low,
        low + lens.len() <= 0x1_0001,
        0 <= k < lens.len() - 1,
        1 <= lens[k] <= 58,
        0 <= n,
        out.len() + n <= expected,
        lies_at(bits, pos, bit_copies(symbol_bits(lens, k), n)),
    ensures
        decoded(lens, low, bits, pos, out, expected) == decoded(
            lens,
            low,
            bits,
            pos + bit_copies(symbol_bits(lens, k), n).len(),
            out + copies((low + k) as u16, n),
            expected,
        ),
    decreases n,
{
    let part = symbol_bits(lens, k);
    let v = (low + k) as u16;
    if n == 0 {
        assert(out + copies(v, 0) =~= out);
    } else {
        lemma_lies_split(bits, pos, part, bit_copies(part, n - 1));
        lemma_symbol_lies(lens, bits, pos, k);
        lemma_copies_read(lens, low, bits, pos + part.len(), out.push(v), expected, k, n - 1);
        assert(out.push(v) + copies(v, n - 1) =~= out + copies(v, n));
    }
}

/// A value and its repetitions are read back.
proof fn lemma_group_read(
    lens: Seq<u8>,
    low: int,
    bits: Seq<bool>,
    pos: int,
    out: Seq<u16>,
    expected: int,
    k: int,
    c: int,
)
    requires
        is_complete_code(lens),
        0 <= low,
        low + lens.len() <= 0x1_0001,
        0 <= k < lens.len() - 1,
        1 <= lens[k] <= 58,
        1 <= lens[lens.len() - 1] <= 58,
        0 <= c <= 255,
        out.len() + c + 1 <= expected,
        lies_at(bits, pos, group_bits(lens, k, c)),
    ensures
        decoded(lens, low, bits, pos, out, expected) == decoded(
            lens,
            low,
            bits,
            pos + group_bits(lens, k, c).len(),
            out + copies((low + k) as u16, c + 1),
            expected,
        ),
{
    let e = lens.len() - 1;
    let v = (low + k) as u16;
    if lens[k] + lens[e] + 8 < lens[k] * c {
        let a = symbol_bits(lens, k);
        let b = symbol_bits(lens, e);
        let n = msb(c as nat, 8);
        lemma_lies_split(bits, pos, a, b + n);
        lemma_lies_split(bits, pos + a.len(), b, n);
        lemma_symbol_lies(lens, bits, pos, k);
        lemma_symbol_lies(lens, bits, pos + a.len(), e);
        assert(power_of_two(8) == 256) by {
            reveal_with_fuel(power_of_two, 9);
        }
        lemma_msb_len(c as nat, 8);
        lemma_number_at(bits, pos + a.len() + b.len(), c as nat, 8);
        let one = out.push(v);
        assert(decoded(lens, low, bits, pos, out, expected) == decoded(
            lens,
            low,
            bits,
            pos + a.len(),
            one,
            expected,
        ));
        assert(one.last() == v);
        assert(one + copies(v, c) =~= out + copies(v, c + 1));
        assert(c >= 1) by (nonlinear_arith)
            requires
                lens[k] + lens[e] + 8 < lens[k] * c,
                lens[k] >= 0,
                lens[e] >= 0,
                c >= 0,
        ;
    } else {
        lemma_copies_read(lens, low, bits, pos, out, expected, k, c + 1);
    }
}

/// The values from `i` on are read back.
proof fn lemma_values_read(
    values: Seq<u16>,
    lens: Seq<u8>,
    low: int,
    bits: Seq<bool>,
    pos: int,
    i: int,
)
    requires
        is_complete_code(lens),
        0 <= low,
        low + lens.len() <= 0x1_0001,
        lens.len() >= 1,
        1 <= lens[lens.len() - 1] <= 58,
        forall|j: int|
            0 <= j < values.len() ==> 0 <= #[trigger] values[j] - low < lens.len() - 1 && 1
                <= lens[values[j] - low] <= 58,
        0 <= i <= values.len(),
        lies_at(bits, pos, value_bits(values, lens, low, i)),
    ensures
        decoded(lens, low, bits, pos, values.take(i), values.len() as int) == Some(values),
    decreases values.len() - i,
{
    let n = values.len() as int;
    if i == n {
        assert(values.take(n) =~= values);
    } else {
        let v = values[i];
        let c = repeats(values, v, i + 1, 255);
        lemma_repeats(values, v, i + 1, 255);
        let k = v - low;
        assert(0 <= values[i] - low < lens.len() - 1);
        let part = group_bits(lens, k, c);
        lemma_lies_split(bits, pos, part, value_bits(values, lens, low, i + 1 + c));
        lemma_group_read(lens, low, bits, pos, values.take(i), n, k, c);
        assert((low + k) as u16 == v);
        assert(values.take(i) + copies(v, c + 1) =~= values.take(i + 1 + c)) by {
            assert forall|j: int| i <= j < i + 1 + c implies values[j] == v by {}
        }
        lemma_values_read(values, lens, low, bits, pos + part.len(), i + 1 + c);
    }
}

/// The bits of a byte string are those of its parts.
proof fn lemma_bits_of_sum(a: Seq<u8>, b: Seq<u8>)
    ensures
        bits_in(a + b).take(8 * a.len() as int) == bits_in(a),
{
    assert forall|k: int| 0 <= k < 8 * a.len() implies bits_in(a + b)[k] == bits_in(a)[k] by {
        assert((a + b)[k / 8] == a[k / 8]);
    }
    assert(bits_in(a + b).take(8 * a.len() as int) =~= bits_in(a));
}

/// The table of a payload is read back.
proof fn lemma_table_read(lens: Seq<u8>, data: Seq<u8>)
    requires
        lens_valid(lens),
    ensures
        ({
            let lb = length_bits(lens, 0);
            let table = packed_bits(lb);
            &&& lengths_at(bits_in(table + data), 0, lens.len() as int) == Some(
                (lens, lb.len() as int),
            )
            &&& (table + data).skip((lb.len() as int + 7) / 8) == data
        }),
{
    let lb = length_bits(lens, 0);
    let table = packed_bits(lb);
    let all = bits_in(table + data);
    lemma_packed_bits(lb);
    lemma_bits_of_sum(table, data);
    assert forall|i: int| 0 <= i < lb.len() implies all[i] == lb[i] by {
        assert(bits_in(table).take(lb.len() as int)[i] == lb[i]);
        assert(all.take(8 * table.len() as int)[i] == bits_in(table)[i]);
    }
    assert(all.subrange(0, lb.len() as int) =~= lb);
    law_lengths_read_back(lens, 0, all, 0);
    assert(lens.skip(0) =~= lens);
    assert((table + data).skip((lb.len() as int + 7) / 8) =~= data);
}

/// The data of a payload are read back.
proof fn lemma_data_read(values: Seq<u16>)
    requires
        1 <= values.len() <= u64::MAX,
    ensures
        ({
            let lens = value_lens(values);
            let bits = value_bits(values, lens, low_of(values), 0);
            &&& decoded(lens, low_of(values), bits, 0, Seq::empty(), values.len() as int) == Some(values)
            &&& bits_in(packed_bits(bits)).take(bits.len() as int) == bits
            &&& 8 * packed_bits(bits).len() >= bits.len()
            &&& lens_valid(lens)
            &&& has_codes(lens)
            &&& codes_fit(lens)
            &&& lens.len() == high_of(values) - low_of(values) + 2
            &&& 0 <= low_of(values) <= high_of(values) <= 0xffff
        }),
{
    let lens = value_lens(values);
    let low = low_of(values);
    let bits = value_bits(values, lens, low, 0);
    lemma_value_code(values);
    lemma_packed_bits(bits);
    assert(lens[lens.len() - 1] != 0);
    lemma_complete_codes_fit(lens);
    assert(bits.subrange(0, bits.len() as int) =~= bits);
    lemma_values_read(values, lens, low, bits, 0, 0);
    assert(values.take(0) =~= Seq::empty());
}

/// A payload is read by its parts.
proof fn lemma_huf_parts(
    s: Seq<u8>,
    low: u32,
    high: u32,
    lens: Seq<u8>,
    bits: Seq<bool>,
    data: Seq<u8>,
    expected: int,
)
    requires
        expected > 0,
        bits.len() <= u32::MAX,
        low <= high < 0x1_0001,
        lens.len() == high - low + 1,
        lens_valid(lens),
        has_codes(lens),
        codes_fit(lens),
        8 * data.len() >= bits.len(),
        bits_in(data).take(bits.len() as int) == bits,
        s == u32_le(low) + (u32_le(high) + (u32_le(packed_bits(length_bits(lens, 0)).len() as u32) + (
        u32_le(bits.len() as u32) + (u32_le(0) + (packed_bits(length_bits(lens, 0)) + data))))),
    ensures
        huf_values(s, expected) == decoded(lens, low as int, bits, 0, Seq::empty(), expected),
{
    let table = packed_bits(length_bits(lens, 0));
    lemma_payload_parts(s, low, high, table, bits.len() as u32, data);
    lemma_table_read(lens, data);
}

/// A payload holds its values.
pub proof fn law_huf_round_trip(values: Seq<u16>)
    requires
        values.len() <= u64::MAX,
        huf_payload(values) is Some,
    ensures
        huf_values(huf_payload(values)->Some_0, values.len() as int) == Some(values),
{
    let s = huf_payload(values)->Some_0;
    let low = low_of(values);
    let high = high_of(values);
    let lens = value_lens(values);
    let bits = value_bits(values, lens, low, 0);
    lemma_data_read(values);
    lemma_huf_parts(
        s,
        low as u32,
        (high + 1) as u32,
        lens,
        bits,
        packed_bits(bits),
        values.len() as int,
    );
}

/// The parts of a payload.
proof fn lemma_payload_parts(s: Seq<u8>, low: u32, high: u32, table: Seq<u8>, count: u32, data: Seq<u8>)
    requires
        s == u32_le(low) + (u32_le(high) + (u32_le(table.len() as u32) + (u32_le(count) + (u32_le(0)
            + (table + data))))),
    ensures
        s.len() >= 20,
        u32_at(s, 0) == low,
        u32_at(s, 4) == high,
        u32_at(s, 12) == count,
        s.skip(20) == table + data,
{
    let e = table + data;
    let d = u32_le(0) + e;
    let c = u32_le(count) + d;
    let b = u32_le(table.len() as u32) + c;
    let a = u32_le(high) + b;
    assert(s.subrange(0, s.len() as int) =~= s);
    lemma_stands_split(s, 0, u32_le(low), a);
    lemma_stands_split(s, 4, u32_le(high), b);
    lemma_stands_split(s, 8, u32_le(table.len() as u32), c);
    lemma_stands_split(s, 12, u32_le(count), d);
    lemma_stands_split(s, 16, u32_le(0), e);
    lemma_u32_reads_back(s, 0, low);
    lemma_u32_reads_back(s, 4, high);
    lemma_u32_reads_back(s, 12, count);
    assert(s.skip(20) =~= e);
}

} // verus!
