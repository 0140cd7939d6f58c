//! How Huffman codes are numbered, and where the parts of a payload stand.

use crate::bits::{bits_in, lemma_msb_len, msb, packed_bits, peek};
use crate::bytes::u32_le;
use crate::code::{code_end, code_of, first_code, symbol_at, symbols_below};
use crate::format_laws::{law_numbers, law_written_numbers, number_at};
use crate::huf::{
    bit_copies, decoded, group_bits, high_of, huf_payload, huf_values, largest, length_bits,
    lengths_at, low_of, occurrences, repeats, smallest, symbol_bits, value_bits, value_freqs,
    value_lens, zeros,
};
use vstd::prelude::*;

verus! {

// ----------------------------------------------------------------------
// Codes
// ----------------------------------------------------------------------
proof fn lemma_grows(lens: Seq<u8>, l: int, a: int, b: int)
    requires
        0 <= a <= b <= lens.len(),
    ensures
        symbols_below(lens, l, a).len() <= symbols_below(lens, l, b).len(),
        a < b && lens[a] == l ==> symbols_below(lens, l, a).len() < symbols_below(lens, l, b).len(),
        (forall|i: int| a < i < b ==> #[trigger] lens[i] != l) && a < b && lens[a] == l
            ==> symbols_below(lens, l, b).len() == symbols_below(lens, l, a).len() + 1,
    decreases b - a,
{
    if a < b {
        lemma_grows(lens, l, a, b - 1);
        if a < b - 1 && (forall|i: int| a < i < b ==> #[trigger] lens[i] != l) {
            assert(lens[b - 1] != l);
            assert(forall|i: int| a < i < b - 1 ==> #[trigger] lens[i] != l);
        }
    }
}

/// Of codes of one length, that of a later symbol is the greater one, and that of the
/// next symbol is greater by one.
pub proof fn law_codes_of_a_length(lens: Seq<u8>, a: int, b: int)
    requires
        0 <= a < b < lens.len(),
        lens[a] == lens[b],
    ensures
        code_of(lens, a) < code_of(lens, b),
        (forall|i: int| a < i < b ==> #[trigger] lens[i] != lens[a]) ==> code_of(lens, b) == code_of(
            lens,
            a,
        ) + 1,
{
    lemma_grows(lens, lens[a] as int, a, b);
}

/// A number without its last `n` binary digits.
pub open spec fn cut(v: int, n: int) -> int
    decreases n,
{
    if n <= 0 {
        v
    } else {
        cut(v, n - 1) / 2
    }
}

proof fn lemma_longer_code(lens: Seq<u8>, a: int, d: int)
    requires
        0 <= a < lens.len(),
        lens[a] <= 58,
        1 <= d <= lens[a],
    ensures
        cut(code_of(lens, a), d) <= first_code(lens, lens[a] - d),
    decreases d,
{
    let l = lens[a] as int;
    if d == 1 {
        lemma_grows(lens, l, a, lens.len() as int);
        assert(cut(code_of(lens, a), 0) == code_of(lens, a));
        assert(code_of(lens, a) < code_end(lens, l));
    } else {
        lemma_longer_code(lens, a, d - 1);
    }
}

/// Longer codes come first: a longer code, cut to the length of a shorter one, is not
/// greater than it.
pub proof fn law_longer_codes_first(lens: Seq<u8>, a: int, b: int)
    requires
        0 <= a < lens.len(),
        0 <= b < lens.len(),
        lens[b] < lens[a] <= 58,
    ensures
        cut(code_of(lens, a), lens[a] - lens[b]) <= code_of(lens, b),
{
    lemma_longer_code(lens, a, lens[a] - lens[b]);
}

proof fn lemma_no_symbols(lens: Seq<u8>, l: int, k: int)
    requires
        0 <= k <= lens.len(),
        forall|i: int| 0 <= i < k ==> #[trigger] lens[i] != l,
    ensures
        symbols_below(lens, l, k).len() == 0,
    decreases k,
{
    if k > 0 {
        lemma_no_symbols(lens, l, k - 1);
    }
}

proof fn lemma_no_longer(lens: Seq<u8>, l: int)
    requires
        forall|i: int| 0 <= i < lens.len() ==> #[trigger] lens[i] <= l,
    ensures
        first_code(lens, l) == 0,
    decreases 58 - l,
{
    if l < 58 {
        lemma_no_longer(lens, l + 1);
        lemma_no_symbols(lens, l + 1, lens.len() as int);
    }
}

/// The first symbol with the longest code has the code 0.
pub proof fn law_first_code(lens: Seq<u8>, a: int)
    requires
        0 <= a < lens.len(),
        forall|i: int| 0 <= i < lens.len() ==> #[trigger] lens[i] <= lens[a],
        forall|i: int| 0 <= i < a ==> #[trigger] lens[i] != lens[a],
    ensures
        code_of(lens, a) == 0,
{
    lemma_no_longer(lens, lens[a] as int);
    lemma_no_symbols(lens, lens[a] as int, a);
}

/// The code of the first symbol of a length is half of what follows the last code of
/// the next greater length.
pub proof fn law_next_length(lens: Seq<u8>, a: int, b: int)
    requires
        0 <= a < lens.len(),
        0 <= b < lens.len(),
        lens[b] <= 58,
        lens[a] == lens[b] - 1,
        forall|i: int| 0 <= i < a ==> #[trigger] lens[i] != lens[a],
        forall|i: int| b < i < lens.len() ==> #[trigger] lens[i] != lens[b],
    ensures
        code_of(lens, a) == (code_of(lens, b) + 1) / 2,
{
    lemma_no_symbols(lens, lens[a] as int, a);
    lemma_grows(lens, lens[b] as int, b, lens.len() as int);
}

// ----------------------------------------------------------------------
// Lengths
// ----------------------------------------------------------------------
/// How many lengths the six bits at `pos` stand for, and where the next ones stand.
pub open spec fn length_step(bits: Seq<bool>, pos: int) -> (int, int) {
    let v = peek(bits, pos, 6) as int;
    if v <= 58 {
        (1, pos + 6)
    } else if v < 63 {
        (v - 57, pos + 6)
    } else {
        (peek(bits, pos + 6, 8) as int + 6, pos + 14)
    }
}

/// The lengths of the codes stand in six bits each. The numbers 59 to 62 stand for two
/// to five symbols without a code; 63 and the eight bits behind it for six more than
/// those say.
pub proof fn law_length_table(bits: Seq<bool>, pos: int, n: int, lens: Seq<u8>, end: int)
    requires
        0 < n,
        lengths_at(bits, pos, n) == Some((lens, end)),
    ensures
        lens.len() == n,
        ({
            let v = peek(bits, pos, 6) as int;
            let (run, stop) = length_step(bits, pos);
            &&& run <= n
            &&& lengths_at(bits, stop, n - run) == Some((lens.skip(run), end))
            &&& v <= 58 ==> lens[0] == v
            &&& v > 58 ==> forall|i: int| 0 <= i < run ==> #[trigger] lens[i] == 0
        }),
    decreases n,
{
    let (run, stop) = length_step(bits, pos);
    let (rest, last) = lengths_at(bits, stop, n - run)->Some_0;
    lemma_length_count(bits, stop, n - run);
    assert(lens.skip(run) =~= rest);
}

proof fn lemma_length_count(bits: Seq<bool>, pos: int, n: int)
    requires
        0 <= n,
        lengths_at(bits, pos, n) is Some,
    ensures
        lengths_at(bits, pos, n)->Some_0.0.len() == n,
    decreases n,
{
    if n > 0 {
        let (run, stop) = length_step(bits, pos);
        lemma_length_count(bits, stop, n - run);
    }
}

// ----------------------------------------------------------------------
// Payloads
// ----------------------------------------------------------------------
proof fn lemma_least(values: Seq<u16>, n: int, i: int)
    requires
        0 <= i < n <= values.len(),
    ensures
        smallest(values, n) <= values[i] <= largest(values, n),
        exists|j: int| 0 <= j < n && #[trigger] values[j] == smallest(values, n),
        exists|j: int| 0 <= j < n && #[trigger] values[j] == largest(values, n),
    decreases n,
{
    if n > 1 {
        lemma_least(
            values,
            n - 1,
            if i < n - 1 {
                i
            } else {
                0
            },
        );
        let a = choose|j: int| 0 <= j < n - 1 && #[trigger] values[j] == smallest(values, n - 1);
        let b = choose|j: int| 0 <= j < n - 1 && #[trigger] values[j] == largest(values, n - 1);
        assert(values[a] == smallest(values, n - 1) && values[b] == largest(values, n - 1));
        assert(values[n - 1] == values[n - 1]);
    } else {
        assert(values[0] == smallest(values, n));
    }
}

/// A payload begins with five numbers of four bytes: the least value, one more than the
/// greatest, the bytes of the table of lengths, the bits of the values, and 0. The table
/// and the bits of the values follow.
pub proof fn law_huf_payload(values: Seq<u16>, p: Seq<u8>, i: int)
    requires
        huf_payload(values) == Some(p),
        0 <= i < values.len(),
    ensures
        number_at(p, 0, 4) <= values[i] < number_at(p, 4, 4),
        exists|j: int| 0 <= j < values.len() && #[trigger] values[j] == number_at(p, 0, 4),
        exists|j: int| 0 <= j < values.len() && #[trigger] values[j] == number_at(p, 4, 4) - 1,
        ({
            let lens = value_lens(values);
            let table = packed_bits(length_bits(lens, 0));
            let bits = value_bits(values, lens, number_at(p, 0, 4), 0);
            &&& table.len() <= u32::MAX ==> number_at(p, 8, 4) == table.len()
            &&& number_at(p, 12, 4) == bits.len()
            &&& number_at(p, 16, 4) == 0
            &&& p.skip(20) == table + packed_bits(bits)
        }),
{
    let low = low_of(values);
    let high = high_of(values);
    let lens = value_lens(values);
    let bits = value_bits(values, lens, low, 0);
    let table = packed_bits(length_bits(lens, 0));
    lemma_least(values, values.len() as int, i);
    let five = u32_le(low as u32) + (u32_le((high + 1) as u32) + (u32_le(table.len() as u32) + (
    u32_le(bits.len() as u32) + (u32_le(0)))));
    assert(p =~= five + (table + packed_bits(bits)));
    law_written_numbers(0, low as u32, 0, 0);
    law_written_numbers(0, (high + 1) as u32, 0, 0);
    law_written_numbers(0, table.len() as u32, 0, 0);
    law_written_numbers(0, bits.len() as u32, 0, 0);
    law_written_numbers(0, 0, 0, 0);
    reveal(u32_le);
    lemma_four(p, 0, u32_le(low as u32));
    lemma_four(p, 4, u32_le((high + 1) as u32));
    lemma_four(p, 8, u32_le(table.len() as u32));
    lemma_four(p, 12, u32_le(bits.len() as u32));
    lemma_four(p, 16, u32_le(0));
    assert(p.skip(20) =~= table + packed_bits(bits));
}

proof fn lemma_four(p: Seq<u8>, at: int, four: Seq<u8>)
    requires
        four.len() == 4,
        p[at] == four[0],
        p[at + 1] == four[1],
        p[at + 2] == four[2],
        p[at + 3] == four[3],
    ensures
        number_at(p, at, 4) == number_at(four, 0, 4),
{
    reveal_with_fuel(number_at, 5);
}

/// Values are read from a payload of that form: the lengths are those of the symbols
/// from the first number to the second, and the bits of the values begin with the byte
/// behind the lengths.
pub proof fn law_huf_values(s: Seq<u8>, expected: int, v: Seq<u16>)
    requires
        expected > 0,
        huf_values(s, expected) == Some(v),
    ensures
        s.len() >= 20,
        ({
            let (low, high) = (number_at(s, 0, 4), number_at(s, 4, 4));
            let count = number_at(s, 12, 4);
            &&& low <= high <= 0x1_0000
            &&& lengths_at(bits_in(s.skip(20)), 0, high - low + 1) matches Some((lens, end))
                && decoded(
                lens,
                low,
                bits_in(s.skip(20 + (end + 7) / 8)).take(count),
                0,
                Seq::empty(),
                expected,
            ) == Some(v)
        }),
{
    law_numbers(s, 0);
    law_numbers(s, 4);
    law_numbers(s, 12);
    let (low, high) = (number_at(s, 0, 4), number_at(s, 4, 4));
    let (lens, end) = lengths_at(bits_in(s.skip(20)), 0, high - low + 1)->Some_0;
    lemma_lengths_end(bits_in(s.skip(20)), 0, high - low + 1);
    assert(s.skip(20).skip((end + 7) / 8) =~= s.skip(20 + (end + 7) / 8));
}

proof fn lemma_lengths_end(bits: Seq<bool>, pos: int, n: int)
    requires
        0 <= pos <= bits.len(),
        lengths_at(bits, pos, n) is Some,
    ensures
        pos <= lengths_at(bits, pos, n)->Some_0.1 <= bits.len(),
    decreases n,
{
    if n > 0 {
        let (run, stop) = length_step(bits, pos);
        lemma_lengths_end(bits, stop, n - run);
    }
}

/// A symbol but the last stands for the value that is that much above the least.
pub proof fn law_huf_value(
    lens: Seq<u8>,
    low: int,
    bits: Seq<bool>,
    pos: int,
    out: Seq<u16>,
    expected: int,
    k: int,
    n: int,
)
    requires
        0 <= pos <= bits.len(),
        out.len() < expected,
        symbol_at(lens, bits, pos) == Some((k, n)),
        k < lens.len() - 1,
    ensures
        decoded(lens, low, bits, pos, out, expected) == decoded(
            lens,
            low,
            bits,
            pos + n,
            out + seq![(low + k) as u16],
            expected,
        ),
{
    assert(out + seq![(low + k) as u16] =~= out.push((low + k) as u16));
}

/// The last symbol and the eight bits behind it stand for as many more of the value in
/// front as those say.
pub proof fn law_huf_run(
    lens: Seq<u8>,
    low: int,
    bits: Seq<bool>,
    pos: int,
    out: Seq<u16>,
    v: u16,
    expected: int,
    n: int,
    more: Seq<u16>,
)
    requires
        0 <= pos,
        out.len() + 1 + more.len() <= expected,
        out.len() + 1 < expected,
        symbol_at(lens, bits, pos) == Some((lens.len() - 1, n)),
        pos + n + 8 <= bits.len(),
        more.len() == peek(bits, pos + n, 8),
        forall|i: int| 0 <= i < more.len() ==> #[trigger] more[i] == v,
    ensures
        decoded(lens, low, bits, pos, out.push(v), expected) == decoded(
            lens,
            low,
            bits,
            pos + n + 8,
            out.push(v) + more,
            expected,
        ),
{
    assert(more =~= crate::huf::copies(v, more.len() as int));
}

// ----------------------------------------------------------------------
// Runs that are written
// ----------------------------------------------------------------------
proof fn lemma_copies_len(part: Seq<bool>, n: int)
    requires
        0 <= n,
    ensures
        bit_copies(part, n).len() == n * part.len(),
    decreases n,
{
    if n > 0 {
        lemma_copies_len(part, n - 1);
        let z = part.len() as int;
        assert(n * z == (n - 1) * z + z) by (nonlinear_arith);
    } else {
        assert(0 * part.len() == 0);
    }
}

/// A value and more of the same are written in the fewer bits: one code for each, or one code,
/// that of the last symbol and eight bits.
pub proof fn law_shorter_group(lens: Seq<u8>, k: int, c: int)
    requires
        0 <= k < lens.len(),
        0 <= c <= 255,
    ensures
        ({
            let each = lens[k] * (c + 1);
            let run = lens[k] + lens.last() + 8;
            group_bits(lens, k, c).len() <= each && (group_bits(lens, k, c).len() == each
                || group_bits(lens, k, c).len() == run)
        }),
        lens[k] + lens.last() + 8 < lens[k] * c ==> group_bits(lens, k, c).len() == lens[k]
            + lens.last() + 8,
{
    let e = lens.len() - 1;
    lemma_msb_len(code_of(lens, k) as nat, lens[k] as nat);
    lemma_msb_len(code_of(lens, e) as nat, lens[e] as nat);
    lemma_msb_len(c as nat, 8);
    lemma_copies_len(symbol_bits(lens, k), c + 1);
    let z = lens[k] as int;
    assert(z * (c + 1) == z * c + z && (c + 1) * z == z * (c + 1)) by (nonlinear_arith);
}

/// Values are written in groups: a value and as many of the next as are the same, 255 at most.
pub proof fn law_value_groups(values: Seq<u16>, lens: Seq<u8>, low: int, i: int, c: int)
    requires
        0 <= i,
        0 <= c <= 255,
        i + c < values.len(),
        forall|j: int| i <= j <= i + c ==> #[trigger] values[j] == values[i],
        c == 255 || i + c + 1 == values.len() || values[i + c + 1] != values[i],
    ensures
        value_bits(values, lens, low, i) == group_bits(lens, values[i] - low, c) + value_bits(
            values,
            lens,
            low,
            i + 1 + c,
        ),
{
    lemma_repeats(values, values[i], i + 1, 255, c);
}

proof fn lemma_repeats(values: Seq<u16>, v: u16, i: int, cap: int, c: int)
    requires
        0 <= i,
        0 <= c <= cap,
        i + c <= values.len(),
        forall|j: int| i <= j < i + c ==> #[trigger] values[j] == v,
        c == cap || i + c == values.len() || values[i + c] != v,
    ensures
        repeats(values, v, i, cap) == c,
    decreases c,
{
    if c > 0 {
        assert(values[i] == v);
        lemma_repeats(values, v, i + 1, cap - 1, c - 1);
    }
}

/// The code is made for how often each value occurs; the last symbol counts once.
pub proof fn law_value_freqs(values: Seq<u16>, low: int, high: int, v: u16)
    requires
        0 <= low <= v <= high <= 0xffff,
    ensures
        value_freqs(values, low, high).len() == high - low + 2,
        values.len() <= u128::MAX ==> value_freqs(values, low, high)[v - low]
            == values.to_multiset().count(v),
        value_freqs(values, low, high).last() == 1,
{
    lemma_occurrences(values, v, values.len() as int);
    assert(values.take(values.len() as int) =~= values);
    lemma_occurrences_bound(values, v as int, values.len() as int);
}

proof fn lemma_occurrences(values: Seq<u16>, v: u16, n: int)
    requires
        0 <= n <= values.len(),
    ensures
        occurrences(values, v as int, n) == values.take(n).to_multiset().count(v),
    decreases n,
{
    broadcast use vstd::seq_lib::group_to_multiset_ensures;

    if n > 0 {
        lemma_occurrences(values, v, n - 1);
        assert(values.take(n) =~= values.take(n - 1).push(values[n - 1]));
    } else {
        assert(values.take(0) =~= Seq::empty());
    }
}

proof fn lemma_occurrences_bound(values: Seq<u16>, v: int, n: int)
    requires
        0 <= n,
    ensures
        0 <= occurrences(values, v, n) <= n,
    decreases n,
{
    if n > 0 {
        lemma_occurrences_bound(values, v, n - 1);
    }
}

/// Symbols without a code are written together, 261 at most: six bits for up to five of them,
/// fourteen for more.
pub proof fn law_lengths_written(lens: Seq<u8>, k: int, r: int)
    requires
        0 <= k < lens.len(),
        lens[k] == 0 ==> 1 <= r <= 261 && k + r <= lens.len() && (forall|j: int|
            k <= j < k + r ==> #[trigger] lens[j] == 0) && (r == 261 || k + r == lens.len() || lens[k
            + r] != 0),
    ensures
        lens[k] != 0 ==> length_bits(lens, k) == msb(lens[k] as nat, 6) + length_bits(lens, k + 1),
        lens[k] == 0 && r == 1 ==> length_bits(lens, k) == msb(0, 6) + length_bits(lens, k + 1),
        lens[k] == 0 && 2 <= r <= 5 ==> length_bits(lens, k) == msb((57 + r) as nat, 6) + length_bits(
            lens,
            k + r,
        ),
        lens[k] == 0 && r >= 6 ==> length_bits(lens, k) == msb(63, 6) + msb((r - 6) as nat, 8)
            + length_bits(lens, k + r),
{
    if lens[k] == 0 {
        lemma_zeros(lens, k, 261, r);
    }
}

proof fn lemma_zeros(lens: Seq<u8>, k: int, cap: int, r: int)
    requires
        0 <= k,
        0 <= r <= cap,
        k + r <= lens.len(),
        forall|j: int| k <= j < k + r ==> #[trigger] lens[j] == 0,
        r == cap || k + r == lens.len() || lens[k + r] != 0,
    ensures
        zeros(lens, k, cap) == r,
    decreases r,
{
    if r > 0 {
        assert(lens[k] == 0);
        lemma_zeros(lens, k + 1, cap - 1, r - 1);
    }
}

} // verus!
