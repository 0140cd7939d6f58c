//! Canonical prefix codes: codes that follow from their lengths alone.
//!
//! Codes have up to 58 bits. Those of one length are consecutive numbers, in
//! the order of their symbols. Where the codes of a length begin follows from
//! the number of longer ones.

use crate::bits::{digit, peek};
use crate::half::power_of_two;
use vstd::arithmetic::div_mod::*;
use vstd::arithmetic::mul::*;
use vstd::prelude::*;

verus! {

/// The longest code.
pub const MAX_CODE_LEN: usize = 58;

/// The symbols below `k` whose codes have length `l`.
pub open spec fn symbols_below(lens: Seq<u8>, l: int, k: int) -> Seq<int>
    decreases k,
{
    if k <= 0 {
        Seq::empty()
    } else if lens[k - 1] == l {
        symbols_below(lens, l, k - 1).push(k - 1)
    } else {
        symbols_below(lens, l, k - 1)
    }
}

/// The symbols whose codes have length `l`.
pub open spec fn symbols_of(lens: Seq<u8>, l: int) -> Seq<int> {
    symbols_below(lens, l, lens.len() as int)
}

/// The number of codes of length `l`.
pub open spec fn code_count(lens: Seq<u8>, l: int) -> int {
    symbols_of(lens, l).len() as int
}

/// The smallest code of length `l`.
pub open spec fn first_code(lens: Seq<u8>, l: int) -> int
    decreases 58 - l,
{
    if l >= 58 {
        0
    } else {
        (first_code(lens, l + 1) + code_count(lens, l + 1)) / 2
    }
}

/// The number behind the codes of length `l`.
pub open spec fn code_end(lens: Seq<u8>, l: int) -> int {
    first_code(lens, l) + code_count(lens, l)
}

/// The code of symbol `k`.
pub open spec fn code_of(lens: Seq<u8>, k: int) -> int {
    first_code(lens, lens[k] as int) + symbols_below(lens, lens[k] as int, k).len()
}

/// The symbol with the code `v` of length `l`.
pub open spec fn symbol_for(lens: Seq<u8>, l: int, v: int) -> Option<int> {
    if first_code(lens, l) <= v < code_end(lens, l) {
        Some(symbols_of(lens, l)[v - first_code(lens, l)])
    } else {
        None
    }
}

/// The codes of every length fit in that many bits.
pub open spec fn codes_fit(lens: Seq<u8>) -> bool {
    forall|l: int|
        1 <= l <= 58 ==> code_count(lens, l) == 0 || #[trigger] code_end(lens, l) <= power_of_two(
            l as nat,
        )
}

/// No code is a prefix of another, and every sequence of bits begins with a
/// code.
pub open spec fn is_complete_code(lens: Seq<u8>) -> bool {
    &&& first_code(lens, 0) == 1
    &&& forall|l: int|
        1 <= l <= 58 ==> #[trigger] code_end(lens, l) == 2 * first_code(lens, l - 1)
}

/// Every length is at most 58.
pub open spec fn lens_valid(lens: Seq<u8>) -> bool {
    forall|k: int| 0 <= k < lens.len() ==> #[trigger] lens[k] <= 58
}

// ----------------------------------------------------------------------
// The symbol that stands in a stream of bits
// ----------------------------------------------------------------------
/// The greater of two symbols.
pub open spec fn greater_symbol(a: Option<int>, b: Option<int>) -> Option<int> {
    match (a, b) {
        (Some(x), Some(y)) => if x < y {
            Some(y)
        } else {
            Some(x)
        },
        (Some(x), None) => Some(x),
        _ => b,
    }
}

/// The greatest symbol with a code of up to `l` bits that the bits at `pos`
/// begin with; bits behind the end are zero.
pub open spec fn short_symbol(lens: Seq<u8>, bits: Seq<bool>, pos: int, l: int) -> Option<int>
    decreases l,
{
    if l <= 0 {
        None
    } else {
        greater_symbol(
            short_symbol(lens, bits, pos, l - 1),
            symbol_for(lens, l, peek(bits, pos, l) as int),
        )
    }
}

/// The symbol with the shortest code of at least `l` bits that stands at
/// `pos`, and the length of that code.
pub open spec fn long_symbol(lens: Seq<u8>, bits: Seq<bool>, pos: int, l: int) -> Option<(int, int)>
    decreases 59 - l,
{
    if l > 58 || pos + l > bits.len() {
        None
    } else {
        match symbol_for(lens, l, peek(bits, pos, l) as int) {
            Some(k) => Some((k, l)),
            None => long_symbol(lens, bits, pos, l + 1),
        }
    }
}

/// The symbol that stands at `pos`, and the length of its code. Codes of up to
/// 14 bits come first.
pub open spec fn symbol_at(lens: Seq<u8>, bits: Seq<bool>, pos: int) -> Option<(int, int)> {
    match short_symbol(lens, bits, pos, 14) {
        Some(k) => if pos + lens[k] <= bits.len() {
            Some((k, lens[k] as int))
        } else {
            None
        },
        None => long_symbol(lens, bits, pos, 15),
    }
}

// ----------------------------------------------------------------------
// Lists of symbols
// ----------------------------------------------------------------------
pub proof fn lemma_symbols_below(lens: Seq<u8>, l: int, k: int)
    requires
        0 <= k <= lens.len(),
    ensures
        symbols_below(lens, l, k).len() <= k,
        forall|r: int|
            0 <= r < symbols_below(lens, l, k).len() ==> {
                let x = #[trigger] symbols_below(lens, l, k)[r];
                0 <= x < k && lens[x] == l
            },
    decreases k,
{
    if k > 0 {
        lemma_symbols_below(lens, l, k - 1);
    }
}

/// The list of a symbol's length has the symbol at its place.
proof fn lemma_symbol_place(lens: Seq<u8>, k: int, n: int)
    requires
        0 <= k < n <= lens.len(),
    ensures
        ({
            let l = lens[k] as int;
            let r = symbols_below(lens, l, k).len() as int;
            &&& r < symbols_below(lens, l, n).len()
            &&& symbols_below(lens, l, n)[r] == k
        }),
    decreases n,
{
    if k < n - 1 {
        lemma_symbol_place(lens, k, n - 1);
    }
}

/// The code of a symbol is one of its length, and names that symbol.
pub proof fn lemma_code_names(lens: Seq<u8>, k: int)
    requires
        0 <= k < lens.len(),
    ensures
        first_code(lens, lens[k] as int) <= code_of(lens, k) < code_end(lens, lens[k] as int),
        symbol_for(lens, lens[k] as int, code_of(lens, k)) == Some(k),
{
    lemma_symbol_place(lens, k, lens.len() as int);
}

/// Where a length's codes begin is at most the number of symbols.
pub proof fn lemma_first_code_bound(lens: Seq<u8>, l: int)
    ensures
        0 <= first_code(lens, l) <= lens.len(),
    decreases 58 - l,
{
    if l < 58 {
        lemma_first_code_bound(lens, l + 1);
        lemma_symbols_below(lens, l + 1, lens.len() as int);
    }
}

/// The symbol that a code names has that length.
pub proof fn lemma_symbol_for(lens: Seq<u8>, l: int, v: int)
    ensures
        symbol_for(lens, l, v) matches Some(k) ==> 0 <= k < lens.len() && lens[k] == l,
{
    lemma_symbols_below(lens, l, lens.len() as int);
    if let Some(k) = symbol_for(lens, l, v) {
        let r = v - first_code(lens, l);
        assert(symbols_below(lens, l, lens.len() as int)[r] == k);
    }
}

/// The symbol at a position is one of the code, and its code has a bit.
pub proof fn lemma_short_symbol(lens: Seq<u8>, bits: Seq<bool>, pos: int, l: int)
    ensures
        short_symbol(lens, bits, pos, l) matches Some(k) ==> 0 <= k < lens.len() && 1 <= lens[k]
            <= l,
    decreases l,
{
    if l > 0 {
        lemma_short_symbol(lens, bits, pos, l - 1);
        lemma_symbol_for(lens, l, peek(bits, pos, l) as int);
    }
}

pub proof fn lemma_long_symbol(lens: Seq<u8>, bits: Seq<bool>, pos: int, l: int)
    requires
        l >= 1,
    ensures
        long_symbol(lens, bits, pos, l) matches Some((k, n)) ==> 0 <= k < lens.len() && lens[k] == n
            && l <= n <= 58 && pos + n <= bits.len(),
    decreases 59 - l,
{
    if l <= 58 && pos + l <= bits.len() {
        lemma_symbol_for(lens, l, peek(bits, pos, l) as int);
        lemma_long_symbol(lens, bits, pos, l + 1);
    }
}

pub proof fn lemma_symbol_at(lens: Seq<u8>, bits: Seq<bool>, pos: int)
    ensures
        symbol_at(lens, bits, pos) matches Some((k, n)) ==> 0 <= k < lens.len() && lens[k] == n && 1
            <= n <= 58 && pos + n <= bits.len(),
{
    lemma_short_symbol(lens, bits, pos, 14);
    lemma_long_symbol(lens, bits, pos, 15);
}

// ----------------------------------------------------------------------
// Complete codes
// ----------------------------------------------------------------------
/// The codes of a complete code fit.
pub proof fn lemma_complete_fits(lens: Seq<u8>, l: int)
    requires
        is_complete_code(lens),
        0 <= l <= 58,
    ensures
        first_code(lens, l) <= power_of_two(l as nat),
        l >= 1 ==> code_end(lens, l) <= power_of_two(l as nat),
    decreases l,
{
    if l > 0 {
        lemma_complete_fits(lens, l - 1);
        assert(code_end(lens, l) == 2 * first_code(lens, l - 1));
    }
}

pub proof fn lemma_complete_codes_fit(lens: Seq<u8>)
    requires
        is_complete_code(lens),
    ensures
        codes_fit(lens),
{
    assert forall|l: int| 1 <= l <= 58 implies code_count(lens, l) == 0 || #[trigger] code_end(
        lens,
        l,
    ) <= power_of_two(l as nat) by {
        lemma_complete_fits(lens, l);
    }
}

pub proof fn lemma_power_pos(n: nat)
    ensures
        power_of_two(n) >= 1,
    decreases n,
{
    if n > 0 {
        lemma_power_pos((n - 1) as nat);
    }
}

/// Halving `n` times more.
proof fn lemma_halve(x: int, n: nat)
    requires
        x >= 0,
        n > 0,
    ensures
        x / power_of_two(n) as int == (x / power_of_two((n - 1) as nat) as int) / 2,
        x / power_of_two(n) as int == (x / 2) / power_of_two((n - 1) as nat) as int,
{
    let p = power_of_two((n - 1) as nat) as int;
    lemma_power_pos((n - 1) as nat);
    lemma_div_denominator(x, p, 2);
    lemma_div_denominator(x, 2, p);
    lemma_mul_is_commutative(p, 2);
}

/// A number below the end of a length's codes begins with no shorter code: it
/// lies below all of them.
proof fn lemma_prefix_below(lens: Seq<u8>, big: int, small: int, x: int)
    requires
        is_complete_code(lens),
        0 <= small < big <= 58,
        0 <= x < code_end(lens, big),
    ensures
        x / (power_of_two((big - small) as nat) as int) < first_code(lens, small),
    decreases big - small,
{
    assert(code_end(lens, big) == 2 * first_code(lens, big - 1));
    let n = (big - small) as nat;
    if big - 1 == small {
        assert(power_of_two(1) == 2) by {
            reveal_with_fuel(power_of_two, 2);
        }
    } else {
        lemma_symbols_below(lens, big - 1, lens.len() as int);
        lemma_prefix_below(lens, big - 1, small, x / 2);
        lemma_halve(x, n);
    }
}

/// What more bits spell begins with what fewer bits spell.
proof fn lemma_peek_prefix(bits: Seq<bool>, pos: int, big: int, small: int)
    requires
        0 <= small <= big,
    ensures
        peek(bits, pos, big) as int / power_of_two((big - small) as nat) as int == peek(
            bits,
            pos,
            small,
        ),
    decreases big - small,
{
    let x = peek(bits, pos, big) as int;
    if small < big {
        let n = (big - small) as nat;
        lemma_peek_prefix(bits, pos, big - 1, small);
        lemma_halve(x, n);
        assert(x / 2 == peek(bits, pos, big - 1));
    } else {
        assert(power_of_two(0) == 1);
        assert(x / 1 == x);
    }
}

/// Where the code of symbol `k` stands, no code of another length does.
proof fn lemma_no_other(lens: Seq<u8>, bits: Seq<bool>, pos: int, k: int, l: int)
    requires
        is_complete_code(lens),
        0 <= k < lens.len(),
        1 <= lens[k] <= 58,
        1 <= l <= 58,
        l != lens[k],
        peek(bits, pos, lens[k] as int) == code_of(lens, k),
    ensures
        symbol_for(lens, l, peek(bits, pos, l) as int) is None,
{
    let own = lens[k] as int;
    lemma_code_names(lens, k);
    if l < own {
        lemma_prefix_below(lens, own, l, code_of(lens, k));
        lemma_peek_prefix(bits, pos, own, l);
    } else {
        let v = peek(bits, pos, l) as int;
        lemma_peek_prefix(bits, pos, l, own);
        if v < code_end(lens, l) {
            lemma_prefix_below(lens, l, own, v);
        }
    }
}

proof fn lemma_short_none(lens: Seq<u8>, bits: Seq<bool>, pos: int, k: int, l: int)
    requires
        is_complete_code(lens),
        0 <= k < lens.len(),
        1 <= lens[k] <= 58,
        l < lens[k],
        peek(bits, pos, lens[k] as int) == code_of(lens, k),
    ensures
        short_symbol(lens, bits, pos, l) is None,
    decreases l,
{
    if l > 0 {
        lemma_short_none(lens, bits, pos, k, l - 1);
        lemma_no_other(lens, bits, pos, k, l);
    }
}

proof fn lemma_short_found(lens: Seq<u8>, bits: Seq<bool>, pos: int, k: int, l: int)
    requires
        is_complete_code(lens),
        0 <= k < lens.len(),
        1 <= lens[k] <= l <= 58,
        peek(bits, pos, lens[k] as int) == code_of(lens, k),
    ensures
        short_symbol(lens, bits, pos, l) == Some(k),
    decreases l,
{
    if l == lens[k] {
        lemma_short_none(lens, bits, pos, k, l - 1);
        lemma_code_names(lens, k);
    } else {
        lemma_short_found(lens, bits, pos, k, l - 1);
        lemma_no_other(lens, bits, pos, k, l);
    }
}

proof fn lemma_long_found(lens: Seq<u8>, bits: Seq<bool>, pos: int, k: int, l: int)
    requires
        is_complete_code(lens),
        0 <= k < lens.len(),
        1 <= l <= lens[k] <= 58,
        pos + lens[k] <= bits.len(),
        peek(bits, pos, lens[k] as int) == code_of(lens, k),
    ensures
        long_symbol(lens, bits, pos, l) == Some((k, lens[k] as int)),
    decreases 59 - l,
{
    if l == lens[k] {
        lemma_code_names(lens, k);
    } else {
        lemma_no_other(lens, bits, pos, k, l);
        lemma_long_found(lens, bits, pos, k, l + 1);
    }
}

/// Where the code of a symbol of a complete code stands, that symbol is read.
pub proof fn law_symbol_reads_back(lens: Seq<u8>, bits: Seq<bool>, pos: int, k: int)
    requires
        is_complete_code(lens),
        0 <= k < lens.len(),
        1 <= lens[k] <= 58,
        pos + lens[k] <= bits.len(),
        peek(bits, pos, lens[k] as int) == code_of(lens, k),
    ensures
        symbol_at(lens, bits, pos) == Some((k, lens[k] as int)),
{
    if lens[k] <= 14 {
        lemma_short_found(lens, bits, pos, k, 14);
    } else {
        lemma_short_none(lens, bits, pos, k, 14);
        lemma_long_found(lens, bits, pos, k, 15);
    }
}

// ----------------------------------------------------------------------
// Tables
// ----------------------------------------------------------------------
/// A canonical code, ready for use.
pub struct CodeTable {
    pub lens: Vec<u8>,
    /// The smallest code of each length.
    pub first: Vec<u64>,
    /// The symbols of each length.
    pub symbols: Vec<Vec<u32>>,
}

/// The symbols that a list of numbers stands for.
pub open spec fn symbol_views(v: Seq<u32>) -> Seq<int> {
    Seq::new(v.len(), |i: int| v[i] as int)
}

impl CodeTable {
    /// The table is that of its lengths.
    pub open spec fn inv(&self) -> bool {
        &&& lens_valid(self.lens@)
        &&& self.lens@.len() <= 0x1_0001
        &&& self.first@.len() == 59
        &&& self.symbols@.len() == 59
        &&& forall|l: int|
            0 <= l <= 58 ==> #[trigger] self.first@[l] == first_code(self.lens@, l)
        &&& forall|l: int|
            0 <= l <= 58 ==> symbol_views((#[trigger] self.symbols@[l])@) == symbols_of(self.lens@, l)
    }

    /// Make the table for some lengths.
    pub fn new(lens: Vec<u8>) -> (r: CodeTable)
        requires
            lens_valid(lens@),
            lens@.len() <= 0x1_0001,
        ensures
            r.inv(),
            r.lens@ == lens@,
    {
        let symbols: Vec<Vec<u32>> = list_symbols(lens.as_slice());
        let mut back: Vec<u64> = Vec::new();
        back.push(0);
        let mut l: usize = 58;
        while l > 0
            invariant
                l <= 58,
                symbols@.len() == 59,
                forall|l: int|
                    0 <= l <= 58 ==> symbol_views((#[trigger] symbols@[l])@) == symbols_of(lens@, l),
                lens@.len() <= 0x1_0001,
                back@.len() == 59 - l,
                forall|i: int| 0 <= i < back@.len() ==> #[trigger] back@[i] == first_code(lens@, 58 - i),
            decreases l,
        {
            proof {
                lemma_first_code_bound(lens@, l as int);
                lemma_symbols_below(lens@, l as int, lens@.len() as int);
                assert(back@[58 - l] == first_code(lens@, l as int));
                assert(symbol_views(symbols@[l as int]@).len() == code_count(lens@, l as int));
            }
            let f: u64 = back[58 - l];
            let next: u64 = (f + symbols[l].len() as u64) / 2;
            back.push(next);
            l = l - 1;
        }
        let mut first: Vec<u64> = Vec::new();
        let mut i: usize = 0;
        while i < 59
            invariant
                i <= 59,
                back@.len() == 59,
                forall|i: int| 0 <= i < 59 ==> #[trigger] back@[i] == first_code(lens@, 58 - i),
                first@.len() == i,
                forall|j: int| 0 <= j < i ==> #[trigger] first@[j] == first_code(lens@, j),
            decreases 59 - i,
        {
            assert(back@[58 - i] == first_code(lens@, i as int));
            first.push(back[58 - i]);
            i = i + 1;
        }
        CodeTable { lens, first, symbols }
    }

    /// The length, between 1 and 58, at which the codes do not fit.
    pub fn find_excess(&self) -> (r: Option<usize>)
        requires
            self.inv(),
        ensures
            r is None <==> codes_fit(self.lens@),
    {
        let ghost lens = self.lens@;
        let mut p: u64 = 1;
        let mut l: usize = 1;
        assert(power_of_two(0) == 1);
        while l <= 58
            invariant
                1 <= l <= 59,
                self.inv(),
                lens == self.lens@,
                p == power_of_two((l - 1) as nat),
                p <= 0x400_0000_0000_0000,
                l <= 58 ==> p <= 0x200_0000_0000_0000,
                forall|i: int|
                    1 <= i < l ==> code_count(lens, i) == 0 || #[trigger] code_end(lens, i)
                        <= power_of_two(i as nat),
            decreases 59 - l,
        {
            proof {
                lemma_power_steps(l as nat);
                lemma_first_code_bound(lens, l as int);
                lemma_symbols_below(lens, l as int, lens.len() as int);
                assert(self.first@[l as int] == first_code(lens, l as int));
                assert(symbol_views(self.symbols@[l as int]@).len() == code_count(lens, l as int));
            }
            p = 2 * p;
            let n: u64 = self.symbols[l].len() as u64;
            if n != 0 && self.first[l] + n > p {
                assert(code_end(lens, l as int) > power_of_two(l as nat));
                return Some(l);
            }
            l = l + 1;
        }
        None
    }

    /// The symbol with the code `v` of length `l`.
    fn find(&self, l: usize, v: u64) -> (r: Option<u32>)
        requires
            self.inv(),
            1 <= l <= 58,
        ensures
            r matches Some(k) ==> symbol_for(self.lens@, l as int, v as int) == Some(k as int),
            r is None ==> symbol_for(self.lens@, l as int, v as int) is None,
    {
        proof {
            lemma_first_code_bound(self.lens@, l as int);
            assert(self.first@[l as int] == first_code(self.lens@, l as int));
            assert(symbol_views(self.symbols@[l as int]@) == symbols_of(self.lens@, l as int));
            assert(symbol_views(self.symbols@[l as int]@).len() == self.symbols@[l as int]@.len());
        }
        let f: u64 = self.first[l];
        if v < f {
            return None;
        }
        let r: u64 = v - f;
        if r >= self.symbols[l].len() as u64 {
            return None;
        }
        let k: u32 = self.symbols[l][r as usize];
        assert(symbol_views(self.symbols@[l as int]@)[r as int] == k);
        Some(k)
    }

    /// The symbol that stands at `pos` among the first `limit` bits, and the
    /// length of its code.
    pub fn read_symbol(&self, data: &[u8], limit: u128, pos: u128) -> (r: Option<(u32, u32)>)
        requires
            self.inv(),
            limit <= 8 * data@.len(),
            pos <= limit,
        ensures
            r matches Some((k, n)) ==> symbol_at(
                self.lens@,
                crate::bits::bits_in(data@).take(limit as int),
                pos as int,
            ) == Some((k as int, n as int)),
            r is None ==> symbol_at(
                self.lens@,
                crate::bits::bits_in(data@).take(limit as int),
                pos as int,
            ) is None,
    {
        let ghost lens = self.lens@;
        let ghost bits = crate::bits::bits_in(data@).take(limit as int);
        let mut v: u64 = 0;
        let mut best: Option<u32> = None;
        let mut l: usize = 0;
        while l < 14
            invariant
                l <= 14,
                self.inv(),
                lens == self.lens@,
                limit <= 8 * data@.len(),
                pos <= limit,
                bits == crate::bits::bits_in(data@).take(limit as int),
                v == peek(bits, pos as int, l as int),
                v < power_of_two(l as nat),
                power_of_two(l as nat) <= 0x4000,
                best matches Some(k) ==> short_symbol(lens, bits, pos as int, l as int) == Some(k as int),
                best is None ==> short_symbol(lens, bits, pos as int, l as int) is None,
            decreases 14 - l,
        {
            proof {
                reveal_with_fuel(power_of_two, 16);
            }
            let d: u64 = if limit - pos > l as u128 && crate::bits::get_bit(data, pos + l as u128) {
                1
            } else {
                0
            };
            assert(d == digit(bits, pos + l));
            v = 2 * v + d;
            l = l + 1;
            match self.find(l, v) {
                Some(k) => {
                    best = match best {
                        Some(b) => if b < k {
                            Some(k)
                        } else {
                            Some(b)
                        },
                        None => Some(k),
                    };
                },
                None => {},
            }
        }
        proof {
            lemma_short_symbol(lens, bits, pos as int, 14);
            reveal_with_fuel(power_of_two, 15);
        }
        if let Some(k) = best {
            let n: u8 = self.lens[k as usize];
            if limit - pos < n as u128 {
                return None;
            }
            return Some((k, n as u32));
        }
        while l < 58
            invariant
                14 <= l <= 58,
                self.inv(),
                lens == self.lens@,
                limit <= 8 * data@.len(),
                pos <= limit,
                bits == crate::bits::bits_in(data@).take(limit as int),
                v == peek(bits, pos as int, l as int),
                v < power_of_two(l as nat),
                symbol_at(lens, bits, pos as int) == long_symbol(lens, bits, pos as int, l + 1),
            decreases 58 - l,
        {
            if limit - pos < l as u128 + 1 {
                return None;
            }
            proof {
                lemma_power_steps((l + 1) as nat);
            }
            let d: u64 = if crate::bits::get_bit(data, pos + l as u128) {
                1
            } else {
                0
            };
            assert(d == digit(bits, pos + l));
            v = 2 * v + d;
            l = l + 1;
            match self.find(l, v) {
                Some(k) => {
                    return Some((k, l as u32));
                },
                None => {},
            }
        }
        None
    }

    /// The codes of all symbols; 0 where a symbol has none.
    pub fn codes(&self) -> (r: Vec<u64>)
        requires
            self.inv(),
        ensures
            r@.len() == self.lens@.len(),
            forall|k: int|
                0 <= k < self.lens@.len() ==> #[trigger] r@[k] == (if self.lens@[k] == 0 {
                    0
                } else {
                    code_of(self.lens@, k)
                }),
    {
        let ghost lens = self.lens@;
        let mut next: Vec<u64> = Vec::new();
        let mut l: usize = 0;
        while l < 59
            invariant
                l <= 59,
                self.inv(),
                lens == self.lens@,
                next@.len() == l,
                forall|i: int| 0 <= i < l ==> #[trigger] next@[i] == first_code(lens, i),
            decreases 59 - l,
        {
            assert(self.first@[l as int] == first_code(lens, l as int));
            next.push(self.first[l]);
            l = l + 1;
        }
        let mut out: Vec<u64> = Vec::new();
        let mut k: usize = 0;
        while k < self.lens.len()
            invariant
                k <= lens.len(),
                self.inv(),
                lens == self.lens@,
                lens.len() <= 0x1_0001,
                next@.len() == 59,
                forall|i: int|
                    1 <= i < 59 ==> #[trigger] next@[i] == first_code(lens, i) + symbols_below(
                        lens,
                        i,
                        k as int,
                    ).len(),
                out@.len() == k,
                forall|i: int|
                    0 <= i < k ==> #[trigger] out@[i] == (if lens[i] == 0 {
                        0
                    } else {
                        code_of(lens, i)
                    }),
            decreases lens.len() - k,
        {
            let n: usize = self.lens[k] as usize;
            assert(lens[k as int] <= 58);
            if n == 0 {
                out.push(0);
            } else {
                let c: u64 = next[n];
                proof {
                    lemma_first_code_bound(lens, n as int);
                    lemma_symbols_below(lens, n as int, k as int);
                    assert(next@[n as int] == first_code(lens, n as int) + symbols_below(
                        lens,
                        n as int,
                        k as int,
                    ).len());
                }
                out.push(c);
                next.set(n, c + 1);
            }
            k = k + 1;
        }
        out
    }
}

/// A power of two is twice the one before it, and bounded.
pub proof fn lemma_power_steps(n: nat)
    requires
        1 <= n,
    ensures
        power_of_two(n) == 2 * power_of_two((n - 1) as nat),
        n <= 58 ==> power_of_two(n) <= 0x400_0000_0000_0000,
        n <= 57 ==> power_of_two(n) <= 0x200_0000_0000_0000,
{
    lemma_power_bound(n);
}

proof fn lemma_power_bound(n: nat)
    ensures
        n <= 58 ==> power_of_two(n) * power_of_two((58 - n) as nat) == 0x400_0000_0000_0000,
        n <= 58 ==> power_of_two(n) <= 0x400_0000_0000_0000,
        n <= 57 ==> power_of_two(n) <= 0x200_0000_0000_0000,
    decreases 58 - n,
{
    if n == 58 {
        assert(power_of_two(58) == 0x400_0000_0000_0000) by {
            reveal_with_fuel(power_of_two, 59);
        }
        assert(power_of_two(0) == 1);
    } else if n < 58 {
        lemma_power_bound(n + 1);
        let a = power_of_two(n) as int;
        let b = power_of_two((57 - n) as nat) as int;
        assert(power_of_two(n + 1) == 2 * power_of_two(n));
        assert(power_of_two((58 - n) as nat) == 2 * power_of_two((57 - n) as nat));
        assert((2 * a) * b == a * (2 * b)) by (nonlinear_arith);
    }
}

/// List the symbols of each length.
fn list_symbols(lens: &[u8]) -> (r: Vec<Vec<u32>>)
    requires
        lens_valid(lens@),
        lens@.len() <= 0x1_0001,
    ensures
        r@.len() == 59,
        forall|l: int| 0 <= l <= 58 ==> symbol_views((#[trigger] r@[l])@) == symbols_of(lens@, l),
{
    let mut r: Vec<Vec<u32>> = Vec::new();
    let mut l: usize = 0;
    while l < 59
        invariant
            l <= 59,
            r@.len() == l,
            forall|i: int| 0 <= i < l ==> (#[trigger] r@[i])@.len() == 0,
        decreases 59 - l,
    {
        r.push(Vec::new());
        l = l + 1;
    }
    let mut k: usize = 0;
    proof {
        assert forall|l: int| 0 <= l <= 58 implies symbol_views((#[trigger] r@[l])@)
            =~= symbols_below(lens@, l, 0) by {}
    }
    while k < lens.len()
        invariant
            k <= lens@.len(),
            lens_valid(lens@),
            lens@.len() <= 0x1_0001,
            r@.len() == 59,
            forall|l: int|
                0 <= l <= 58 ==> symbol_views((#[trigger] r@[l])@) == symbols_below(
                    lens@,
                    l,
                    k as int,
                ),
        decreases lens@.len() - k,
    {
        assert(lens@[k as int] <= 58);
        let n: usize = lens[k] as usize;
        let ghost before = r@;
        let list: &mut Vec<u32> = &mut r[n];
        list.push(k as u32);
        proof {
            assert forall|l: int| 0 <= l <= 58 implies symbol_views((#[trigger] r@[l])@)
                == symbols_below(lens@, l, k + 1) by {
                assert(symbol_views(before[l]@) == symbols_below(lens@, l, k as int));
                if l == n {
                    assert(symbol_views(r@[l]@) =~= symbol_views(before[l]@).push(k as int));
                } else {
                    assert(r@[l] == before[l]);
                }
            }
        }
        k = k + 1;
    }
    r
}

} // verus!
