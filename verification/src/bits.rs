//! Bits in bytes, the most significant first.

use vstd::prelude::*;

verus! {

/// Bit `j` of a byte, counted from the most significant.
pub open spec fn bit_of(b: u8, j: int) -> bool {
    if j == 0 {
        b / 128 % 2 == 1
    } else if j == 1 {
        b / 64 % 2 == 1
    } else if j == 2 {
        b / 32 % 2 == 1
    } else if j == 3 {
        b / 16 % 2 == 1
    } else if j == 4 {
        b / 8 % 2 == 1
    } else if j == 5 {
        b / 4 % 2 == 1
    } else if j == 6 {
        b / 2 % 2 == 1
    } else {
        b % 2 == 1
    }
}

/// The bits of a byte string.
pub open spec fn bits_in(s: Seq<u8>) -> Seq<bool> {
    Seq::new(8 * s.len(), |k: int| bit_of(s[k / 8], k % 8))
}

/// The low `n` bits of `v`, the most significant first.
pub open spec fn msb(v: nat, n: nat) -> Seq<bool>
    decreases n,
{
    if n == 0 {
        Seq::empty()
    } else {
        msb(v / 2, (n - 1) as nat).push(v % 2 == 1)
    }
}

/// Bit `k`, or zero behind the end, as a number.
pub open spec fn digit(bits: Seq<bool>, k: int) -> nat {
    if 0 <= k < bits.len() && bits[k] {
        1
    } else {
        0
    }
}

/// The number that `n` bits from `pos` on spell; bits behind the end are zero.
pub open spec fn peek(bits: Seq<bool>, pos: int, n: int) -> nat
    decreases n,
{
    if n <= 0 {
        0
    } else {
        2 * peek(bits, pos, n - 1) + digit(bits, pos + n - 1)
    }
}

/// The bytes that hold the given bits; the last byte is filled up with zeros.
pub open spec fn packed_bits(bits: Seq<bool>) -> Seq<u8> {
    Seq::new(((bits.len() + 7) / 8) as nat, |j: int| peek(bits, 8 * j, 8) as u8)
}

pub proof fn lemma_msb_len(v: nat, n: nat)
    ensures
        msb(v, n).len() == n,
    decreases n,
{
    if n > 0 {
        lemma_msb_len(v / 2, (n - 1) as nat);
    }
}

/// Eight bits make a byte that has them.
proof fn lemma_peek_byte(bits: Seq<bool>, at: int, j: int)
    requires
        0 <= j < 8,
    ensures
        peek(bits, at, 8) < 256,
        bit_of(peek(bits, at, 8) as u8, j) == (digit(bits, at + j) == 1),
{
    reveal_with_fuel(peek, 9);
}

/// The bytes for some bits hold them.
pub proof fn lemma_packed_bits(bits: Seq<bool>)
    ensures
        packed_bits(bits).len() == (bits.len() + 7) / 8,
        bits_in(packed_bits(bits)).len() >= bits.len(),
        bits_in(packed_bits(bits)).take(bits.len() as int) == bits,
{
    let s = packed_bits(bits);
    let all = bits_in(s);
    assert forall|k: int| 0 <= k < bits.len() implies all[k] == bits[k] by {
        let j = k / 8;
        lemma_peek_byte(bits, 8 * j, k % 8);
        assert(s[j] == peek(bits, 8 * j, 8) as u8);
        assert(8 * j + k % 8 == k);
    }
    assert(all.take(bits.len() as int) =~= bits);
}

/// The bits of a number spell that number.
pub proof fn lemma_peek_msb(bits: Seq<bool>, pos: int, v: nat, n: nat)
    requires
        0 <= pos,
        pos + n <= bits.len(),
        bits.subrange(pos, pos + n) == msb(v, n),
        v < crate::half::power_of_two(n),
    ensures
        peek(bits, pos, n as int) == v,
    decreases n,
{
    lemma_msb_len(v, n);
    if n > 0 {
        let m = (n - 1) as nat;
        lemma_msb_len(v / 2, m);
        let part = bits.subrange(pos, pos + m);
        let low = msb(v / 2, m);
        assert forall|i: int| 0 <= i < m implies part[i] == low[i] by {
            assert(bits.subrange(pos, pos + n)[i] == msb(v, n)[i]);
        }
        assert(part =~= low);
        lemma_peek_msb(bits, pos, v / 2, m);
        assert(bits.subrange(pos, pos + n)[n - 1] == msb(v, n)[n - 1]);
    }
}

/// Bit `k` of the bytes.
pub fn get_bit(s: &[u8], k: u128) -> (r: bool)
    requires
        k < 8 * s@.len(),
    ensures
        r == bits_in(s@)[k as int],
{
    assert(s.len() == s@.len());
    let b: u8 = s[(k / 8) as usize];
    match k % 8 {
        0 => b / 128 % 2 == 1,
        1 => b / 64 % 2 == 1,
        2 => b / 32 % 2 == 1,
        3 => b / 16 % 2 == 1,
        4 => b / 8 % 2 == 1,
        5 => b / 4 % 2 == 1,
        6 => b / 2 % 2 == 1,
        _ => b % 2 == 1,
    }
}

/// The number that up to 16 bits from `pos` on spell.
pub fn read_bits(data: &[u8], limit: u128, pos: u128, n: u32) -> (r: u32)
    requires
        limit <= 8 * data@.len(),
        pos + n <= limit,
        n <= 16,
    ensures
        r == peek(bits_in(data@).take(limit as int), pos as int, n as int),
        r < crate::half::power_of_two(n as nat),
{
    let ghost bits = bits_in(data@).take(limit as int);
    let mut v: u32 = 0;
    let mut i: u32 = 0;
    assert(crate::half::power_of_two(0) == 1);
    while i < n
        invariant
            i <= n <= 16,
            limit <= 8 * data@.len(),
            pos + n <= limit,
            bits == bits_in(data@).take(limit as int),
            v == peek(bits, pos as int, i as int),
            v < crate::half::power_of_two(i as nat),
            crate::half::power_of_two(i as nat) <= 0x1_0000,
        decreases n - i,
    {
        proof {
            reveal_with_fuel(crate::half::power_of_two, 18);
        }
        let d: u32 = if get_bit(data, pos + i as u128) {
            1
        } else {
            0
        };
        assert(d == digit(bits, pos + i));
        v = 2 * v + d;
        i = i + 1;
    }
    v
}

/// Puts bits together into bytes.
#[derive(Debug, Clone, PartialEq, Eq)]
pub struct BitWriter {
    out: Vec<u8>,
    /// The bits that do not fill a byte yet, and how many they are.
    cur: u8,
    used: u8,
    count: u64,
}

impl View for BitWriter {
    type V = Seq<bool>;

    closed spec fn view(&self) -> Seq<bool> {
        bits_in(self.out@) + msb(self.cur as nat, self.used as nat)
    }
}

impl BitWriter {
    /// The bits that are left over do not fill a byte, and all are counted.
    pub closed spec fn inv(&self) -> bool {
        &&& self.used < 8
        &&& self.cur < crate::half::power_of_two(self.used as nat)
        &&& self.count == 8 * self.out@.len() + self.used
    }

    /// A writer without bits.
    pub fn new() -> (r: BitWriter)
        ensures
            r.inv(),
            r@ == Seq::<bool>::empty(),
    {
        let r: BitWriter = BitWriter { out: Vec::new(), cur: 0, used: 0, count: 0 };
        assert(r@ =~= Seq::<bool>::empty());
        r
    }

    /// The number of bits written so far.
    pub fn written(&self) -> (r: u64)
        requires
            self.inv(),
        ensures
            r == self@.len(),
    {
        proof {
            lemma_msb_len(self.cur as nat, self.used as nat);
        }
        self.count
    }

    /// Append one bit.
    pub fn put_bit(&mut self, b: bool)
        requires
            old(self).inv(),
            old(self)@.len() < u64::MAX,
        ensures
            final(self).inv(),
            final(self)@ == old(self)@.push(b),
    {
        let ghost before = self@;
        let ghost old_cur = self.cur as nat;
        let ghost old_used = self.used as nat;
        proof {
            reveal_with_fuel(crate::half::power_of_two, 9);
            lemma_msb_len(old_cur, old_used);
        }
        let d: u8 = if b {
            1
        } else {
            0
        };
        self.cur = 2 * self.cur + d;
        self.used = self.used + 1;
        self.count = self.count + 1;
        proof {
            assert(msb(self.cur as nat, self.used as nat) == msb(old_cur, old_used).push(b));
        }
        if self.used == 8 {
            let ghost full = self.cur;
            let ghost done = self.out@;
            self.out.push(self.cur);
            self.cur = 0;
            self.used = 0;
            proof {
                lemma_byte_bits(full);
                assert(bits_in(self.out@) =~= bits_in(done) + msb(full as nat, 8)) by {
                    let n = done.len() as int;
                    assert forall|k: int| 0 <= k < 8 * (n + 1) implies bits_in(self.out@)[k] == (
                    bits_in(done) + msb(full as nat, 8))[k] by {
                        if k < 8 * n {
                            assert(self.out@[k / 8] == done[k / 8]);
                        } else {
                            assert(k / 8 == n);
                            assert(k % 8 == k - 8 * n);
                            assert(msb(full as nat, 8)[k - 8 * n] == bit_of(full, k - 8 * n));
                        }
                    }
                }
                assert(self@ =~= before.push(b));
            }
        } else {
            assert(self@ =~= before.push(b));
        }
    }

    /// Append the low `n` bits of `v`, the most significant first.
    pub fn put(&mut self, v: u64, n: u32)
        requires
            old(self).inv(),
            old(self)@.len() + n <= u64::MAX,
        ensures
            final(self).inv(),
            final(self)@ == old(self)@ + msb(v as nat, n as nat),
        decreases n,
    {
        if n > 0 {
            let ghost before = self@;
            proof {
                lemma_msb_len(v as nat / 2, (n - 1) as nat);
            }
            self.put(v / 2, n - 1);
            self.put_bit(v % 2 == 1);
            assert(self@ =~= before + msb(v as nat, n as nat));
        } else {
            assert(self@ + Seq::<bool>::empty() =~= self@);
        }
    }

    /// The bytes that hold the bits, and the number of bits.
    pub fn finish(self) -> (r: (Vec<u8>, u64))
        requires
            self.inv(),
        ensures
            r.0@ == packed_bits(self@),
            r.1 == self@.len(),
    {
        let ghost all = self@;
        let ghost len = self.used as int;
        let ghost cur = self.cur;
        let ghost done = self.out@;
        let n: u64 = self.written();
        proof {
            lemma_msb_len(cur as nat, len as nat);
            assert forall|j: int| 0 <= j < done.len() implies peek(all, 8 * j, 8) == done[j] by {
                lemma_byte_back(all, 8 * j, done[j]);
            }
        }
        let mut out: Vec<u8> = self.out;
        if self.used > 0 {
            let last: u8 = pad(self.cur, self.used);
            proof {
                assert(all.subrange(8 * done.len() as int, 8 * done.len() + len) =~= msb(
                    cur as nat,
                    len as nat,
                ));
                lemma_last_byte(all, 8 * done.len() as int, cur, len);
            }
            out.push(last);
        }
        assert(out@ =~= packed_bits(all));
        (out, n)
    }
}

/// A byte that begins with the given bits, of which there are `used`.
pub open spec fn padded(cur: int, used: int) -> int {
    cur * crate::half::power_of_two((8 - used) as nat)
}

fn pad(cur: u8, used: u8) -> (r: u8)
    requires
        0 < used < 8,
        cur < crate::half::power_of_two(used as nat),
    ensures
        r == padded(cur as int, used as int),
{
    proof {
        reveal_with_fuel(crate::half::power_of_two, 9);
    }
    match used {
        1 => cur * 128,
        2 => cur * 64,
        3 => cur * 32,
        4 => cur * 16,
        5 => cur * 8,
        6 => cur * 4,
        _ => cur * 2,
    }
}

/// The bits of a byte, taken as a number.
proof fn lemma_byte_bits(b: u8)
    ensures
        msb(b as nat, 8).len() == 8,
        forall|j: int| 0 <= j < 8 ==> #[trigger] msb(b as nat, 8)[j] == bit_of(b, j),
{
    reveal_with_fuel(msb, 9);
}

/// Eight bits of a byte spell it.
proof fn lemma_byte_back(bits: Seq<bool>, at: int, b: u8)
    requires
        0 <= at,
        at + 8 <= bits.len(),
        forall|j: int| 0 <= j < 8 ==> #[trigger] bits[at + j] == bit_of(b, j),
    ensures
        peek(bits, at, 8) == b,
{
    assert(bits[at + 0] == bit_of(b, 0));
    assert(bits[at + 1] == bit_of(b, 1));
    assert(bits[at + 2] == bit_of(b, 2));
    assert(bits[at + 3] == bit_of(b, 3));
    assert(bits[at + 4] == bit_of(b, 4));
    assert(bits[at + 5] == bit_of(b, 5));
    assert(bits[at + 6] == bit_of(b, 6));
    assert(bits[at + 7] == bit_of(b, 7));
    reveal_with_fuel(peek, 9);
}

/// The bits that are left over at the end make a byte.
proof fn lemma_last_byte(bits: Seq<bool>, at: int, cur: u8, used: int)
    requires
        0 <= at,
        0 < used < 8,
        bits.len() == at + used,
        bits.subrange(at, at + used) == msb(cur as nat, used as nat),
        cur < crate::half::power_of_two(used as nat),
    ensures
        peek(bits, at, 8) == padded(cur as int, used),
{
    lemma_peek_msb(bits, at, cur as nat, used as nat);
    lemma_peek_zeros(bits, at, used, 8 - used);
}

/// Zeros behind the end double what was spelled.
proof fn lemma_peek_zeros(bits: Seq<bool>, at: int, used: int, more: int)
    requires
        0 <= at,
        0 <= used,
        0 <= more,
        bits.len() == at + used,
    ensures
        peek(bits, at, used + more) == peek(bits, at, used) * crate::half::power_of_two(more as nat),
    decreases more,
{
    if more > 0 {
        lemma_peek_zeros(bits, at, used, more - 1);
        let a = peek(bits, at, used) as int;
        let p = crate::half::power_of_two((more - 1) as nat) as int;
        assert(2 * (a * p) == a * (2 * p)) by (nonlinear_arith);
    } else {
        let a = peek(bits, at, used) as int;
        assert(a * 1 == a);
    }
}

} // verus!
