//! Little-endian integers in byte sequences.

use vstd::prelude::*;

verus! {

/// The two bytes of `x`, least significant first.
#[verifier::opaque]
pub open spec fn u16_le(x: u16) -> Seq<u8> {
    seq![(x % 256) as u8, (x / 256) as u8]
}

/// The four bytes of `x`, least significant first.
#[verifier::opaque]
pub open spec fn u32_le(x: u32) -> Seq<u8> {
    seq![
        (x % 256) as u8,
        ((x / 256) % 256) as u8,
        ((x / 65536) % 256) as u8,
        (x / 16777216) as u8,
    ]
}

/// The two's complement bytes of `x`, least significant first.
pub open spec fn i32_le(x: i32) -> Seq<u8> {
    u32_le(u32_of_i32(x))
}

/// The eight bytes of `x`, least significant first.
#[verifier::opaque]
pub open spec fn u64_le(x: u64) -> Seq<u8> {
    u32_le((x % 0x1_0000_0000) as u32) + u32_le((x / 0x1_0000_0000) as u32)
}

/// The value of the two bytes of `s` at `i`.
#[verifier::opaque]
pub open spec fn u16_at(s: Seq<u8>, i: int) -> u16 {
    (s[i] + 256 * s[i + 1]) as u16
}

/// The value of the four bytes of `s` at `i`.
#[verifier::opaque]
pub open spec fn u32_at(s: Seq<u8>, i: int) -> u32 {
    (s[i] + 256 * s[i + 1] + 65536 * s[i + 2] + 16777216 * s[i + 3]) as u32
}

/// The value of the four bytes of `s` at `i`, in two's complement.
pub open spec fn i32_at(s: Seq<u8>, i: int) -> i32 {
    i32_of_u32(u32_at(s, i))
}

/// The value of the eight bytes of `s` at `i`.
#[verifier::opaque]
pub open spec fn u64_at(s: Seq<u8>, i: int) -> u64 {
    (u32_at(s, i) + 0x1_0000_0000 * u32_at(s, i + 4)) as u64
}

/// Two bytes.
pub broadcast proof fn u16_le_len(x: u16)
    ensures
        #[trigger] u16_le(x).len() == 2,
{
    reveal(u16_le);
}

/// Four bytes.
pub broadcast proof fn u32_le_len(x: u32)
    ensures
        #[trigger] u32_le(x).len() == 4,
{
    reveal(u32_le);
}

/// Eight bytes.
pub broadcast proof fn u64_le_len(x: u64)
    ensures
        #[trigger] u64_le(x).len() == 8,
{
    reveal(u64_le);
    reveal(u32_le);
}

/// The lengths of stored integers.
pub broadcast group group_le_len {
    u16_le_len,
    u32_le_len,
    u64_le_len,
}

/// The signed integer with the bits of `x`.
pub open spec fn i32_of_u32(x: u32) -> i32 {
    if x < 0x8000_0000 {
        x as i32
    } else {
        (x - 0x1_0000_0000) as i32
    }
}

/// The unsigned integer with the bits of `x`.
pub open spec fn u32_of_i32(x: i32) -> u32 {
    if x >= 0 {
        x as u32
    } else {
        (x + 0x1_0000_0000) as u32
    }
}

/// `part` stands in `s` at position `at`.
pub open spec fn stands_at(s: Seq<u8>, at: int, part: Seq<u8>) -> bool {
    &&& 0 <= at
    &&& at + part.len() <= s.len()
    &&& s.subrange(at, at + part.len()) == part
}

/// The bytes of `s` and `t` from `a` up to `b` are the same.
pub open spec fn agree(s: Seq<u8>, t: Seq<u8>, a: int, b: int) -> bool {
    &&& b <= s.len()
    &&& b <= t.len()
    &&& forall|i: int|
        #![trigger s[i]]
        #![trigger t[i]]
        a <= i < b ==> s[i] == t[i]
}

/// Four bytes that are the same have the same value.
pub proof fn lemma_u32_agree(s: Seq<u8>, t: Seq<u8>, a: int, b: int, i: int)
    requires
        agree(s, t, a, b),
        0 <= a <= i,
        i + 4 <= b,
    ensures
        u32_at(s, i) == u32_at(t, i),
        i32_at(s, i) == i32_at(t, i),
{
    reveal(u32_at);
    assert(s[i] == t[i] && s[i + 1] == t[i + 1] && s[i + 2] == t[i + 2] && s[i + 3] == t[i + 3]);
}

/// Eight bytes that are the same have the same value.
pub proof fn lemma_u64_agree(s: Seq<u8>, t: Seq<u8>, a: int, b: int, i: int)
    requires
        agree(s, t, a, b),
        0 <= a <= i,
        i + 8 <= b,
    ensures
        u64_at(s, i) == u64_at(t, i),
{
    reveal(u64_at);
    lemma_u32_agree(s, t, a, b, i);
    lemma_u32_agree(s, t, a, b, i + 4);
}

/// Slices of bytes that are the same are the same.
pub proof fn lemma_slice_agree(s: Seq<u8>, t: Seq<u8>, a: int, b: int, i: int, j: int)
    requires
        agree(s, t, a, b),
        0 <= a <= i <= j <= b,
    ensures
        s.subrange(i, j) == t.subrange(i, j),
{
    assert(s.subrange(i, j) =~= t.subrange(i, j));
}

pub fn to_signed(x: u32) -> (r: i32)
    ensures
        r == i32_of_u32(x),
{
    if x < 0x8000_0000 {
        x as i32
    } else {
        (x as i64 - 0x1_0000_0000i64) as i32
    }
}

pub fn to_unsigned(x: i32) -> (r: u32)
    ensures
        r == u32_of_i32(x),
{
    if x >= 0 {
        x as u32
    } else {
        (x as i64 + 0x1_0000_0000i64) as u32
    }
}

pub fn read_u16(s: &[u8], i: usize) -> (r: u16)
    requires
        i + 2 <= s@.len(),
    ensures
        r == u16_at(s@, i as int),
{
    reveal(u16_at);
    s[i] as u16 + 256 * (s[i + 1] as u16)
}

pub fn read_u32(s: &[u8], i: usize) -> (r: u32)
    requires
        i + 4 <= s@.len(),
    ensures
        r == u32_at(s@, i as int),
{
    reveal(u32_at);
    s[i] as u32 + 256 * (s[i + 1] as u32) + 65536 * (s[i + 2] as u32) + 16777216 * (s[i + 3] as u32)
}

pub fn read_i32(s: &[u8], i: usize) -> (r: i32)
    requires
        i + 4 <= s@.len(),
    ensures
        r == i32_at(s@, i as int),
{
    to_signed(read_u32(s, i))
}

pub fn read_u64(s: &[u8], i: usize) -> (r: u64)
    requires
        i + 8 <= s@.len(),
    ensures
        r == u64_at(s@, i as int),
{
    reveal(u64_at);
    assert(s.len() == s@.len());
    read_u32(s, i) as u64 + 0x1_0000_0000 * (read_u32(s, i + 4) as u64)
}

/// Append bytes.
pub fn put_bytes(out: &mut Vec<u8>, part: &[u8])
    ensures
        final(out)@ == old(out)@ + part@,
{
    out.extend_from_slice(part);
    assert(out@ =~= old(out)@ + part@);
}

pub fn put_u16(out: &mut Vec<u8>, x: u16)
    ensures
        final(out)@ == old(out)@ + u16_le(x),
{
    reveal(u16_le);
    out.push((x % 256) as u8);
    out.push((x / 256) as u8);
    assert(out@ =~= old(out)@ + u16_le(x));
}

pub fn put_u32(out: &mut Vec<u8>, x: u32)
    ensures
        final(out)@ == old(out)@ + u32_le(x),
{
    reveal(u32_le);
    out.push((x % 256) as u8);
    out.push(((x / 256) % 256) as u8);
    out.push(((x / 65536) % 256) as u8);
    out.push((x / 16777216) as u8);
    assert(out@ =~= old(out)@ + u32_le(x));
}

pub fn put_i32(out: &mut Vec<u8>, x: i32)
    ensures
        final(out)@ == old(out)@ + i32_le(x),
{
    put_u32(out, to_unsigned(x));
}

pub fn put_u64(out: &mut Vec<u8>, x: u64)
    ensures
        final(out)@ == old(out)@ + u64_le(x),
{
    reveal(u64_le);
    put_u32(out, (x % 0x1_0000_0000) as u32);
    put_u32(out, (x / 0x1_0000_0000) as u32);
    assert(out@ =~= old(out)@ + u64_le(x));
}

/// A copy of the bytes from `from` up to `to`.
pub fn copy_range(s: &[u8], from: usize, to: usize) -> (r: Vec<u8>)
    requires
        from <= to <= s@.len(),
    ensures
        r@ == s@.subrange(from as int, to as int),
{
    let mut r: Vec<u8> = Vec::with_capacity(to - from);
    put_bytes(&mut r, slice_range(s, from, to));
    assert(r@ =~= s@.subrange(from as int, to as int));
    r
}

/// The bytes from `from` up to `to`.
pub fn slice_range<T>(s: &[T], from: usize, to: usize) -> (r: &[T])
    requires
        from <= to <= s@.len(),
    ensures
        r@ == s@.subrange(from as int, to as int),
{
    vstd::slice::slice_subrange(s, from, to)
}

/// A signed integer survives its unsigned form.
pub proof fn lemma_signed_bits(x: i32)
    ensures
        i32_of_u32(u32_of_i32(x)) == x,
{
}

/// What is written little-endian reads back: two bytes.
pub proof fn lemma_u16_reads_back(s: Seq<u8>, at: int, x: u16)
    requires
        stands_at(s, at, u16_le(x)),
    ensures
        u16_at(s, at) == x,
{
    reveal(u16_at);
    reveal(u16_le);
    assert(s[at] == s.subrange(at, at + 2)[0]);
    assert(s[at + 1] == s.subrange(at, at + 2)[1]);
}

/// What is written little-endian reads back: four bytes.
pub proof fn lemma_u32_reads_back(s: Seq<u8>, at: int, x: u32)
    requires
        stands_at(s, at, u32_le(x)),
    ensures
        u32_at(s, at) == x,
{
    reveal(u32_at);
    reveal(u32_le);
    let p = s.subrange(at, at + 4);
    assert(s[at] == p[0] && s[at + 1] == p[1] && s[at + 2] == p[2] && s[at + 3] == p[3]);
    assert(p == u32_le(x));
    let a = x / 256;
    let b = x / 65536;
    assert(a / 256 == b);
    assert(b / 256 == x / 16777216);
    assert(x == 256 * a + x % 256);
    assert(a == 256 * b + a % 256);
    assert(b == 256 * (b / 256) + b % 256);
}

/// What is written little-endian reads back: four bytes, signed.
pub proof fn lemma_i32_reads_back(s: Seq<u8>, at: int, x: i32)
    requires
        stands_at(s, at, i32_le(x)),
    ensures
        i32_at(s, at) == x,
{
    lemma_u32_reads_back(s, at, u32_of_i32(x));
    lemma_signed_bits(x);
}

/// What is written little-endian reads back: eight bytes.
pub proof fn lemma_u64_reads_back(s: Seq<u8>, at: int, x: u64)
    requires
        stands_at(s, at, u64_le(x)),
    ensures
        u64_at(s, at) == x,
{
    reveal(u64_at);
    reveal(u64_le);
    reveal(u32_le);
    lemma_stands_split(
        s,
        at,
        u32_le((x % 0x1_0000_0000) as u32),
        u32_le((x / 0x1_0000_0000) as u32),
    );
    lemma_u32_reads_back(s, at, (x % 0x1_0000_0000) as u32);
    lemma_u32_reads_back(s, at + 4, (x / 0x1_0000_0000) as u32);
    assert(x == 0x1_0000_0000 * (x / 0x1_0000_0000) + x % 0x1_0000_0000);
}

/// A concatenation stands where its first part stands, followed by its second.
pub proof fn lemma_stands_split(s: Seq<u8>, at: int, a: Seq<u8>, b: Seq<u8>)
    ensures
        stands_at(s, at, a + b) <==> stands_at(s, at, a) && stands_at(s, at + a.len(), b),
{
    if stands_at(s, at, a + b) {
        let w = s.subrange(at, at + a.len() + b.len());
        assert(w == a + b);
        assert forall|i: int| 0 <= i < a.len() implies s[at + i] == a[i] by {
            assert(w[i] == (a + b)[i]);
        }
        assert forall|i: int| 0 <= i < b.len() implies s[at + a.len() + i] == b[i] by {
            assert(w[a.len() + i] == (a + b)[a.len() + i]);
        }
        assert(s.subrange(at, at + a.len()) =~= a);
        assert(s.subrange(at + a.len(), at + a.len() + b.len()) =~= b);
    }
    if stands_at(s, at, a) && stands_at(s, at + a.len(), b) {
        let l = s.subrange(at, at + a.len());
        let r = s.subrange(at + a.len(), at + a.len() + b.len());
        assert forall|i: int| 0 <= i < a.len() + b.len() implies s[at + i] == (a + b)[i] by {
            if i < a.len() {
                assert(l[i] == a[i]);
            } else {
                assert(r[i - a.len()] == b[i - a.len()]);
            }
        }
        assert(s.subrange(at, at + a.len() + b.len()) =~= a + b);
    }
}

} // verus!
