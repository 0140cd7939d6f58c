//! How a header and the chunks of a file are put together: the header, a
//! table with the position of each chunk, and the chunks.

use crate::bytes::{
    lemma_stands_split, lemma_u64_reads_back, put_bytes, put_u64, stands_at, u64_at, u64_le,
};
use vstd::prelude::*;

verus! {

broadcast use crate::bytes::group_le_len;

/// The position of chunk `i`, where the first chunk stands at `base`.
pub open spec fn chunk_start(base: int, chunks: Seq<Seq<u8>>, i: int) -> int
    decreases i,
{
    if i <= 0 {
        base
    } else {
        chunk_start(base, chunks, i - 1) + chunks[i - 1].len()
    }
}

/// The low 64 bits of a position.
#[verifier::opaque]
pub open spec fn low64(x: int) -> u64 {
    (x % 0x1_0000_0000_0000_0000) as u64
}

fn low_bits(x: u128) -> (r: u64)
    ensures
        r == low64(x as int),
{
    reveal(low64);
    (x % 0x1_0000_0000_0000_0000) as u64
}

proof fn lemma_low64_sum(a: int, b: int)
    ensures
        low64(low64(a) + b) == low64(a + b),
{
    reveal(low64);
}

proof fn lemma_low64(x: int)
    requires
        0 <= x <= u64::MAX,
    ensures
        low64(x) == x,
{
    reveal(low64);
}

/// The table entries of the first `n` chunks.
pub open spec fn offset_table(base: int, chunks: Seq<Seq<u8>>, n: int) -> Seq<u8>
    decreases n,
{
    if n <= 0 {
        Seq::empty()
    } else {
        offset_table(base, chunks, n - 1) + u64_le(
            low64(chunk_start(base, chunks, n - 1)),
        )
    }
}

/// The first `n` chunks.
pub open spec fn chunk_bytes(chunks: Seq<Seq<u8>>, n: int) -> Seq<u8>
    decreases n,
{
    if n <= 0 {
        Seq::empty()
    } else {
        chunk_bytes(chunks, n - 1) + chunks[n - 1]
    }
}

/// The position of the first chunk.
pub open spec fn first_chunk(header: Seq<u8>, chunks: Seq<Seq<u8>>) -> int {
    (header.len() + 8 * chunks.len()) as int
}

/// A file with the given header and chunks.
pub open spec fn file_bytes(header: Seq<u8>, chunks: Seq<Seq<u8>>) -> Seq<u8> {
    header + (offset_table(first_chunk(header, chunks), chunks, chunks.len() as int) + chunk_bytes(
        chunks,
        chunks.len() as int,
    ))
}

/// The byte strings that a list of vectors stands for.
pub open spec fn byte_views(v: Seq<Vec<u8>>) -> Seq<Seq<u8>> {
    Seq::new(v.len(), |i: int| v[i]@)
}

/// Put a header and chunks together.
pub fn lay_out(header: Vec<u8>, chunks: &[Vec<u8>]) -> (out: Vec<u8>)
    ensures
        out@ == file_bytes(header@, byte_views(chunks@)),
{
    let ghost cs = byte_views(chunks@);
    let ghost base = first_chunk(header@, cs);
    let n: usize = chunks.len();
    let mut at: u64 = low_bits(header.len() as u128 + 8 * (n as u128));
    let mut bodies: Vec<u8> = Vec::new();
    let mut out: Vec<u8> = header;
    let ghost start = out@;
    let mut i: usize = 0;
    assert(start + Seq::<u8>::empty() =~= start);
    while i < n
        invariant
            i <= n,
            n == chunks@.len(),
            cs == byte_views(chunks@),
            at == low64(chunk_start(base, cs, i as int)),
            out@ == start + offset_table(base, cs, i as int),
            bodies@ == chunk_bytes(cs, i as int),
        decreases n - i,
    {
        put_u64(&mut out, at);
        put_bytes(&mut bodies, chunks[i].as_slice());
        proof {
            lemma_low64_sum(chunk_start(base, cs, i as int), chunks@[i as int]@.len() as int);
        }
        at = low_bits(at as u128 + chunks[i].len() as u128);
        proof {
            assert(cs[i as int] == chunks@[i as int]@);
            assert(out@ =~= start + offset_table(base, cs, i + 1));
        }
        i = i + 1;
    }
    put_bytes(&mut out, bodies.as_slice());
    assert(out@ =~= file_bytes(start, cs));
    out
}

pub proof fn lemma_offset_table_len(base: int, chunks: Seq<Seq<u8>>, n: int)
    requires
        0 <= n,
    ensures
        offset_table(base, chunks, n).len() == 8 * n,
    decreases n,
{
    if n > 0 {
        lemma_offset_table_len(base, chunks, n - 1);
    }
}

pub proof fn lemma_chunk_start(base: int, chunks: Seq<Seq<u8>>, i: int)
    requires
        0 <= i,
    ensures
        chunk_start(base, chunks, i) == base + chunk_bytes(chunks, i).len(),
    decreases i,
{
    if i > 0 {
        lemma_chunk_start(base, chunks, i - 1);
    }
}

proof fn lemma_offset_stands(s: Seq<u8>, at: int, base: int, chunks: Seq<Seq<u8>>, n: int, i: int)
    requires
        0 <= i < n,
        stands_at(s, at, offset_table(base, chunks, n)),
    ensures
        stands_at(
            s,
            at + 8 * i,
            u64_le(low64(chunk_start(base, chunks, i))),
        ),
    decreases n,
{
    lemma_offset_table_len(base, chunks, n - 1);
    lemma_stands_split(
        s,
        at,
        offset_table(base, chunks, n - 1),
        u64_le(low64(chunk_start(base, chunks, n - 1))),
    );
    if i < n - 1 {
        lemma_offset_stands(s, at, base, chunks, n - 1, i);
    }
}

proof fn lemma_chunk_stands(s: Seq<u8>, base: int, chunks: Seq<Seq<u8>>, n: int, i: int)
    requires
        0 <= i < n,
        stands_at(s, base, chunk_bytes(chunks, n)),
    ensures
        stands_at(s, chunk_start(base, chunks, i), chunks[i]),
    decreases n,
{
    lemma_stands_split(s, base, chunk_bytes(chunks, n - 1), chunks[n - 1]);
    lemma_chunk_start(base, chunks, n - 1);
    if i < n - 1 {
        lemma_chunk_stands(s, base, chunks, n - 1, i);
    }
}

/// The header, the table entries and the chunks of a file stand where they
/// should.
pub proof fn law_layout(header: Seq<u8>, chunks: Seq<Seq<u8>>, i: int)
    requires
        file_bytes(header, chunks).len() <= u64::MAX,
        0 <= i < chunks.len(),
    ensures
        ({
            let s = file_bytes(header, chunks);
            let base = first_chunk(header, chunks);
            &&& base <= s.len()
            &&& u64_at(s, header.len() + 8 * i) == chunk_start(base, chunks, i)
            &&& stands_at(s, chunk_start(base, chunks, i), chunks[i])
        }),
{
    let s = file_bytes(header, chunks);
    let base = first_chunk(header, chunks);
    let n = chunks.len() as int;
    let table = offset_table(base, chunks, n);
    lemma_file_parts(header, chunks);
    lemma_offset_stands(s, header.len() as int, base, chunks, n, i);
    lemma_chunk_stands(s, base, chunks, n, i);
    lemma_low64(chunk_start(base, chunks, i));
    lemma_u64_reads_back(
        s,
        header.len() + 8 * i,
        low64(chunk_start(base, chunks, i)),
    );
}

/// The offset table at `base` points at the chunks.
pub open spec fn chunks_placed(s: Seq<u8>, base: int, chunks: Seq<Seq<u8>>) -> bool {
    forall|i: int|
        0 <= i < chunks.len() ==> stands_at(s, u64_at(s, base + 8 * i) as int, #[trigger] chunks[i])
}

/// The offset table of a file points at its chunks.
pub proof fn law_chunks_placed(header: Seq<u8>, chunks: Seq<Seq<u8>>)
    requires
        file_bytes(header, chunks).len() <= u64::MAX,
    ensures
        chunks_placed(file_bytes(header, chunks), header.len() as int, chunks),
        first_chunk(header, chunks) <= file_bytes(header, chunks).len(),
{
    lemma_file_parts(header, chunks);
    assert forall|i: int| 0 <= i < chunks.len() implies stands_at(
        file_bytes(header, chunks),
        u64_at(file_bytes(header, chunks), header.len() as int + 8 * i) as int,
        #[trigger] chunks[i],
    ) by {
        law_layout(header, chunks, i);
    }
}

/// The chunks stand one behind the other from `base` on.
pub open spec fn chunks_follow(s: Seq<u8>, base: int, chunks: Seq<Seq<u8>>) -> bool {
    forall|i: int|
        0 <= i < chunks.len() ==> stands_at(s, chunk_start(base, chunks, i), #[trigger] chunks[i])
}

/// The chunks of a file stand one behind the other, from the end of its offset
/// table on.
pub proof fn law_chunks_follow(header: Seq<u8>, chunks: Seq<Seq<u8>>)
    ensures
        chunks_follow(file_bytes(header, chunks), first_chunk(header, chunks), chunks),
        first_chunk(header, chunks) <= file_bytes(header, chunks).len(),
{
    let s = file_bytes(header, chunks);
    let base = first_chunk(header, chunks);
    lemma_file_parts(header, chunks);
    assert forall|i: int| 0 <= i < chunks.len() implies stands_at(
        s,
        chunk_start(base, chunks, i),
        #[trigger] chunks[i],
    ) by {
        lemma_chunk_stands(s, base, chunks, chunks.len() as int, i);
    }
}

/// The parts of a file stand one behind the other.
pub proof fn lemma_file_parts(header: Seq<u8>, chunks: Seq<Seq<u8>>)
    ensures
        ({
            let s = file_bytes(header, chunks);
            let base = first_chunk(header, chunks);
            &&& stands_at(s, 0, header)
            &&& stands_at(s, header.len() as int, offset_table(base, chunks, chunks.len() as int))
            &&& stands_at(s, base, chunk_bytes(chunks, chunks.len() as int))
            &&& base + chunk_bytes(chunks, chunks.len() as int).len() == s.len()
        }),
{
    let s = file_bytes(header, chunks);
    let base = first_chunk(header, chunks);
    let n = chunks.len() as int;
    let table = offset_table(base, chunks, n);
    let bodies = chunk_bytes(chunks, n);
    lemma_offset_table_len(base, chunks, n);
    assert(s.subrange(0, s.len() as int) =~= s);
    assert(stands_at(s, 0, header + (table + bodies)));
    lemma_stands_split(s, 0, header, table + bodies);
    lemma_stands_split(s, header.len() as int, table, bodies);
}

} // verus!
