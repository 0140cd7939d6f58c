//! Run-length coding of bytes.
//!
//! A packet starts with a count byte. A count below 128 is followed by one
//! byte, which is repeated once more than the count says. A larger count is
//! a negative number in two's complement: as many literal bytes follow.

use crate::bytes::{put_bytes, slice_range};
use crate::error::{ExrError, Fault};
use vstd::prelude::*;

verus! {

/// What a run of packets stands for; nothing where a packet is cut short.
pub open spec fn rle_unpacked(s: Seq<u8>) -> Option<Seq<u8>>
    decreases s.len(),
{
    if s.len() == 0 {
        Some(Seq::empty())
    } else {
        let used = packet_len(s);
        if used > s.len() {
            None
        } else {
            match rle_unpacked(s.skip(used)) {
                Some(rest) => Some(packet_text(s) + rest),
                None => None,
            }
        }
    }
}

/// The length of the packet that `s` begins with.
pub open spec fn packet_len(s: Seq<u8>) -> int {
    if s[0] < 128 {
        2
    } else {
        1 + (256 - s[0])
    }
}

/// What the packet that `s` begins with stands for.
pub open spec fn packet_text(s: Seq<u8>) -> Seq<u8> {
    if s[0] < 128 {
        Seq::new((s[0] + 1) as nat, |i: int| s[1])
    } else {
        s.subrange(1, 1 + (256 - s[0]))
    }
}

/// Decode `payload`, which must stand for `size` bytes.
pub fn rle_decompress(payload: &[u8], size: u64) -> (r: Result<Vec<u8>, ExrError>)
    ensures
        r matches Ok(v) ==> rle_unpacked(payload@) == Some(v@) && v@.len() == size,
        r matches Err(e) ==> e.fault() == Fault::Invalid && match rle_unpacked(payload@) {
            Some(v) => v.len() != size,
            None => true,
        },
{
    let mut out: Vec<u8> = Vec::new();
    let mut pos: usize = 0;
    let n: usize = payload.len();
    assert(payload@.skip(0) =~= payload@);
    proof {
        if let Some(v) = rle_unpacked(payload@) {
            assert(Seq::<u8>::empty() + v =~= v);
        }
    }
    while pos < n
        invariant
            pos <= n,
            n == payload@.len(),
            rle_unpacked(payload@) == match rle_unpacked(payload@.skip(pos as int)) {
                Some(rest) => Some(out@ + rest),
                None => None,
            },
        decreases n - pos,
    {
        let ghost s = payload@.skip(pos as int);
        let ghost before = out@;
        let c: u8 = payload[pos];
        assert(s[0] == c);
        if c < 128 {
            if n - pos < 2 {
                return Err(ExrError::invalid("RLE packet without its byte"));
            }
            let b: u8 = payload[pos + 1];
            let mut k: u8 = 0;
            while k <= c
                invariant
                    k <= c + 1,
                    c < 128,
                    out@ == before + Seq::new(k as nat, |i: int| b),
                decreases c + 1 - k,
            {
                out.push(b);
                k = k + 1;
                assert(out@ =~= before + Seq::new(k as nat, |i: int| b));
            }
            assert(packet_text(s) =~= Seq::new(k as nat, |i: int| b));
            pos = pos + 2;
        } else {
            let m: usize = 256 - c as usize;
            if n - pos < 1 + m {
                return Err(ExrError::invalid("RLE literal run cut short"));
            }
            put_bytes(&mut out, slice_range(payload, pos + 1, pos + 1 + m));
            assert(packet_text(s) =~= payload@.subrange(pos + 1, pos + 1 + m));
            pos = pos + 1 + m;
        }
        proof {
            assert(s.skip(packet_len(s)) =~= payload@.skip(pos as int));
            assert(out@ == before + packet_text(s));
            if let Some(rest) = rle_unpacked(payload@.skip(pos as int)) {
                assert(before + (packet_text(s) + rest) =~= out@ + rest);
            }
        }
        if out.len() as u64 > size {
            return Err(ExrError::invalid("RLE output longer than expected"));
        }
    }
    assert(payload@.skip(pos as int) =~= Seq::empty());
    assert(out@ + Seq::<u8>::empty() =~= out@);
    if out.len() as u64 != size {
        return Err(ExrError::invalid("RLE output shorter than expected"));
    }
    Ok(out)
}

/// The end of the run of equal bytes that starts at `start` and is known to
/// reach `e`: at most 128 bytes in all.
pub open spec fn run_end(d: Seq<u8>, start: int, e: int) -> int
    decreases d.len() - e,
{
    if e < d.len() && d[start] == d[e] && e - start - 1 < 127 {
        run_end(d, start, e + 1)
    } else {
        e
    }
}

/// No run of three equal bytes starts at `e`.
pub open spec fn no_run_at(d: Seq<u8>, e: int) -> bool {
    e + 1 >= d.len() || d[e] != d[e + 1] || e + 2 >= d.len() || d[e + 1] != d[e + 2]
}

/// The end of the literal run that starts at `start` and is known to reach
/// `e`: it stops where three equal bytes follow, or after 127 bytes.
pub open spec fn literal_end(d: Seq<u8>, start: int, e: int) -> int
    decreases d.len() - e,
{
    if e < d.len() && no_run_at(d, e) && e - start < 127 {
        literal_end(d, start, e + 1)
    } else {
        e
    }
}

/// The packets for the bytes of `d` from `start` on: runs of three and more
/// equal bytes are repeated, others are literal.
pub open spec fn rle_packed_from(d: Seq<u8>, start: int) -> Seq<u8>
    decreases d.len() - start,
    when 0 <= start <= d.len()
    via rle_packed_from_decreases
{
    if start >= d.len() {
        Seq::empty()
    } else {
        let e = run_end(d, start, start + 1);
        if e - start >= 3 {
            seq![(e - start - 1) as u8, d[start]] + rle_packed_from(d, e)
        } else {
            let f = literal_end(d, start, e);
            seq![(256 - (f - start)) as u8] + d.subrange(start, f) + rle_packed_from(d, f)
        }
    }
}

/// The packets for `d`.
pub open spec fn rle_packed(d: Seq<u8>) -> Seq<u8> {
    rle_packed_from(d, 0)
}

#[via_fn]
proof fn rle_packed_from_decreases(d: Seq<u8>, start: int) {
    if start < d.len() {
        lemma_run_end(d, start, start + 1);
        lemma_literal_end(d, start, run_end(d, start, start + 1));
    }
}

proof fn lemma_run_end(d: Seq<u8>, start: int, e: int)
    requires
        0 <= start < e <= d.len(),
        e - start <= 128,
        forall|i: int| start <= i < e ==> d[i] == d[start],
    ensures
        e <= run_end(d, start, e) <= d.len(),
        run_end(d, start, e) - start <= 128,
        forall|i: int| start <= i < run_end(d, start, e) ==> d[i] == d[start],
    decreases d.len() - e,
{
    if e < d.len() && d[start] == d[e] && e - start - 1 < 127 {
        lemma_run_end(d, start, e + 1);
    }
}

proof fn lemma_literal_end(d: Seq<u8>, start: int, e: int)
    requires
        0 <= start < e <= d.len(),
    ensures
        e <= literal_end(d, start, e) <= d.len(),
        e - start <= 127 ==> literal_end(d, start, e) - start <= 127,
    decreases d.len() - e,
{
    if e < d.len() && no_run_at(d, e) && e - start < 127 {
        lemma_literal_end(d, start, e + 1);
    }
}

pub fn rle_compress(data: &[u8]) -> (out: Vec<u8>)
    ensures
        out@ == rle_packed(data@),
{
    let mut out: Vec<u8> = Vec::new();
    let n: usize = data.len();
    let mut start: usize = 0;
    assert(Seq::<u8>::empty() + rle_packed_from(data@, 0) =~= rle_packed(data@));
    while start < n
        invariant
            start <= n,
            n == data@.len(),
            rle_packed(data@) == out@ + rle_packed_from(data@, start as int),
        decreases n - start,
    {
        let ghost before = out@;
        let mut e: usize = start + 1;
        while e < n && data[start] == data[e] && e - start - 1 < 127
            invariant
                start < e <= n,
                n == data@.len(),
                e - start <= 128,
                run_end(data@, start as int, start + 1) == run_end(data@, start as int, e as int),
            ensures
                start < e <= n,
                e - start <= 128,
                run_end(data@, start as int, start + 1) == e,
            decreases n - e,
        {
            e = e + 1;
        }
        if e - start >= 3 {
            out.push((e - start - 1) as u8);
            out.push(data[start]);
            proof {
                let p = seq![(e - start - 1) as u8, data@[start as int]];
                assert(out@ =~= before + p);
                assert(before + (p + rle_packed_from(data@, e as int)) =~= out@ + rle_packed_from(
                    data@,
                    e as int,
                ));
            }
            start = e;
        } else {
            let ghost first = e as int;
            while e < n && (e + 1 >= n || data[e] != data[e + 1] || e + 2 >= n || data[e + 1] != data[e
                + 2]) && e - start < 127
                invariant
                    start < e <= n,
                    n == data@.len(),
                    e - start <= 127,
                    literal_end(data@, start as int, first) == literal_end(
                        data@,
                        start as int,
                        e as int,
                    ),
                ensures
                    start < e <= n,
                    e - start <= 127,
                    literal_end(data@, start as int, first) == e,
                decreases n - e,
            {
                e = e + 1;
            }
            out.push((256 - (e - start)) as u8);
            put_bytes(&mut out, slice_range(data, start, e));
            proof {
                let p = seq![(256 - (e - start)) as u8] + data@.subrange(start as int, e as int);
                assert(out@ =~= before + p);
                assert(before + (p + rle_packed_from(data@, e as int)) =~= out@ + rle_packed_from(
                    data@,
                    e as int,
                ));
            }
            start = e;
        }
    }
    assert(out@ + Seq::<u8>::empty() =~= out@);
    out
}

proof fn lemma_rle_round_trip(d: Seq<u8>, start: int)
    requires
        0 <= start <= d.len(),
    ensures
        rle_unpacked(rle_packed_from(d, start)) == Some(d.skip(start)),
    decreases d.len() - start,
{
    if start == d.len() {
        assert(d.skip(start) =~= Seq::empty());
    } else {
        let e = run_end(d, start, start + 1);
        lemma_run_end(d, start, start + 1);
        let s = rle_packed_from(d, start);
        if e - start >= 3 {
            lemma_rle_round_trip(d, e);
            assert(s.skip(2) =~= rle_packed_from(d, e));
            assert(packet_text(s) =~= d.subrange(start, e));
            assert(d.subrange(start, e) + d.skip(e) =~= d.skip(start));
        } else {
            lemma_literal_end(d, start, e);
            let f = literal_end(d, start, e);
            lemma_rle_round_trip(d, f);
            assert(s[0] == (256 - (f - start)) as u8);
            assert(packet_len(s) == 1 + (f - start));
            assert(s.skip(packet_len(s)) =~= rle_packed_from(d, f));
            assert(packet_text(s) =~= d.subrange(start, f));
            assert(d.subrange(start, f) + d.skip(f) =~= d.skip(start));
        }
    }
}

/// Packets decode to the bytes that they were made for.
pub proof fn law_rle_round_trip(d: Seq<u8>)
    ensures
        rle_unpacked(rle_packed(d)) == Some(d),
{
    lemma_rle_round_trip(d, 0);
    assert(d.skip(0) =~= d);
}

} // verus!
