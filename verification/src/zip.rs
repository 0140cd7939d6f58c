//! The two byte transforms that stand before the entropy coder: the
//! interleave, which gathers even and odd bytes, and the predictor, which
//! replaces each byte by its difference from the byte before.

use vstd::prelude::*;

verus! {

/// The number of even positions in a sequence of length `n`.
pub open spec fn even_count(n: int) -> int {
    (n + 1) / 2
}

/// The bytes at even positions, followed by those at odd positions.
pub open spec fn interleaved(s: Seq<u8>) -> Seq<u8> {
    Seq::new(
        s.len(),
        |k: int|
            if k < even_count(s.len() as int) {
                s[2 * k]
            } else {
                s[2 * (k - even_count(s.len() as int)) + 1]
            },
    )
}

/// The first half of the bytes at even positions, the second at odd ones.
pub open spec fn uninterleaved(s: Seq<u8>) -> Seq<u8> {
    Seq::new(
        s.len(),
        |i: int|
            if i % 2 == 0 {
                s[i / 2]
            } else {
                s[even_count(s.len() as int) + i / 2]
            },
    )
}

/// Each byte but the first replaced by its difference from the byte before
/// it, with 128 added, modulo 256.
pub open spec fn predicted(s: Seq<u8>) -> Seq<u8> {
    Seq::new(
        s.len(),
        |i: int|
            if i == 0 {
                s[0]
            } else {
                ((s[i] - s[i - 1] + 128) % 256) as u8
            },
    )
}

/// The byte at `i` of the sequence whose differences are `s`.
pub open spec fn unpredicted_at(s: Seq<u8>, i: int) -> u8
    decreases i,
{
    if i <= 0 {
        s[0]
    } else {
        ((s[i] + unpredicted_at(s, i - 1) - 128) % 256) as u8
    }
}

/// The sequence whose differences are `s`.
pub open spec fn unpredicted(s: Seq<u8>) -> Seq<u8> {
    Seq::new(s.len(), |i: int| unpredicted_at(s, i))
}

pub fn apply_zip_unpredictor(buf: &mut [u8])
    ensures
        final(buf)@ == unpredicted(old(buf)@),
{
    let ghost s = buf@;
    let n: usize = buf.len();
    if n == 0 {
        assert(buf@ =~= unpredicted(s));
        return;
    }
    let mut prev: u8 = buf[0];
    let mut i: usize = 1;
    while i < n
        invariant
            1 <= i <= n,
            n == s.len(),
            buf@.len() == n,
            prev == unpredicted_at(s, i - 1),
            forall|j: int| 0 <= j < i ==> buf@[j] == unpredicted_at(s, j),
            forall|j: int| i <= j < n ==> buf@[j] == s[j],
        decreases n - i,
    {
        let sum: u32 = buf[i] as u32 + prev as u32 + 128;
        let v: u8 = (sum % 256) as u8;
        buf[i] = v;
        prev = v;
        i = i + 1;
    }
    assert(buf@ =~= unpredicted(s));
}

pub fn apply_zip_predictor(buf: &mut [u8])
    ensures
        final(buf)@ == predicted(old(buf)@),
{
    let ghost s = buf@;
    let n: usize = buf.len();
    if n == 0 {
        assert(buf@ =~= predicted(s));
        return;
    }
    let mut prev: u8 = buf[0];
    let mut i: usize = 1;
    while i < n
        invariant
            1 <= i <= n,
            n == s.len(),
            buf@.len() == n,
            prev == s[i - 1],
            forall|j: int| 0 <= j < i ==> buf@[j] == predicted(s)[j],
            forall|j: int| i <= j < n ==> buf@[j] == s[j],
        decreases n - i,
    {
        let cur: u8 = buf[i];
        let sum: u32 = cur as u32 + 384 - prev as u32;
        buf[i] = (sum % 256) as u8;
        prev = cur;
        i = i + 1;
    }
    assert(buf@ =~= predicted(s));
}

pub fn apply_zip_uninterleave(src: &[u8], dst: &mut [u8])
    requires
        src@.len() == old(dst)@.len(),
    ensures
        final(dst)@ == uninterleaved(src@),
{
    let n: usize = src.len();
    let half: usize = n / 2 + n % 2;
    let mut i: usize = 0;
    while i < n
        invariant
            i <= n,
            n == src@.len(),
            n == dst@.len(),
            half == even_count(n as int),
            forall|j: int| 0 <= j < i ==> dst@[j] == uninterleaved(src@)[j],
        decreases n - i,
    {
        if i % 2 == 0 {
            dst[i] = src[i / 2];
        } else {
            dst[i] = src[half + i / 2];
        }
        i = i + 1;
    }
    assert(dst@ =~= uninterleaved(src@));
}

pub fn apply_zip_interleave(src: &[u8], dst: &mut [u8])
    requires
        src@.len() == old(dst)@.len(),
    ensures
        final(dst)@ == interleaved(src@),
{
    let n: usize = src.len();
    let half: usize = n / 2 + n % 2;
    let mut k: usize = 0;
    while k < n
        invariant
            k <= n,
            n == src@.len(),
            n == dst@.len(),
            half == even_count(n as int),
            forall|j: int| 0 <= j < k ==> dst@[j] == interleaved(src@)[j],
        decreases n - k,
    {
        if k < half {
            dst[k] = src[2 * k];
        } else {
            dst[k] = src[2 * (k - half) + 1];
        }
        k = k + 1;
    }
    assert(dst@ =~= interleaved(src@));
}

/// The bytes that go to the entropy coder.
pub open spec fn prepared(s: Seq<u8>) -> Seq<u8> {
    predicted(interleaved(s))
}

/// The bytes that came from the entropy coder, with both transforms undone.
pub open spec fn restored(s: Seq<u8>) -> Seq<u8> {
    uninterleaved(unpredicted(s))
}

/// Interleave, then predict.
pub fn prepare(raw: &[u8]) -> (r: Vec<u8>)
    ensures
        r@ == prepared(raw@),
{
    let mut r: Vec<u8> = vec![0u8; raw.len()];
    apply_zip_interleave(raw, r.as_mut_slice());
    apply_zip_predictor(r.as_mut_slice());
    r
}

/// Undo the predictor, then the interleave.
pub fn undo_zip_pipeline(raw: &[u8]) -> (r: Vec<u8>)
    ensures
        r@ == restored(raw@),
{
    let mut mid: Vec<u8> = Vec::new();
    crate::bytes::put_bytes(&mut mid, raw);
    assert(mid@ =~= raw@);
    apply_zip_unpredictor(mid.as_mut_slice());
    let mut r: Vec<u8> = vec![0u8; raw.len()];
    apply_zip_uninterleave(mid.as_slice(), r.as_mut_slice());
    r
}

/// The interleave is undone by its inverse.
pub proof fn law_uninterleave_of_interleave(s: Seq<u8>)
    ensures
        uninterleaved(interleaved(s)) == s,
{
    assert(uninterleaved(interleaved(s)) =~= s);
}

/// The inverse of the interleave is undone by the interleave.
pub proof fn law_interleave_of_uninterleave(s: Seq<u8>)
    ensures
        interleaved(uninterleaved(s)) == s,
{
    assert(interleaved(uninterleaved(s)) =~= s);
}

proof fn lemma_unpredict_at(s: Seq<u8>, i: int)
    requires
        0 <= i < s.len(),
    ensures
        unpredicted_at(predicted(s), i) == s[i],
    decreases i,
{
    if i > 0 {
        lemma_unpredict_at(s, i - 1);
    }
}

/// The predictor is undone by its inverse.
pub proof fn law_unpredict_of_predict(s: Seq<u8>)
    ensures
        unpredicted(predicted(s)) == s,
{
    assert forall|i: int| 0 <= i < s.len() implies unpredicted(predicted(s))[i] == s[i] by {
        lemma_unpredict_at(s, i);
    }
    assert(unpredicted(predicted(s)) =~= s);
}

/// The inverse of the predictor is undone by the predictor.
pub proof fn law_predict_of_unpredict(s: Seq<u8>)
    ensures
        predicted(unpredicted(s)) == s,
{
    assert(predicted(unpredicted(s)) =~= s);
}

/// Both transforms together are undone by their inverses.
pub proof fn law_restore_of_prepare(s: Seq<u8>)
    ensures
        restored(prepared(s)) == s,
        prepared(s).len() == s.len(),
{
    law_unpredict_of_predict(interleaved(s));
    law_uninterleave_of_interleave(s);
}

} // verus!
