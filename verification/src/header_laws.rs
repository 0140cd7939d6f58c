//! What a header depends on: the bytes up to its end, and no others.

use crate::bytes::{agree, lemma_slice_agree, lemma_u32_agree};
use crate::error::Fault;
use crate::header::{
    entries_from, entry_at, header_of, lemma_entries_advance, lemma_text_advances, lemma_zero_found,
    lemma_zero_from, multipart_headers_of, single_header_of, tables_from, text_at, version_of,
    HeaderView,
};
use vstd::prelude::*;
use vstd::utf8::*;

verus! {

/// A text depends on its own bytes.
proof fn lemma_text_agree(s: Seq<u8>, t: Seq<u8>, pos: int, max: int)
    requires
        0 <= pos <= s.len(),
        0 <= max,
        text_at(s, pos, max) matches Some((x, p)) && agree(s, t, pos, p),
    ensures
        text_at(t, pos, max) == text_at(s, pos, max),
        text_at(s, pos, max) matches Some((x, p)) && pos < p <= s.len(),
{
    let p = (text_at(s, pos, max)->Some_0).1;
    let limit = if pos + max + 1 < s.len() {
        pos + max + 1
    } else {
        s.len() as int
    };
    let other = if pos + max + 1 < t.len() {
        pos + max + 1
    } else {
        t.len() as int
    };
    lemma_zero_from(s, pos, limit);
    assert(s[p - 1] == t[p - 1]);
    assert forall|i: int| pos <= i < p - 1 implies t[i] != 0 by {
        assert(s[i] == t[i]);
    }
    lemma_zero_found(t, pos, other, p - 1);
    lemma_slice_agree(s, t, pos, p, pos, p - 1);
}

/// An attribute depends on its own bytes.
proof fn lemma_entry_agree(s: Seq<u8>, t: Seq<u8>, pos: int, max: int)
    requires
        0 <= pos <= s.len(),
        0 <= max,
        entry_at(s, pos, max) matches Some((e, p)) && agree(s, t, pos, p),
    ensures
        entry_at(t, pos, max) == entry_at(s, pos, max),
        entry_at(s, pos, max) matches Some((e, p)) && pos < p <= s.len(),
{
    let end = (entry_at(s, pos, max)->Some_0).1;
    let p = (text_at(s, pos, max)->Some_0).1;
    lemma_text_advances(s, pos, max);
    lemma_text_advances(s, p, max);
    let q = (text_at(s, p, max)->Some_0).1;
    lemma_text_agree(s, t, pos, max);
    lemma_text_agree(s, t, p, max);
    lemma_u32_agree(s, t, pos, end, q);
    lemma_slice_agree(s, t, pos, end, q + 4, end);
}

/// A table of attributes depends on its own bytes. It ends with a zero byte.
proof fn lemma_entries_agree(s: Seq<u8>, t: Seq<u8>, pos: int, max: int)
    requires
        0 <= pos,
        0 <= max,
        entries_from(s, pos, max) matches Some((es, end)) && agree(s, t, pos, end),
    ensures
        entries_from(t, pos, max) == entries_from(s, pos, max),
        entries_from(s, pos, max) matches Some((es, end)) && pos < end <= s.len() && s[end - 1] == 0
            && (s[pos] != 0 ==> es.len() > 0),
    decreases s.len() - pos,
{
    lemma_entries_advance(s, pos, max);
    assert(s[pos] == t[pos]);
    if s[pos] != 0 {
        let p = (entry_at(s, pos, max)->Some_0).1;
        lemma_text_advances(s, pos, max);
        lemma_text_advances(s, (text_at(s, pos, max)->Some_0).1, max);
        lemma_entries_advance(s, p, max);
        lemma_entry_agree(s, t, pos, max);
        lemma_entries_agree(s, t, p, max);
    }
}

/// Tables of attributes depend on their own bytes. They end with a zero byte;
/// where there is one, with two.
proof fn lemma_tables_agree(s: Seq<u8>, t: Seq<u8>, pos: int, max: int)
    requires
        0 <= pos,
        0 <= max,
        tables_from(s, pos, max) matches Some((ts, end)) && agree(s, t, pos, end),
    ensures
        tables_from(t, pos, max) == tables_from(s, pos, max),
        tables_from(s, pos, max) matches Some((ts, end)) && pos < end <= s.len() && s[end - 1] == 0
            && (ts.len() > 0 ==> pos + 1 < end && s[end - 2] == 0) && forall|i: int|
            0 <= i < ts.len() ==> (#[trigger] ts[i]).len() > 0,
    decreases s.len() - pos,
{
    lemma_tables_advance(s, pos, max);
    assert(s[pos] == t[pos]);
    if s[pos] != 0 {
        let (first, p) = entries_from(s, pos, max)->Some_0;
        lemma_entries_advance(s, pos, max);
        lemma_tables_advance(s, p, max);
        lemma_entries_agree(s, t, pos, max);
        lemma_tables_agree(s, t, p, max);
        let (rest, end) = tables_from(s, p, max)->Some_0;
        let ts = seq![first] + rest;
        assert forall|i: int| 0 <= i < ts.len() implies (#[trigger] ts[i]).len() > 0 by {
            if i > 0 {
                assert(ts[i] == rest[i - 1]);
            }
        }
        if rest.len() == 0 {
            assert(s[p] == 0);
        }
    }
}

proof fn lemma_tables_advance(s: Seq<u8>, pos: int, max: int)
    requires
        0 <= pos,
        0 <= max,
    ensures
        tables_from(s, pos, max) matches Some((ts, p)) ==> pos < p <= s.len(),
    decreases s.len() - pos,
{
    if pos < s.len() && s[pos] != 0 {
        lemma_entries_advance(s, pos, max);
        if let Some((e, p)) = entries_from(s, pos, max) {
            lemma_tables_advance(s, p, max);
        }
    }
}

/// A header ends in the bytes.
pub proof fn lemma_single_header_bound(s: Seq<u8>, deep: bool)
    ensures
        single_header_of(s, deep) matches Ok(h) ==> 8 < h.end <= s.len(),
{
    if let Ok(h) = single_header_of(s, deep) {
        lemma_entries_advance(s, 8, h.version.name_limit());
    }
}

/// The headers of the parts end in the bytes.
pub proof fn lemma_part_headers_bound(s: Seq<u8>)
    ensures
        multipart_headers_of(s) matches Ok(hs) ==> (hs.len() > 0 ==> 8 < hs.last().end <= s.len()),
{
    if let Ok(hs) = multipart_headers_of(s) {
        lemma_tables_advance(s, 8, version_of(crate::bytes::u32_at(s, 4)).name_limit());
    }
}

/// A header depends on the bytes up to its end alone.
pub proof fn law_single_header_agrees(s: Seq<u8>, t: Seq<u8>, deep: bool)
    requires
        single_header_of(s, deep) matches Ok(h) && agree(s, t, 0, h.end),
    ensures
        single_header_of(t, deep) == single_header_of(s, deep),
        single_header_of(s, deep) matches Ok(h) && 8 < h.end <= s.len() && s[h.end - 1] == 0,
{
    let h = single_header_of(s, deep)->Ok_0;
    lemma_entries_advance(s, 8, h.version.name_limit());
    lemma_u32_agree(s, t, 0, h.end, 0);
    lemma_u32_agree(s, t, 0, h.end, 4);
    lemma_entries_agree(s, t, 8, h.version.name_limit());
}

/// The zero byte that ends the header of a file is the last byte that is read
/// for it: whatever stands behind it, the header is the same, and without it
/// there is none.
pub proof fn law_header_ends(b: Seq<u8>, h: HeaderView)
    requires
        header_of(b) == Ok::<HeaderView, Fault>(h),
    ensures
        0 < h.end <= b.len(),
        b[h.end - 1] == 0,
        forall|k: int| 0 <= k < h.end ==> header_of(#[trigger] b.take(k)) is Err,
        forall|x: Seq<u8>|
            #[trigger]
            header_of(b.take(h.end) + x) == Ok::<HeaderView, Fault>(h),
{
    lemma_single_header_bound(b, false);
    law_single_header_agrees(b, b, false);
    assert forall|k: int| 0 <= k < h.end implies header_of(#[trigger] b.take(k)) is Err by {
        let t = b.take(k);
        if let Ok(g) = header_of(t) {
            lemma_single_header_bound(t, false);
            law_single_header_agrees(t, b, false);
        }
    }
    assert forall|x: Seq<u8>| #[trigger]
        header_of(b.take(h.end) + x) == Ok::<HeaderView, Fault>(h) by {
        law_single_header_agrees(b, b.take(h.end) + x, false);
    }
}

/// The headers of the parts depend on the bytes up to their end alone.
pub proof fn law_part_headers_agree(s: Seq<u8>, t: Seq<u8>)
    requires
        multipart_headers_of(s) matches Ok(hs) && hs.len() > 0 && agree(s, t, 0, hs.last().end),
    ensures
        multipart_headers_of(t) == multipart_headers_of(s),
        multipart_headers_of(s) matches Ok(hs) && 9 < hs.last().end <= s.len() && s[hs.last().end - 1]
            == 0 && s[hs.last().end - 2] == 0 && hs.last().version.multipart && forall|i: int|
            0 <= i < hs.len() ==> (#[trigger] hs[i]).entries.len() > 0 && hs[i].end == hs.last().end
                && hs[i].version == hs.last().version,
{
    let hs = multipart_headers_of(s)->Ok_0;
    let version = version_of(crate::bytes::u32_at(s, 4));
    let max = version.name_limit();
    let end = hs.last().end;
    lemma_tables_advance(s, 8, max);
    lemma_u32_agree(s, t, 0, end, 0);
    lemma_u32_agree(s, t, 0, end, 4);
    lemma_tables_agree(s, t, 8, max);
    let (ts, p) = tables_from(s, 8, max)->Some_0;
    assert forall|i: int| 0 <= i < hs.len() implies (#[trigger] hs[i]).entries.len() > 0 && hs[i].end
        == end && hs[i].version == hs.last().version by {
        assert(hs[i].entries == ts[i]);
    }
}

/// The headers of the parts of a file have one version, which says that there
/// are several parts, and one end, in front of which two zero bytes stand.
/// None is empty. A file that ends before has no headers.
pub proof fn law_part_headers_end(b: Seq<u8>, hs: Seq<HeaderView>)
    requires
        multipart_headers_of(b) == Ok::<Seq<HeaderView>, Fault>(hs),
        hs.len() > 0,
    ensures
        ({
            let e = hs[0].end;
            &&& 2 <= e <= b.len()
            &&& b[e - 1] == 0
            &&& b[e - 2] == 0
            &&& hs[0].version.multipart
            &&& forall|i: int|
                0 <= i < hs.len() ==> (#[trigger] hs[i]).entries.len() > 0 && hs[i].end == e
                    && hs[i].version == hs[0].version
            &&& forall|k: int| 0 <= k < e ==> multipart_headers_of(#[trigger] b.take(k)) is Err
        }),
{
    lemma_part_headers_bound(b);
    law_part_headers_agree(b, b);
    let e = hs.last().end;
    assert(hs[0].end == e);
    assert forall|k: int| 0 <= k < e implies multipart_headers_of(#[trigger] b.take(k)) is Err by {
        lemma_cut_headers(b, hs, k);
    }
}

proof fn lemma_cut_headers(b: Seq<u8>, hs: Seq<HeaderView>, k: int)
    requires
        multipart_headers_of(b) == Ok::<Seq<HeaderView>, Fault>(hs),
        hs.len() > 0,
        0 <= k < hs.last().end <= b.len(),
    ensures
        multipart_headers_of(b.take(k)) is Err,
{
    let t = b.take(k);
    if multipart_headers_of(t) is Ok {
        assert(agree(t, b, 0, k));
        lemma_u32_agree(t, b, 0, k, 0);
        lemma_u32_agree(t, b, 0, k, 4);
        let max = version_of(crate::bytes::u32_at(t, 4)).name_limit();
        lemma_tables_advance(t, 8, max);
        lemma_tables_agree(t, b, 8, max);
    }
}

} // verus!
