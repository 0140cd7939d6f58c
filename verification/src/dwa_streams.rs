//! The parts of a chunk that the transform coder stored: a header, the rules
//! for its channels, and four streams.

use crate::bytes::{
    lemma_stands_split, lemma_u16_reads_back, lemma_u64_reads_back, put_u64, read_u16, read_u64,
    slice_range, stands_at, u16_at, u16_le, u64_at, u64_le,
};
use crate::dwa_parts::{codes_bytes, lemma_codes_bytes_len};
use crate::dwa_rules::{
    law_used_rules_read_back, legacy_rule_set, legacy_rules, parse_rule_block, rule_block_bytes,
    rule_block_of, rule_views, used_rules, default_rule_set, RuleView, WireRule,
};
use crate::error::{ExrError, Fault};
use crate::huf::{huf_decompress, huf_values};
use crate::pack::{zlib_inflate, zlib_inflated};
use crate::rle::{rle_decompress, rle_unpacked};
use crate::types::{ChannelView, PixelType};
use crate::zip::{restored, undo_zip_pipeline};
use vstd::prelude::*;

verus! {

broadcast use crate::bytes::group_le_len;

// ----------------------------------------------------------------------
// The header
// ----------------------------------------------------------------------
/// The length of the header.
pub const HEADER_BYTES: usize = 88;

/// The largest size that a header may give.
pub const SIZE_LIMIT: u64 = 0xf_ffff_fff0;

/// The header of a chunk.
#[derive(Clone, Copy, Debug)]
pub struct DwaHeader {
    pub version: u64,
    /// The bytes of the channels that are kept as they are.
    pub verbatim_raw: u64,
    /// The bytes that they take.
    pub verbatim_size: u64,
    /// The bytes that the coefficients but the first take.
    pub ac_size: u64,
    /// The bytes that the first coefficients take.
    pub dc_size: u64,
    /// The bytes that the channels with runs take.
    pub rle_size: u64,
    /// The bytes of their runs.
    pub rle_packed: u64,
    /// Their bytes.
    pub rle_raw: u64,
    /// The number of codes for coefficients but the first.
    pub ac_count: u64,
    /// The number of first coefficients.
    pub dc_count: u64,
    /// How the coefficients but the first are packed.
    pub ac_compression: u64,
}

/// The header that `s` begins with.
pub open spec fn header_at(s: Seq<u8>) -> DwaHeader {
    DwaHeader {
        version: u64_at(s, 0),
        verbatim_raw: u64_at(s, 8),
        verbatim_size: u64_at(s, 16),
        ac_size: u64_at(s, 24),
        dc_size: u64_at(s, 32),
        rle_size: u64_at(s, 40),
        rle_packed: u64_at(s, 48),
        rle_raw: u64_at(s, 56),
        ac_count: u64_at(s, 64),
        dc_count: u64_at(s, 72),
        ac_compression: u64_at(s, 80),
    }
}

/// A size that can be had.
pub open spec fn size_valid(x: u64) -> bool {
    x <= SIZE_LIMIT && x <= usize::MAX
}

/// The sizes and codes of a header can be had.
pub open spec fn header_valid(h: DwaHeader) -> bool {
    &&& size_valid(h.verbatim_raw)
    &&& size_valid(h.verbatim_size)
    &&& size_valid(h.ac_size)
    &&& size_valid(h.dc_size)
    &&& size_valid(h.rle_size)
    &&& size_valid(h.rle_packed)
    &&& size_valid(h.rle_raw)
    &&& size_valid(h.ac_count)
    &&& size_valid(h.dc_count)
    &&& h.version <= 2
    &&& h.ac_compression <= 1
    &&& h.dc_count > 0 ==> h.dc_size > 0
}

/// The header of a chunk.
pub open spec fn header_of(s: Seq<u8>) -> Option<DwaHeader> {
    if s.len() >= HEADER_BYTES && header_valid(header_at(s)) {
        Some(header_at(s))
    } else {
        None
    }
}

fn size_fits(x: u64) -> (r: bool)
    ensures
        r == size_valid(x),
{
    x <= SIZE_LIMIT && x <= usize::MAX as u64
}

impl DwaHeader {
    /// Read the header of a chunk.
    pub fn parse(payload: &[u8]) -> (r: Result<DwaHeader, ExrError>)
        ensures
            r matches Ok(h) ==> header_of(payload@) == Some(h),
            r matches Err(e) ==> e.fault() == Fault::Invalid && header_of(payload@) is None,
    {
        if payload.len() < HEADER_BYTES {
            return Err(ExrError::invalid("DWA: chunk cannot hold the 88-byte header"));
        }
        let h: DwaHeader = DwaHeader {
            version: read_u64(payload, 0),
            verbatim_raw: read_u64(payload, 8),
            verbatim_size: read_u64(payload, 16),
            ac_size: read_u64(payload, 24),
            dc_size: read_u64(payload, 32),
            rle_size: read_u64(payload, 40),
            rle_packed: read_u64(payload, 48),
            rle_raw: read_u64(payload, 56),
            ac_count: read_u64(payload, 64),
            dc_count: read_u64(payload, 72),
            ac_compression: read_u64(payload, 80),
        };
        if !size_fits(h.verbatim_raw) || !size_fits(h.verbatim_size) || !size_fits(h.ac_size)
            || !size_fits(h.dc_size) || !size_fits(h.rle_size) || !size_fits(h.rle_packed)
            || !size_fits(h.rle_raw) || !size_fits(h.ac_count) || !size_fits(h.dc_count) {
            return Err(ExrError::invalid("DWA: size out of range"));
        }
        if h.version > 2 {
            return Err(ExrError::invalid("DWA: chunk version above 2 must be rejected"));
        }
        if h.ac_compression > 1 {
            return Err(ExrError::invalid("DWA: unknown AC compression"));
        }
        if h.dc_count > 0 && h.dc_size == 0 {
            return Err(ExrError::invalid("DWA: dcCount > 0 with an empty DC stream"));
        }
        Ok(h)
    }
}

/// The first part of the bytes of a header.
pub open spec fn header_head(h: DwaHeader) -> Seq<u8> {
    u64_le(h.version) + u64_le(h.verbatim_raw) + u64_le(h.verbatim_size) + u64_le(h.ac_size)
        + u64_le(h.dc_size) + u64_le(h.rle_size)
}

/// The bytes of a header.
pub open spec fn header_bytes(h: DwaHeader) -> Seq<u8> {
    header_head(h) + u64_le(h.rle_packed) + u64_le(h.rle_raw) + u64_le(h.ac_count) + u64_le(
        h.dc_count,
    ) + u64_le(h.ac_compression)
}

/// Append the bytes of a header.
pub fn put_header(out: &mut Vec<u8>, h: DwaHeader)
    ensures
        final(out)@ == old(out)@ + header_bytes(h),
{
    let ghost start = out@;
    put_u64(out, h.version);
    put_u64(out, h.verbatim_raw);
    put_u64(out, h.verbatim_size);
    put_u64(out, h.ac_size);
    put_u64(out, h.dc_size);
    put_u64(out, h.rle_size);
    assert(out@ =~= start + header_head(h));
    put_u64(out, h.rle_packed);
    put_u64(out, h.rle_raw);
    put_u64(out, h.ac_count);
    put_u64(out, h.dc_count);
    put_u64(out, h.ac_compression);
    assert(out@ =~= start + header_bytes(h));
}

/// One number behind others.
proof fn lemma_number_behind(s: Seq<u8>, head: Seq<u8>, x: u64)
    requires
        stands_at(s, 0, head + u64_le(x)),
    ensures
        stands_at(s, 0, head),
        u64_at(s, head.len() as int) == x,
{
    lemma_stands_split(s, 0, head, u64_le(x));
    lemma_u64_reads_back(s, head.len() as int, x);
}

proof fn lemma_head_reads_back(s: Seq<u8>, h: DwaHeader)
    requires
        stands_at(s, 0, header_head(h)),
    ensures
        ({
            let g = header_at(s);
            &&& g.version == h.version
            &&& g.verbatim_raw == h.verbatim_raw
            &&& g.verbatim_size == h.verbatim_size
            &&& g.ac_size == h.ac_size
            &&& g.dc_size == h.dc_size
            &&& g.rle_size == h.rle_size
        }),
{
    let a = u64_le(h.version);
    let b = a + u64_le(h.verbatim_raw);
    let c = b + u64_le(h.verbatim_size);
    let d = c + u64_le(h.ac_size);
    let e = d + u64_le(h.dc_size);
    lemma_number_behind(s, e, h.rle_size);
    lemma_number_behind(s, d, h.dc_size);
    lemma_number_behind(s, c, h.ac_size);
    lemma_number_behind(s, b, h.verbatim_size);
    lemma_number_behind(s, a, h.verbatim_raw);
    lemma_u64_reads_back(s, 0, h.version);
}

/// A header that is written is read back.
pub proof fn law_header_reads_back(s: Seq<u8>, h: DwaHeader)
    requires
        stands_at(s, 0, header_bytes(h)),
    ensures
        header_bytes(h).len() == HEADER_BYTES,
        header_at(s) == h,
        header_of(s) == if header_valid(h) {
            Some(h)
        } else {
            None
        },
{
    let a = header_head(h);
    let b = a + u64_le(h.rle_packed);
    let c = b + u64_le(h.rle_raw);
    let d = c + u64_le(h.ac_count);
    let e = d + u64_le(h.dc_count);
    lemma_number_behind(s, e, h.ac_compression);
    lemma_number_behind(s, d, h.dc_count);
    lemma_number_behind(s, c, h.ac_count);
    lemma_number_behind(s, b, h.rle_raw);
    lemma_number_behind(s, a, h.rle_packed);
    lemma_head_reads_back(s, h);
}

// ----------------------------------------------------------------------
// The streams
// ----------------------------------------------------------------------
/// The parts of a chunk.
#[verifier::ext_equal]
pub struct StreamsView {
    pub header: DwaHeader,
    pub rules: Seq<RuleView>,
    pub verbatim: Seq<u8>,
    pub ac: Seq<u8>,
    pub dc: Seq<u8>,
    pub rle: Seq<u8>,
}

/// The parts of a chunk.
pub struct DwaStreams<'a> {
    pub header: DwaHeader,
    pub rules: Vec<WireRule>,
    pub verbatim: &'a [u8],
    pub ac: &'a [u8],
    pub dc: &'a [u8],
    pub rle: &'a [u8],
}

impl<'a> View for DwaStreams<'a> {
    type V = StreamsView;

    open spec fn view(&self) -> StreamsView {
        StreamsView {
            header: self.header,
            rules: rule_views(self.rules@),
            verbatim: self.verbatim@,
            ac: self.ac@,
            dc: self.dc@,
            rle: self.rle@,
        }
    }
}

/// The rules of a chunk and the bytes that they take: chunks before version 2
/// have none, and go by the legacy ones.
pub open spec fn rules_in(s: Seq<u8>, version: u64) -> Option<(Seq<RuleView>, int)> {
    if version >= 2 {
        rule_block_of(s.skip(HEADER_BYTES as int))
    } else {
        Some((legacy_rule_set(), 0))
    }
}

/// The parts of a chunk with a header and rules.
pub open spec fn streams_behind(s: Seq<u8>, h: DwaHeader, rules: Seq<RuleView>, used: int) -> Option<
    StreamsView,
> {
    let a = HEADER_BYTES + used;
    let b = a + h.verbatim_size;
    let c = b + h.ac_size;
    let d = c + h.dc_size;
    let e = d + h.rle_size;
    if e > s.len() {
        None
    } else {
        Some(
            StreamsView {
                header: h,
                rules,
                verbatim: s.subrange(a, b),
                ac: s.subrange(b, c),
                dc: s.subrange(c, d),
                rle: s.subrange(d, e),
            },
        )
    }
}

/// The parts of a chunk.
pub open spec fn streams_of(s: Seq<u8>) -> Option<StreamsView> {
    match header_of(s) {
        None => None,
        Some(h) => match rules_in(s, h.version) {
            None => None,
            Some((rules, used)) => streams_behind(s, h, rules, used),
        },
    }
}

/// Take a chunk apart.
pub fn split_streams<'a>(payload: &'a [u8]) -> (r: Result<DwaStreams<'a>, ExrError>)
    ensures
        r matches Ok(v) ==> streams_of(payload@) == Some(v@) && header_valid(v.header),
        r matches Err(e) ==> e.fault() == Fault::Invalid && streams_of(payload@) is None,
{
    let header: DwaHeader = match DwaHeader::parse(payload) {
        Ok(h) => h,
        Err(e) => {
            return Err(e);
        },
    };
    let size: usize = payload.len();
    let mut a: usize = HEADER_BYTES;
    let rules: Vec<WireRule> = if header.version >= 2 {
        let rest: &[u8] = slice_range(payload, HEADER_BYTES, size);
        assert(rest@ =~= payload@.skip(HEADER_BYTES as int));
        match parse_rule_block(rest) {
            Ok((rules, used)) => {
                a = a + used;
                rules
            },
            Err(e) => {
                return Err(e);
            },
        }
    } else {
        legacy_rules()
    };
    let e: u128 = a as u128 + header.verbatim_size as u128 + header.ac_size as u128
        + header.dc_size as u128 + header.rle_size as u128;
    if e > size as u128 {
        return Err(ExrError::invalid("DWA: stream runs past chunk end"));
    }
    let b: usize = a + header.verbatim_size as usize;
    let c: usize = b + header.ac_size as usize;
    let d: usize = c + header.dc_size as usize;
    Ok(
        DwaStreams {
            header,
            rules,
            verbatim: slice_range(payload, a, b),
            ac: slice_range(payload, b, c),
            dc: slice_range(payload, c, d),
            rle: slice_range(payload, d, e as usize),
        },
    )
}

/// The bytes of a chunk with the rules that its channels need.
pub open spec fn streams_bytes(
    h: DwaHeader,
    cs: Seq<ChannelView>,
    verbatim: Seq<u8>,
    ac: Seq<u8>,
    dc: Seq<u8>,
    rle: Seq<u8>,
) -> Seq<u8> {
    header_bytes(h) + rule_block_bytes(used_rules(cs, default_rule_set())) + verbatim + ac + dc + rle
}

/// The parts that are put together are taken apart again.
pub proof fn law_streams_read_back(
    h: DwaHeader,
    cs: Seq<ChannelView>,
    verbatim: Seq<u8>,
    ac: Seq<u8>,
    dc: Seq<u8>,
    rle: Seq<u8>,
)
    requires
        header_valid(h),
        h.version == 2,
        h.verbatim_size == verbatim.len(),
        h.ac_size == ac.len(),
        h.dc_size == dc.len(),
        h.rle_size == rle.len(),
    ensures
        streams_of(streams_bytes(h, cs, verbatim, ac, dc, rle)) == Some(
            StreamsView {
                header: h,
                rules: used_rules(cs, default_rule_set()),
                verbatim,
                ac,
                dc,
                rle,
            },
        ),
{
    let s = streams_bytes(h, cs, verbatim, ac, dc, rle);
    let block = rule_block_bytes(used_rules(cs, default_rule_set()));
    assert(s.subrange(0, header_bytes(h).len() as int) =~= header_bytes(h));
    law_header_reads_back(s, h);
    let rest = s.skip(HEADER_BYTES as int);
    assert(rest.subrange(0, block.len() as int) =~= block);
    law_used_rules_read_back(rest, cs);
    let a = HEADER_BYTES + block.len();
    let b = a + verbatim.len();
    let c = b + ac.len();
    let d = c + dc.len();
    assert(s.subrange(a, b) =~= verbatim);
    assert(s.subrange(b, c) =~= ac);
    assert(s.subrange(c, d) =~= dc);
    assert(s.subrange(d, d + rle.len()) =~= rle);
}

// ----------------------------------------------------------------------
// What the streams hold
// ----------------------------------------------------------------------
/// What a zlib stream inflates to, where that is `size` bytes.
pub open spec fn inflated_to(data: Seq<u8>, size: int) -> Option<Seq<u8>> {
    match zlib_inflated(data) {
        Some(v) => if v.len() == size {
            Some(v)
        } else {
            None
        },
        None => None,
    }
}

fn inflate_to(data: &[u8], size: u64) -> (r: Result<Vec<u8>, ExrError>)
    ensures
        r matches Ok(v) ==> inflated_to(data@, size as int) == Some(v@),
        r matches Err(e) ==> e.fault() == Fault::Invalid && inflated_to(data@, size as int) is None,
{
    match zlib_inflate(data, size) {
        Ok(v) => {
            if v.len() as u64 != size {
                return Err(ExrError::invalid("DWA: stream inflated to a length other than expected"));
            }
            Ok(v)
        },
        Err(e) => Err(e),
    }
}

/// The codes in some bytes.
pub open spec fn codes_in(data: Seq<u8>) -> Seq<u16> {
    Seq::new(data.len() / 2, |i: int| u16_at(data, 2 * i))
}

fn read_code_list(data: &[u8]) -> (r: Vec<u16>)
    ensures
        r@ == codes_in(data@),
{
    let n: usize = data.len() / 2;
    let mut r: Vec<u16> = Vec::new();
    let mut i: usize = 0;
    while i < n
        invariant
            i <= n,
            n == data@.len() / 2,
            data@.len() <= usize::MAX,
            r@.len() == i,
            forall|k: int| 0 <= k < i ==> r@[k] == codes_in(data@)[k],
        decreases n - i,
    {
        r.push(read_u16(data, 2 * i));
        i = i + 1;
    }
    assert(r@ =~= codes_in(data@));
    r
}

/// Codes that are written are read back.
pub proof fn law_codes_of_bytes(codes: Seq<u16>)
    ensures
        codes_in(codes_bytes(PixelType::Half, codes)) == codes,
    decreases codes.len(),
{
    lemma_codes_bytes_len(PixelType::Half, codes);
    let got = codes_in(codes_bytes(PixelType::Half, codes));
    if codes.len() > 0 {
        let init = codes.drop_last();
        law_codes_of_bytes(init);
        lemma_codes_bytes_len(PixelType::Half, init);
        let head = codes_bytes(PixelType::Half, init);
        let all = codes_bytes(PixelType::Half, codes);
        assert forall|i: int| 0 <= i < codes.len() implies got[i] == codes[i] by {
            if i < init.len() {
                assert(codes_in(head)[i] == init[i]);
                assert(all[2 * i] == head[2 * i] && all[2 * i + 1] == head[2 * i + 1]);
                reveal(u16_at);
            } else {
                assert(all.subrange(2 * i, 2 * i + 2) =~= u16_le(codes.last()));
                lemma_u16_reads_back(all, 2 * i, codes.last());
            }
        }
    }
    assert(got =~= codes);
}

/// The bytes of the channels that are kept as they are.
pub open spec fn verbatim_of(v: StreamsView) -> Option<Seq<u8>> {
    if v.header.verbatim_raw > 0 {
        inflated_to(v.verbatim, v.header.verbatim_raw as int)
    } else {
        Some(Seq::empty())
    }
}

/// The codes of the coefficients but the first.
pub open spec fn ac_of(v: StreamsView) -> Option<Seq<u16>> {
    if v.header.ac_count == 0 {
        Some(Seq::empty())
    } else if v.header.ac_compression == 0 {
        huf_values(v.ac, v.header.ac_count as int)
    } else {
        match inflated_to(v.ac, 2 * v.header.ac_count) {
            None => None,
            Some(data) => Some(codes_in(data)),
        }
    }
}

/// The codes of the first coefficients.
pub open spec fn dc_of(v: StreamsView) -> Option<Seq<u16>> {
    if v.header.dc_count > 0 {
        match inflated_to(v.dc, 2 * v.header.dc_count) {
            None => None,
            Some(data) => Some(codes_in(restored(data))),
        }
    } else {
        Some(Seq::empty())
    }
}

/// The bytes of the channels with runs.
pub open spec fn rle_of(v: StreamsView) -> Option<Seq<u8>> {
    if v.header.rle_raw > 0 {
        match inflated_to(v.rle, v.header.rle_packed as int) {
            None => None,
            Some(data) => match rle_unpacked(data) {
                None => None,
                Some(raw) => if raw.len() == v.header.rle_raw {
                    Some(raw)
                } else {
                    None
                },
            },
        }
    } else {
        Some(Seq::empty())
    }
}

impl<'a> DwaStreams<'a> {
    /// Read the bytes of the channels that are kept as they are.
    pub fn read_verbatim(&self) -> (r: Result<Vec<u8>, ExrError>)
        ensures
            r matches Ok(v) ==> verbatim_of(self@) == Some(v@) && v@.len()
                == self.header.verbatim_raw,
            r matches Err(e) ==> e.fault() == Fault::Invalid && verbatim_of(self@) is None,
    {
        if self.header.verbatim_raw > 0 {
            inflate_to(self.verbatim, self.header.verbatim_raw)
        } else {
            Ok(Vec::new())
        }
    }

    /// Read the codes of the coefficients but the first.
    pub fn read_ac(&self) -> (r: Result<Vec<u16>, ExrError>)
        requires
            header_valid(self.header),
        ensures
            r matches Ok(v) ==> ac_of(self@) == Some(v@),
            r matches Err(e) ==> e.fault() == Fault::Invalid && ac_of(self@) is None,
    {
        if self.header.ac_count == 0 {
            return Ok(Vec::new());
        }
        if self.header.ac_compression == 0 {
            huf_decompress(self.ac, self.header.ac_count as usize)
        } else {
            match inflate_to(self.ac, 2 * self.header.ac_count) {
                Ok(data) => Ok(read_code_list(data.as_slice())),
                Err(e) => Err(e),
            }
        }
    }

    /// Read the codes of the first coefficients.
    pub fn read_dc(&self) -> (r: Result<Vec<u16>, ExrError>)
        requires
            header_valid(self.header),
        ensures
            r matches Ok(v) ==> dc_of(self@) == Some(v@) && v@.len() == self.header.dc_count,
            r matches Err(e) ==> e.fault() == Fault::Invalid && dc_of(self@) is None,
    {
        if self.header.dc_count > 0 {
            match inflate_to(self.dc, 2 * self.header.dc_count) {
                Ok(data) => {
                    let plain: Vec<u8> = undo_zip_pipeline(data.as_slice());
                    Ok(read_code_list(plain.as_slice()))
                },
                Err(e) => Err(e),
            }
        } else {
            Ok(Vec::new())
        }
    }

    /// Read the bytes of the channels with runs.
    pub fn read_rle(&self) -> (r: Result<Vec<u8>, ExrError>)
        ensures
            r matches Ok(v) ==> rle_of(self@) == Some(v@) && v@.len() == self.header.rle_raw,
            r matches Err(e) ==> e.fault() == Fault::Invalid && rle_of(self@) is None,
    {
        if self.header.rle_raw > 0 {
            match inflate_to(self.rle, self.header.rle_packed) {
                Ok(data) => rle_decompress(data.as_slice(), self.header.rle_raw),
                Err(e) => Err(e),
            }
        } else {
            Ok(Vec::new())
        }
    }
}

} // verus!
