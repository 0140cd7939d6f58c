//! The entropy coders of the block compressions, with the byte transforms
//! around them.

use crate::bytes::copy_range;
use crate::error::{ExrError, Fault};
use crate::rle::{law_rle_round_trip, rle_compress, rle_decompress, rle_packed, rle_unpacked};
use crate::types::Compression;
use crate::zip::{law_restore_of_prepare, prepare, prepared, restored, undo_zip_pipeline};
use std::io::{Read, Write};
use vstd::prelude::*;

verus! {

/// What `flate2::read::ZlibDecoder` makes of a zlib stream; nothing where it
/// reports an error.
pub uninterp spec fn zlib_inflated(data: Seq<u8>) -> Option<Seq<u8>>;

/// What `flate2::write::ZlibEncoder` makes of some bytes at the default
/// level; nothing where it reports an error.
pub uninterp spec fn zlib_deflated(data: Seq<u8>) -> Option<Seq<u8>>;

/// `flate2::read::ZlibDecoder`, read to its end: the inflated bytes, or
/// nothing where the decoder reports an error. They are a function of the
/// stream alone.
#[verifier::external_body]
fn inflate(data: &[u8]) -> (r: Option<Vec<u8>>)
    ensures
        r is Some <==> zlib_inflated(data@) is Some,
        r matches Some(v) ==> zlib_inflated(data@) == Some(v@),
{
    let mut out = Vec::new();
    let mut dec = flate2::read::ZlibDecoder::new(data);
    dec.read_to_end(&mut out).ok().map(|_n| out)
}

/// `flate2::write::ZlibEncoder` at the default level, over a growing buffer:
/// the deflated bytes, or nothing where the encoder reports an error. They
/// are a function of the input alone, and they inflate to it again.
#[verifier::external_body]
fn deflate(data: &[u8]) -> (r: Option<Vec<u8>>)
    ensures
        r is Some <==> zlib_deflated(data@) is Some,
        r matches Some(v) ==> zlib_deflated(data@) == Some(v@),
        r matches Some(v) ==> zlib_inflated(v@) == Some(data@),
{
    let mut enc = flate2::write::ZlibEncoder::new(Vec::new(), flate2::Compression::default());
    enc.write_all(data).ok().and_then(|_u| enc.finish().ok())
}

/// What a zlib stream inflates to, where that is no more than `limit` bytes.
pub open spec fn inflated_within(data: Seq<u8>, limit: int) -> Option<Seq<u8>> {
    match zlib_inflated(data) {
        Some(v) => if v.len() <= limit {
            Some(v)
        } else {
            None
        },
        None => None,
    }
}

/// The bytes `inflated` that a stream gave, where they are no more than
/// `limit`.
pub fn keep_within(inflated: Option<Vec<u8>>, limit: u64) -> (r: Result<Vec<u8>, ExrError>)
    ensures
        r matches Ok(v) ==> inflated matches Some(w) && v@ == w@ && v@.len() <= limit,
        r matches Err(e) ==> e.fault() == Fault::Invalid && (inflated matches Some(w) ==> w@.len()
            > limit),
{
    match inflated {
        Some(v) => {
            if v.len() as u64 > limit {
                return Err(ExrError::invalid("zlib stream is longer than expected"));
            }
            Ok(v)
        },
        None => Err(ExrError::invalid("zlib inflate failed")),
    }
}

/// zlib-decompress `data` into at most `expected_size` bytes.
pub fn zlib_inflate(data: &[u8], expected_size: u64) -> (r: Result<Vec<u8>, ExrError>)
    ensures
        r matches Ok(v) ==> inflated_within(data@, expected_size as int) == Some(v@) && v@.len()
            <= expected_size,
        r matches Err(e) ==> e.fault() == Fault::Invalid && inflated_within(
            data@,
            expected_size as int,
        ) is None,
{
    keep_within(inflate(data), expected_size)
}

/// zlib-compress `data`. The stream inflates to `data` again.
pub fn zlib_deflate(data: &[u8]) -> (r: Result<Vec<u8>, ExrError>)
    ensures
        r matches Ok(v) ==> zlib_deflated(data@) == Some(v@) && zlib_inflated(v@) == Some(data@),
        r matches Err(e) ==> e.fault() == Fault::Invalid && zlib_deflated(data@) is None,
{
    match deflate(data) {
        Some(v) => Ok(v),
        None => Err(ExrError::invalid("zlib deflate failed")),
    }
}

/// The compressions that leave the bytes of a block as they are, or pack them
/// with zlib or in runs.
pub open spec fn is_lossless(c: Compression) -> bool {
    c == Compression::Uncompressed || c == Compression::Rle || c == Compression::Zips || c
        == Compression::Zip
}

/// The `size` bytes that a stored block stands for. A block of just that
/// length is stored as it is.
pub open spec fn unpacked(payload: Seq<u8>, size: nat, c: Compression) -> Option<Seq<u8>> {
    if payload.len() == size {
        Some(payload)
    } else if c == Compression::Zips || c == Compression::Zip {
        unpacked_with(zlib_inflated(payload), size)
    } else if c == Compression::Rle {
        unpacked_with(rle_unpacked(payload), size)
    } else {
        None
    }
}

/// The block for what an entropy decoder gave.
pub open spec fn unpacked_with(decoded: Option<Seq<u8>>, size: nat) -> Option<Seq<u8>> {
    match decoded {
        Some(v) => if v.len() == size {
            Some(restored(v))
        } else {
            None
        },
        None => None,
    }
}

/// How `raw` is stored: packed, or as it is where packing does not make it
/// shorter.
pub open spec fn packed(raw: Seq<u8>, c: Compression) -> Option<Seq<u8>> {
    if c == Compression::Zips || c == Compression::Zip {
        match zlib_deflated(prepared(raw)) {
            Some(z) => Some(shorter(z, raw)),
            None => None,
        }
    } else if c == Compression::Rle {
        Some(shorter(rle_packed(prepared(raw)), raw))
    } else {
        Some(raw)
    }
}

/// `z` if it is shorter than `raw`, else `raw`.
pub open spec fn shorter(z: Seq<u8>, raw: Seq<u8>) -> Seq<u8> {
    if z.len() >= raw.len() {
        raw
    } else {
        z
    }
}

/// The block for the bytes `decoded` that an entropy decoder gave.
pub fn block_from_decoded(decoded: Vec<u8>, size: u64) -> (r: Result<Vec<u8>, ExrError>)
    ensures
        r matches Ok(v) ==> unpacked_with(Some(decoded@), size as nat) == Some(v@),
        r matches Err(e) ==> e.fault() == Fault::Invalid && unpacked_with(
            Some(decoded@),
            size as nat,
        ) is None,
{
    if decoded.len() as u64 != size {
        return Err(ExrError::invalid("block decoded to a length other than expected"));
    }
    Ok(undo_zip_pipeline(decoded.as_slice()))
}

/// The bytes that a stored block stands for.
pub fn decompress_buffer(payload: &[u8], size: u64, c: Compression) -> (r: Result<
    Vec<u8>,
    ExrError,
>)
    ensures
        r matches Ok(v) ==> unpacked(payload@, size as nat, c) == Some(v@),
        r matches Err(e) ==> e.fault() == Fault::Invalid && unpacked(payload@, size as nat, c) is None,
{
    if payload.len() as u64 == size {
        let v: Vec<u8> = copy_range(payload, 0, payload.len());
        assert(v@ =~= payload@);
        return Ok(v);
    }
    if c == Compression::Zips || c == Compression::Zip {
        match zlib_inflate(payload, size) {
            Ok(v) => block_from_decoded(v, size),
            Err(e) => Err(e),
        }
    } else if c == Compression::Rle {
        match rle_decompress(payload, size) {
            Ok(v) => block_from_decoded(v, size),
            Err(e) => Err(e),
        }
    } else {
        Err(ExrError::invalid("uncompressed block size mismatch"))
    }
}

/// `z`, or a copy of `raw` where `z` is not shorter.
pub fn keep_shorter(z: Vec<u8>, raw: &[u8]) -> (r: Vec<u8>)
    ensures
        r@ == shorter(z@, raw@),
{
    if z.len() >= raw.len() {
        let v: Vec<u8> = copy_range(raw, 0, raw.len());
        assert(v@ =~= raw@);
        v
    } else {
        z
    }
}

/// How `raw` is stored. What is stored stands for `raw` again.
pub fn compress_buffer(raw: &[u8], c: Compression) -> (r: Result<Vec<u8>, ExrError>)
    requires
        is_lossless(c),
    ensures
        r matches Ok(v) ==> packed(raw@, c) == Some(v@) && v@.len() <= raw@.len(),
        r matches Ok(v) ==> unpacked(v@, raw@.len(), c) == Some(raw@),
        r matches Err(e) ==> e.fault() == Fault::Invalid && packed(raw@, c) is None,
{
    if c == Compression::Uncompressed {
        let v: Vec<u8> = copy_range(raw, 0, raw.len());
        assert(v@ =~= raw@);
        return Ok(v);
    }
    let mid: Vec<u8> = prepare(raw);
    proof {
        law_restore_of_prepare(raw@);
        law_rle_round_trip(mid@);
    }
    let z: Vec<u8> = if c == Compression::Rle {
        rle_compress(mid.as_slice())
    } else {
        match zlib_deflate(mid.as_slice()) {
            Ok(z) => z,
            Err(e) => {
                return Err(e);
            },
        }
    };
    Ok(keep_shorter(z, raw))
}

} // verus!
