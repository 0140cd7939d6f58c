//! Blocks of deep pixels: how many samples each pixel has, and the samples.
//!
//! A block is stored in two pieces. The first is a table with an entry for
//! each pixel: the number of samples in its row, up to and with that pixel.
//! The second holds the samples, one channel behind the other, each in the
//! order of the pixels.

use crate::bytes::{
    i32_at, lemma_stands_split, lemma_u32_reads_back, put_bytes, put_u32, put_u64, read_i32,
    stands_at, u32_le, u64_le,
};
use crate::error::{ExrError, Fault};
use crate::pack::{compress_buffer, decompress_buffer, packed, unpacked};
use crate::ragged::{lemma_total_bound, sum, total};
use crate::samples::{
    bytes_per_pixel, channel_data, lemma_channel_data_len, lemma_channels_read_back, pixel_size,
    planes_in, put_plane, read_planes, stored_plane,
};
use crate::types::{channel_views, Channel, ChannelView, Compression};
use vstd::arithmetic::div_mod::*;
use vstd::arithmetic::mul::*;
use vstd::prelude::*;

verus! {

broadcast use crate::bytes::group_le_len;

/// The compressions of deep data.
pub open spec fn is_deep_method(c: Compression) -> bool {
    c == Compression::Uncompressed || c == Compression::Rle || c == Compression::Zips
}

pub fn deep_method(c: Compression) -> (r: bool)
    ensures
        r == is_deep_method(c),
{
    c == Compression::Uncompressed || c == Compression::Rle || c == Compression::Zips
}

/// The samples in the row of cell `k`, up to and with that cell, in a block
/// of `cols` columns.
pub open spec fn row_sum(counts: Seq<u32>, cols: int, k: int) -> int
    decreases k,
{
    if k <= 0 || k % cols == 0 {
        counts[k] as int
    } else {
        row_sum(counts, cols, k - 1) + counts[k]
    }
}

/// The table entries for the first `n` cells: the low 32 bits of the sums.
pub open spec fn count_table(counts: Seq<u32>, cols: int, n: int) -> Seq<u8>
    decreases n,
{
    if n <= 0 {
        Seq::empty()
    } else {
        count_table(counts, cols, n - 1) + u32_le(
            (row_sum(counts, cols, n - 1) % 0x1_0000_0000) as u32,
        )
    }
}

/// The sums of every row are at most the largest signed 32-bit integer.
pub open spec fn sums_fit(counts: Seq<u32>, cols: int) -> bool {
    forall|k: int| 0 <= k < counts.len() ==> #[trigger] row_sum(counts, cols, k) <= 0x7fff_ffff
}

/// Where the entry of cell `k` stands in a table of rows of `stride` entries.
pub open spec fn place(k: int, cols: int, stride: int) -> int {
    (k / cols) * stride + k % cols
}

/// The entry of cell `k`.
pub open spec fn entry_of(t: Seq<u8>, k: int, cols: int, stride: int) -> int {
    i32_at(t, 4 * place(k, cols, stride)) as int
}

/// The entry before that of cell `k` in its row; 0 for the first.
pub open spec fn entry_before(t: Seq<u8>, k: int, cols: int, stride: int) -> int {
    if k % cols == 0 {
        0
    } else {
        i32_at(t, 4 * (place(k, cols, stride) - 1)) as int
    }
}

/// No entry of the first `cells` cells is below the one before it.
pub open spec fn is_rising(t: Seq<u8>, cells: int, cols: int, stride: int) -> bool {
    forall|k: int|
        0 <= k < cells ==> entry_before(t, k, cols, stride) <= #[trigger] entry_of(t, k, cols, stride)
}

/// The number of samples of each cell.
pub open spec fn counts_in(t: Seq<u8>, cells: int, cols: int, stride: int) -> Seq<u32> {
    Seq::new(
        cells as nat,
        |k: int| (entry_of(t, k, cols, stride) - entry_before(t, k, cols, stride)) as u32,
    )
}

/// The rows and columns of a block, and those of its table, which may be
/// padded.
#[derive(Debug, Clone, Copy, PartialEq, Eq, Structural)]
pub struct BlockShape {
    pub rows: u32,
    pub cols: u32,
    pub table_rows: u32,
    pub stride: u32,
}

impl BlockShape {
    pub open spec fn is_valid(self) -> bool {
        &&& 0 < self.cols <= self.stride
        &&& self.rows <= self.table_rows
    }

    pub open spec fn cells(self) -> int {
        self.rows * self.cols
    }

    pub open spec fn table_size(self) -> int {
        4 * (self.table_rows * self.stride)
    }
}

/// A block without padding.
pub open spec fn plain_shape(rows: u32, cols: u32) -> BlockShape {
    BlockShape { rows, cols, table_rows: rows, stride: cols }
}

/// A block that was read: the number of samples of each pixel, and the
/// samples of each channel.
#[derive(Debug, Clone, PartialEq, Eq)]
pub struct DeepBlock {
    pub counts: Vec<u32>,
    pub planes: Vec<Vec<u32>>,
}

/// What a [`DeepBlock`] stands for.
#[verifier::ext_equal]
pub struct BlockView {
    pub counts: Seq<u32>,
    pub planes: Seq<Seq<u32>>,
}

/// The planes that a list of vectors stands for.
pub open spec fn plane_views(v: Seq<Vec<u32>>) -> Seq<Seq<u32>> {
    Seq::new(v.len(), |i: int| v[i]@)
}

impl View for DeepBlock {
    type V = BlockView;

    open spec fn view(&self) -> BlockView {
        BlockView { counts: self.counts@, planes: plane_views(self.planes@) }
    }
}

/// The block that a stored table and stored samples of the stated length
/// stand for.
pub open spec fn block_of(
    table: Seq<u8>,
    data: Seq<u8>,
    size: u64,
    shape: BlockShape,
    c: Compression,
    cs: Seq<ChannelView>,
) -> Option<BlockView> {
    if shape.table_size() > u64::MAX {
        None
    } else {
        match unpacked(table, shape.table_size() as nat, c) {
            None => None,
            Some(t) => {
                let counts = counts_in(t, shape.cells(), shape.cols as int, shape.stride as int);
                if !is_rising(t, shape.cells(), shape.cols as int, shape.stride as int) || sum(counts)
                    * pixel_size(cs) != size {
                    None
                } else {
                    match unpacked(data, size as nat, c) {
                        None => None,
                        Some(d) => Some(BlockView { counts, planes: planes_in(d, cs, sum(counts)) }),
                    }
                }
            },
        }
    }
}

/// A block as it is stored.
#[derive(Debug, Clone, PartialEq, Eq)]
pub struct PackedBlock {
    pub table: Vec<u8>,
    pub data: Vec<u8>,
    pub size: u64,
}

/// What a [`PackedBlock`] stands for.
#[verifier::ext_equal]
pub struct PackedView {
    pub table: Seq<u8>,
    pub data: Seq<u8>,
    pub size: u64,
}

impl View for PackedBlock {
    type V = PackedView;

    open spec fn view(&self) -> PackedView {
        PackedView { table: self.table@, data: self.data@, size: self.size }
    }
}

/// How a block is stored; nothing where the entropy coder fails.
pub open spec fn block_packed(
    counts: Seq<u32>,
    cols: int,
    planes: Seq<Seq<u32>>,
    c: Compression,
    cs: Seq<ChannelView>,
) -> Option<PackedView> {
    let data = channel_data(cs, planes, cs.len() as int);
    match packed(count_table(counts, cols, counts.len() as int), c) {
        None => None,
        Some(t) => match packed(data, c) {
            None => None,
            Some(d) => Some(PackedView { table: t, data: d, size: data.len() as u64 }),
        },
    }
}

/// The record of a block: three lengths, the table and the samples.
pub open spec fn record_bytes(p: PackedView) -> Seq<u8> {
    u64_le(p.table.len() as u64) + (u64_le(p.data.len() as u64) + (u64_le(p.size) + (p.table
        + p.data)))
}

pub proof fn lemma_unpacked_len(payload: Seq<u8>, size: nat, c: Compression)
    ensures
        unpacked(payload, size, c) matches Some(v) ==> v.len() == size,
{
}

/// The row and the column of a cell.
pub proof fn lemma_cell(r: int, c: int, cols: int)
    requires
        0 <= r,
        0 <= c < cols,
    ensures
        (r * cols + c) / cols == r,
        (r * cols + c) % cols == c,
{
    lemma_fundamental_div_mod_converse(r * cols + c, cols, r, c);
}

proof fn lemma_row_sum_bound(counts: Seq<u32>, cols: int, k: int)
    requires
        0 <= k < counts.len(),
    ensures
        counts[k] <= row_sum(counts, cols, k) <= 0xffff_ffff * (k + 1),
    decreases k,
{
    if k > 0 && k % cols != 0 {
        lemma_row_sum_bound(counts, cols, k - 1);
    }
}

/// Read the counts of a table, and their sum.
fn read_counts(t: &[u8], shape: BlockShape) -> (r: Option<(Vec<u32>, u128)>)
    requires
        shape.is_valid(),
        t@.len() == shape.table_size(),
    ensures
        r matches Some((v, n)) ==> {
            &&& is_rising(t@, shape.cells(), shape.cols as int, shape.stride as int)
            &&& v@ == counts_in(t@, shape.cells(), shape.cols as int, shape.stride as int)
            &&& n == sum(v@)
        },
        r is None ==> !is_rising(t@, shape.cells(), shape.cols as int, shape.stride as int),
{
    let ghost cols = shape.cols as int;
    let ghost stride = shape.stride as int;
    let ghost rows = shape.rows as int;
    let ghost len = t.len();
    let mut out: Vec<u32> = Vec::new();
    let mut n: u128 = 0;
    let mut r: u32 = 0;
    let mut base: usize = 0;
    assert(0 * cols == 0 && 4 * (0 * stride) == 0);
    while r < shape.rows
        invariant
            r <= rows,
            shape.is_valid(),
            rows == shape.rows,
            cols == shape.cols,
            stride == shape.stride,
            len == t@.len(),
            t@.len() == shape.table_size(),
            base == 4 * (r * stride),
            base <= len,
            out@.len() == r * cols,
            n == total(out@, out@.len() as int),
            forall|k: int| 0 <= k < out@.len() ==> out@[k] == counts_in(t@, shape.cells(), cols, stride)[k],
            forall|k: int|
                0 <= k < out@.len() ==> entry_before(t@, k, cols, stride) <= #[trigger] entry_of(
                    t@,
                    k,
                    cols,
                    stride,
                ),
        decreases rows - r,
    {
        let mut prev: i32 = 0;
        let mut c: u32 = 0;
        let mut at: usize = base;
        proof {
            assert(4 * (r * stride) + 4 * stride <= 4 * (shape.table_rows * stride)) by (nonlinear_arith)
                requires
                    r + 1 <= shape.table_rows,
                    stride >= 0,
            ;
            assert(r * cols + cols <= rows * cols) by (nonlinear_arith)
                requires
                    r + 1 <= rows,
                    cols >= 0,
            ;
        }
        while c < shape.cols
            invariant
                c <= cols,
                r < rows,
                shape.is_valid(),
                rows == shape.rows,
                cols == shape.cols,
                stride == shape.stride,
                len == t@.len(),
                base == 4 * (r * stride),
                base + 4 * stride <= len,
                at == base + 4 * c,
                r * cols + cols <= rows * cols,
                out@.len() == r * cols + c,
                n == total(out@, out@.len() as int),
                c == 0 ==> prev == 0,
                c > 0 ==> prev == i32_at(t@, at - 4),
                forall|k: int|
                    0 <= k < out@.len() ==> out@[k] == counts_in(t@, shape.cells(), cols, stride)[k],
                forall|k: int|
                    0 <= k < out@.len() ==> entry_before(t@, k, cols, stride) <= #[trigger] entry_of(
                        t@,
                        k,
                        cols,
                        stride,
                    ),
            decreases cols - c,
        {
            let v: i32 = read_i32(t, at);
            let ghost k = r * cols + c;
            proof {
                lemma_cell(r as int, c as int, cols);
                assert(place(k, cols, stride) == r * stride + c);
                assert(4 * place(k, cols, stride) == at);
                assert(entry_of(t@, k, cols, stride) == v);
                assert(entry_before(t@, k, cols, stride) == prev);
                lemma_total_bound(out@, out@.len() as int);
                assert(out.len() == out@.len());
            }
            if v < prev {
                return None;
            }
            let d: u32 = (v as i64 - prev as i64) as u32;
            let ghost before = out@;
            out.push(d);
            n = n + d as u128;
            proof {
                crate::ragged::lemma_total_same(before, out@, k);
            }
            prev = v;
            at = at + 4;
            c = c + 1;
        }
        proof {
            assert((r + 1) * cols == r * cols + cols) by (nonlinear_arith);
            assert((r + 1) * stride == r * stride + stride) by (nonlinear_arith);
        }
        base = base + 4 * shape.stride as usize;
        r = r + 1;
    }
    assert(out@ =~= counts_in(t@, shape.cells(), cols, stride));
    Some((out, n))
}

/// `n` samples of `bpp` bytes make up `size` bytes.
fn fills(n: u128, bpp: u128, size: u64) -> (r: bool)
    ensures
        r == (n * bpp == size),
{
    if bpp == 0 {
        assert(n * bpp == 0) by (nonlinear_arith)
            requires
                bpp == 0,
        ;
        return size == 0;
    }
    let q: u128 = size as u128 / bpp;
    let rem: u128 = size as u128 % bpp;
    proof {
        lemma_fundamental_div_mod(size as int, bpp as int);
        if n * bpp == size {
            lemma_fundamental_div_mod_converse(size as int, bpp as int, n as int, 0);
        }
        if q == n && rem == 0 {
            lemma_mul_is_commutative(n as int, bpp as int);
        }
    }
    q == n && rem == 0
}

/// Read a stored block.
pub fn read_block(
    table: &[u8],
    data: &[u8],
    size: u64,
    shape: BlockShape,
    c: Compression,
    channels: &[Channel],
) -> (r: Result<DeepBlock, ExrError>)
    requires
        shape.is_valid(),
    ensures
        r matches Ok(b) ==> block_of(table@, data@, size, shape, c, channel_views(channels@)) == Some(b@),
        r matches Err(e) ==> e.fault() == Fault::Invalid && block_of(
            table@,
            data@,
            size,
            shape,
            c,
            channel_views(channels@),
        ) is None,
{
    let ghost cs = channel_views(channels@);
    proof {
        assert(shape.table_rows * shape.stride <= 0xffff_ffff * 0xffff_ffff) by (nonlinear_arith)
            requires
                shape.table_rows <= 0xffff_ffff,
                shape.stride <= 0xffff_ffff,
        ;
    }
    let table_size: u128 = 4 * (shape.table_rows as u128 * shape.stride as u128);
    if table_size > u64::MAX as u128 {
        return Err(ExrError::invalid("deep offset table too large"));
    }
    let t: Vec<u8> = decompress_buffer(table, table_size as u64, c)?;
    proof {
        lemma_unpacked_len(table@, table_size as nat, c);
    }
    let (counts, n) = match read_counts(t.as_slice(), shape) {
        Some(p) => p,
        None => {
            return Err(ExrError::invalid("deep offset table not monotonic"));
        },
    };
    let bpp: u128 = bytes_per_pixel(channels);
    if !fills(n, bpp, size) {
        return Err(ExrError::invalid("deep sample size disagrees with the offset table"));
    }
    let d: Vec<u8> = decompress_buffer(data, size, c)?;
    proof {
        lemma_unpacked_len(data@, size as nat, c);
        crate::samples::lemma_sizes_monotonic(cs, 0, cs.len() as int);
        if cs.len() > 0 {
            assert(n <= d@.len()) by (nonlinear_arith)
                requires
                    n * bpp == d@.len(),
                    bpp >= 1,
                    n >= 0,
            ;
        }
    }
    if channels.len() == 0 {
        let planes: Vec<Vec<u32>> = Vec::new();
        assert(plane_views(planes@) =~= planes_in(d@, cs, sum(counts@)));
        return Ok(DeepBlock { counts, planes });
    }
    assert(d.len() == d@.len());
    let planes: Vec<Vec<u32>> = read_planes(d.as_slice(), channels, n as usize);
    assert(plane_views(planes@) =~= planes_in(d@, cs, sum(counts@)));
    Ok(DeepBlock { counts, planes })
}

/// Append the table entries for the counts.
fn put_counts(out: &mut Vec<u8>, counts: &[u32], cols: u32)
    requires
        cols > 0,
    ensures
        final(out)@ == old(out)@ + count_table(counts@, cols as int, counts@.len() as int),
{
    let ghost start = out@;
    let mut k: usize = 0;
    let mut col: u32 = 0;
    let mut acc: u32 = 0;
    assert(start + Seq::<u8>::empty() =~= start);
    while k < counts.len()
        invariant
            k <= counts@.len(),
            cols > 0,
            col < cols,
            col == (k as int) % (cols as int),
            k > 0 ==> acc == row_sum(counts@, cols as int, k - 1) % 0x1_0000_0000,
            out@ == start + count_table(counts@, cols as int, k as int),
        decreases counts@.len() - k,
    {
        proof {
            lemma_running_sum(counts@, cols as int, k as int, acc as int);
        }
        if col == 0 {
            acc = counts[k];
        } else {
            acc = ((acc as u64 + counts[k] as u64) % 0x1_0000_0000) as u32;
        }
        put_u32(out, acc);
        proof {
            assert(out@ =~= start + count_table(counts@, cols as int, k + 1));
            lemma_next_column(k as int, cols as int);
        }
        k = k + 1;
        if col + 1 == cols {
            col = 0;
        } else {
            col = col + 1;
        }
    }
}

proof fn lemma_running_sum(counts: Seq<u32>, cols: int, k: int, acc: int)
    requires
        cols > 0,
        0 <= k < counts.len(),
        k > 0 ==> acc == row_sum(counts, cols, k - 1) % 0x1_0000_0000,
    ensures
        k % cols == 0 ==> row_sum(counts, cols, k) % 0x1_0000_0000 == counts[k],
        k % cols != 0 ==> row_sum(counts, cols, k) % 0x1_0000_0000 == (acc + counts[k])
            % 0x1_0000_0000,
{
    lemma_small_mod(0nat, cols as nat);
    if k % cols != 0 {
        let s = row_sum(counts, cols, k - 1);
        assert((s + counts[k]) % 0x1_0000_0000 == (s % 0x1_0000_0000 + counts[k]) % 0x1_0000_0000);
    }
}

proof fn lemma_next_column(k: int, cols: int)
    requires
        0 <= k,
        cols > 0,
    ensures
        (k + 1) % cols == (if k % cols + 1 == cols {
            0
        } else {
            k % cols + 1
        }),
{
    lemma_fundamental_div_mod(k, cols);
    let q = k / cols;
    let r = k % cols;
    lemma_mod_bound(k, cols);
    lemma_mul_is_commutative(cols, q);
    if r + 1 == cols {
        assert((q + 1) * cols == q * cols + cols) by (nonlinear_arith);
        lemma_fundamental_div_mod_converse(k + 1, cols, q + 1, 0);
    } else {
        lemma_fundamental_div_mod_converse(k + 1, cols, q, r + 1);
    }
}

/// Append the samples of all channels.
fn put_channels(out: &mut Vec<u8>, channels: &[Channel], planes: &[Vec<u32>])
    requires
        planes@.len() == channels@.len(),
    ensures
        final(out)@ == old(out)@ + channel_data(
            channel_views(channels@),
            plane_views(planes@),
            channels@.len() as int,
        ),
{
    let ghost start = out@;
    let ghost cs = channel_views(channels@);
    let ghost ps = plane_views(planes@);
    let mut c: usize = 0;
    assert(start + Seq::<u8>::empty() =~= start);
    while c < channels.len()
        invariant
            c <= channels@.len(),
            planes@.len() == channels@.len(),
            cs == channel_views(channels@),
            ps == plane_views(planes@),
            out@ == start + channel_data(cs, ps, c as int),
        decreases channels@.len() - c,
    {
        put_plane(out, channels[c].pixel_type, planes[c].as_slice());
        proof {
            assert(cs[c as int].pixel_type == channels@[c as int].pixel_type);
            assert(out@ =~= start + channel_data(cs, ps, c + 1));
        }
        c = c + 1;
    }
}

/// The counts of a table that was made for them.
proof fn lemma_table_stands(counts: Seq<u32>, cols: int, n: int, t: Seq<u8>, k: int)
    requires
        0 <= k < n <= counts.len(),
        stands_at(t, 0, count_table(counts, cols, n)),
    ensures
        count_table(counts, cols, n).len() == 4 * n,
        stands_at(t, 4 * k, u32_le((row_sum(counts, cols, k) % 0x1_0000_0000) as u32)),
    decreases n,
{
    lemma_count_table_len(counts, cols, n - 1);
    lemma_stands_split(
        t,
        0,
        count_table(counts, cols, n - 1),
        u32_le((row_sum(counts, cols, n - 1) % 0x1_0000_0000) as u32),
    );
    if k < n - 1 {
        lemma_table_stands(counts, cols, n - 1, t, k);
    }
}

pub proof fn lemma_count_table_len(counts: Seq<u32>, cols: int, n: int)
    requires
        0 <= n,
    ensures
        count_table(counts, cols, n).len() == 4 * n,
    decreases n,
{
    if n > 0 {
        lemma_count_table_len(counts, cols, n - 1);
    }
}

/// A table reads back as the counts that it was made for, where the sums of
/// its rows fit.
pub proof fn law_count_table_round_trip(counts: Seq<u32>, cols: int)
    requires
        cols > 0,
        sums_fit(counts, cols),
    ensures
        ({
            let t = count_table(counts, cols, counts.len() as int);
            &&& is_rising(t, counts.len() as int, cols, cols)
            &&& counts_in(t, counts.len() as int, cols, cols) == counts
        }),
{
    let n = counts.len() as int;
    let t = count_table(counts, cols, n);
    assert(t.subrange(0, t.len() as int) =~= t);
    assert forall|k: int| 0 <= k < n implies {
        &&& place(k, cols, cols) == k
        &&& #[trigger] entry_of(t, k, cols, cols) == row_sum(counts, cols, k)
        &&& entry_before(t, k, cols, cols) == row_sum(counts, cols, k) - counts[k]
    } by {
        lemma_fundamental_div_mod(k, cols);
        lemma_mul_is_commutative(cols, k / cols);
        lemma_table_stands(counts, cols, n, t, k);
        lemma_row_sum_bound(counts, cols, k);
        lemma_u32_reads_back(t, 4 * k, (row_sum(counts, cols, k) % 0x1_0000_0000) as u32);
        if k % cols != 0 {
            if k == 0 {
                lemma_small_mod(0nat, cols as nat);
            }
            lemma_table_stands(counts, cols, n, t, k - 1);
            lemma_row_sum_bound(counts, cols, k - 1);
            lemma_u32_reads_back(t, 4 * (k - 1), (row_sum(counts, cols, k - 1) % 0x1_0000_0000) as u32);
        }
    }
    assert forall|k: int| 0 <= k < n implies entry_before(t, k, cols, cols) <= #[trigger] entry_of(
        t,
        k,
        cols,
        cols,
    ) by {
        lemma_row_sum_bound(counts, cols, k);
    }
    assert forall|k: int| 0 <= k < n implies counts_in(t, n, cols, cols)[k] == counts[k] by {
        assert(entry_of(t, k, cols, cols) == row_sum(counts, cols, k));
    }
    assert(counts_in(t, n, cols, cols) =~= counts);
}

/// A block that is stored as `p` reads back.
pub open spec fn reads_back(
    p: PackedView,
    rows: u32,
    cols: u32,
    counts: Seq<u32>,
    planes: Seq<Seq<u32>>,
    c: Compression,
    cs: Seq<ChannelView>,
) -> bool {
    block_of(p.table, p.data, p.size, plain_shape(rows, cols), c, cs) == Some(
        BlockView {
            counts,
            planes: Seq::new(cs.len(), |i: int| stored_plane(cs[i].pixel_type, planes[i])),
        },
    )
}

/// Store a block. Where the sums of its rows fit, what is stored reads back.
pub fn pack_block(
    counts: &[u32],
    rows: u32,
    cols: u32,
    planes: &[Vec<u32>],
    c: Compression,
    channels: &[Channel],
) -> (r: Result<PackedBlock, ExrError>)
    requires
        cols > 0,
        counts@.len() == rows * cols,
        planes@.len() == channels@.len(),
        is_deep_method(c),
    ensures
        r matches Ok(p) ==> block_packed(
            counts@,
            cols as int,
            plane_views(planes@),
            c,
            channel_views(channels@),
        ) == Some(p@),
        r matches Ok(p) ==> sums_fit(counts@, cols as int) && (forall|i: int|
            0 <= i < planes@.len() ==> (#[trigger] planes@[i])@.len() == sum(counts@)) ==> reads_back(
            p@,
            rows,
            cols,
            counts@,
            plane_views(planes@),
            c,
            channel_views(channels@),
        ),
        r matches Err(e) ==> e.fault() == Fault::Invalid && block_packed(
            counts@,
            cols as int,
            plane_views(planes@),
            c,
            channel_views(channels@),
        ) is None,
{
    let ghost cs = channel_views(channels@);
    let ghost ps = plane_views(planes@);
    let mut raw_table: Vec<u8> = Vec::new();
    put_counts(&mut raw_table, counts, cols);
    assert(raw_table@ =~= count_table(counts@, cols as int, counts@.len() as int));
    let mut raw_data: Vec<u8> = Vec::new();
    put_channels(&mut raw_data, channels, planes);
    assert(raw_data@ =~= channel_data(cs, ps, cs.len() as int));
    let table: Vec<u8> = compress_buffer(raw_table.as_slice(), c)?;
    let data: Vec<u8> = compress_buffer(raw_data.as_slice(), c)?;
    let size: u64 = raw_data.len() as u64;
    proof {
        if sums_fit(counts@, cols as int) && (forall|i: int|
            0 <= i < planes@.len() ==> (#[trigger] planes@[i])@.len() == sum(counts@)) {
            let n = sum(counts@);
            lemma_total_bound(counts@, counts@.len() as int);
            assert forall|i: int| 0 <= i < ps.len() implies (#[trigger] ps[i]).len() == n by {
                assert(planes@[i]@.len() == n);
            }
            lemma_count_table_len(counts@, cols as int, counts@.len() as int);
            law_count_table_round_trip(counts@, cols as int);
            lemma_channel_data_len(cs, ps, n, cs.len() as int);
            lemma_channels_read_back(cs, ps, n);
            assert(raw_table.len() == raw_table@.len());
        }
    }
    Ok(PackedBlock { table, data, size })
}

/// Append the record of a block.
pub fn put_record(out: &mut Vec<u8>, p: &PackedBlock)
    ensures
        final(out)@ == old(out)@ + record_bytes(p@),
{
    put_u64(out, p.table.len() as u64);
    put_u64(out, p.data.len() as u64);
    put_u64(out, p.size);
    put_bytes(out, p.table.as_slice());
    put_bytes(out, p.data.as_slice());
    assert(out@ =~= old(out)@ + record_bytes(p@));
}

} // verus!
