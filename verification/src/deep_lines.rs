//! The lines of a deep image, and the pixels that they make up.

use crate::deep_block::{plane_views, BlockView, DeepBlock};
use crate::deep_tiles::{block_fits, tile_views};
use crate::ragged::{lemma_total_monotonic, lemma_total_same, lemma_total_slice, sum, total};
use vstd::prelude::*;

verus! {

/// Lines with one more, which takes the place of one that is there already.
pub open spec fn with_line(lines: Seq<Option<BlockView>>, row: int, line: BlockView) -> Seq<
    Option<BlockView>,
> {
    lines.update(row, Some(line))
}

/// A line without samples.
pub open spec fn blank_line(width: int, channels: nat) -> BlockView {
    BlockView {
        counts: Seq::new(width as nat, |i: int| 0u32),
        planes: Seq::new(channels, |c: int| Seq::<u32>::empty()),
    }
}

/// A line, which has no samples where it is not there.
pub open spec fn filled(line: Option<BlockView>, width: int, channels: nat) -> BlockView {
    match line {
        Some(b) => b,
        None => blank_line(width, channels),
    }
}

/// No pixels.
pub open spec fn no_pixels(channels: nat) -> BlockView {
    BlockView { counts: Seq::empty(), planes: Seq::new(channels, |c: int| Seq::<u32>::empty()) }
}

/// Pixels with a line behind them.
pub open spec fn appended(v: BlockView, line: BlockView) -> BlockView {
    BlockView {
        counts: v.counts + line.counts,
        planes: Seq::new(v.planes.len(), |c: int| v.planes[c] + line.planes[c]),
    }
}

/// The pixels of the first `k` lines, in the order of the lines.
pub open spec fn joined(lines: Seq<Option<BlockView>>, width: int, channels: nat, k: int) -> BlockView
    decreases k,
{
    if k <= 0 {
        no_pixels(channels)
    } else {
        appended(
            joined(lines, width, channels, k - 1),
            filled(lines[k - 1], width, channels),
        )
    }
}

/// Every line that is there has a count for each column, and a plane for each
/// channel with the samples that are counted.
pub open spec fn lines_fit(lines: Seq<Option<BlockView>>, width: int, channels: nat) -> bool {
    forall|i: int|
        #![trigger lines[i]]
        0 <= i < lines.len() ==> (lines[i] matches Some(b) ==> block_fits(b, width, channels))
}

/// A sum over counts one behind the other.
proof fn lemma_sum_of_both(a: Seq<u32>, b: Seq<u32>)
    ensures
        sum(a + b) == sum(a) + sum(b),
        total(a + b, a.len() as int) == sum(a),
{
    let n = a.len() as int;
    let m = (a + b).len() as int;
    lemma_total_same(a + b, a, n);
    lemma_total_slice(a + b, n, m, m - n);
    assert((a + b).subrange(n, m) =~= b);
}

/// Nothing is counted in a line without samples.
proof fn lemma_blank_line(width: int, channels: nat)
    requires
        0 <= width,
    ensures
        block_fits(blank_line(width, channels), width, channels),
{
    lemma_blank_total(width, channels, width);
}

proof fn lemma_blank_total(width: int, channels: nat, k: int)
    requires
        0 <= k <= width,
    ensures
        total(blank_line(width, channels).counts, k) == 0,
    decreases k,
{
    if k > 0 {
        lemma_blank_total(width, channels, k - 1);
    }
}

/// In the pixels of lines, the samples of each channel are as many as the
/// counts say.
pub proof fn law_joined(lines: Seq<Option<BlockView>>, width: int, channels: nat, k: int)
    requires
        0 <= k <= lines.len(),
        0 <= width,
        lines_fit(lines, width, channels),
    ensures
        ({
            let v = joined(lines, width, channels, k);
            &&& v.counts.len() == k * width
            &&& v.planes.len() == channels
            &&& forall|c: int| 0 <= c < channels ==> (#[trigger] v.planes[c]).len() == sum(v.counts)
        }),
    decreases k,
{
    if k > 0 {
        law_joined(lines, width, channels, k - 1);
        let u = joined(lines, width, channels, k - 1);
        let line = filled(lines[k - 1], width, channels);
        lemma_blank_line(width, channels);
        assert(block_fits(line, width, channels));
        lemma_sum_of_both(u.counts, line.counts);
        assert(k * width == (k - 1) * width + width) by (nonlinear_arith);
        let v = joined(lines, width, channels, k);
        assert forall|c: int| 0 <= c < channels implies (#[trigger] v.planes[c]).len() == sum(
            v.counts,
        ) by {
            assert(v.planes[c] == u.planes[c] + line.planes[c]);
        }
    } else {
        assert(0 * width == 0);
    }
}

/// A row of pixels stays where it is when a line is put behind the pixels.
proof fn lemma_row_stays(u: BlockView, line: BlockView, at: int, row: BlockView, c: int)
    requires
        row_stands(u, at, row, c),
        0 <= c < u.planes.len(),
        u.planes[c].len() == sum(u.counts),
    ensures
        row_stands(appended(u, line), at, row, c),
{
    let v = appended(u, line);
    let end = at + row.counts.len();
    assert(v.planes[c] == u.planes[c] + line.planes[c]);
    lemma_total_same(v.counts, u.counts, at);
    lemma_total_same(v.counts, u.counts, end);
    lemma_total_monotonic(u.counts, 0, at);
    lemma_total_monotonic(u.counts, at, end);
    lemma_total_monotonic(u.counts, end, u.counts.len() as int);
    assert(v.counts.subrange(at, end) =~= u.counts.subrange(at, end));
    let a = total(u.counts, at);
    let b = total(u.counts, end);
    assert(v.planes[c].subrange(a, b) =~= u.planes[c].subrange(a, b));
}

/// A line that is put behind pixels stands there.
proof fn lemma_row_added(u: BlockView, line: BlockView, c: int)
    requires
        0 <= c < u.planes.len(),
        u.planes[c].len() == sum(u.counts),
        line.planes[c].len() == sum(line.counts),
    ensures
        row_stands(appended(u, line), u.counts.len() as int, line, c),
{
    let v = appended(u, line);
    let at = u.counts.len() as int;
    lemma_sum_of_both(u.counts, line.counts);
    assert(v.planes[c] == u.planes[c] + line.planes[c]);
    assert(v.counts.subrange(at, at + line.counts.len()) =~= line.counts);
    let a = sum(u.counts);
    assert(v.planes[c].subrange(a, a + sum(line.counts)) =~= line.planes[c]);
}

/// The pixels of lines stand in the order of the rows, and so do
/// their samples: those of a row begin behind the samples of all pixels in
/// front of it.
pub proof fn law_joined_row(
    lines: Seq<Option<BlockView>>,
    width: int,
    channels: nat,
    k: int,
    y: int,
    c: int,
)
    requires
        0 <= y < k <= lines.len(),
        0 <= width,
        0 <= c < channels,
        lines_fit(lines, width, channels),
    ensures
        row_stands(
            joined(lines, width, channels, k),
            y * width,
            filled(lines[y], width, channels),
            c,
        ),
    decreases k,
{
    let u = joined(lines, width, channels, k - 1);
    let line = filled(lines[k - 1], width, channels);
    law_joined(lines, width, channels, k - 1);
    lemma_blank_line(width, channels);
    assert(block_fits(line, width, channels));
    assert(u.planes[c].len() == sum(u.counts));
    if y < k - 1 {
        law_joined_row(lines, width, channels, k - 1, y, c);
        lemma_row_stays(u, line, y * width, filled(lines[y], width, channels), c);
    } else {
        lemma_row_added(u, line, c);
    }
}

/// The pixels from `at` on are those of a line, and in channel `c` the samples
/// behind those of all pixels in front of `at` are those of the line.
pub open spec fn row_stands(v: BlockView, at: int, line: BlockView, c: int) -> bool {
    let end = at + line.counts.len();
    &&& 0 <= at
    &&& end <= v.counts.len()
    &&& v.counts.subrange(at, end) == line.counts
    &&& v.planes[c].subrange(total(v.counts, at), total(v.counts, end)) == line.planes[c]
}

/// Pixels that are being put together.
pub struct DeepPixels {
    pub counts: Vec<u32>,
    pub planes: Vec<Vec<u32>>,
}

impl View for DeepPixels {
    type V = BlockView;

    open spec fn view(&self) -> BlockView {
        BlockView { counts: self.counts@, planes: plane_views(self.planes@) }
    }
}

impl DeepPixels {
    /// No pixels.
    pub fn new(channels: usize) -> (r: DeepPixels)
        ensures
            r@ == no_pixels(channels as nat),
    {
        let counts: Vec<u32> = Vec::new();
        let mut planes: Vec<Vec<u32>> = Vec::new();
        let mut c: usize = 0;
        while c < channels
            invariant
                c <= channels,
                planes@.len() == c,
                forall|i: int| 0 <= i < c ==> (#[trigger] planes@[i])@ == Seq::<u32>::empty(),
            decreases channels - c,
        {
            planes.push(Vec::new());
            c = c + 1;
        }
        let r: DeepPixels = DeepPixels { counts, planes };
        assert(r@ =~~= no_pixels(channels as nat));
        r
    }

    /// Put a line behind the pixels.
    pub fn append(&mut self, line: &DeepBlock)
        requires
            line@.planes.len() == old(self)@.planes.len(),
        ensures
            final(self)@ == appended(old(self)@, line@),
    {
        let ghost before = self@;
        self.counts.extend_from_slice(line.counts.as_slice());
        assert(self.counts@ =~= before.counts + line@.counts);
        let ghost done = self.counts@;
        let m: usize = self.planes.len();
        let mut c: usize = 0;
        while c < m
            invariant
                c <= m,
                m == self.planes@.len(),
                m == line@.planes.len(),
                m == before.planes.len(),
                self.counts@ == done,
                forall|i: int|
                    0 <= i < m ==> (#[trigger] self.planes@[i])@ == (if i < c {
                        before.planes[i] + line@.planes[i]
                    } else {
                        before.planes[i]
                    }),
            decreases m - c,
        {
            let plane: &mut Vec<u32> = &mut self.planes[c];
            plane.extend_from_slice(line.planes[c].as_slice());
            assert(self.planes@[c as int]@ =~= before.planes[c as int] + line@.planes[c as int]);
            c = c + 1;
        }
        assert(self@ =~~= appended(before, line@));
    }

    /// Put a line without samples behind the pixels.
    pub fn append_blank(&mut self, width: u32)
        ensures
            final(self)@ == appended(
                old(self)@,
                blank_line(width as int, old(self)@.planes.len()),
            ),
    {
        let ghost before = self@;
        let counts: Vec<u32> = vec![0u32; width as usize];
        self.counts.extend_from_slice(counts.as_slice());
        assert(self@ =~~= appended(before, blank_line(width as int, before.planes.len())));
    }
}

/// Take a line among the lines.
pub fn take_line(lines: &mut Vec<Option<DeepBlock>>, row: usize, line: DeepBlock)
    requires
        row < old(lines)@.len(),
    ensures
        tile_views(final(lines)@) == with_line(tile_views(old(lines)@), row as int, line@),
{
    let ghost before = tile_views(lines@);
    lines.set(row, Some(line));
    assert(tile_views(lines@) =~= before.update(row as int, Some(line@)));
}

/// Put lines together.
pub fn join_lines(lines: &[Option<DeepBlock>], width: u32, channels: usize) -> (r: DeepPixels)
    requires
        forall|i: int|
            #![trigger tile_views(lines@)[i]]
            0 <= i < lines@.len() ==> (tile_views(lines@)[i] matches Some(b) ==> b.planes.len()
                == channels),
    ensures
        r@ == joined(
            tile_views(lines@),
            width as int,
            channels as nat,
            lines@.len() as int,
        ),
{
    let ghost lv = tile_views(lines@);
    let mut p: DeepPixels = DeepPixels::new(channels);
    let mut i: usize = 0;
    while i < lines.len()
        invariant
            i <= lines@.len(),
            lv == tile_views(lines@),
            forall|j: int|
                #![trigger lv[j]]
                0 <= j < lv.len() ==> (lv[j] matches Some(b) ==> b.planes.len() == channels),
            p@ == joined(lv, width as int, channels as nat, i as int),
            p@.planes.len() == channels,
        decreases lines@.len() - i,
    {
        match &lines[i] {
            Some(line) => {
                proof {
                    assert(lv[i as int] == Some(line@));
                }
                p.append(line);
            },
            None => {
                assert(lv[i as int] is None);
                p.append_blank(width);
            },
        }
        i = i + 1;
    }
    p
}

} // verus!
