//! Chunks that the transform coder stored.
//!
//! Reading and writing meet at the squares of the lossy channels: what stands
//! between their samples and their coefficients is arithmetic on binary32
//! numbers, which the callers of this module do.

use crate::bytes::{copy_range, slice_range};
use crate::dwa_blocks::{code_plane, join_plane, squares_from, unit_views, units_fit};
use crate::dwa_parts::{
    bytes_of_codes, codes_bytes, lemma_codes_bytes_len, lemma_scheme_size, lemma_whole_span,
    scheme_bytes_count, scheme_size, span_bytes, unsplit, unsplit_bytes,
};
use crate::dwa_regions::{join_regions, joined_lines, lemma_span, regions_fit, rows_of, span_of};
use crate::dwa_rules::{
    build_lossy_sets, classes_of, classify_all, holds, law_sets_lossy, law_sets_partition,
    same_shape, sets_of, DwaScheme, LossySet,
};
use crate::dwa_streams::{
    ac_of, dc_of, header_valid, rle_of, split_streams, streams_of, verbatim_of, DwaStreams,
    StreamsView,
};
use crate::dwa_tables::PerceptualTables;
use crate::dwa_units::{
    code_views, count_units, lemma_set_units, lemma_sets_valid, lemma_units_upto, make_units,
    read_squares, set_columns, set_rows, set_views, units_of, units_upto,
};
use crate::error::{ExrError, Fault};
use crate::flat_block::{lines_size, size_of_lines, wide};
use crate::layout::byte_views;
use crate::types::{channel_views, Channel, ChannelView, PixelType};
use vstd::prelude::*;

verus! {

broadcast use crate::bytes::group_le_len;

// ----------------------------------------------------------------------
// The pieces of a chunk
// ----------------------------------------------------------------------
/// What a chunk holds, channel by channel.
#[verifier::ext_equal]
pub struct PiecesView {
    /// How each channel is stored.
    pub classes: Seq<(DwaScheme, i8)>,
    /// The bytes of the channels that are kept as they are.
    pub verbatim: Seq<u8>,
    /// The bytes of the channels with runs, split.
    pub rle: Seq<u8>,
    /// The squares of every set of lossy channels, as binary32 bit patterns.
    pub units: Seq<Seq<Seq<u32>>>,
}

/// What a chunk holds, channel by channel.
pub struct DwaPieces {
    pub classes: Vec<(DwaScheme, i8)>,
    pub sets: Vec<LossySet>,
    pub verbatim: Vec<u8>,
    pub rle: Vec<u8>,
    pub units: Vec<Vec<Vec<u32>>>,
}

impl View for DwaPieces {
    type V = PiecesView;

    open spec fn view(&self) -> PiecesView {
        PiecesView {
            classes: self.classes@,
            verbatim: self.verbatim@,
            rle: self.rle@,
            units: set_views(self.units@),
        }
    }
}

/// A channel of integers is to be lossy, which cannot be.
pub open spec fn has_lossy_uint(cs: Seq<ChannelView>, classes: Seq<(DwaScheme, i8)>) -> bool {
    exists|c: int|
        0 <= c < cs.len() && #[trigger] classes[c].0 == DwaScheme::LossyDct && cs[c].pixel_type
            == PixelType::Uint
}

/// There are squares for all sets of lossy channels.
pub open spec fn all_units_fit(
    units: Seq<Seq<Seq<u32>>>,
    cs: Seq<ChannelView>,
    sets: Seq<LossySet>,
    width: int,
    y0: int,
    n: int,
) -> bool {
    &&& units.len() == sets.len()
    &&& forall|j: int|
        0 <= j < sets.len() ==> units_fit(
            #[trigger] units[j],
            sets[j].members().len() as int,
            set_columns(cs, sets[j], width),
            set_rows(cs, sets[j], y0, n),
        )
}

/// The pieces are those of a chunk.
pub open spec fn pieces_fit(p: PiecesView, cs: Seq<ChannelView>, width: int, y0: int, n: int) -> bool {
    &&& p.classes.len() == cs.len()
    &&& !has_lossy_uint(cs, p.classes)
    &&& p.verbatim.len() == scheme_size(
        cs,
        p.classes,
        DwaScheme::Verbatim,
        width,
        y0,
        n,
        cs.len() as int,
    )
    &&& p.rle.len() == scheme_size(cs, p.classes, DwaScheme::Rle, width, y0, n, cs.len() as int)
    &&& all_units_fit(p.units, cs, sets_of(cs, p.classes), width, y0, n)
}

impl DwaPieces {
    /// The pieces are those of a chunk.
    pub open spec fn fits(&self, cs: Seq<ChannelView>, width: int, y0: int, n: int) -> bool {
        pieces_fit(self@, cs, width, y0, n) && self.sets@ == sets_of(cs, self.classes@)
    }
}

fn any_lossy_uint(channels: &[Channel], classes: &[(DwaScheme, i8)]) -> (r: bool)
    requires
        classes@.len() == channels@.len(),
    ensures
        r == has_lossy_uint(channel_views(channels@), classes@),
{
    let ghost cs = channel_views(channels@);
    let mut c: usize = 0;
    while c < channels.len()
        invariant
            c <= channels@.len(),
            classes@.len() == channels@.len(),
            cs == channel_views(channels@),
            forall|i: int|
                0 <= i < c ==> !(#[trigger] classes@[i].0 == DwaScheme::LossyDct
                    && cs[i].pixel_type == PixelType::Uint),
        decreases channels@.len() - c,
    {
        assert(cs[c as int] == channels@[c as int]@);
        if classes[c].0 == DwaScheme::LossyDct && channels[c].pixel_type == PixelType::Uint {
            assert(classes@[c as int].0 == DwaScheme::LossyDct);
            return true;
        }
        c = c + 1;
    }
    false
}

// ----------------------------------------------------------------------
// Reading
// ----------------------------------------------------------------------
/// The pieces of a chunk with the given streams.
pub open spec fn pieces_of(v: StreamsView, cs: Seq<ChannelView>, width: int, y0: int, n: int) -> Option<
    PiecesView,
> {
    let classes = classes_of(cs, v.rules);
    let sets = sets_of(cs, classes);
    let m = cs.len() as int;
    if has_lossy_uint(cs, classes) || scheme_size(
        cs,
        classes,
        DwaScheme::Verbatim,
        width,
        y0,
        n,
        m,
    ) != v.header.verbatim_raw || scheme_size(cs, classes, DwaScheme::Rle, width, y0, n, m)
        != v.header.rle_raw || units_upto(cs, sets, width, y0, n, sets.len() as int)
        != v.header.dc_count {
        None
    } else {
        match (verbatim_of(v), ac_of(v), dc_of(v), rle_of(v)) {
            (Some(verbatim), Some(ac), Some(dc), Some(rle)) => match squares_from(
                ac,
                0,
                v.header.dc_count as int,
            ) {
                None => None,
                Some((squares, end)) => if end == v.header.ac_count {
                    Some(
                        PiecesView {
                            classes,
                            verbatim,
                            rle,
                            units: units_of(dc, squares, cs, sets, width, y0, n),
                        },
                    )
                } else {
                    None
                },
            },
            _ => None,
        }
    }
}

/// What a stored chunk is: its lines as they are, or coded.
#[verifier::ext_equal]
pub enum ChunkView {
    Raw(Seq<u8>),
    Coded(PiecesView),
}

/// What a stored chunk is: its lines as they are, or coded.
pub enum DwaChunk {
    Raw(Vec<u8>),
    Coded(DwaPieces),
}

impl View for DwaChunk {
    type V = ChunkView;

    open spec fn view(&self) -> ChunkView {
        match self {
            DwaChunk::Raw(data) => ChunkView::Raw(data@),
            DwaChunk::Coded(p) => ChunkView::Coded(p@),
        }
    }
}

/// What a stored chunk of `n` lines from line `y0` on is. One that is as long
/// as its lines holds them as they are.
pub open spec fn chunk_of(payload: Seq<u8>, cs: Seq<ChannelView>, width: int, y0: int, n: int) -> Option<
    ChunkView,
> {
    if payload.len() == lines_size(cs, width, y0, false, n) {
        Some(ChunkView::Raw(payload))
    } else {
        match streams_of(payload) {
            None => None,
            Some(v) => match pieces_of(v, cs, width, y0, n) {
                None => None,
                Some(p) => Some(ChunkView::Coded(p)),
            },
        }
    }
}

/// The squares that are read are as many as they should be.
proof fn lemma_units_of_fit(
    dc: Seq<u16>,
    squares: Seq<Seq<u16>>,
    cs: Seq<ChannelView>,
    sets: Seq<LossySet>,
    width: int,
    y0: int,
    n: int,
)
    requires
        0 <= width <= u32::MAX,
        0 <= y0,
        0 <= n <= u32::MAX,
    ensures
        all_units_fit(units_of(dc, squares, cs, sets, width, y0, n), cs, sets, width, y0, n),
{
    let units = units_of(dc, squares, cs, sets, width, y0, n);
    assert forall|j: int| 0 <= j < sets.len() implies units_fit(
        #[trigger] units[j],
        sets[j].members().len() as int,
        set_columns(cs, sets[j], width),
        set_rows(cs, sets[j], y0, n),
    ) by {
        lemma_set_units(cs, sets[j], width, y0, n);
    }
}

/// Read the pieces of a chunk with the given streams.
fn read_pieces(v: &DwaStreams, channels: &[Channel], width: u32, y0: u32, n: u32) -> (r: Result<
    DwaPieces,
    ExrError,
>)
    requires
        y0 + n <= u32::MAX,
        header_valid(v.header),
    ensures
        r matches Ok(p) ==> pieces_of(
            v@,
            channel_views(channels@),
            width as int,
            y0 as int,
            n as int,
        ) == Some(p@) && p.fits(channel_views(channels@), width as int, y0 as int, n as int),
        r matches Err(e) ==> e.fault() == Fault::Invalid && pieces_of(
            v@,
            channel_views(channels@),
            width as int,
            y0 as int,
            n as int,
        ) is None,
{
    let ghost cs = channel_views(channels@);
    let ghost (w, y, h) = (width as int, y0 as int, n as int);
    let classes: Vec<(DwaScheme, i8)> = classify_all(channels, v.rules.as_slice());
    assert(channels.len() == channels@.len());
    if any_lossy_uint(channels, classes.as_slice()) {
        return Err(ExrError::invalid("DWA: UINT channel classified LOSSY_DCT"));
    }
    let sets: Vec<LossySet> = build_lossy_sets(channels, classes.as_slice());
    proof {
        lemma_sets_valid(cs, classes@);
        lemma_scheme_size(cs, classes@, DwaScheme::Verbatim, w, y, h, 0, cs.len() as int);
        lemma_scheme_size(cs, classes@, DwaScheme::Rle, w, y, h, 0, cs.len() as int);
        lemma_units_upto(cs, sets@, w, y, h, 0, sets@.len() as int);
    }
    if scheme_bytes_count(channels, classes.as_slice(), DwaScheme::Verbatim, width, y0, n)
        != v.header.verbatim_raw {
        return Err(ExrError::invalid("DWA: verbatim channels need other bytes than declared"));
    }
    if scheme_bytes_count(channels, classes.as_slice(), DwaScheme::Rle, width, y0, n)
        != v.header.rle_raw {
        return Err(ExrError::invalid("DWA: RLE channels need other bytes than declared"));
    }
    if count_units(channels, sets.as_slice(), width, y0, n) != v.header.dc_count {
        return Err(ExrError::invalid("DWA: lossy sets need other DC values than declared"));
    }
    let verbatim: Vec<u8> = match v.read_verbatim() {
        Ok(data) => data,
        Err(e) => {
            return Err(e);
        },
    };
    let ac: Vec<u16> = match v.read_ac() {
        Ok(data) => data,
        Err(e) => {
            return Err(e);
        },
    };
    let dc: Vec<u16> = match v.read_dc() {
        Ok(data) => data,
        Err(e) => {
            return Err(e);
        },
    };
    let rle: Vec<u8> = match v.read_rle() {
        Ok(data) => data,
        Err(e) => {
            return Err(e);
        },
    };
    let (squares, end): (Vec<Vec<u16>>, usize) = match read_squares(
        ac.as_slice(),
        v.header.dc_count as usize,
    ) {
        Some(found) => found,
        None => {
            return Err(ExrError::invalid("DWA: AC stream does not hold the blocks"));
        },
    };
    if end as u64 != v.header.ac_count {
        return Err(ExrError::invalid("DWA: AC elements left over"));
    }
    let units: Vec<Vec<Vec<u32>>> = make_units(
        dc.as_slice(),
        &squares,
        channels,
        sets.as_slice(),
        width,
        y0,
        n,
    );
    proof {
        lemma_units_of_fit(dc@, code_views(squares@), cs, sets@, w, y, h);
    }
    Ok(DwaPieces { classes, sets, verbatim, rle, units })
}

/// Read a stored chunk of `n` lines from line `y0` on.
pub fn read_dwa_chunk(payload: &[u8], channels: &[Channel], width: u32, y0: u32, n: u32) -> (r: Result<
    DwaChunk,
    ExrError,
>)
    requires
        y0 + n <= u32::MAX,
    ensures
        r matches Ok(chunk) ==> chunk_of(
            payload@,
            channel_views(channels@),
            width as int,
            y0 as int,
            n as int,
        ) == Some(chunk@),
        r matches Ok(DwaChunk::Coded(p)) ==> p.fits(
            channel_views(channels@),
            width as int,
            y0 as int,
            n as int,
        ),
        r matches Err(e) ==> e.fault() == Fault::Invalid && chunk_of(
            payload@,
            channel_views(channels@),
            width as int,
            y0 as int,
            n as int,
        ) is None,
{
    assert(payload.len() == payload@.len());
    match size_of_lines(channels, width, y0, false, n) {
        Some(size) => {
            if payload.len() as u64 == size {
                let data: Vec<u8> = copy_range(payload, 0, payload.len());
                assert(data@ =~= payload@);
                return Ok(DwaChunk::Raw(data));
            }
        },
        None => {},
    }
    match split_streams(payload) {
        Ok(v) => match read_pieces(&v, channels, width, y0, n) {
            Ok(p) => Ok(DwaChunk::Coded(p)),
            Err(e) => Err(e),
        },
        Err(e) => Err(e),
    }
}

// ----------------------------------------------------------------------
// The lines of the pieces
// ----------------------------------------------------------------------
/// The first set from `j` on that holds channel `c`.
pub open spec fn set_with(sets: Seq<LossySet>, c: int, j: int) -> int
    decreases sets.len() - j,
{
    if j >= sets.len() || holds(sets[j], c) {
        j
    } else {
        set_with(sets, c, j + 1)
    }
}

/// The place of a channel in a set.
pub open spec fn place_in(set: LossySet, c: int) -> int {
    match set {
        LossySet::Triple(r, g, b) => if c == r {
            0
        } else if c == g {
            1
        } else {
            2
        },
        LossySet::Single(_) => 0,
    }
}

proof fn lemma_set_with(sets: Seq<LossySet>, c: int, j: int, found: int)
    requires
        0 <= j <= found < sets.len(),
        holds(sets[found], c),
    ensures
        j <= set_with(sets, c, j) <= found,
        holds(sets[set_with(sets, c, j)], c),
    decreases sets.len() - j,
{
    if !holds(sets[j], c) {
        lemma_set_with(sets, c, j + 1, found);
    }
}

proof fn lemma_place_in(set: LossySet, c: int)
    requires
        holds(set, c),
    ensures
        0 <= place_in(set, c) < set.members().len(),
        set.members()[place_in(set, c)] == c,
{
    let i = choose|i: int| 0 <= i < set.members().len() && set.members()[i] == c;
    assert(set.members()[i] == c);
}

/// A lossy channel has a place in a set with its shape.
pub proof fn lemma_home(cs: Seq<ChannelView>, classes: Seq<(DwaScheme, i8)>, c: int)
    requires
        cs.len() <= usize::MAX,
        classes.len() == cs.len(),
        0 <= c < cs.len(),
        classes[c].0 == DwaScheme::LossyDct,
    ensures
        ({
            let sets = sets_of(cs, classes);
            let j = set_with(sets, c, 0);
            &&& 0 <= j < sets.len()
            &&& 0 <= place_in(sets[j], c) < sets[j].members().len()
            &&& sets[j].members()[place_in(sets[j], c)] == c
            &&& same_shape(cs[sets[j].members()[0]], cs[c])
        }),
{
    let sets = sets_of(cs, classes);
    law_sets_partition(cs, classes, c);
    let found = choose|j: int| 0 <= j < sets.len() && holds(#[trigger] sets[j], c);
    lemma_set_with(sets, c, 0, found);
    let j = set_with(sets, c, 0);
    lemma_place_in(sets[j], c);
    law_sets_lossy(cs, classes, j, place_in(sets[j], c));
}

/// The codes of a lossy channel.
pub open spec fn lossy_codes(
    p: PiecesView,
    cs: Seq<ChannelView>,
    width: int,
    y0: int,
    n: int,
    table: Seq<u16>,
    c: int,
) -> Seq<u16> {
    let sets = sets_of(cs, p.classes);
    let j = set_with(sets, c, 0);
    code_plane(
        p.units[j],
        sets[j].members().len() as int,
        place_in(sets[j], c),
        wide(cs[c], width),
        rows_of(cs[c], y0, n),
        cs[c].p_linear,
        table,
    )
}

/// The bytes of a channel.
pub open spec fn region_of(
    p: PiecesView,
    cs: Seq<ChannelView>,
    width: int,
    y0: int,
    n: int,
    table: Seq<u16>,
    c: int,
) -> Seq<u8> {
    let scheme = p.classes[c].0;
    let at = scheme_size(cs, p.classes, scheme, width, y0, n, c);
    let end = at + span_of(cs[c], width, y0, n);
    match scheme {
        DwaScheme::Verbatim => p.verbatim.subrange(at, end),
        DwaScheme::Rle => unsplit_bytes(p.rle.subrange(at, end), cs[c].pixel_type.size() as int),
        DwaScheme::LossyDct => codes_bytes(
            cs[c].pixel_type,
            lossy_codes(p, cs, width, y0, n, table, c),
        ),
    }
}

/// The bytes of every channel.
pub open spec fn regions_of(
    p: PiecesView,
    cs: Seq<ChannelView>,
    width: int,
    y0: int,
    n: int,
    table: Seq<u16>,
) -> Seq<Seq<u8>> {
    Seq::new(cs.len(), |c: int| region_of(p, cs, width, y0, n, table, c))
}

/// The lines that the pieces of a chunk stand for, where the squares hold
/// samples.
pub open spec fn lines_of(
    p: PiecesView,
    cs: Seq<ChannelView>,
    width: int,
    y0: int,
    n: int,
    table: Seq<u16>,
) -> Seq<u8> {
    joined_lines(regions_of(p, cs, width, y0, n, table), cs, width, y0, n)
}

proof fn lemma_region_len(
    p: PiecesView,
    cs: Seq<ChannelView>,
    width: int,
    y0: int,
    n: int,
    table: Seq<u16>,
    c: int,
)
    requires
        pieces_fit(p, cs, width, y0, n),
        0 <= width,
        0 <= y0,
        0 <= n,
        0 <= c < cs.len(),
    ensures
        region_of(p, cs, width, y0, n, table, c).len() == span_of(cs[c], width, y0, n),
{
    let scheme = p.classes[c].0;
    lemma_scheme_size(cs, p.classes, scheme, width, y0, n, c, cs.len() as int);
    lemma_whole_span(cs[c], width, y0, n);
    lemma_span(cs[c], width, y0, n);
    if scheme == DwaScheme::LossyDct {
        lemma_codes_bytes_len(cs[c].pixel_type, lossy_codes(p, cs, width, y0, n, table, c));
        assert(p.classes[c].0 == DwaScheme::LossyDct);
        assert(cs[c].pixel_type != PixelType::Uint);
    }
}

fn find_set(sets: &[LossySet], c: usize) -> (r: (usize, usize))
    requires
        exists|j: int| 0 <= j < sets@.len() && holds(#[trigger] sets@[j], c as int),
    ensures
        r.0 == set_with(sets@, c as int, 0),
        r.0 < sets@.len(),
        r.1 == place_in(sets@[r.0 as int], c as int),
{
    let ghost found = choose|j: int| 0 <= j < sets@.len() && holds(#[trigger] sets@[j], c as int);
    let mut j: usize = 0;
    while j < sets.len()
        invariant
            0 <= j <= found < sets@.len(),
            holds(sets@[found], c as int),
            set_with(sets@, c as int, 0) == set_with(sets@, c as int, j as int),
        decreases sets@.len() - j,
    {
        match sets[j] {
            LossySet::Triple(r, g, b) => {
                let ghost m = sets@[j as int].members();
                assert(m[0] == r && m[1] == g && m[2] == b);
                if c == r {
                    return (j, 0);
                }
                if c == g {
                    return (j, 1);
                }
                if c == b {
                    return (j, 2);
                }
            },
            LossySet::Single(i) => {
                assert(sets@[j as int].members()[0] == i);
                if c == i {
                    return (j, 0);
                }
            },
        }
        assert(!holds(sets@[j as int], c as int));
        j = j + 1;
    }
    (0, 0)
}

/// Put the bytes of a channel together.
fn make_region(
    p: &DwaPieces,
    channels: &[Channel],
    width: u32,
    y0: u32,
    n: u32,
    tables: &PerceptualTables,
    c: usize,
    verbatim_at: usize,
    rle_at: usize,
) -> (r: Vec<u8>)
    requires
        y0 + n <= u32::MAX,
        tables.inv(),
        p.fits(channel_views(channels@), width as int, y0 as int, n as int),
        c < channels@.len(),
        verbatim_at == scheme_size(
            channel_views(channels@),
            p.classes@,
            DwaScheme::Verbatim,
            width as int,
            y0 as int,
            n as int,
            c as int,
        ),
        rle_at == scheme_size(
            channel_views(channels@),
            p.classes@,
            DwaScheme::Rle,
            width as int,
            y0 as int,
            n as int,
            c as int,
        ),
    ensures
        r@ == region_of(
            p@,
            channel_views(channels@),
            width as int,
            y0 as int,
            n as int,
            tables.linear_codes(),
            c as int,
        ),
{
    let ghost cs = channel_views(channels@);
    let ghost (w, y, h) = (width as int, y0 as int, n as int);
    let ch: &Channel = &channels[c];
    assert(cs[c as int] == ch@);
    let scheme: DwaScheme = p.classes[c].0;
    assert(channels.len() == channels@.len());
    assert(p.verbatim.len() == p.verbatim@.len());
    assert(p.rle.len() == p.rle@.len());
    proof {
        lemma_scheme_size(cs, p.classes@, scheme, w, y, h, c as int, cs.len() as int);
        lemma_whole_span(cs[c as int], w, y, h);
        lemma_span(cs[c as int], w, y, h);
    }
    match scheme {
        DwaScheme::Verbatim => {
            let span: usize = span_bytes(ch, width, y0, n) as usize;
            copy_range(p.verbatim.as_slice(), verbatim_at, verbatim_at + span)
        },
        DwaScheme::Rle => {
            let span: usize = span_bytes(ch, width, y0, n) as usize;
            unsplit(
                slice_range(p.rle.as_slice(), rle_at, rle_at + span),
                ch.pixel_type.bytes_per_sample(),
            )
        },
        DwaScheme::LossyDct => {
            proof {
                law_sets_partition(cs, p.classes@, c as int);
                lemma_home(cs, p.classes@, c as int);
            }
            let (j, k): (usize, usize) = find_set(p.sets.as_slice(), c);
            let (nx, ny): (u32, u32) = (
                crate::dwa_parts::column_count(ch, width),
                crate::dwa_parts::row_count(ch, y0, n),
            );
            proof {
                let set = p.sets@[j as int];
                assert(p@.units[j as int] == unit_views(p.units@[j as int]@));
                assert(set_columns(cs, set, w) == nx && set_rows(cs, set, y, h) == ny);
                assert(set_views(p.units@).len() == p.units@.len());
            }
            let codes: Vec<u16> = join_plane(
                &p.units[j],
                p.sets[j].component_count(),
                k,
                nx,
                ny,
                ch.p_linear,
                tables,
            );
            bytes_of_codes(ch.pixel_type, codes.as_slice())
        },
    }
}

/// Put the lines of a chunk together, whose squares hold samples.
pub fn join_pieces(
    p: &DwaPieces,
    channels: &[Channel],
    width: u32,
    y0: u32,
    n: u32,
    tables: &PerceptualTables,
) -> (r: Vec<u8>)
    requires
        y0 + n <= u32::MAX,
        tables.inv(),
        p.fits(channel_views(channels@), width as int, y0 as int, n as int),
    ensures
        r@ == lines_of(
            p@,
            channel_views(channels@),
            width as int,
            y0 as int,
            n as int,
            tables.linear_codes(),
        ),
        r@.len() == lines_size(
            channel_views(channels@),
            width as int,
            y0 as int,
            false,
            n as int,
        ),
{
    let ghost cs = channel_views(channels@);
    let ghost (w, y, h) = (width as int, y0 as int, n as int);
    let ghost all = regions_of(p@, cs, w, y, h, tables.linear_codes());
    let mut regions: Vec<Vec<u8>> = Vec::new();
    let mut verbatim_at: usize = 0;
    let mut rle_at: usize = 0;
    let mut c: usize = 0;
    while c < channels.len()
        invariant
            c <= channels@.len(),
            y0 + n <= u32::MAX,
            tables.inv(),
            cs == channel_views(channels@),
            cs.len() == channels@.len(),
            w == width,
            y == y0,
            h == n,
            p.fits(cs, w, y, h),
            all == regions_of(p@, cs, w, y, h, tables.linear_codes()),
            verbatim_at == scheme_size(
                cs,
                p.classes@,
                DwaScheme::Verbatim,
                w,
                y,
                h,
                c as int,
            ),
            rle_at == scheme_size(cs, p.classes@, DwaScheme::Rle, w, y, h, c as int),
            regions@.len() == c,
            forall|i: int| 0 <= i < c ==> (#[trigger] regions@[i])@ == all[i],
        decreases channels@.len() - c,
    {
        assert(cs[c as int] == channels@[c as int]@);
        assert(p.verbatim.len() == p.verbatim@.len());
        assert(p.rle.len() == p.rle@.len());
        let region: Vec<u8> = make_region(
            p,
            channels,
            width,
            y0,
            n,
            tables,
            c,
            verbatim_at,
            rle_at,
        );
        proof {
            lemma_region_len(p@, cs, w, y, h, tables.linear_codes(), c as int);
            lemma_scheme_size(
                cs,
                p.classes@,
                DwaScheme::Verbatim,
                w,
                y,
                h,
                c as int,
                cs.len() as int,
            );
            lemma_scheme_size(
                cs,
                p.classes@,
                DwaScheme::Rle,
                w,
                y,
                h,
                c as int,
                cs.len() as int,
            );
            assert(region@ == all[c as int]);
        }
        match p.classes[c].0 {
            DwaScheme::Verbatim => {
                verbatim_at = verbatim_at + region.len();
            },
            DwaScheme::Rle => {
                rle_at = rle_at + region.len();
            },
            DwaScheme::LossyDct => {},
        }
        regions.push(region);
        c = c + 1;
    }
    proof {
        assert(byte_views(regions@) =~= all);
        lemma_regions_of_fit(p@, cs, w, y, h, tables.linear_codes());
        crate::dwa_regions::lemma_joined_len(all, cs, w, y, h, h);
    }
    join_regions(regions.as_slice(), channels, width, y0, n)
}

pub proof fn lemma_regions_of_fit(
    p: PiecesView,
    cs: Seq<ChannelView>,
    width: int,
    y0: int,
    n: int,
    table: Seq<u16>,
)
    requires
        pieces_fit(p, cs, width, y0, n),
        0 <= width,
        0 <= y0,
        0 <= n,
    ensures
        regions_fit(regions_of(p, cs, width, y0, n, table), cs, width, y0, n),
{
    let regions = regions_of(p, cs, width, y0, n, table);
    assert forall|c: int| 0 <= c < cs.len() implies (#[trigger] regions[c]).len() == span_of(
        cs[c],
        width,
        y0,
        n,
    ) by {
        lemma_region_len(p, cs, width, y0, n, table, c);
    }
}

} // verus!
