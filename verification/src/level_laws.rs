//! Which levels an image of several resolutions has.

use crate::deep_mipmap::level_grids;
use crate::error::Fault;
use crate::flat_levels::{multilevel_of, MultilevelView};
use crate::flat_tiles::{levels_of, LevelShape};
use crate::mipmap::{
    law_last_level, law_level_count, law_level_size, lemma_level_step, level_count, level_size,
};
use vstd::prelude::*;

verus! {

/// Half of a size: rounded as asked, and never nothing.
pub open spec fn half_of(size: int, round_up: bool) -> int {
    if size == 1 {
        1
    } else if round_up {
        size - size / 2
    } else {
        size / 2
    }
}

/// Each level is half as large as the one before it along both axes, the first
/// is of the given size, the last is of 1 by 1 pixel, and none before it is.
pub open spec fn is_pyramid(shapes: Seq<(int, int)>, width: int, height: int, round_up: bool) -> bool {
    let n = shapes.len();
    &&& n > 0
    &&& shapes[0] == (width, height)
    &&& shapes[n - 1] == (1int, 1int)
    &&& forall|i: int| 0 <= i < n - 1 ==> #[trigger] shapes[i] != (1int, 1int)
    &&& forall|i: int, j: int|
        #![trigger shapes[i], shapes[j]]
        0 <= i && j == i + 1 && j < n ==> shapes[j] == (
            half_of(shapes[i].0, round_up),
            half_of(shapes[i].1, round_up),
        )
}

/// The sizes of levels.
pub open spec fn sizes_of(levels: Seq<LevelShape>) -> Seq<(int, int)> {
    Seq::new(levels.len(), |i: int| (levels[i].width as int, levels[i].height as int))
}

proof fn lemma_next_size(size: int, level: int, round_up: bool)
    requires
        1 <= size,
        0 <= level,
    ensures
        level_size(size, level + 1, round_up) == half_of(level_size(size, level, round_up), round_up),
{
    lemma_level_step(size, level, round_up);
    law_level_size(size, level, round_up);
}

/// Sizes that are halved level by level end with 1 by 1.
proof fn lemma_pyramid(width: int, height: int, round_up: bool, n: int)
    requires
        1 <= width,
        1 <= height,
        n == level_count(
            if width > height {
                width
            } else {
                height
            },
            round_up,
        ),
    ensures
        is_pyramid(
            Seq::new(
                n as nat,
                |l: int| (level_size(width, l, round_up), level_size(height, l, round_up)),
            ),
            width,
            height,
            round_up,
        ),
{
    let big = if width > height {
        width
    } else {
        height
    };
    let small = if width > height {
        height
    } else {
        width
    };
    let shapes = Seq::new(
        n as nat,
        |l: int| (level_size(width, l, round_up), level_size(height, l, round_up)),
    );
    crate::mipmap::lemma_count_bound(big, round_up);
    law_level_size(width, 0, round_up);
    law_level_size(height, 0, round_up);
    law_last_level(big, n - 1, round_up);
    lemma_smaller_level(small, big, n - 1, round_up);
    assert forall|i: int| 0 <= i < n - 1 implies #[trigger] shapes[i] != (1int, 1int) by {
        law_last_level(big, i, round_up);
    }
    assert forall|i: int, j: int|
        #![trigger shapes[i], shapes[j]]
        0 <= i && j == i + 1 && j < n implies shapes[j] == (
        half_of(shapes[i].0, round_up),
        half_of(shapes[i].1, round_up),
    ) by {
        lemma_next_size(width, i, round_up);
        lemma_next_size(height, i, round_up);
    }
}

/// Of two sizes the smaller stays the smaller at every level.
proof fn lemma_smaller_level(a: int, b: int, level: int, round_up: bool)
    requires
        1 <= a <= b,
        0 <= level,
    ensures
        1 <= level_size(a, level, round_up) <= level_size(b, level, round_up),
    decreases level,
{
    law_level_size(a, level, round_up);
    if level > 0 {
        lemma_smaller_level(a, b, level - 1, round_up);
        lemma_next_size(a, level - 1, round_up);
        lemma_next_size(b, level - 1, round_up);
    } else {
        law_level_size(b, 0, round_up);
    }
}

/// The levels of a MIPMAP image: from its full size down to 1 by 1 pixel, each
/// half as large as the one before it. Both numbers of a level are its place.
pub proof fn law_mipmap_levels(width: int, height: int, round_up: bool)
    requires
        1 <= width <= u32::MAX,
        1 <= height <= u32::MAX,
    ensures
        ({
            let levels = levels_of(1, width, height, round_up);
            &&& is_pyramid(sizes_of(levels), width, height, round_up)
            &&& forall|i: int|
                0 <= i < levels.len() ==> (#[trigger] levels[i]).level_x == i && levels[i].level_y
                    == i
        }),
{
    let levels = levels_of(1, width, height, round_up);
    let n = levels.len() as int;
    let big = if width > height {
        width
    } else {
        height
    };
    law_level_count(big, round_up);
    assert forall|i: int| 0 <= i < n implies 1 <= #[trigger] level_size(width, i, round_up) <= width && 1
        <= level_size(height, i, round_up) <= height by {
        law_level_size(width, i, round_up);
        law_level_size(height, i, round_up);
    }
    lemma_pyramid(width, height, round_up, level_count(big, round_up));
    assert(sizes_of(levels) =~= Seq::new(
        n as nat,
        |l: int| (level_size(width, l, round_up), level_size(height, l, round_up)),
    ));
}

/// An image of one level has that of its full size.
pub proof fn law_one_level(width: int, height: int, round_up: bool)
    requires
        1 <= width <= u32::MAX,
        1 <= height <= u32::MAX,
    ensures
        ({
            let levels = levels_of(0, width, height, round_up);
            &&& levels.len() == 1
            &&& levels[0].width == width && levels[0].height == height
            &&& levels[0].level_x == 0 && levels[0].level_y == 0
        }),
{
    law_level_size(width, 0, round_up);
    law_level_size(height, 0, round_up);
}

/// The levels of a RIPMAP image: one for each pair of a halving of the width and
/// one of the height, those of the width first. The first is of full size, the
/// last of 1 by 1 pixel.
pub proof fn law_ripmap_levels(width: int, height: int, round_up: bool, i: int)
    requires
        1 <= width <= u32::MAX,
        1 <= height <= u32::MAX,
        0 <= i < levels_of(2, width, height, round_up).len(),
    ensures
        ({
            let levels = levels_of(2, width, height, round_up);
            let n = levels.len();
            let l = levels[i];
            &&& levels[0].width == width && levels[0].height == height
            &&& levels[0].level_x == 0 && levels[0].level_y == 0
            &&& levels[n - 1].width == 1 && levels[n - 1].height == 1
            &&& i + 1 < n ==> {
                let next = levels[i + 1];
                if l.width == 1 {
                    &&& next.level_x == 0 && next.level_y == l.level_y + 1
                    &&& next.width == width && next.height == half_of(l.height as int, round_up)
                    &&& l.height > 1
                } else {
                    &&& next.level_x == l.level_x + 1 && next.level_y == l.level_y
                    &&& next.width == half_of(l.width as int, round_up) && next.height == l.height
                }
            }
        }),
{
    let levels = levels_of(2, width, height, round_up);
    let across = level_count(width, round_up);
    let down = level_count(height, round_up);
    let n = down * across;
    law_level_count(width, round_up);
    law_level_count(height, round_up);
    assert(1 <= n <= 33 * 33 && (n - 1) / across == down - 1 && (n - 1) % across == across - 1) by {
        assert(n - 1 == (down - 1) * across + (across - 1)) by (nonlinear_arith)
            requires
                n == down * across,
        ;
        assert(1 <= n <= 33 * 33) by (nonlinear_arith)
            requires
                n == down * across,
                1 <= down <= 33,
                1 <= across <= 33,
        ;
        vstd::arithmetic::div_mod::lemma_fundamental_div_mod_converse(
            n - 1,
            across,
            down - 1,
            across - 1,
        );
    }
    law_level_size(width, 0, round_up);
    law_level_size(height, 0, round_up);
    assert(0int / across == 0 && 0int % across == 0) by {
        vstd::arithmetic::div_mod::lemma_fundamental_div_mod_converse(0, across, 0, 0);
    }
    law_last_level(width, across - 1, round_up);
    law_last_level(height, down - 1, round_up);
    let (lx, ly) = (i % across, i / across);
    vstd::arithmetic::div_mod::lemma_fundamental_div_mod(i, across);
    vstd::arithmetic::div_mod::lemma_mod_bound(i, across);
    assert(0 <= ly < down) by (nonlinear_arith)
        requires
            i == across * ly + lx,
            0 <= lx < across,
            0 <= i < down * across,
    ;
    assert(across * ly == ly * across) by (nonlinear_arith);
    law_level_size(width, lx, round_up);
    law_level_size(height, ly, round_up);
    law_last_level(width, lx, round_up);
    if i + 1 < n {
        if lx == across - 1 {
            assert(i + 1 == (ly + 1) * across) by (nonlinear_arith)
                requires
                    i == across * ly + lx,
                    lx == across - 1,
            ;
            vstd::arithmetic::div_mod::lemma_fundamental_div_mod_converse(i + 1, across, ly + 1, 0);
            assert(ly + 1 < down) by (nonlinear_arith)
                requires
                    (ly + 1) * across < down * across,
                    across >= 1,
            ;
            lemma_next_size(height, ly, round_up);
            law_last_level(height, ly, round_up);
            law_level_size(height, ly + 1, round_up);
        } else {
            vstd::arithmetic::div_mod::lemma_fundamental_div_mod_converse(
                i + 1,
                across,
                ly,
                lx + 1,
            );
            lemma_next_size(width, lx, round_up);
            law_level_size(width, lx + 1, round_up);
        }
    }
}

/// What is read of a MIPMAP file has all levels down to 1 by 1 pixel.
pub proof fn law_mipmap_file(s: Seq<u8>, log: Seq<u16>, v: MultilevelView)
    requires
        multilevel_of(s, log) == Ok::<MultilevelView, Fault>(v),
        v.tiles.level_mode == 1,
    ensures
        is_pyramid(
            Seq::new(
                v.levels.len(),
                |i: int| (v.levels[i].shape.width as int, v.levels[i].shape.height as int),
            ),
            v.data_window.columns() as int,
            v.data_window.rows() as int,
            v.tiles.round_mode != 0,
        ),
{
    let (w, h) = (v.data_window.columns() as int, v.data_window.rows() as int);
    law_mipmap_levels(w, h, v.tiles.round_mode != 0);
    let levels = levels_of(1, w, h, v.tiles.round_mode != 0);
    assert(sizes_of(levels) =~= Seq::new(
        v.levels.len(),
        |i: int| (v.levels[i].shape.width as int, v.levels[i].shape.height as int),
    ));
}

/// The levels of a deep MIPMAP image, whose sizes are rounded down.
pub proof fn law_deep_levels(width: u32, height: u32, size: (u32, u32))
    requires
        width > 0,
        height > 0,
    ensures
        ({
            let grids = level_grids(width, height, size);
            &&& is_pyramid(
                Seq::new(grids.len(), |i: int| (grids[i].width as int, grids[i].height as int)),
                width as int,
                height as int,
                false,
            )
            &&& forall|i: int|
                0 <= i < grids.len() ==> (#[trigger] grids[i]).tile_x == size.0 && grids[i].tile_y
                    == size.1
        }),
{
    let grids = level_grids(width, height, size);
    let n = grids.len() as int;
    let (w, h) = (width as int, height as int);
    let big = if w > h {
        w
    } else {
        h
    };
    law_level_count(big, false);
    assert forall|i: int| 0 <= i < n implies 1 <= #[trigger] level_size(w, i, false) <= w && 1 <= level_size(
        h,
        i,
        false,
    ) <= h by {
        law_level_size(w, i, false);
        law_level_size(h, i, false);
    }
    lemma_pyramid(w, h, false, level_count(big, false));
    assert(Seq::new(grids.len(), |i: int| (grids[i].width as int, grids[i].height as int)) =~= Seq::new(
        n as nat,
        |l: int| (level_size(w, l, false), level_size(h, l, false)),
    ));
}

} // verus!
