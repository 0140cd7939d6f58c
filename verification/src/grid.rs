//! Images that are cut into tiles.

use vstd::arithmetic::div_mod::*;
use vstd::arithmetic::mul::*;
use vstd::prelude::*;

verus! {

/// How many steps of `t` it takes to cover `n`.
pub open spec fn steps(n: int, t: int) -> int {
    (n + t - 1) / t
}

/// The size of an image, and of the tiles that it is cut into. The tiles at
/// the right and lower edges may be smaller.
#[derive(Debug, Clone, Copy, PartialEq, Eq, Structural)]
pub struct Grid {
    pub width: u32,
    pub height: u32,
    pub tile_x: u32,
    pub tile_y: u32,
}

/// The length of step `q`, where `n` is covered in steps of `t`.
pub open spec fn step_len(n: int, t: int, q: int) -> int {
    if n - q * t < t {
        n - q * t
    } else {
        t
    }
}

impl Grid {
    pub open spec fn is_valid(self) -> bool {
        self.width > 0 && self.height > 0 && self.tile_x > 0 && self.tile_y > 0
    }

    /// The number of tiles in a row of tiles.
    pub open spec fn across(self) -> int {
        steps(self.width as int, self.tile_x as int)
    }

    /// The number of rows of tiles.
    pub open spec fn down(self) -> int {
        steps(self.height as int, self.tile_y as int)
    }

    /// The number of tiles.
    pub open spec fn tiles(self) -> int {
        self.down() * self.across()
    }

    /// The number of pixels.
    pub open spec fn area(self) -> int {
        self.height * self.width
    }

    /// The width of the tiles in column `tx`.
    pub open spec fn tile_w(self, tx: int) -> int {
        step_len(self.width as int, self.tile_x as int, tx)
    }

    /// The height of the tiles in row `ty`.
    pub open spec fn tile_h(self, ty: int) -> int {
        step_len(self.height as int, self.tile_y as int, ty)
    }

    /// The number of pixels of a tile.
    pub open spec fn cells(self, tx: int, ty: int) -> int {
        self.tile_h(ty) * self.tile_w(tx)
    }

    /// The tile that holds the pixel `p`.
    pub open spec fn tile_of(self, p: int) -> int {
        let y = p / self.width as int;
        let x = p % self.width as int;
        (y / self.tile_y as int) * self.across() + x / self.tile_x as int
    }

    /// The place of the pixel `p` in its tile.
    pub open spec fn cell_of(self, p: int) -> int {
        let y = p / self.width as int;
        let x = p % self.width as int;
        (y % self.tile_y as int) * self.tile_w(x / self.tile_x as int) + x % self.tile_x as int
    }

    /// The pixel at place `j` of a tile.
    pub open spec fn pixel(self, tx: int, ty: int, j: int) -> int {
        (ty * self.tile_y + j / self.tile_w(tx)) * self.width + (tx * self.tile_x + j % self.tile_w(tx))
    }

    /// The number of tiles in a row of tiles.
    pub fn columns(&self) -> (r: u32)
        requires
            self.is_valid(),
        ensures
            r == self.across(),
            r > 0,
    {
        count_steps(self.width, self.tile_x)
    }

    /// The number of rows of tiles.
    pub fn lines(&self) -> (r: u32)
        requires
            self.is_valid(),
        ensures
            r == self.down(),
            r > 0,
    {
        count_steps(self.height, self.tile_y)
    }

    /// The width of the tiles in column `tx`.
    pub fn tile_width(&self, tx: u32) -> (r: u32)
        requires
            self.is_valid(),
            tx < self.across(),
        ensures
            r == self.tile_w(tx as int),
            0 < r <= self.tile_x,
            tx * self.tile_x + r <= self.width,
    {
        proof {
            lemma_step(self.width as int, self.tile_x as int, tx as int);
        }
        let rest: u32 = self.width - tx * self.tile_x;
        if rest < self.tile_x {
            rest
        } else {
            self.tile_x
        }
    }

    /// The height of the tiles in row `ty`.
    pub fn tile_height(&self, ty: u32) -> (r: u32)
        requires
            self.is_valid(),
            ty < self.down(),
        ensures
            r == self.tile_h(ty as int),
            0 < r <= self.tile_y,
            ty * self.tile_y + r <= self.height,
    {
        proof {
            lemma_step(self.height as int, self.tile_y as int, ty as int);
        }
        let rest: u32 = self.height - ty * self.tile_y;
        if rest < self.tile_y {
            rest
        } else {
            self.tile_y
        }
    }
}

fn count_steps(n: u32, t: u32) -> (r: u32)
    requires
        n > 0,
        t > 0,
    ensures
        r == steps(n as int, t as int),
        r > 0,
{
    proof {
        lemma_steps_form(n as int, t as int);
        lemma_div_is_ordered_by_denominator(n - 1, 1, t as int);
        lemma_div_basics_auto_one(n - 1);
        lemma_div_pos_is_pos(n - 1, t as int);
    }
    (n - 1) / t + 1
}

proof fn lemma_div_basics_auto_one(x: int)
    ensures
        x / 1 == x,
{
}

proof fn lemma_steps_form(n: int, t: int)
    requires
        t > 0,
        n > 0,
    ensures
        steps(n, t) == (n - 1) / t + 1,
{
    lemma_fundamental_div_mod(n - 1, t);
    lemma_mod_bound(n - 1, t);
    let q = (n - 1) / t;
    let r = (n - 1) % t;
    assert((q + 1) * t == t * q + t) by (nonlinear_arith);
    lemma_fundamental_div_mod_converse(n + t - 1, t, q + 1, r);
}

/// Every step lies in what is covered, and is not empty.
pub proof fn lemma_step(n: int, t: int, q: int)
    requires
        t > 0,
        n > 0,
        0 <= q < steps(n, t),
    ensures
        0 <= q * t < n,
        0 < step_len(n, t, q) <= t,
        q * t + step_len(n, t, q) <= n,
{
    lemma_steps_form(n, t);
    lemma_fundamental_div_mod(n - 1, t);
    lemma_mod_bound(n - 1, t);
    let m = (n - 1) / t;
    assert(0 <= q * t <= t * m) by (nonlinear_arith)
        requires
            0 <= q <= m,
            t > 0,
    ;
}

/// A position lies in the step that its quotient names.
pub proof fn lemma_position(n: int, t: int, x: int)
    requires
        t > 0,
        0 <= x < n,
    ensures
        0 <= x / t < steps(n, t),
        (x / t) * t + x % t == x,
        0 <= x % t < step_len(n, t, x / t),
{
    lemma_steps_form(n, t);
    lemma_fundamental_div_mod(x, t);
    lemma_mod_bound(x, t);
    lemma_mul_is_commutative(t, x / t);
    lemma_div_is_ordered(x, n - 1, t);
    lemma_div_pos_is_pos(x, t);
}

/// Every pixel has a tile, and a place in it.
pub proof fn lemma_pixel_home(g: Grid, p: int)
    requires
        g.is_valid(),
        0 <= p < g.area(),
    ensures
        ({
            let y = p / g.width as int;
            let x = p % g.width as int;
            let tx = x / g.tile_x as int;
            let ty = y / g.tile_y as int;
            &&& 0 <= x < g.width
            &&& 0 <= y < g.height
            &&& p == y * g.width + x
            &&& 0 <= tx < g.across()
            &&& 0 <= ty < g.down()
            &&& g.tile_of(p) == ty * g.across() + tx
            &&& 0 <= g.tile_of(p) < g.tiles()
            &&& g.tile_of(p) / g.across() == ty
            &&& g.tile_of(p) % g.across() == tx
            &&& 0 <= g.cell_of(p) < g.cells(tx, ty)
            &&& g.pixel(tx, ty, g.cell_of(p)) == p
        }),
{
    let w = g.width as int;
    let h = g.height as int;
    let y = p / w;
    let x = p % w;
    lemma_fundamental_div_mod(p, w);
    lemma_mod_bound(p, w);
    lemma_mul_is_commutative(w, y);
    lemma_div_pos_is_pos(p, w);
    assert(y < h) by (nonlinear_arith)
        requires
            p == y * w + x,
            p < h * w,
            0 <= x,
            w > 0,
    ;
    lemma_position(w, g.tile_x as int, x);
    lemma_position(h, g.tile_y as int, y);
    let tx = x / g.tile_x as int;
    let ty = y / g.tile_y as int;
    let cx = x % g.tile_x as int;
    let cy = y % g.tile_y as int;
    let tw = g.tile_w(tx);
    lemma_tile_index(g, tx, ty);
    lemma_fundamental_div_mod_converse(cy * tw + cx, tw, cy, cx);
    assert(0 <= cy * tw + cx < g.tile_h(ty) * tw) by (nonlinear_arith)
        requires
            0 <= cy < g.tile_h(ty),
            0 <= cx < tw,
    ;
}

/// The number of a tile names its column and its row.
pub proof fn lemma_tile_index(g: Grid, tx: int, ty: int)
    requires
        0 <= tx < g.across(),
        0 <= ty < g.down(),
    ensures
        0 <= ty * g.across() + tx < g.tiles(),
        (ty * g.across() + tx) / g.across() == ty,
        (ty * g.across() + tx) % g.across() == tx,
{
    let a = g.across();
    assert(0 <= ty * a + tx < g.down() * a) by (nonlinear_arith)
        requires
            0 <= tx < a,
            0 <= ty < g.down(),
    ;
    lemma_fundamental_div_mod_converse(ty * a + tx, a, ty, tx);
}

/// The column and the row of a tile, from its number.
pub proof fn lemma_tile_split(g: Grid, i: int)
    requires
        g.is_valid(),
        0 <= i < g.tiles(),
    ensures
        g.across() > 0,
        0 <= i % g.across() < g.across(),
        0 <= i / g.across() < g.down(),
        (i / g.across()) * g.across() + i % g.across() == i,
{
    lemma_steps_form(g.width as int, g.tile_x as int);
    lemma_div_pos_is_pos(g.width - 1, g.tile_x as int);
    let a = g.across();
    lemma_fundamental_div_mod(i, a);
    lemma_mod_bound(i, a);
    lemma_mul_is_commutative(a, i / a);
    lemma_div_pos_is_pos(i, a);
    let q = i / a;
    assert(q < g.down()) by (nonlinear_arith)
        requires
            q * a <= i,
            i < g.down() * a,
            a > 0,
    ;
}

/// A place of a tile is a pixel of the image, and that pixel lies there.
pub proof fn lemma_tile_pixel(g: Grid, tx: int, ty: int, j: int)
    requires
        g.is_valid(),
        0 <= tx < g.across(),
        0 <= ty < g.down(),
        0 <= j < g.cells(tx, ty),
    ensures
        ({
            let cy = j / g.tile_w(tx);
            let cx = j % g.tile_w(tx);
            &&& 0 < g.tile_w(tx)
            &&& 0 <= cx < g.tile_w(tx)
            &&& 0 <= cy < g.tile_h(ty)
            &&& j == cy * g.tile_w(tx) + cx
            &&& 0 <= g.pixel(tx, ty, j) < g.area()
            &&& g.pixel(tx, ty, j) == (ty * g.tile_y + cy) * g.width + (tx * g.tile_x + cx)
        }),
{
    let w = g.width as int;
    let tw = g.tile_w(tx);
    lemma_step(w, g.tile_x as int, tx);
    lemma_step(g.height as int, g.tile_y as int, ty);
    let cy = j / tw;
    let cx = j % tw;
    lemma_fundamental_div_mod(j, tw);
    lemma_mod_bound(j, tw);
    lemma_mul_is_commutative(tw, cy);
    lemma_div_pos_is_pos(j, tw);
    assert(cy < g.tile_h(ty)) by (nonlinear_arith)
        requires
            cy * tw <= j,
            j < g.tile_h(ty) * tw,
            tw > 0,
    ;
    let y = ty * g.tile_y + cy;
    let x = tx * g.tile_x + cx;
    assert(0 <= y * w + x < g.height * w) by (nonlinear_arith)
        requires
            0 <= y < g.height,
            0 <= x < w,
    ;
}

/// A grid has at least one tile.
pub proof fn lemma_tile_count(g: Grid)
    requires
        g.is_valid(),
    ensures
        g.across() > 0,
        g.down() > 0,
        g.tiles() > 0,
{
    lemma_steps_form(g.width as int, g.tile_x as int);
    lemma_div_pos_is_pos(g.width - 1, g.tile_x as int);
    lemma_steps_form(g.height as int, g.tile_y as int);
    lemma_div_pos_is_pos(g.height - 1, g.tile_y as int);
    let a = g.across();
    let d = g.down();
    assert(d * a > 0) by (nonlinear_arith)
        requires
            a > 0,
            d > 0,
    ;
}

} // verus!
