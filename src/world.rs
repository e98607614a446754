use crate::board::{lemma_num_slots_bound, lemma_view_fields, lemma_slot_xy, on_grid, slot_xy, xy_slot, Board, BoardView};
use vstd::arithmetic::div_mod::lemma_fundamental_div_mod_converse;
use vstd::prelude::*;

verus! {

/// A point of the world plane, `(x / denom, y / denom)`, with the origin at
/// the centre of the board, `x` to the right and `y` up.
#[derive(Debug, Clone, Copy, PartialEq, Eq, Structural)]
pub struct WorldPoint {
    pub x: i64,
    pub y: i64,
    pub denom: u32,
}

/// The column (or row) that world coordinate `num / denom` falls in on a
/// board of side `size` split into `dim` cells:
/// `floor((num / denom + size / 2) * dim / size)`.
pub open spec fn world_cell(num: int, denom: int, size: int, dim: int) -> int {
    ((2 * num + size * denom) * dim) / (2 * size * denom)
}

impl BoardView {
    /// The slot under world point `(x / denom, y / denom)`, if the point is
    /// on the board.
    pub open spec fn world_to_slot(self, x: int, y: int, denom: int) -> Option<u32> {
        let cx = world_cell(x, denom, self.size as int, self.dim as int);
        let cy = world_cell(y, denom, self.size as int, self.dim as int);
        if on_grid(self.dim, cx, cy) {
            Some(xy_slot(self.dim, cx, cy) as u32)
        } else {
            None
        }
    }

    /// The centre of slot `i`'s cell, over the denominator `2 N`.
    pub open spec fn slot_center(self, i: int) -> WorldPoint {
        let (x, y) = slot_xy(self.dim, i);
        WorldPoint {
            x: (self.size * (2 * x + 1 - self.dim)) as i64,
            y: (self.size * (2 * y + 1 - self.dim)) as i64,
            denom: (2 * self.dim) as u32,
        }
    }
}

/// The cell of a coordinate that lies within cell `t`, that is
/// `-size / 2 + t * size / dim <= num / denom < -size / 2 + (t + 1) * size / dim`,
/// is `t`.
pub proof fn lemma_world_cell_within(num: int, denom: int, size: int, dim: int, t: int)
    requires
        denom > 0,
        size > 0,
        dim > 0,
        denom * size * (2 * t - dim) <= 2 * dim * num,
        2 * dim * num < denom * size * (2 * t + 2 - dim),
    ensures
        world_cell(num, denom, size, dim) == t,
{
    let n = (2 * num + size * denom) * dim;
    let d = 2 * size * denom;
    let r = n - t * d;
    assert(n == t * d + r && 0 <= r < d) by (nonlinear_arith)
        requires
            n == (2 * num + size * denom) * dim,
            d == 2 * size * denom,
            r == n - t * d,
            denom * size * (2 * t - dim) <= 2 * dim * num,
            2 * dim * num < denom * size * (2 * t + 2 - dim),
    ;
    lemma_fundamental_div_mod_converse(n, d, t, r);
}

/// A world point that lies within the cell of slot `i` (its left and lower
/// edges included) is over slot `i`.
pub proof fn lemma_point_in_cell(v: BoardView, px: int, py: int, d: int, i: int)
    requires
        v.wf(),
        d > 0,
        0 <= i < v.num_slots(),
        d * v.size * (2 * slot_xy(v.dim, i).0 - v.dim) <= 2 * v.dim * px,
        2 * v.dim * px < d * v.size * (2 * slot_xy(v.dim, i).0 + 2 - v.dim),
        d * v.size * (2 * slot_xy(v.dim, i).1 - v.dim) <= 2 * v.dim * py,
        2 * v.dim * py < d * v.size * (2 * slot_xy(v.dim, i).1 + 2 - v.dim),
    ensures
        v.world_to_slot(px, py, d) == Some(i as u32),
{
    lemma_slot_xy(v.dim, i);
    let (x, y) = slot_xy(v.dim, i);
    lemma_world_cell_within(px, d, v.size as int, v.dim as int, x);
    lemma_world_cell_within(py, d, v.size as int, v.dim as int, y);
}

/// The centre of every slot's cell is over that slot: placing a tile and
/// hit-testing its position agree.
pub proof fn lemma_world_round_trip(v: BoardView, i: int)
    requires
        v.wf(),
        0 <= i < v.num_slots(),
    ensures
        v.world_to_slot(
            v.slot_center(i).x as int,
            v.slot_center(i).y as int,
            v.slot_center(i).denom as int,
        ) == Some(i as u32),
{
    lemma_slot_xy(v.dim, i);
    let (x, y) = slot_xy(v.dim, i);
    let s = v.size as int;
    let n = v.dim as int;
    let c = v.slot_center(i);
    assert(-0xffff_ffff * 46340 <= s * (2 * x + 1 - n) <= 0xffff_ffff * 46340) by (nonlinear_arith)
        requires
            0 < s <= 0xffff_ffff,
            0 <= x < n <= 46340,
    ;
    assert(-0xffff_ffff * 46340 <= s * (2 * y + 1 - n) <= 0xffff_ffff * 46340) by (nonlinear_arith)
        requires
            0 < s <= 0xffff_ffff,
            0 <= y < n <= 46340,
    ;
    assert(c.x as int == s * (2 * x + 1 - n));
    assert(c.y as int == s * (2 * y + 1 - n));
    assert(c.denom as int == 2 * n);
    assert((2 * n) * s * (2 * x - n) <= 2 * n * (s * (2 * x + 1 - n))) by (nonlinear_arith)
        requires
            s > 0,
            n > 0,
    ;
    assert(2 * n * (s * (2 * x + 1 - n)) < (2 * n) * s * (2 * x + 2 - n)) by (nonlinear_arith)
        requires
            s > 0,
            n > 0,
    ;
    assert((2 * n) * s * (2 * y - n) <= 2 * n * (s * (2 * y + 1 - n))) by (nonlinear_arith)
        requires
            s > 0,
            n > 0,
    ;
    assert(2 * n * (s * (2 * y + 1 - n)) < (2 * n) * s * (2 * y + 2 - n)) by (nonlinear_arith)
        requires
            s > 0,
            n > 0,
    ;
    lemma_point_in_cell(v, c.x as int, c.y as int, c.denom as int, i);
}

impl Board {
    /// The row or column of the grid that world coordinate `v / denom`
    /// falls in, if it is on the board.
    fn cell_of(&self, v: i64, denom: u32) -> (r: Option<u32>)
        requires
            self@.wf(),
            denom > 0,
        ensures
            r == (if 0 <= world_cell(v as int, denom as int, self@.size as int, self@.dim as int)
                < self@.dim {
                Some(world_cell(v as int, denom as int, self@.size as int, self@.dim as int) as u32)
            } else {
                None::<u32>
            }),
    {
        proof {
            lemma_view_fields(self);
        }
        let size = self.board_size as i128;
        let dim = self.tiles_dim as i128;
        let d = denom as i128;
        assert(0 < size * d <= 0xffff_ffff * 0xffff_ffff) by (nonlinear_arith)
            requires
                0 < size <= 0xffff_ffff,
                0 < d <= 0xffff_ffff,
        ;
        let sd = size * d;
        let shifted = 2 * (v as i128) + sd;
        assert(-0x1_0000_0000_0000_0000 <= shifted <= 0x2_0000_0000_0000_0000);
        assert(-0x1_0000_0000_0000_0000 * 46340 <= shifted * dim <= 0x2_0000_0000_0000_0000 * 46340)
            by (nonlinear_arith)
            requires
                -0x1_0000_0000_0000_0000 <= shifted <= 0x2_0000_0000_0000_0000,
                0 < dim <= 46340,
        ;
        let num = shifted * dim;
        let den = 2 * sd;
        assert(den == 2 * size * d) by (nonlinear_arith)
            requires
                den == 2 * sd,
                sd == size * d,
        ;
        if num < 0 {
            assert(world_cell(v as int, denom as int, self@.size as int, self@.dim as int) < 0) by {
                let q = (num as int) / (den as int);
                vstd::arithmetic::div_mod::lemma_fundamental_div_mod(num as int, den as int);
                vstd::arithmetic::div_mod::lemma_mod_bound(num as int, den as int);
                assert(q < 0) by (nonlinear_arith)
                    requires
                        num == den * q + (num as int) % (den as int),
                        0 <= (num as int) % (den as int),
                        num < 0,
                        den > 0,
                ;
            }
            return None;
        }
        let cell = (num as u128) / (den as u128);
        if cell > 0x7fff_ffff {
            None
        } else {
            self.check_x(cell as i32)
        }
    }

    /// The slot under the world point `(x / denom, y / denom)`; `None` when
    /// the point is off the board.
    pub fn world_coord_idx(&self, x: i64, y: i64, denom: u32) -> (r: Option<u32>)
        requires
            self@.wf(),
            denom > 0,
        ensures
            r == self@.world_to_slot(x as int, y as int, denom as int),
    {
        match self.cell_of(x, denom) {
            Some(cx) => match self.cell_of(y, denom) {
                Some(cy) => Some(self.xy_idx((cx, cy))),
                None => None,
            },
            None => None,
        }
    }

    /// The slot under world point `loc`; `None` when it is off the board.
    pub fn world_idx(&self, loc: WorldPoint) -> (r: Option<u32>)
        requires
            self@.wf(),
            loc.denom > 0,
        ensures
            r == self@.world_to_slot(loc.x as int, loc.y as int, loc.denom as int),
    {
        self.world_coord_idx(loc.x, loc.y, loc.denom)
    }

    /// The centre of slot `idx`'s cell; `None` for an index off the board.
    pub fn idx_world(&self, idx: i32) -> (r: Option<WorldPoint>)
        requires
            self@.wf(),
        ensures
            r == (if 0 <= idx < self@.num_slots() {
                Some(self@.slot_center(idx as int))
            } else {
                None::<WorldPoint>
            }),
    {
        match self.check_idx(idx) {
            Some(i) => {
                proof {
                    lemma_view_fields(self);
                }
                let (x, y) = self.idx_xy(i);
                let size = self.board_size as i64;
                let dim = self.tiles_dim as i64;
                let ox = 2 * (x as i64) + 1 - dim;
                let oy = 2 * (y as i64) + 1 - dim;
                assert(-0xffff_ffff * 46340 <= size * ox <= 0xffff_ffff * 46340) by (nonlinear_arith)
                    requires
                        0 < size <= 0xffff_ffff,
                        -46340 <= ox <= 46340,
                ;
                assert(-0xffff_ffff * 46340 <= size * oy <= 0xffff_ffff * 46340) by (nonlinear_arith)
                    requires
                        0 < size <= 0xffff_ffff,
                        -46340 <= oy <= 46340,
                ;
                Some(WorldPoint { x: size * ox, y: size * oy, denom: 2 * self.tiles_dim })
            },
            None => None,
        }
    }
}

} // verus!
