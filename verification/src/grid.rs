//! The configuration-space passability grid.
//!
//! A grid of `size.x` by `size.y` cells, each holding one passability bit,
//! addressed by the `(size.x + 1)` by `(size.y + 1)` grid points at cell
//! corners.  Distance between points is Euclidean after each axis delta is
//! scaled by a per-axis bias factor, so that cost reflects time to traverse
//! rather than raw cell count.
use vstd::prelude::*;
use bit_vec::BitVec;
use crate::imath::{abs_i, isqrt_u128};
use crate::vectors::Vec2i;

verus! {

/// Largest accepted cell count per axis.
pub const SIZE_LIMIT: i32 = 16384;

/// Largest accepted per-axis bias factor.
pub const BIAS_LIMIT: u64 = 0x10_0000;

/// Strict upper bound on the distance between two grid points: the
/// diagonal of the largest grid at the largest bias still fits under it,
/// and a full tour of every point at that step size still fits in a
/// machine word.
pub const COST_LIMIT: u64 = 25_000_000_000;

#[verifier::external_type_specification]
#[verifier::external_body]
#[verifier::reject_recursive_types(B)]
pub struct ExBitVec<B>(BitVec<B>);

/// The bits a `BitVec` holds, in order.
pub uninterp spec fn bits_of(v: BitVec) -> Seq<bool>;

/// Relies on `BitVec::from_elem`: a vector of `len` copies of `bit`.
#[verifier::external_body]
fn bv_from_elem(len: usize, bit: bool) -> (r: BitVec)
    ensures
        bits_of(r).len() == len,
        forall|i: int| 0 <= i < len ==> bits_of(r)[i] == bit,
{
    BitVec::from_elem(len, bit)
}

/// Relies on `BitVec::get`: the bit at `i`, if `i` is within the length.
#[verifier::external_body]
fn bv_get(v: &BitVec, i: usize) -> (r: Option<bool>)
    ensures
        r == if i < bits_of(*v).len() {
            Some(bits_of(*v)[i as int])
        } else {
            None::<bool>
        },
{
    v.get(i)
}

/// Relies on `BitVec::set`: replaces the bit at `i`; it panics outside the
/// length, which the precondition rules out.
#[verifier::external_body]
fn bv_set(v: &mut BitVec, i: usize, x: bool)
    requires
        i < bits_of(*old(v)).len(),
    ensures
        bits_of(*final(v)) == bits_of(*old(v)).update(i as int, x),
{
    v.set(i, x)
}

/// Collects the size and bias of a grid before it is built.
pub struct GridBuilder {
    pub bias_x: u64,
    pub bias_y: u64,
    pub size: Vec2i,
}

impl GridBuilder {
    /// Size positive and within limits, biases within limits.
    pub open spec fn wf(self) -> bool {
        &&& 0 < self.size.x <= SIZE_LIMIT
        &&& 0 < self.size.y <= SIZE_LIMIT
        &&& self.bias_x <= BIAS_LIMIT
        &&& self.bias_y <= BIAS_LIMIT
    }

    /// A builder for a grid of the given cell count, with unit biases.
    pub fn new(size: Vec2i) -> (r: GridBuilder)
        requires
            0 < size.x <= SIZE_LIMIT,
            0 < size.y <= SIZE_LIMIT,
        ensures
            r.wf(),
            r.size == size,
            r.bias_x == 1,
            r.bias_y == 1,
    {
        GridBuilder { bias_x: 1, bias_y: 1, size }
    }

    /// Replaces the per-axis bias factors.
    pub fn with_bias(&mut self, bias_x: u64, bias_y: u64)
        requires
            old(self).wf(),
            bias_x <= BIAS_LIMIT,
            bias_y <= BIAS_LIMIT,
        ensures
            final(self).wf(),
            final(self).size == old(self).size,
            final(self).bias_x == bias_x,
            final(self).bias_y == bias_y,
    {
        self.bias_x = bias_x;
        self.bias_y = bias_y;
    }

    /// The grid of this size and bias, with every cell passable.
    pub fn build(&self) -> (r: Grid2D)
        requires
            self.wf(),
        ensures
            r.wf(),
            r.size == self.size,
            r.bias_x == self.bias_x,
            r.bias_y == self.bias_y,
            forall|x: int, y: int|
                0 <= x < self.size.x && 0 <= y < self.size.y ==> r.cell_passable(x, y),
    {
        Grid2D::new(self)
    }
}

/// The passability grid with its distance metric.
pub struct Grid2D {
    pub passable: BitVec,
    pub bias_x: u64,
    pub bias_y: u64,
    pub size: Vec2i,
}

impl Grid2D {
    /// Size positive and within limits, biases within limits, one bit per
    /// cell.
    pub open spec fn wf(self) -> bool {
        &&& 0 < self.size.x <= SIZE_LIMIT
        &&& 0 < self.size.y <= SIZE_LIMIT
        &&& self.bias_x <= BIAS_LIMIT
        &&& self.bias_y <= BIAS_LIMIT
        &&& bits_of(self.passable).len() == self.size.x * self.size.y
    }

    /// The bit index of the cell at `(x, y)`.
    pub open spec fn cell_idx_spec(self, x: int, y: int) -> int {
        x + y * self.size.x
    }

    /// Whether the cell at `(x, y)` lies in the grid and is passable.
    pub open spec fn cell_passable(self, x: int, y: int) -> bool {
        &&& 0 <= x < self.size.x
        &&& 0 <= y < self.size.y
        &&& bits_of(self.passable)[self.cell_idx_spec(x, y)]
    }

    /// Whether `p` is one of the grid's points.
    pub open spec fn in_point_bounds(self, p: Vec2i) -> bool {
        &&& 0 <= p.x <= self.size.x
        &&& 0 <= p.y <= self.size.y
    }

    /// A cell's bit index is within the bit vector, and no two cells
    /// share one.
    proof fn lemma_cell_idx(self, x: int, y: int)
        requires
            self.wf(),
            0 <= x < self.size.x,
            0 <= y < self.size.y,
        ensures
            0 <= self.cell_idx_spec(x, y) < self.size.x * self.size.y,
            forall|x2: int, y2: int|
                0 <= x2 < self.size.x && 0 <= y2 < self.size.y && (x2 != x || y2 != y)
                    ==> #[trigger] self.cell_idx_spec(x2, y2) != self.cell_idx_spec(x, y),
    {
        let w = self.size.x as int;
        let h = self.size.y as int;
        assert(0 <= x + y * w < w * h) by (nonlinear_arith)
            requires
                0 <= x < w,
                0 <= y < h,
        ;
        assert forall|x2: int, y2: int|
            0 <= x2 < w && 0 <= y2 < h && (x2 != x || y2 != y) implies #[trigger] self
            .cell_idx_spec(x2, y2) != self.cell_idx_spec(x, y) by {
            assert(x2 + y2 * w != x + y * w) by (nonlinear_arith)
                requires
                    0 <= x < w,
                    0 <= x2 < w,
                    x2 != x || y2 != y,
            ;
        }
    }

    fn new(builder: &GridBuilder) -> (r: Grid2D)
        requires
            builder.wf(),
        ensures
            r.wf(),
            r.size == builder.size,
            r.bias_x == builder.bias_x,
            r.bias_y == builder.bias_y,
            forall|x: int, y: int|
                0 <= x < builder.size.x && 0 <= y < builder.size.y ==> r.cell_passable(x, y),
    {
        proof {
            assert(0 <= (builder.size.x as int) * (builder.size.y as int) <= 0x1000_0000)
                by (nonlinear_arith)
                requires
                    0 < builder.size.x <= SIZE_LIMIT,
                    0 < builder.size.y <= SIZE_LIMIT,
            ;
        }
        let len: usize = (builder.size.x as usize) * (builder.size.y as usize);
        let passable = bv_from_elem(len, true);
        let r = Grid2D {
            passable,
            bias_x: builder.bias_x,
            bias_y: builder.bias_y,
            size: builder.size,
        };
        proof {
            assert forall|x: int, y: int|
                0 <= x < builder.size.x && 0 <= y < builder.size.y implies r.cell_passable(
                x,
                y,
            ) by {
                r.lemma_cell_idx(x, y);
            }
        }
        r
    }

    /// Whether the cell at `(x, y)` lies in the grid and is passable; see
    /// [`Grid2D::cell_passable`].
    pub fn can_pass(&self, x: i32, y: i32) -> (r: bool)
        requires
            self.wf(),
        ensures
            r == self.cell_passable(x as int, y as int),
    {
        if x < 0 || y < 0 || x >= self.size.x || y >= self.size.y {
            return false;
        }
        proof {
            self.lemma_cell_idx(x as int, y as int);
            assert(0 <= (y as int) * (self.size.x as int) && (x as int) + (y as int) * (
            self.size.x as int) <= 0x1000_0000) by (nonlinear_arith)
                requires
                    0 <= x < self.size.x <= SIZE_LIMIT,
                    0 <= y < self.size.y <= SIZE_LIMIT,
            ;
        }
        let idx: usize = (x as usize) + (y as usize) * (self.size.x as usize);
        match bv_get(&self.passable, idx) {
            Some(b) => b,
            None => false,
        }
    }

    /// Replaces one cell's passability bit.
    pub fn set_cell_passable(&mut self, pos: &Vec2i, passable: bool)
        requires
            old(self).wf(),
            0 <= pos.x < old(self).size.x,
            0 <= pos.y < old(self).size.y,
        ensures
            final(self).wf(),
            final(self).size == old(self).size,
            final(self).bias_x == old(self).bias_x,
            final(self).bias_y == old(self).bias_y,
            forall|x: int, y: int|
                0 <= x < old(self).size.x && 0 <= y < old(self).size.y
                    ==> final(self).cell_passable(x, y) == if x == pos.x && y == pos.y {
                    passable
                } else {
                    old(self).cell_passable(x, y)
                },
    {
        proof {
            self.lemma_cell_idx(pos.x as int, pos.y as int);
            assert(0 <= (pos.y as int) * (self.size.x as int) && (pos.x as int) + (pos.y as int)
                * (self.size.x as int) <= 0x1000_0000) by (nonlinear_arith)
                requires
                    0 <= pos.x < self.size.x <= SIZE_LIMIT,
                    0 <= pos.y < self.size.y <= SIZE_LIMIT,
            ;
        }
        let idx: usize = (pos.x as usize) + (pos.y as usize) * (self.size.x as usize);
        bv_set(&mut self.passable, idx, passable);
        proof {
            assert forall|x: int, y: int|
                0 <= x < old(self).size.x && 0 <= y < old(self).size.y implies self.cell_passable(
                x,
                y,
            ) == if x == pos.x && y == pos.y {
                passable
            } else {
                old(self).cell_passable(x, y)
            } by {
                old(self).lemma_cell_idx(x, y);
                old(self).lemma_cell_idx(pos.x as int, pos.y as int);
            }
        }
    }

    /// The grid's extent in cells.
    pub fn cell_size(&self) -> (r: Vec2i)
        ensures
            r == self.size,
    {
        self.size
    }

    /// The grid's extent in points: one more than the cells per axis.
    pub fn point_size(&self) -> (r: Vec2i)
        requires
            self.wf(),
        ensures
            r.x == self.size.x + 1,
            r.y == self.size.y + 1,
    {
        Vec2i { x: self.size.x + 1, y: self.size.y + 1 }
    }

    /// The squared biased distance between two points.
    pub open spec fn biased_dist_sq(self, a: Vec2i, b: Vec2i) -> int {
        let dx = abs_i(a.x - b.x) * self.bias_x;
        let dy = abs_i(a.y - b.y) * self.bias_y;
        dx * dx + dy * dy
    }

    /// The biased Euclidean distance between two points, rounded down.
    pub fn cost(&self, current: &Vec2i, goal: &Vec2i) -> (r: u64)
        requires
            self.wf(),
            -SIZE_LIMIT <= current.x - goal.x <= SIZE_LIMIT,
            -SIZE_LIMIT <= current.y - goal.y <= SIZE_LIMIT,
        ensures
            (r as int) * (r as int) <= self.biased_dist_sq(*current, *goal),
            self.biased_dist_sq(*current, *goal) < ((r as int + 1) * (r as int + 1)),
            r < COST_LIMIT,
    {
        let dxi: i64 = (current.x as i64) - (goal.x as i64);
        let dyi: i64 = (current.y as i64) - (goal.y as i64);
        let dxa: u64 = if dxi >= 0 {
            dxi as u64
        } else {
            (-dxi) as u64
        };
        let dya: u64 = if dyi >= 0 {
            dyi as u64
        } else {
            (-dyi) as u64
        };
        proof {
            assert(dxa as int * self.bias_x as int <= 0x4_0000_0000 && dya as int
                * self.bias_y as int <= 0x4_0000_0000) by (nonlinear_arith)
                requires
                    0 <= dxa as int <= SIZE_LIMIT as int,
                    0 <= dya as int <= SIZE_LIMIT as int,
                    self.bias_x <= BIAS_LIMIT,
                    self.bias_y <= BIAS_LIMIT,
            ;
        }
        let bx: u64 = dxa * self.bias_x;
        let by: u64 = dya * self.bias_y;
        proof {
            assert(0 <= bx as int * bx as int <= 0x10_0000_0000_0000_0000 && 0 <= by as int
                * by as int <= 0x10_0000_0000_0000_0000) by (nonlinear_arith)
                requires
                    0 <= bx as int <= 0x4_0000_0000,
                    0 <= by as int <= 0x4_0000_0000,
            ;
        }
        let sq: u128 = (bx as u128) * (bx as u128) + (by as u128) * (by as u128);
        let r = isqrt_u128(sq);
        proof {
            assert(r < COST_LIMIT) by (nonlinear_arith)
                requires
                    (r as int) * (r as int) <= sq as int,
                    sq as int <= 0x20_0000_0000_0000_0000,
                    r >= 0,
            ;
        }
        r
    }

    /// Whether the point's cell coordinates name a passable cell; the
    /// rightmost column and topmost row of points fall outside the cells
    /// and count as impassable.
    pub fn can_point_pass(&self, pos: &Vec2i) -> (r: bool)
        requires
            self.wf(),
        ensures
            r == self.cell_passable(pos.x as int, pos.y as int),
    {
        self.can_pass(pos.x, pos.y)
    }

    /// The same biased distance, used as the admissible search heuristic.
    pub fn heuristic(&self, point: &Vec2i, goal: &Vec2i) -> (r: u64)
        requires
            self.wf(),
            -SIZE_LIMIT <= point.x - goal.x <= SIZE_LIMIT,
            -SIZE_LIMIT <= point.y - goal.y <= SIZE_LIMIT,
        ensures
            (r as int) * (r as int) <= self.biased_dist_sq(*point, *goal),
            self.biased_dist_sq(*point, *goal) < ((r as int + 1) * (r as int + 1)),
            r < COST_LIMIT,
    {
        self.cost(point, goal)
    }
}

/// Index offset of the cell a step passes behind: 0 stepping up, -1
/// stepping down.
pub open spec fn step_off(s: int) -> int {
    if s == 1 {
        0
    } else {
        -1
    }
}

/// One column step of the line walk for a mostly-horizontal segment,
/// from the error-accumulation at the top of the column.
pub open spec fn los_x(
    g: Grid2D,
    x0: int,
    y0: int,
    f: int,
    x1: int,
    dx: int,
    dy: int,
    sx: int,
    sy: int,
) -> bool
    decreases abs_i(x1 - x0), 1int,
{
    if x0 == x1 {
        true
    } else if (sx == 1 && x0 < x1) || (sx == -1 && x0 > x1) {
        let f1 = f + dy;
        if f1 >= dx {
            if !g.cell_passable(x0 + step_off(sx), y0 + step_off(sy)) {
                false
            } else {
                los_x_rest(g, x0, y0 + sy, f1 - dx, x1, dx, dy, sx, sy)
            }
        } else {
            los_x_rest(g, x0, y0, f1, x1, dx, dy, sx, sy)
        }
    } else {
        true
    }
}

/// The checks after the error-accumulation of a column step, then the
/// next column.
pub open spec fn los_x_rest(
    g: Grid2D,
    x0: int,
    y0: int,
    f: int,
    x1: int,
    dx: int,
    dy: int,
    sx: int,
    sy: int,
) -> bool
    decreases abs_i(x1 - x0), 0int,
{
    if f != 0 && !g.cell_passable(x0 + step_off(sx), y0 + step_off(sy)) {
        false
    } else if dy == 0 && !g.cell_passable(x0 + step_off(sx), y0) && !g.cell_passable(
        x0 + step_off(sx),
        y0 - 1,
    ) {
        false
    } else if (sx == 1 && x0 < x1) || (sx == -1 && x0 > x1) {
        los_x(g, x0 + sx, y0, f, x1, dx, dy, sx, sy)
    } else {
        true
    }
}

/// One row step of the line walk for a mostly-vertical segment.
pub open spec fn los_y(
    g: Grid2D,
    x0: int,
    y0: int,
    f: int,
    y1: int,
    dx: int,
    dy: int,
    sx: int,
    sy: int,
) -> bool
    decreases abs_i(y1 - y0), 1int,
{
    if y0 == y1 {
        true
    } else if (sy == 1 && y0 < y1) || (sy == -1 && y0 > y1) {
        let f1 = f + dx;
        if f1 >= dy {
            if !g.cell_passable(x0 + step_off(sx), y0 + step_off(sy)) {
                false
            } else {
                los_y_rest(g, x0 + sx, y0, f1 - dy, y1, dx, dy, sx, sy)
            }
        } else {
            los_y_rest(g, x0, y0, f1, y1, dx, dy, sx, sy)
        }
    } else {
        true
    }
}

/// The checks after the error-accumulation of a row step, then the next
/// row.
pub open spec fn los_y_rest(
    g: Grid2D,
    x0: int,
    y0: int,
    f: int,
    y1: int,
    dx: int,
    dy: int,
    sx: int,
    sy: int,
) -> bool
    decreases abs_i(y1 - y0), 0int,
{
    if f != 0 && !g.cell_passable(x0 + step_off(sx), y0 + step_off(sy)) {
        false
    } else if dx == 0 && !g.cell_passable(x0, y0 + step_off(sy)) && !g.cell_passable(
        x0 - 1,
        y0 + step_off(sy),
    ) {
        false
    } else if (sy == 1 && y0 < y1) || (sy == -1 && y0 > y1) {
        los_y(g, x0, y0 + sy, f, y1, dx, dy, sx, sy)
    } else {
        true
    }
}

/// Whether the straight segment between two grid points crosses only
/// passable cells: a supercover line walk that visits every cell the
/// segment touches, checking both flanking cells where the segment runs
/// along a lattice line.
pub open spec fn line_of_sight_spec(g: Grid2D, s: Vec2i, sp: Vec2i) -> bool {
    let dx0 = sp.x - s.x;
    let dy0 = sp.y - s.y;
    let dx = abs_i(dx0);
    let dy = abs_i(dy0);
    let sx: int = if dx0 < 0 {
        -1
    } else {
        1
    };
    let sy: int = if dy0 < 0 {
        -1
    } else {
        1
    };
    if dx >= dy {
        los_x(g, s.x as int, s.y as int, 0, sp.x as int, dx, dy, sx, sy)
    } else {
        los_y(g, s.x as int, s.y as int, 0, sp.y as int, dx, dy, sx, sy)
    }
}

impl Grid2D {
    /// Whether the straight segment between two grid points crosses only
    /// passable cells; see [`line_of_sight_spec`].
    pub fn line_of_sight(&self, s: &Vec2i, sp: &Vec2i) -> (r: bool)
        requires
            self.wf(),
            self.in_point_bounds(*s),
            self.in_point_bounds(*sp),
        ensures
            r == line_of_sight_spec(*self, *s, *sp),
    {
        let mut x0: i32 = s.x;
        let mut y0: i32 = s.y;
        let x1: i32 = sp.x;
        let y1: i32 = sp.y;
        let mut dy: i32 = y1 - y0;
        let mut dx: i32 = x1 - x0;
        let mut f: i32 = 0;

        let sy: i32;
        let sx: i32;

        if dy < 0 {
            dy = -dy;
            sy = -1;
        } else {
            sy = 1;
        }

        if dx < 0 {
            dx = -dx;
            sx = -1;
        } else {
            sx = 1;
        }

        if dx >= dy {
            while x0 != x1
                invariant
                    self.wf(),
                    self.in_point_bounds(*s),
                    self.in_point_bounds(*sp),
                    sx == 1 || sx == -1,
                    sy == 1 || sy == -1,
                    sx == 1 ==> s.x <= x0 <= x1,
                    sx == -1 ==> x1 <= x0 <= s.x,
                    0 <= x1 <= SIZE_LIMIT,
                    dx >= dy >= 0,
                    dx <= SIZE_LIMIT,
                    0 <= f <= dx,
                    abs_i(y0 as int - s.y as int) <= abs_i(x0 as int - s.x as int),
                    line_of_sight_spec(*self, *s, *sp) == los_x(
                        *self,
                        x0 as int,
                        y0 as int,
                        f as int,
                        x1 as int,
                        dx as int,
                        dy as int,
                        sx as int,
                        sy as int,
                    ),
                decreases abs_i(x1 as int - x0 as int),
            {
                let ghost pre_x0 = x0 as int;
                let ghost pre_y0 = y0 as int;
                let ghost pre_f = f as int;
                let ox: i32 = if sx == 1 {
                    x0
                } else {
                    x0 - 1
                };
                f = f + dy;
                if f >= dx {
                    let oy: i32 = if sy == 1 {
                        y0
                    } else {
                        y0 - 1
                    };
                    if !self.can_pass(ox, oy) {
                        return false;
                    }
                    y0 = y0 + sy;
                    f = f - dx;
                }
                let oy: i32 = if sy == 1 {
                    y0
                } else {
                    y0 - 1
                };
                if f != 0 && !self.can_pass(ox, oy) {
                    return false;
                }
                if dy == 0 && !self.can_pass(ox, y0) && !self.can_pass(ox, y0 - 1) {
                    return false;
                }
                proof {
                    assert(los_x(
                        *self,
                        pre_x0,
                        pre_y0,
                        pre_f,
                        x1 as int,
                        dx as int,
                        dy as int,
                        sx as int,
                        sy as int,
                    ) == los_x_rest(
                        *self,
                        pre_x0,
                        y0 as int,
                        f as int,
                        x1 as int,
                        dx as int,
                        dy as int,
                        sx as int,
                        sy as int,
                    ));
                }
                x0 = x0 + sx;
            }
        } else {
            while y0 != y1
                invariant
                    self.wf(),
                    self.in_point_bounds(*s),
                    self.in_point_bounds(*sp),
                    sx == 1 || sx == -1,
                    sy == 1 || sy == -1,
                    sy == 1 ==> s.y <= y0 <= y1,
                    sy == -1 ==> y1 <= y0 <= s.y,
                    0 <= y1 <= SIZE_LIMIT,
                    dy >= dx >= 0,
                    dy <= SIZE_LIMIT,
                    0 <= f <= dy,
                    abs_i(x0 as int - s.x as int) <= abs_i(y0 as int - s.y as int),
                    line_of_sight_spec(*self, *s, *sp) == los_y(
                        *self,
                        x0 as int,
                        y0 as int,
                        f as int,
                        y1 as int,
                        dx as int,
                        dy as int,
                        sx as int,
                        sy as int,
                    ),
                decreases abs_i(y1 as int - y0 as int),
            {
                let ghost pre_x0 = x0 as int;
                let ghost pre_y0 = y0 as int;
                let ghost pre_f = f as int;
                let oy: i32 = if sy == 1 {
                    y0
                } else {
                    y0 - 1
                };
                f = f + dx;
                if f >= dy {
                    let ox: i32 = if sx == 1 {
                        x0
                    } else {
                        x0 - 1
                    };
                    if !self.can_pass(ox, oy) {
                        return false;
                    }
                    x0 = x0 + sx;
                    f = f - dy;
                }
                let ox: i32 = if sx == 1 {
                    x0
                } else {
                    x0 - 1
                };
                if f != 0 && !self.can_pass(ox, oy) {
                    return false;
                }
                if dx == 0 && !self.can_pass(x0, oy) && !self.can_pass(x0 - 1, oy) {
                    return false;
                }
                proof {
                    assert(los_y(
                        *self,
                        pre_x0,
                        pre_y0,
                        pre_f,
                        y1 as int,
                        dx as int,
                        dy as int,
                        sx as int,
                        sy as int,
                    ) == los_y_rest(
                        *self,
                        x0 as int,
                        pre_y0,
                        f as int,
                        y1 as int,
                        dx as int,
                        dy as int,
                        sx as int,
                        sy as int,
                    ));
                }
                y0 = y0 + sy;
            }
        }

        true
    }
}

impl Grid2D {
    /// How many grid points the grid has.
    pub open spec fn point_count(self) -> int {
        (self.size.x + 1) * (self.size.y + 1)
    }

    /// The row-major index of a grid point.
    pub open spec fn point_idx_spec(self, p: Vec2i) -> int {
        p.x + p.y * (self.size.x + 1)
    }

    /// The grid point with the given row-major index.
    pub open spec fn point_of(self, idx: int) -> Vec2i {
        Vec2i {
            x: (idx % (self.size.x + 1)) as i32,
            y: (idx / (self.size.x + 1)) as i32,
        }
    }

    /// Point indexing is a bijection between the grid's points and
    /// `[0, point_count)`.
    pub proof fn lemma_point_idx(self, p: Vec2i)
        requires
            self.wf(),
            self.in_point_bounds(p),
        ensures
            0 <= self.point_idx_spec(p) < self.point_count(),
            self.point_of(self.point_idx_spec(p)) == p,
    {
        let w = self.size.x as int + 1;
        let h = self.size.y as int + 1;
        let idx = p.x + p.y * w;
        assert(0 <= idx && idx < w * h && idx == w * (p.y as int) + p.x) by (nonlinear_arith)
            requires
                0 <= p.x < w,
                0 <= p.y < h,
                idx == p.x + p.y * w,
        ;
        vstd::arithmetic::div_mod::lemma_fundamental_div_mod_converse(
            idx,
            w,
            p.y as int,
            p.x as int,
        );
    }

    /// Every index below `point_count` names a point of the grid.
    pub proof fn lemma_point_of(self, idx: int)
        requires
            self.wf(),
            0 <= idx < self.point_count(),
        ensures
            self.in_point_bounds(self.point_of(idx)),
            self.point_idx_spec(self.point_of(idx)) == idx,
    {
        let w = self.size.x as int + 1;
        let h = self.size.y as int + 1;
        vstd::arithmetic::div_mod::lemma_fundamental_div_mod(idx, w);
        vstd::arithmetic::div_mod::lemma_mod_bound(idx, w);
        let q = idx / w;
        vstd::arithmetic::div_mod::lemma_div_pos_is_pos(idx, w);
        vstd::arithmetic::div_mod::lemma_remainder_lower(idx, w);
        assert(q < h) by (nonlinear_arith)
            requires
                q * w <= idx,
                idx < w * h,
                0 < w,
                q == idx / w,
        ;
    }

    /// The row-major index of a grid point; see [`Grid2D::point_idx_spec`].
    pub fn point_index(&self, p: &Vec2i) -> (r: usize)
        requires
            self.wf(),
            self.in_point_bounds(*p),
        ensures
            r == self.point_idx_spec(*p),
            0 <= r < self.point_count(),
    {
        proof {
            self.lemma_point_idx(*p);
            assert(0 <= (p.y as int) * (self.size.x as int + 1) && (p.x as int) + (p.y as int) * (
            self.size.x as int + 1) <= 0x1100_0000) by (nonlinear_arith)
                requires
                    0 <= p.x <= self.size.x <= SIZE_LIMIT,
                    0 <= p.y <= self.size.y <= SIZE_LIMIT,
            ;
        }
        (p.x as usize) + (p.y as usize) * ((self.size.x as usize) + 1)
    }

    /// The grid point with the given row-major index; see
    /// [`Grid2D::point_of`].
    pub fn index_point(&self, idx: usize) -> (r: Vec2i)
        requires
            self.wf(),
            idx < self.point_count(),
        ensures
            r == self.point_of(idx as int),
            self.in_point_bounds(r),
            self.point_idx_spec(r) == idx,
    {
        proof {
            self.lemma_point_of(idx as int);
        }
        let w: usize = (self.size.x as usize) + 1;
        Vec2i { x: (idx % w) as i32, y: (idx / w) as i32 }
    }
}

/// The `k`-th of the nine lattice points around and including `c`, in
/// column-major order.
pub open spec fn neighbor_at(c: Vec2i, k: int) -> Vec2i {
    Vec2i { x: (c.x + k / 3 - 1) as i32, y: (c.y + k % 3 - 1) as i32 }
}

/// Whether `p` lies within one step of `c` on both axes.
pub open spec fn is_adjacent(c: Vec2i, p: Vec2i) -> bool {
    abs_i(p.x - c.x) <= 1 && abs_i(p.y - c.y) <= 1
}

/// Every point adjacent to `c` is one of its nine candidates.
pub proof fn lemma_adjacent_candidate(c: Vec2i, w: Vec2i)
    requires
        is_adjacent(c, w),
    ensures
        exists|k: int| 0 <= k < 9 && #[trigger] neighbor_at(c, k) == w,
{
    let dx = w.x - c.x;
    let dy = w.y - c.y;
    let k = (dx + 1) * 3 + (dy + 1);
    vstd::arithmetic::div_mod::lemma_fundamental_div_mod_converse(k, 3, dx + 1, dy + 1);
    assert(neighbor_at(c, k) == w);
}

/// One step of the search graph: a distinct adjacent in-bounds point
/// with line of sight.
pub open spec fn grid_edge(g: Grid2D, a: Vec2i, b: Vec2i) -> bool {
    is_adjacent(a, b) && g.neighbor_ok(a, b)
}

/// One step of the unfiltered adjacency: a distinct adjacent in-bounds
/// point, passable or not.
pub open spec fn adj_step(g: Grid2D, a: Vec2i, b: Vec2i) -> bool {
    is_adjacent(a, b) && g.any_neighbor_ok(a, b)
}

/// Whether `p` walks from `a` along the unfiltered adjacency.
pub open spec fn is_adj_path_from(g: Grid2D, p: Seq<Vec2i>, a: Vec2i) -> bool {
    &&& p.len() >= 1
    &&& p[0] == a
    &&& forall|i: int| #![trigger p[i]] 0 <= i < p.len() - 1 ==> adj_step(g, p[i], p[i + 1])
}

/// Whether `p` walks from `a` to `b` along the search graph's steps.
pub open spec fn is_grid_path(g: Grid2D, p: Seq<Vec2i>, a: Vec2i, b: Vec2i) -> bool {
    &&& p.len() >= 1
    &&& p[0] == a
    &&& p[p.len() - 1] == b
    &&& forall|i: int| #![trigger p[i]] 0 <= i < p.len() - 1 ==> grid_edge(g, p[i], p[i + 1])
}

impl Grid2D {
    /// Whether `p` is a neighbor `get_neighbors` yields for `c`: a
    /// distinct in-bounds point with line of sight from `c`.
    pub open spec fn neighbor_ok(self, c: Vec2i, p: Vec2i) -> bool {
        &&& p != c
        &&& self.in_point_bounds(p)
        &&& line_of_sight_spec(self, c, p)
    }

    /// Whether `p` is a neighbor `get_all_neighbors` yields for `c`: a
    /// distinct in-bounds point, whether or not anything is passable.
    pub open spec fn any_neighbor_ok(self, c: Vec2i, p: Vec2i) -> bool {
        &&& p != c
        &&& self.in_point_bounds(p)
    }

    /// The adjacent grid points visible from `current`: of the up to
    /// eight surrounding points, those in bounds with line of sight.
    pub fn get_neighbors(&self, current: &Vec2i) -> (r: Vec<Vec2i>)
        requires
            self.wf(),
            self.in_point_bounds(*current),
        ensures
            forall|i: int|
                0 <= i < r@.len() ==> self.neighbor_ok(*current, #[trigger] r@[i]) && is_adjacent(
                    *current,
                    r@[i],
                ),
            forall|k: int|
                0 <= k < 9 && self.neighbor_ok(*current, #[trigger] neighbor_at(*current, k))
                    ==> r@.contains(neighbor_at(*current, k)),
    {
        let mut out: Vec<Vec2i> = Vec::new();
        let mut k: usize = 0;
        while k < 9
            invariant
                self.wf(),
                self.in_point_bounds(*current),
                0 <= k <= 9,
                forall|i: int|
                    0 <= i < out@.len() ==> self.neighbor_ok(*current, #[trigger] out@[i])
                        && is_adjacent(*current, out@[i]),
                forall|j: int|
                    0 <= j < k && self.neighbor_ok(*current, #[trigger] neighbor_at(*current, j))
                        ==> out@.contains(neighbor_at(*current, j)),
            decreases 9 - k,
        {
            let ghost prev = out@;
            if k != 4 {
                proof {
                    vstd::arithmetic::div_mod::lemma_fundamental_div_mod(k as int, 3);
                }
                let px: i32 = current.x + (k as i32) / 3 - 1;
                let py: i32 = current.y + (k as i32) % 3 - 1;
                let p = Vec2i { x: px, y: py };
                proof {
                    assert(p == neighbor_at(*current, k as int));
                }
                if px >= 0 && px <= self.size.x && py >= 0 && py <= self.size.y
                    && self.line_of_sight(current, &p) {
                    out.push(p);
                    proof {
                        assert(out@[prev.len() as int] == p);
                    }
                }
            } else {
                proof {
                    vstd::arithmetic::div_mod::lemma_fundamental_div_mod(4, 3);
                    assert(neighbor_at(*current, 4) == *current);
                }
            }
            proof {
                assert forall|j: int|
                    0 <= j < k + 1 && self.neighbor_ok(*current, #[trigger] neighbor_at(
                        *current,
                        j,
                    )) implies out@.contains(neighbor_at(*current, j)) by {
                    if j < k {
                        let i = choose|i: int| 0 <= i < prev.len() && prev[i] == neighbor_at(
                            *current,
                            j,
                        );
                        assert(out@[i] == neighbor_at(*current, j));
                    }
                }
            }
            k += 1;
        }
        out
    }

    /// The adjacent grid points of `current` with no visibility filter:
    /// the up to eight surrounding points bounded to the grid, passable
    /// or not.
    pub fn get_all_neighbors(&self, current: &Vec2i) -> (r: Vec<Vec2i>)
        requires
            self.wf(),
            self.in_point_bounds(*current),
        ensures
            forall|i: int|
                0 <= i < r@.len() ==> self.any_neighbor_ok(*current, #[trigger] r@[i])
                    && is_adjacent(*current, r@[i]),
            forall|k: int|
                0 <= k < 9 && self.any_neighbor_ok(*current, #[trigger] neighbor_at(*current, k))
                    ==> r@.contains(neighbor_at(*current, k)),
    {
        let mut out: Vec<Vec2i> = Vec::new();
        let mut k: usize = 0;
        while k < 9
            invariant
                self.wf(),
                self.in_point_bounds(*current),
                0 <= k <= 9,
                forall|i: int|
                    0 <= i < out@.len() ==> self.any_neighbor_ok(*current, #[trigger] out@[i])
                        && is_adjacent(*current, out@[i]),
                forall|j: int|
                    0 <= j < k && self.any_neighbor_ok(
                        *current,
                        #[trigger] neighbor_at(*current, j),
                    ) ==> out@.contains(neighbor_at(*current, j)),
            decreases 9 - k,
        {
            let ghost prev = out@;
            if k != 4 {
                proof {
                    vstd::arithmetic::div_mod::lemma_fundamental_div_mod(k as int, 3);
                }
                let px: i32 = current.x + (k as i32) / 3 - 1;
                let py: i32 = current.y + (k as i32) % 3 - 1;
                let p = Vec2i { x: px, y: py };
                proof {
                    assert(p == neighbor_at(*current, k as int));
                }
                if px >= 0 && px <= self.size.x && py >= 0 && py <= self.size.y {
                    out.push(p);
                    proof {
                        assert(out@[prev.len() as int] == p);
                    }
                }
            } else {
                proof {
                    vstd::arithmetic::div_mod::lemma_fundamental_div_mod(4, 3);
                    assert(neighbor_at(*current, 4) == *current);
                }
            }
            proof {
                assert forall|j: int|
                    0 <= j < k + 1 && self.any_neighbor_ok(*current, #[trigger] neighbor_at(
                        *current,
                        j,
                    )) implies out@.contains(neighbor_at(*current, j)) by {
                    if j < k {
                        let i = choose|i: int| 0 <= i < prev.len() && prev[i] == neighbor_at(
                            *current,
                            j,
                        );
                        assert(out@[i] == neighbor_at(*current, j));
                    }
                }
            }
            k += 1;
        }
        out
    }
}

} // verus!
