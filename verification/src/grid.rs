//! Grid cells, adjacency, and the passability oracle consumed by the
//! pathfinder and the agent controllers.

use vstd::prelude::*;

verus! {

/// Integer 2D coordinate, grid-aligned: the universal addressing unit for
/// passability, tasks, and agent logical position.
#[derive(Clone, Copy, PartialEq, Eq, Structural, Debug, Hash)]
pub struct CellIndex {
    pub x: i32,
    pub y: i32,
}

impl CellIndex {
    pub fn new(x: i32, y: i32) -> (r: CellIndex)
        ensures
            r.x == x && r.y == y,
    {
        CellIndex { x, y }
    }
}

/// Two cells are 4-adjacent when they differ by one step along exactly one axis.
pub open spec fn adjacent4(a: CellIndex, b: CellIndex) -> bool {
    (a.x == b.x && (a.y - b.y == 1 || b.y - a.y == 1)) || (a.y == b.y && (a.x - b.x == 1
        || b.x - a.x == 1))
}

/// Two cells are 8-adjacent when they are distinct and differ by at most one
/// step along each axis.
pub open spec fn adjacent8(a: CellIndex, b: CellIndex) -> bool {
    !(a.x == b.x && a.y == b.y) && -1 <= a.x - b.x <= 1 && -1 <= a.y - b.y <= 1
}

/// Largest width or height a grid may have; keeps every index computation
/// comfortably inside the machine integer ranges.
pub const GRID_DIM_MAX: usize = 32768;

/// Finite passability oracle: answers "is this cell blocking" for the loaded
/// region of the world. Cells outside the region count as blocking, since
/// nothing is known about them.
pub struct TileGrid {
    width: usize,
    height: usize,
    blocked: Vec<bool>,
}

impl TileGrid {
    /// Structural invariant: one entry per cell, bounded dimensions.
    pub closed spec fn wf(self) -> bool {
        &&& self.width <= GRID_DIM_MAX
        &&& self.height <= GRID_DIM_MAX
        &&& self.blocked.len() == self.width * self.height
    }

    pub closed spec fn spec_width(self) -> usize {
        self.width
    }

    pub closed spec fn spec_height(self) -> usize {
        self.height
    }

    /// Whether a cell lies inside the stored region.
    pub open spec fn in_bounds(self, c: CellIndex) -> bool {
        0 <= c.x < self.spec_width() && 0 <= c.y < self.spec_height()
    }

    /// Row-major index of an in-bounds cell.
    spec fn idx_of(self, c: CellIndex) -> int
        recommends
            self.in_bounds(c),
    {
        c.y * self.width + c.x
    }

    /// Whether the stored entry for an in-bounds cell says "blocking".
    spec fn blocked_at(self, c: CellIndex) -> bool {
        self.blocked[self.idx_of(c)]
    }

    /// The passability answer the rest of the core relies on: inside the
    /// region and not blocking.
    pub closed spec fn spec_passable(self, c: CellIndex) -> bool {
        self.in_bounds(c) && !self.blocked_at(c)
    }

    /// A passable cell always lies inside the stored region.
    pub proof fn lemma_passable_in_bounds(self, c: CellIndex)
        ensures
            self.spec_passable(c) ==> self.in_bounds(c),
    {
    }

    /// A well-formed grid has bounded dimensions.
    pub proof fn lemma_wf_dims(self)
        requires
            self.wf(),
        ensures
            self.spec_width() <= GRID_DIM_MAX,
            self.spec_height() <= GRID_DIM_MAX,
    {
    }

    proof fn lemma_idx_in_range(self, c: CellIndex)
        requires
            self.wf(),
            self.in_bounds(c),
        ensures
            0 <= self.idx_of(c) < self.blocked.len(),
    {
        let w = self.width as int;
        let h = self.height as int;
        assert(c.y * w + c.x < h * w) by (nonlinear_arith)
            requires
                0 <= c.x < w,
                0 <= c.y < h,
        ;
        assert(0 <= c.y * w) by (nonlinear_arith)
            requires
                0 <= c.y,
                0 <= w,
        ;
    }

    /// An open grid: every cell inside the region is passable.
    pub fn new_open(width: usize, height: usize) -> (r: TileGrid)
        requires
            width <= GRID_DIM_MAX,
            height <= GRID_DIM_MAX,
        ensures
            r.wf(),
            r.spec_width() == width,
            r.spec_height() == height,
            forall|c: CellIndex| r.in_bounds(c) ==> r.spec_passable(c),
    {
        proof {
            assert(width * height <= GRID_DIM_MAX * GRID_DIM_MAX) by (nonlinear_arith)
                requires
                    width <= GRID_DIM_MAX,
                    height <= GRID_DIM_MAX,
            ;
        }
        let n = width * height;
        let mut blocked: Vec<bool> = Vec::new();
        let mut i: usize = 0;
        while i < n
            invariant
                i <= n,
                blocked.len() == i,
                forall|j: int| 0 <= j < i ==> !blocked[j],
            decreases n - i,
        {
            blocked.push(false);
            i = i + 1;
        }
        let r = TileGrid { width, height, blocked };
        assert forall|c: CellIndex| r.in_bounds(c) implies r.spec_passable(c) by {
            r.lemma_idx_in_range(c);
        }
        r
    }

    pub fn width(&self) -> (r: usize)
        ensures
            r == self.spec_width(),
    {
        self.width
    }

    pub fn height(&self) -> (r: usize)
        ensures
            r == self.spec_height(),
    {
        self.height
    }

    /// Mark one cell blocking or passable; cells outside the region are left
    /// as they are (they are blocking anyway).
    pub fn set_blocking(&mut self, c: CellIndex, blocking: bool)
        requires
            old(self).wf(),
        ensures
            final(self).wf(),
            final(self).spec_width() == old(self).spec_width(),
            final(self).spec_height() == old(self).spec_height(),
            old(self).in_bounds(c) ==> final(self).spec_passable(c) == !blocking,
            forall|d: CellIndex|
                !(d.x == c.x && d.y == c.y) ==> final(self).spec_passable(d) == old(
                    self,
                ).spec_passable(d),
    {
        if 0 <= c.x && (c.x as usize) < self.width && 0 <= c.y && (c.y as usize) < self.height {
            proof {
                self.lemma_idx_in_range(c);
            }
            let i = (c.y as usize) * self.width + (c.x as usize);
            self.blocked.set(i, blocking);
            assert forall|d: CellIndex|
                !(d.x == c.x && d.y == c.y) implies self.spec_passable(d) == old(
                self,
            ).spec_passable(d) by {
                if old(self).in_bounds(d) {
                    old(self).lemma_idx_in_range(d);
                    let w = old(self).width as int;
                    let h = old(self).height as int;
                    assert(d.y * w + d.x != c.y * w + c.x) by (nonlinear_arith)
                        requires
                            0 <= d.x < w,
                            0 <= d.y < h,
                            0 <= c.x < w,
                            0 <= c.y < h,
                            !(d.x == c.x && d.y == c.y),
                    ;
                }
            }
        }
    }

    /// The oracle query: true exactly when the cell is inside the region and
    /// not blocking.
    pub fn is_passable(&self, c: CellIndex) -> (r: bool)
        requires
            self.wf(),
        ensures
            r == self.spec_passable(c),
    {
        if 0 <= c.x && (c.x as usize) < self.width && 0 <= c.y && (c.y as usize) < self.height {
            proof {
                self.lemma_idx_in_range(c);
            }
            let i = (c.y as usize) * self.width + (c.x as usize);
            !self.blocked[i]
        } else {
            false
        }
    }
}

} // verus!
