//! A rectangular grid of `i32` cells stored row by row in one vector.
use vstd::prelude::*;

verus! {

/// A `width` by `height` grid of integers. Cell `(x, y)` is stored at
/// index `y * width + x`.
#[derive(Debug, Clone)]
pub struct Grid {
    m_v: Vec<i32>,
    m_width: i32,
    m_height: i32,
}

impl Grid {
    /// The grid keeps exactly one cell for each pair of coordinates.
    pub closed spec fn wf(&self) -> bool {
        &&& 0 <= self.m_width
        &&& 0 <= self.m_height
        &&& self.m_v@.len() == self.m_width as int * self.m_height as int
        &&& self.m_v@.len() <= i32::MAX
    }

    pub closed spec fn spec_width(&self) -> int {
        self.m_width as int
    }

    pub closed spec fn spec_height(&self) -> int {
        self.m_height as int
    }

    /// The value held at column `x` of row `y`.
    pub closed spec fn cell(&self, x: int, y: int) -> i32 {
        self.m_v@[y * self.m_width as int + x]
    }

    pub open spec fn in_bounds(&self, x: int, y: int) -> bool {
        0 <= x < self.spec_width() && 0 <= y < self.spec_height()
    }

    proof fn lemma_index_in_range(&self, x: int, y: int)
        requires
            self.wf(),
            self.in_bounds(x, y),
        ensures
            0 <= y * self.m_width as int + x < self.m_v@.len(),
            0 <= y * self.m_width as int <= y * self.m_width as int + x,
    {
        let w = self.m_width as int;
        let h = self.m_height as int;
        assert(y * w + x < (y + 1) * w) by (nonlinear_arith)
            requires 0 <= x < w;
        assert((y + 1) * w <= h * w) by (nonlinear_arith)
            requires 0 <= y < h, 0 <= w;
        assert(0 <= y * w) by (nonlinear_arith)
            requires 0 <= y, 0 <= w;
        assert(h * w == w * h) by (nonlinear_arith);
    }

    /// Two cells at different coordinates are stored at different indices.
    proof fn lemma_index_distinct(&self, x1: int, y1: int, x2: int, y2: int)
        requires
            self.wf(),
            self.in_bounds(x1, y1),
            self.in_bounds(x2, y2),
            x1 != x2 || y1 != y2,
        ensures
            y1 * self.m_width as int + x1 != y2 * self.m_width as int + x2,
    {
        let w = self.m_width as int;
        if y1 < y2 {
            assert(y1 * w + x1 < y2 * w + x2) by (nonlinear_arith)
                requires y1 < y2, 0 <= x1 < w, 0 <= x2;
        } else if y2 < y1 {
            assert(y2 * w + x2 < y1 * w + x1) by (nonlinear_arith)
                requires y2 < y1, 0 <= x2 < w, 0 <= x1;
        }
    }

    /// Builds a `width` by `height` grid whose cells all hold zero.
    pub fn new(width: i32, height: i32) -> (g: Grid)
        requires
            0 <= width,
            0 <= height,
            width * height <= i32::MAX,
        ensures
            g.wf(),
            g.spec_width() == width,
            g.spec_height() == height,
            forall|x: int, y: int| g.in_bounds(x, y) ==> g.cell(x, y) == 0,
    {
        let mut g = Grid { m_width: width, m_height: height, m_v: Vec::new() };
        g.resize(width, height);
        g
    }

    /// Gives the grid the new dimensions, with every cell set to zero.
    pub fn resize(&mut self, width: i32, height: i32)
        requires
            0 <= width,
            0 <= height,
            width * height <= i32::MAX,
        ensures
            final(self).wf(),
            final(self).spec_width() == width,
            final(self).spec_height() == height,
            forall|x: int, y: int| final(self).in_bounds(x, y) ==> final(self).cell(x, y) == 0,
    {
        self.m_width = width;
        self.m_height = height;
        let n = width * height;
        self.m_v = vec![0; n as usize];
        assert forall|x: int, y: int| self.in_bounds(x, y) implies self.cell(x, y) == 0 by {
            self.lemma_index_in_range(x, y);
        }
    }

    /// The value at column `x` of row `y`.
    pub fn get(&self, x: i32, y: i32) -> (r: i32)
        requires
            self.wf(),
            self.in_bounds(x as int, y as int),
        ensures
            r == self.cell(x as int, y as int),
    {
        proof {
            self.lemma_index_in_range(x as int, y as int);
        }
        self.m_v[(y * self.m_width + x) as usize]
    }

    /// Stores `val` at column `x` of row `y`, leaving every other cell as it was.
    pub fn set(&mut self, x: i32, y: i32, val: i32)
        requires
            old(self).wf(),
            old(self).in_bounds(x as int, y as int),
        ensures
            final(self).wf(),
            final(self).spec_width() == old(self).spec_width(),
            final(self).spec_height() == old(self).spec_height(),
            final(self).cell(x as int, y as int) == val,
            forall|i: int, j: int|
                old(self).in_bounds(i, j) && (i != x || j != y) ==> final(self).cell(i, j)
                    == old(self).cell(i, j),
    {
        proof {
            self.lemma_index_in_range(x as int, y as int);
        }
        let idx = (y * self.m_width + x) as usize;
        self.m_v.set(idx, val);
        proof {
            assert forall|i: int, j: int|
                old(self).in_bounds(i, j) && (i != x || j != y) implies self.cell(i, j)
                    == old(self).cell(i, j) by {
                old(self).lemma_index_distinct(i, j, x as int, y as int);
                old(self).lemma_index_in_range(i, j);
            }
        }
    }

    /// The number of columns.
    pub fn width(&self) -> (r: i32)
        ensures
            r == self.spec_width(),
    {
        self.m_width
    }

    /// The number of rows.
    pub fn height(&self) -> (r: i32)
        ensures
            r == self.spec_height(),
    {
        self.m_height
    }
}

} // verus!
