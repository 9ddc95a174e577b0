//! Rectangular pixel arrays, stored flat in column-major order: the cell
//! `(x, y)` of a `width x height` grid lives at index `x * height + y`.

use vstd::prelude::*;

verus! {

/// Index of cell `(x, y)` in the flat backing vector of a grid of the given
/// height.
pub open spec fn cell_index(height: int, x: int, y: int) -> int {
    x * height + y
}

/// A cell inside the grid maps to an index inside the backing vector.
pub proof fn lemma_cell_index_bounds(w: int, h: int, x: int, y: int)
    requires
        0 <= x < w,
        0 <= y < h,
    ensures
        0 <= cell_index(h, x, y) < w * h,
        x * h <= cell_index(h, x, y),
    decreases 0int,
{
    assert(0 <= x * h + y < w * h && x * h <= x * h + y) by (nonlinear_arith)
        requires
            0 <= x < w,
            0 <= y < h,
    ;
}

/// Distinct cells map to distinct indices.
pub proof fn lemma_cell_index_injective(h: int, x1: int, y1: int, x2: int, y2: int)
    requires
        0 <= x1,
        0 <= x2,
        0 <= y1 < h,
        0 <= y2 < h,
        cell_index(h, x1, y1) == cell_index(h, x2, y2),
    ensures
        x1 == x2 && y1 == y2,
    decreases 0int,
{
    assert(x1 == x2 && y1 == y2) by (nonlinear_arith)
        requires
            0 <= x1,
            0 <= x2,
            0 <= y1 < h,
            0 <= y2 < h,
            x1 * h + y1 == x2 * h + y2,
    ;
}

/// A `width x height` array of copyable values.
#[derive(Debug)]
pub struct Grid<T> {
    /// Number of columns.
    pub width: u32,
    /// Number of rows.
    pub height: u32,
    /// The cells, column-major.
    pub data: Vec<T>,
}

impl<T: Copy> Grid<T> {
    /// The backing vector holds exactly one value per cell.
    pub open spec fn wf(self) -> bool {
        self.data@.len() == self.width as int * self.height as int
    }

    /// The value stored at cell `(x, y)`.
    pub open spec fn at(self, x: int, y: int) -> T {
        self.data@[cell_index(self.height as int, x, y)]
    }

    /// `(x, y)` names a cell of this grid.
    pub open spec fn in_range(self, x: int, y: int) -> bool {
        0 <= x < self.width as int && 0 <= y < self.height as int
    }

    /// A grid with every cell set to `value`.
    pub fn filled(width: u32, height: u32, value: T) -> (g: Grid<T>)
        requires
            width as int * height as int <= usize::MAX as int,
        ensures
            g.wf(),
            g.width == width,
            g.height == height,
            forall|x: int, y: int| g.in_range(x, y) ==> g.at(x, y) == value,
    {
        proof {
            assert(0 <= width as int * height as int) by (nonlinear_arith);
        }
        let total: usize = (width as usize) * (height as usize);
        let mut data: Vec<T> = Vec::new();
        let mut i: usize = 0;
        while i < total
            invariant
                i <= total,
                data@.len() == i as int,
                forall|j: int| 0 <= j < i as int ==> data@[j] == value,
            decreases total - i,
        {
            data.push(value);
            i = i + 1;
        }
        let g = Grid { width, height, data };
        proof {
            assert forall|x: int, y: int| g.in_range(x, y) implies g.at(x, y) == value by {
                lemma_cell_index_bounds(width as int, height as int, x, y);
            }
        }
        g
    }

    /// A grid over a caller-supplied flat vector in column-major order.
    pub fn from_vec(width: u32, height: u32, data: Vec<T>) -> (g: Grid<T>)
        requires
            data@.len() == width as int * height as int,
        ensures
            g.wf(),
            g.width == width,
            g.height == height,
            forall|x: int, y: int|
                g.in_range(x, y) ==> g.at(x, y) == data@[cell_index(height as int, x, y)],
    {
        Grid { width, height, data }
    }

    /// Reads the value at cell `(x, y)`.
    pub fn get(&self, x: u32, y: u32) -> (r: T)
        requires
            self.wf(),
            self.in_range(x as int, y as int),
        ensures
            r == self.at(x as int, y as int),
    {
        proof {
            lemma_cell_index_bounds(self.width as int, self.height as int, x as int, y as int);
        }
        let _n: usize = self.data.len();
        let idx: usize = (x as usize) * (self.height as usize) + (y as usize);
        self.data[idx]
    }

    /// Replaces the value at cell `(x, y)`.
    pub fn set(&mut self, x: u32, y: u32, value: T)
        requires
            old(self).wf(),
            old(self).in_range(x as int, y as int),
        ensures
            final(self).wf(),
            final(self).width == old(self).width,
            final(self).height == old(self).height,
            final(self).data@ == old(self).data@.update(
                cell_index(old(self).height as int, x as int, y as int),
                value,
            ),
            final(self).at(x as int, y as int) == value,
            forall|x2: int, y2: int|
                old(self).in_range(x2, y2) && !(x2 == x as int && y2 == y as int)
                    ==> final(self).at(x2, y2) == old(self).at(x2, y2),
    {
        proof {
            lemma_cell_index_bounds(self.width as int, self.height as int, x as int, y as int);
        }
        let _n: usize = self.data.len();
        let idx: usize = (x as usize) * (self.height as usize) + (y as usize);
        self.data.set(idx, value);
        proof {
            assert forall|x2: int, y2: int|
                old(self).in_range(x2, y2) && !(x2 == x as int && y2 == y as int)
                    implies self.at(x2, y2) == old(self).at(x2, y2) by {
                lemma_cell_index_bounds(
                    self.width as int,
                    self.height as int,
                    x2,
                    y2,
                );
                if cell_index(self.height as int, x2, y2) == cell_index(
                    self.height as int,
                    x as int,
                    y as int,
                ) {
                    lemma_cell_index_injective(
                        self.height as int,
                        x2,
                        y2,
                        x as int,
                        y as int,
                    );
                }
            }
        }
    }
}

/// A grayscale image with an alpha channel: one brightness value and one
/// alpha value per pixel, over a shared `width x height` frame.
#[derive(Debug)]
pub struct PixelGrid {
    /// Brightness of each pixel, 0 (black) to 255 (white).
    pub shade: Grid<u8>,
    /// Alpha of each pixel, carried through the pipeline unmodified.
    pub alpha: Grid<u8>,
}

impl PixelGrid {
    /// Both channels are well formed and share one frame.
    pub open spec fn wf(self) -> bool {
        &&& self.shade.wf()
        &&& self.alpha.wf()
        &&& self.alpha.width == self.shade.width
        &&& self.alpha.height == self.shade.height
    }

    /// Number of columns.
    pub open spec fn spec_width(self) -> u32 {
        self.shade.width
    }

    /// Number of rows.
    pub open spec fn spec_height(self) -> u32 {
        self.shade.height
    }

    /// Builds an image from its two channels.
    pub fn new(shade: Grid<u8>, alpha: Grid<u8>) -> (img: PixelGrid)
        requires
            shade.wf(),
            alpha.wf(),
            alpha.width == shade.width,
            alpha.height == shade.height,
        ensures
            img.wf(),
            img.shade == shade,
            img.alpha == alpha,
    {
        PixelGrid { shade, alpha }
    }
}

} // verus!
