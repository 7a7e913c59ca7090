use vstd::prelude::*;

use crate::color::Rgba8;

verus! {

/// The mathematical value of a pixel grid: its size and its pixels, row by row.
pub struct Grid {
    pub width: nat,
    pub height: nat,
    pub pixels: Seq<Rgba8>,
}

impl Grid {
    /// The pixel at column `x` of row `y`.
    pub open spec fn pixel(&self, x: int, y: int) -> Rgba8 {
        self.pixels[y * self.width + x]
    }

    /// The grid holds exactly one pixel per cell.
    pub open spec fn wf(&self) -> bool {
        self.pixels.len() == self.width * self.height
    }
}

/// An RGBA pixel grid, stored row by row.
#[derive(Debug)]
pub struct Raster {
    pub width: usize,
    pub height: usize,
    pub pixels: Vec<Rgba8>,
}

impl View for Raster {
    type V = Grid;

    open spec fn view(&self) -> Grid {
        Grid { width: self.width as nat, height: self.height as nat, pixels: self.pixels@ }
    }
}

/// The mathematical value of a raster that may have failed to come about.
pub open spec fn raster_view<E>(r: Result<Raster, E>) -> Result<Grid, E> {
    match r {
        Ok(v) => Ok(v@),
        Err(e) => Err(e),
    }
}

impl Raster {
    /// The pixel at column `x` of row `y`.
    pub fn get_pixel(&self, x: usize, y: usize) -> (r: Rgba8)
        requires
            self@.wf(),
            x < self.width,
            y < self.height,
        ensures
            r == self@.pixel(x as int, y as int),
    {
        // The vector's length bounds the cell index, so computing it cannot overflow.
        let len = self.pixels.len();
        proof {
            lemma_cell_in_grid(x as int, y as int, self.width as int, self.height as int);
            assert(y * self.width + x < len);
        }
        self.pixels[y * self.width + x]
    }
}

/// The cell `(x, y)` of a `w` by `h` grid lies within its `w * h` cells.
pub proof fn lemma_cell_in_grid(x: int, y: int, w: int, h: int)
    requires
        0 <= x < w,
        0 <= y < h,
    ensures
        0 <= y * w + x < w * h,
        y * w + x < w * h,
{
    assert(0 <= y * w + x < w * h) by (nonlinear_arith)
        requires
            0 <= x < w,
            0 <= y < h,
    ;
}

} // verus!
