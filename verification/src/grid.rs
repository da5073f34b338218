//! The decoded image as a rectangle of samples.

use vstd::prelude::*;
use crate::color::{Rgb, Rgba};

verus! {

/// What a [`PixelGrid`] holds: `height` rows of `width` samples each, the
/// rows one after another from the top.
pub struct GridView {
    pub width: nat,
    pub height: nat,
    pub pixels: Seq<Rgba>,
}

impl GridView {
    /// The sample in column `x` of row `y`.
    pub open spec fn pixel(self, x: int, y: int) -> Rgba {
        self.pixels[y * self.width + x]
    }

    /// The color key of the sample in column `x` of row `y`.
    pub open spec fn color(self, x: int, y: int) -> Rgb {
        self.pixel(x, y).color()
    }

    /// The color keys met on the rows `rows`, taken in that order, each row
    /// from its first column to its last: entry `r * width + x` is the color
    /// in column `x` of row `rows[r]`.
    pub open spec fn colors_of_rows(self, rows: Seq<u32>) -> Seq<Rgb> {
        Seq::new(
            rows.len() * self.width,
            |at: int| self.color(at % (self.width as int), rows[at / (self.width as int)] as int),
        )
    }

    /// The samples fill the rectangle exactly.
    pub open spec fn is_rectangle(self) -> bool {
        self.pixels.len() == self.width * self.height
    }
}

/// Where a sample's color stands among the colors of the chosen rows.
pub proof fn lemma_colors_of_rows_at(grid: GridView, rows: Seq<u32>, r: int, x: int)
    requires
        0 <= r < rows.len(),
        0 <= x < grid.width,
    ensures
        0 <= r * grid.width + x < grid.colors_of_rows(rows).len(),
        grid.colors_of_rows(rows)[r * grid.width + x] == grid.color(x, rows[r] as int),
{
    let width = grid.width as int;
    let at = r * width + x;
    assert(0 <= r * width && at < rows.len() * width) by (nonlinear_arith)
        requires
            0 <= r < rows.len(),
            0 <= x < width,
            at == r * width + x,
    ;
    vstd::arithmetic::div_mod::lemma_fundamental_div_mod_converse(at, width, r, x);
}

/// The row and the column that an entry of [`GridView::colors_of_rows`]
/// comes from.
pub proof fn lemma_colors_of_rows_source(grid: GridView, rows: Seq<u32>, at: int)
    requires
        0 <= at < grid.colors_of_rows(rows).len(),
    ensures
        grid.width > 0,
        0 <= at / (grid.width as int) < rows.len(),
        0 <= at % (grid.width as int) < grid.width,
        grid.colors_of_rows(rows)[at] == grid.color(
            at % (grid.width as int),
            rows[at / (grid.width as int)] as int,
        ),
{
    let width = grid.width as int;
    assert(width > 0) by (nonlinear_arith)
        requires
            0 <= at < rows.len() * width,
    ;
    vstd::arithmetic::div_mod::lemma_fundamental_div_mod(at, width);
    vstd::arithmetic::div_mod::lemma_mod_bound(at, width);
    let r = at / width;
    assert(0 <= r < rows.len()) by (nonlinear_arith)
        requires
            width > 0,
            0 <= at < rows.len() * width,
            at == width * r + at % width,
            0 <= at % width < width,
    ;
}

/// A decoded image. Its samples are only ever read.
pub struct PixelGrid {
    width: u32,
    height: u32,
    pixels: Vec<Rgba>,
}

impl View for PixelGrid {
    type V = GridView;

    closed spec fn view(&self) -> GridView {
        GridView {
            width: self.width as nat,
            height: self.height as nat,
            pixels: self.pixels@,
        }
    }
}

impl PixelGrid {
    /// Holds of every grid: see [`GridView::is_rectangle`].
    #[verifier::type_invariant]
    pub open spec fn well_formed(&self) -> bool {
        self@.is_rectangle()
    }

    /// Makes a grid of `width` by `height` samples out of `pixels`, which
    /// lists the rows from the top, each from left to right. The number of
    /// samples has to be `width * height`.
    pub fn new(width: u32, height: u32, pixels: Vec<Rgba>) -> (grid: Option<PixelGrid>)
        ensures
            grid is Some <==> pixels.len() == width * height,
            grid matches Some(g) ==> g@ == (GridView {
                width: width as nat,
                height: height as nat,
                pixels: pixels@,
            }),
    {
        assert(width * height <= u64::MAX) by (nonlinear_arith)
            requires
                width <= u32::MAX,
                height <= u32::MAX,
        ;
        let area: u64 = width as u64 * height as u64;
        if pixels.len() as u64 == area {
            Some(PixelGrid { width, height, pixels })
        } else {
            None
        }
    }

    /// The number of columns.
    pub fn width(&self) -> (width: u32)
        ensures
            width == self@.width,
    {
        self.width
    }

    /// The number of rows.
    pub fn height(&self) -> (height: u32)
        ensures
            height == self@.height,
    {
        self.height
    }

    /// The sample in column `x` of row `y`.
    pub fn pixel_at(&self, x: u32, y: u32) -> (sample: Rgba)
        requires
            x < self@.width,
            y < self@.height,
        ensures
            sample == self@.pixel(x as int, y as int),
    {
        proof {
            use_type_invariant(self);
            assert(0 <= y * self.width && y * self.width + x < self.width * self.height)
                by (nonlinear_arith)
                requires
                    x < self.width,
                    y < self.height,
            ;
            assert(self.pixels@.len() == self.pixels.len());
        }
        let at: usize = y as usize * self.width as usize + x as usize;
        self.pixels[at]
    }
}

} // verus!
