//! From an image to the histogram of its colors.

use vstd::prelude::*;
use crate::color::Rgb;
use crate::grid::{lemma_colors_of_rows_at, lemma_colors_of_rows_source, GridView, PixelGrid};
use crate::histogram::{
    histogram_of, lemma_single_color, ColorTally, Histogram, HistogramView, Tally,
};
use crate::percentage::{lemma_rows_wanted_bounds, rows_wanted, takes_every_row, Percentage};
use crate::sampler::{
    all_rows, is_row_selection, lemma_selection_fits, rows_in_range, sample_rows,
};

verus! {

/// `hist` counts the colors on `count` different rows of `grid`: those of
/// `rows`, in that order.
pub open spec fn counts_rows(hist: HistogramView, grid: GridView, rows: Seq<u32>, count: nat) -> bool {
    &&& is_row_selection(rows, grid.height)
    &&& rows.len() == count
    &&& hist == histogram_of(grid.colors_of_rows(rows))
}

/// Counts the colors on the rows `rows` of `grid`.
///
/// Every column of every row of `rows` is visited once, the rows in the
/// order given and each row from its first column. Each sample is counted
/// under its color key, that is without its opacity.
pub fn color_histogram(grid: &PixelGrid, rows: &Vec<u32>) -> (hist: Histogram)
    requires
        is_row_selection(rows@, grid@.height),
    ensures
        hist@ == histogram_of(grid@.colors_of_rows(rows@)),
        hist@.total == rows@.len() * grid@.width,
{
    let width = grid.width();
    let height = grid.height();
    let ghost sampled = grid@.colors_of_rows(rows@);
    proof {
        lemma_selection_fits(rows@, grid@.height);
        assert(rows@.len() * width <= 0xffff_ffff * 0xffff_ffff) by (nonlinear_arith)
            requires
                rows@.len() <= height <= 0xffff_ffff,
                0 <= width <= 0xffff_ffff,
        ;
    }
    let mut tally = Tally::new();
    let mut r: usize = 0;
    assert(tally.seen() =~= sampled.take(0));
    while r < rows.len()
        invariant
            r <= rows.len(),
            width == grid@.width,
            height == grid@.height,
            is_row_selection(rows@, grid@.height),
            sampled == grid@.colors_of_rows(rows@),
            sampled.len() < u64::MAX,
            0 <= r * width <= sampled.len(),
            tally.seen() == sampled.take(r * width),
        decreases rows.len() - r,
    {
        let y = rows[r];
        let mut x: u32 = 0;
        while x < width
            invariant
                x <= width,
                r < rows.len(),
                y == rows@[r as int],
                y < height,
                width == grid@.width,
                height == grid@.height,
                sampled == grid@.colors_of_rows(rows@),
                sampled.len() < u64::MAX,
                    0 <= r * width + x <= sampled.len(),
                tally.seen() == sampled.take(r * width + x),
            decreases width - x,
        {
            let key = grid.pixel_at(x, y).to_rgb();
            proof {
                lemma_colors_of_rows_at(grid@, rows@, r as int, x as int);
                assert(sampled.take(r * width + x).push(key) =~= sampled.take(r * width + x + 1));
            }
            tally = tally.record(key);
            x = x + 1;
        }
        proof {
            assert(r * width + width == (r + 1) * width) by (nonlinear_arith);
        }
        r = r + 1;
    }
    proof {
        assert(sampled.take(sampled.len() as int) =~= sampled);
    }
    tally.finish()
}

/// What [`sampled_histogram`] may give for `grid` and `share`: the histogram
/// of as many different rows as the share asks for, and where the share
/// asks for every row, that of all rows from the top.
pub open spec fn is_sampled_histogram(
    hist: HistogramView,
    grid: GridView,
    share: Option<Percentage>,
) -> bool {
    &&& exists|rows: Seq<u32>| #[trigger]
        counts_rows(hist, grid, rows, rows_wanted(grid.height, share))
    &&& takes_every_row(share) ==> hist == histogram_of(
        grid.colors_of_rows(all_rows(grid.height)),
    )
}

/// Chooses rows of `grid` as `share` asks and counts the colors on them.
///
/// Without a share, or with one of a hundred percent or more, every row is
/// counted, from the top, and the outcome depends on the image alone. With a
/// smaller share the rows are drawn at random: the outcome is the histogram
/// of as many different rows as the share asks for.
pub fn sampled_histogram(grid: &PixelGrid, share: Option<Percentage>) -> (hist: Histogram)
    ensures
        is_sampled_histogram(hist@, grid@, share),
        hist@.total == rows_wanted(grid@.height, share) * grid@.width,
{
    let rows = sample_rows(grid.height(), share);
    let hist = color_histogram(grid, &rows);
    assert(counts_rows(hist@, grid@, rows@, rows_wanted(grid@.height, share)));
    hist
}

/// The opacity of the samples has no say: two images of one size whose
/// samples agree in red, green and blue give the same colors on the same
/// rows, and so the same histogram.
pub proof fn lemma_opacity_ignored(first: GridView, second: GridView, rows: Seq<u32>)
    requires
        first.width == second.width,
        first.height == second.height,
        rows_in_range(rows, first.height),
        forall|x: int, y: int|
            0 <= x < first.width && 0 <= y < first.height ==> (#[trigger] first.pixel(
                x,
                y,
            )).color() == second.pixel(x, y).color(),
    ensures
        first.colors_of_rows(rows) == second.colors_of_rows(rows),
        histogram_of(first.colors_of_rows(rows)) == histogram_of(second.colors_of_rows(rows)),
{
    let a = first.colors_of_rows(rows);
    let b = second.colors_of_rows(rows);
    assert forall|at: int| 0 <= at < a.len() implies a[at] == b[at] by {
        lemma_colors_of_rows_source(first, rows, at);
        let x = at % (first.width as int);
        let y = rows[at / (first.width as int)] as int;
        assert(first.pixel(x, y).color() == second.pixel(x, y).color());
    }
    assert(a =~= b);
}

/// An image whose samples all have the color `key` gives, on any rows, a
/// histogram of one line that holds `key` with the number of samples
/// counted, or of no line if no sample was counted.
pub proof fn lemma_single_color_image(grid: GridView, rows: Seq<u32>, key: Rgb)
    requires
        rows_in_range(rows, grid.height),
        forall|x: int, y: int|
            0 <= x < grid.width && 0 <= y < grid.height ==> (#[trigger] grid.pixel(x, y)).color()
                == key,
    ensures
        rows.len() * grid.width == 0 ==> histogram_of(grid.colors_of_rows(rows)).entries
            == Seq::<ColorTally>::empty(),
        rows.len() * grid.width > 0 ==> histogram_of(grid.colors_of_rows(rows)).entries == seq![
            ColorTally { color: key, count: rows.len() * grid.width },
        ],
{
    let colors = grid.colors_of_rows(rows);
    assert forall|at: int| 0 <= at < colors.len() implies colors[at] == key by {
        lemma_colors_of_rows_source(grid, rows, at);
        let x = at % (grid.width as int);
        let y = rows[at / (grid.width as int)] as int;
        assert(grid.pixel(x, y).color() == key);
    }
    lemma_single_color(colors, key);
}

/// An image without rows or without columns gives the histogram of no
/// samples: no line, and a total of zero.
pub proof fn lemma_empty_image(grid: GridView, rows: Seq<u32>)
    requires
        grid.width == 0 || grid.height == 0,
        rows_in_range(rows, grid.height),
    ensures
        histogram_of(grid.colors_of_rows(rows)).entries == Seq::<ColorTally>::empty(),
        histogram_of(grid.colors_of_rows(rows)).total == 0,
{
    if rows.len() > 0 {
        assert(rows[0] < grid.height);
    }
    assert(rows.len() * grid.width == 0) by (nonlinear_arith)
        requires
            rows.len() == 0 || grid.width == 0,
    ;
    assert(histogram_of(grid.colors_of_rows(rows)).entries =~= Seq::<ColorTally>::empty());
}

/// Where every row is taken, the image settles the outcome: whatever
/// [`sampled_histogram`] gives for one image on two such calls is the same,
/// line for line.
pub proof fn lemma_every_row_outcome_is_settled(
    first: HistogramView,
    second: HistogramView,
    grid: GridView,
    share: Option<Percentage>,
    other: Option<Percentage>,
)
    requires
        takes_every_row(share),
        takes_every_row(other),
        is_sampled_histogram(first, grid, share),
        is_sampled_histogram(second, grid, other),
    ensures
        first == second,
{
}

/// Whatever the share, the rows counted are no more than the image has and
/// each is counted once, so that the samples counted are no more than the
/// image holds; where every row is taken they are all of them.
pub proof fn lemma_sample_within_image(
    hist: HistogramView,
    grid: GridView,
    share: Option<Percentage>,
)
    requires
        grid.height <= u32::MAX,
        is_sampled_histogram(hist, grid, share),
    ensures
        rows_wanted(grid.height, share) <= grid.height,
        hist.total == rows_wanted(grid.height, share) * grid.width,
        hist.total <= grid.height * grid.width,
        takes_every_row(share) ==> hist.total == grid.height * grid.width,
{
    lemma_rows_wanted_bounds(grid.height, share);
    let count = rows_wanted(grid.height, share);
    let rows = choose|rows: Seq<u32>| #[trigger] counts_rows(hist, grid, rows, count);
    assert(count * grid.width <= grid.height * grid.width) by (nonlinear_arith)
        requires
            count <= grid.height,
    ;
}

/// The opacity of the samples has no say in what [`sampled_histogram`] may
/// give: whatever it may give for an image, it may give for any image of the
/// same size whose samples agree with the first in red, green and blue.
pub proof fn lemma_sample_ignores_opacity(
    hist: HistogramView,
    first: GridView,
    second: GridView,
    share: Option<Percentage>,
)
    requires
        first.width == second.width,
        first.height == second.height,
        forall|x: int, y: int|
            0 <= x < first.width && 0 <= y < first.height ==> (#[trigger] first.pixel(
                x,
                y,
            )).color() == second.pixel(x, y).color(),
        is_sampled_histogram(hist, first, share),
    ensures
        is_sampled_histogram(hist, second, share),
{
    let count = rows_wanted(first.height, share);
    let rows = choose|rows: Seq<u32>| #[trigger] counts_rows(hist, first, rows, count);
    lemma_opacity_ignored(first, second, rows);
    assert(counts_rows(hist, second, rows, count));
    lemma_opacity_ignored(first, second, all_rows(first.height));
}

/// An image whose samples all have the color `key` gives, whatever the
/// share, a single line that holds `key` with the total, or no line if no
/// sample was counted.
pub proof fn lemma_sample_of_single_color(
    hist: HistogramView,
    grid: GridView,
    share: Option<Percentage>,
    key: Rgb,
)
    requires
        forall|x: int, y: int|
            0 <= x < grid.width && 0 <= y < grid.height ==> (#[trigger] grid.pixel(x, y)).color()
                == key,
        is_sampled_histogram(hist, grid, share),
    ensures
        hist.total == 0 ==> hist.entries == Seq::<ColorTally>::empty(),
        hist.total > 0 ==> hist.entries == seq![ColorTally { color: key, count: hist.total }],
{
    let count = rows_wanted(grid.height, share);
    let rows = choose|rows: Seq<u32>| #[trigger] counts_rows(hist, grid, rows, count);
    lemma_single_color_image(grid, rows, key);
}

/// An image without rows or without columns gives, whatever the share, no
/// line and a total of zero.
pub proof fn lemma_sample_of_empty_image(
    hist: HistogramView,
    grid: GridView,
    share: Option<Percentage>,
)
    requires
        grid.width == 0 || grid.height == 0,
        is_sampled_histogram(hist, grid, share),
    ensures
        hist.entries == Seq::<ColorTally>::empty(),
        hist.total == 0,
{
    let count = rows_wanted(grid.height, share);
    let rows = choose|rows: Seq<u32>| #[trigger] counts_rows(hist, grid, rows, count);
    lemma_empty_image(grid, rows);
}

} // verus!
