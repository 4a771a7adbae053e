//! Partitioning of the output raster into disjoint row bands, one per
//! worker, and row-major addressing of the pixel buffer.
use crate::color::Color;
use vstd::prelude::*;

verus! {

/// A contiguous run of whole raster rows, rendered by a single worker.
#[derive(Clone, Copy, PartialEq, Eq, Structural, Debug)]
pub struct Band {
    /// Index of the first row of the band.
    pub top: usize,
    /// Number of rows in the band; always at least one.
    pub height: usize,
}

/// Whether `row` belongs to band `b`.
pub open spec fn band_contains(b: Band, row: int) -> bool {
    b.top <= row < b.top + b.height
}

/// The nominal number of rows each worker receives: one more than the
/// quotient, so that `workers` bands always suffice even when the division
/// leaves a remainder.
pub open spec fn rows_per_band_spec(height: usize, workers: usize) -> int
    recommends
        workers >= 1,
{
    height as int / workers as int + 1
}

/// Whether `bands` partitions the rows `[0, height)` into consecutive,
/// non-empty bands: the first starts at row zero, each next band starts
/// where the previous one ends, and the last ends at `height`.
pub open spec fn bands_partition(bands: Seq<Band>, height: int) -> bool {
    &&& (forall|i: int| 0 <= i < bands.len() ==> 1 <= (#[trigger] bands[i]).height)
    &&& (bands.len() == 0 ==> height == 0)
    &&& (bands.len() > 0 ==> bands[0].top == 0 && bands.last().top + bands.last().height
        == height)
    &&& (forall|i: int|
        0 <= i < bands.len() - 1 ==> (#[trigger] bands[i + 1]).top == bands[i].top
            + bands[i].height)
}

/// Plans the row bands for `workers` concurrent workers: consecutive bands
/// of `height / workers + 1` rows each, the last one truncated to the rows
/// that remain. Every row of `[0, height)` lands in exactly one band.
pub fn plan_bands(height: usize, workers: usize) -> (bands: Vec<Band>)
    requires
        1 <= workers,
        height < usize::MAX,
    ensures
        bands_partition(bands@, height as int),
        forall|i: int|
            0 <= i < bands@.len() ==> (#[trigger] bands@[i]).height <= rows_per_band_spec(
                height,
                workers,
            ),
        forall|i: int|
            0 <= i < bands@.len() - 1 ==> (#[trigger] bands@[i]).height == rows_per_band_spec(
                height,
                workers,
            ),
{
    let rows_per_band = height / workers + 1;
    let mut bands: Vec<Band> = Vec::new();
    let mut top: usize = 0;
    while top < height
        invariant
            1 <= rows_per_band,
            rows_per_band == rows_per_band_spec(height, workers),
            top <= height,
            bands@.len() == 0 ==> top == 0,
            bands@.len() > 0 ==> bands@[0].top == 0 && bands@.last().top
                + bands@.last().height == top as int,
            forall|i: int| 0 <= i < bands@.len() ==> 1 <= (#[trigger] bands@[i]).height,
            forall|i: int|
                0 <= i < bands@.len() ==> (#[trigger] bands@[i]).height <= rows_per_band,
            forall|i: int|
                0 <= i < bands@.len() ==> (#[trigger] bands@[i]).height == rows_per_band || (
                i == bands@.len() - 1 && top == height),
            forall|i: int|
                0 <= i < bands@.len() - 1 ==> (#[trigger] bands@[i + 1]).top == bands@[i].top
                    + bands@[i].height,
        decreases height - top,
    {
        let rows_left = height - top;
        let h = if rows_left < rows_per_band {
            rows_left
        } else {
            rows_per_band
        };
        bands.push(Band { top, height: h });
        top = top + h;
    }
    bands
}

/// Whether some band of `bands` holds `row`.
pub open spec fn row_covered(bands: Seq<Band>, row: int) -> bool {
    exists|i: int| 0 <= i < bands.len() && band_contains(#[trigger] bands[i], row)
}

/// Band ends never pass the tops of later bands: bands are ordered and
/// pairwise disjoint.
proof fn lemma_band_end_le_top(bands: Seq<Band>, i: int, j: int)
    requires
        forall|k: int| 0 <= k < bands.len() ==> 1 <= (#[trigger] bands[k]).height,
        forall|k: int|
            0 <= k < bands.len() - 1 ==> (#[trigger] bands[k + 1]).top == bands[k].top
                + bands[k].height,
        0 <= i < j < bands.len(),
    ensures
        bands[i].top + bands[i].height <= bands[j].top,
    decreases j - i,
{
    if j == i + 1 {
        assert(bands[i + 1].top == bands[i].top + bands[i].height);
    } else {
        lemma_band_end_le_top(bands, i, j - 1);
        assert(bands[j - 1 + 1].top == bands[j - 1].top + bands[j - 1].height);
    }
}

/// Every row of `[0, height)` lies in at least one band of a partition.
proof fn lemma_bands_cover(bands: Seq<Band>, height: int)
    requires
        bands_partition(bands, height),
    ensures
        forall|row: int| 0 <= row < height ==> #[trigger] row_covered(bands, row),
    decreases bands.len(),
{
    if bands.len() == 0 {
    } else {
        let last = bands.last();
        let sub = bands.drop_last();
        assert forall|k: int| 0 <= k < sub.len() - 1 implies (#[trigger] sub[k + 1]).top
            == sub[k].top + sub[k].height by {
            assert(bands[k + 1].top == bands[k].top + bands[k].height);
        }
        if sub.len() > 0 {
            assert(bands[sub.len() - 1 + 1].top == bands[sub.len() - 1].top + bands[sub.len()
                - 1].height);
            assert(sub.last().top + sub.last().height == last.top);
        }
        assert(bands_partition(sub, last.top as int));
        lemma_bands_cover(sub, last.top as int);
        assert forall|row: int| 0 <= row < height implies #[trigger] row_covered(
            bands,
            row,
        ) by {
            if row < last.top {
                assert(row_covered(sub, row));
                let i = choose|i: int| 0 <= i < sub.len() && band_contains(#[trigger] sub[i], row);
                assert(band_contains(bands[i], row));
            } else {
                assert(band_contains(bands[bands.len() - 1], row));
            }
        }
    }
}

/// The law of the scheduler's partition: for any raster height and any
/// number of workers, every row of `[0, height)` belongs to exactly one of
/// the planned bands - full coverage, no gaps, no overlaps.
pub proof fn lemma_bands_partition_exact(bands: Seq<Band>, height: int)
    requires
        bands_partition(bands, height),
    ensures
        forall|row: int| 0 <= row < height ==> #[trigger] row_covered(bands, row),
        forall|i: int, j: int, row: int|
            0 <= i < bands.len() && 0 <= j < bands.len() && #[trigger] band_contains(
                bands[i],
                row,
            ) && #[trigger] band_contains(bands[j], row) ==> i == j,
        forall|i: int, row: int|
            0 <= i < bands.len() && #[trigger] band_contains(bands[i], row) ==> 0 <= row
                < height,
{
    lemma_bands_cover(bands, height);
    assert forall|i: int, j: int, row: int|
        0 <= i < bands.len() && 0 <= j < bands.len() && #[trigger] band_contains(bands[i], row)
            && #[trigger] band_contains(bands[j], row) implies i == j by {
        if i < j {
            lemma_band_end_le_top(bands, i, j);
        } else if j < i {
            lemma_band_end_le_top(bands, j, i);
        }
    }
    assert forall|i: int, row: int|
        0 <= i < bands.len() && #[trigger] band_contains(bands[i], row) implies 0 <= row
        < height by {
        if i < bands.len() - 1 {
            lemma_band_end_le_top(bands, i, bands.len() - 1);
        }
    }
}

/// In a partition whose bands all hold exactly `rpb` rows but perhaps the
/// last one, band `i` starts at row `i * rpb`.
proof fn lemma_tops_linear(bands: Seq<Band>, rpb: int, i: int)
    requires
        0 <= i < bands.len(),
        bands[0].top == 0,
        forall|k: int|
            0 <= k < bands.len() - 1 ==> (#[trigger] bands[k + 1]).top == bands[k].top
                + bands[k].height,
        forall|k: int| 0 <= k < bands.len() - 1 ==> (#[trigger] bands[k]).height == rpb,
    ensures
        bands[i].top == i * rpb,
    decreases i,
{
    if i == 0 {
    } else {
        lemma_tops_linear(bands, rpb, i - 1);
        assert(bands[i - 1 + 1].top == bands[i - 1].top + bands[i - 1].height);
        assert(i * rpb == (i - 1) * rpb + rpb) by (nonlinear_arith);
    }
}

/// The plan is pinned by the raster height and the nominal band size: any
/// two row partitions into bands of `rpb` rows, the last one alone allowed
/// to be shorter, are the same partition. In particular two worker counts
/// with the same nominal size yield the identical plan, whatever the
/// rendering order.
pub proof fn lemma_partition_unique(b1: Seq<Band>, b2: Seq<Band>, height: int, rpb: int)
    requires
        rpb >= 1,
        bands_partition(b1, height),
        bands_partition(b2, height),
        forall|i: int| 0 <= i < b1.len() ==> (#[trigger] b1[i]).height <= rpb,
        forall|i: int| 0 <= i < b1.len() - 1 ==> (#[trigger] b1[i]).height == rpb,
        forall|i: int| 0 <= i < b2.len() ==> (#[trigger] b2[i]).height <= rpb,
        forall|i: int| 0 <= i < b2.len() - 1 ==> (#[trigger] b2[i]).height == rpb,
    ensures
        b1 == b2,
{
    if height == 0 {
        if b1.len() > 0 {
            assert(b1.last().top + b1.last().height >= 1);
        }
        if b2.len() > 0 {
            assert(b2.last().top + b2.last().height >= 1);
        }
        assert(b1 =~= b2);
    } else {
        assert(b1.len() > 0 && b2.len() > 0);
        let n1 = b1.len() as int;
        let n2 = b2.len() as int;
        lemma_tops_linear(b1, rpb, n1 - 1);
        lemma_tops_linear(b2, rpb, n2 - 1);
        assert((n1 - 1) * rpb < height <= (n1 - 1) * rpb + rpb);
        assert((n2 - 1) * rpb < height <= (n2 - 1) * rpb + rpb);
        assert(n1 == n2) by (nonlinear_arith)
            requires
                rpb >= 1,
                (n1 - 1) * rpb < height <= (n1 - 1) * rpb + rpb,
                (n2 - 1) * rpb < height <= (n2 - 1) * rpb + rpb,
        ;
        assert forall|i: int| 0 <= i < n1 implies b1[i] == b2[i] by {
            lemma_tops_linear(b1, rpb, i);
            lemma_tops_linear(b2, rpb, i);
            if i < n1 - 1 {
                assert(b1[i].height == rpb && b2[i].height == rpb);
            } else {
                assert(b1[i].top + b1[i].height == height);
                assert(b2[i].top + b2[i].height == height);
            }
        }
        assert(b1 =~= b2);
    }
}

/// Whether buffer index `i` lies in band `b`'s slice of a row-major pixel
/// buffer `width` pixels wide.
pub open spec fn pixel_in(b: Band, width: int, i: int) -> bool {
    b.top * width <= i < (b.top + b.height) * width
}

/// Whether some band of `bands` owns buffer index `i`.
pub open spec fn pixel_covered(bands: Seq<Band>, width: int, i: int) -> bool {
    exists|k: int| 0 <= k < bands.len() && pixel_in(#[trigger] bands[k], width, i)
}

/// The law behind handing each worker an exclusive slice of one shared
/// buffer: in a partition of the rows, the bands' pixel ranges
/// `[top * width, (top + height) * width)` tile the row-major buffer
/// `[0, height * width)` exactly, no index belonging to two bands.
pub proof fn lemma_band_pixel_ranges(bands: Seq<Band>, height: int, width: int)
    requires
        bands_partition(bands, height),
        width >= 1,
    ensures
        forall|i: int| 0 <= i < height * width ==> #[trigger] pixel_covered(bands, width, i),
        forall|k: int, l: int, i: int|
            0 <= k < bands.len() && 0 <= l < bands.len() && #[trigger] pixel_in(
                bands[k],
                width,
                i,
            ) && #[trigger] pixel_in(bands[l], width, i) ==> k == l,
{
    lemma_bands_partition_exact(bands, height);
    assert forall|i: int| 0 <= i < height * width implies #[trigger] pixel_covered(
        bands,
        width,
        i,
    ) by {
        let row = i / width;
        let rem = i % width;
        vstd::arithmetic::div_mod::lemma_fundamental_div_mod(i, width);
        vstd::arithmetic::div_mod::lemma_mod_bound(i, width);
        assert(0 <= row < height) by (nonlinear_arith)
            requires
                i == width * row + rem,
                0 <= rem < width,
                0 <= i < height * width,
                width >= 1,
        ;
        assert(row_covered(bands, row));
        let k = choose|k: int| 0 <= k < bands.len() && band_contains(#[trigger] bands[k], row);
        let b = bands[k];
        assert(b.top * width <= i < (b.top + b.height) * width) by (nonlinear_arith)
            requires
                i == width * row + rem,
                0 <= rem < width,
                width >= 1,
                b.top <= row < b.top + b.height,
        ;
        assert(pixel_in(bands[k], width, i));
    }
    assert forall|k: int, l: int, i: int|
        0 <= k < bands.len() && 0 <= l < bands.len() && #[trigger] pixel_in(bands[k], width, i)
            && #[trigger] pixel_in(bands[l], width, i) implies k == l by {
        let row = i / width;
        let rem = i % width;
        vstd::arithmetic::div_mod::lemma_fundamental_div_mod(i, width);
        vstd::arithmetic::div_mod::lemma_mod_bound(i, width);
        let bk = bands[k];
        let bl = bands[l];
        assert(bk.top <= row < bk.top + bk.height) by (nonlinear_arith)
            requires
                i == width * row + rem,
                0 <= rem < width,
                width >= 1,
                bk.top * width <= i < (bk.top + bk.height) * width,
        ;
        assert(bl.top <= row < bl.top + bl.height) by (nonlinear_arith)
            requires
                i == width * row + rem,
                0 <= rem < width,
                width >= 1,
                bl.top * width <= i < (bl.top + bl.height) * width,
        ;
        assert(band_contains(bands[k], row));
        assert(band_contains(bands[l], row));
    }
}

/// The two pixels whose plane images are a band's own corner points: the
/// upper-left pixel `(0, top)` and the lower-right pixel
/// `(width, top + height)`, one column past the last column and one row
/// past the last row inside the band. Both are meant for the coordinate
/// mapping, which extrapolates linearly at the raster's edge.
pub fn band_corner_pixels(bounds: (usize, usize), band: Band) -> (r: (
    (usize, usize),
    (usize, usize),
))
    requires
        band.top + band.height <= bounds.1,
    ensures
        r.0.0 == 0 && r.0.1 == band.top,
        r.1.0 == bounds.0 && r.1.1 == band.top + band.height,
{
    ((0, band.top), (bounds.0, band.top + band.height))
}

/// The position of pixel `(column, row)` in the row-major buffer of a
/// raster `bounds.0` pixels wide and `bounds.1` pixels tall.
pub fn pixel_index(bounds: (usize, usize), column: usize, row: usize) -> (i: usize)
    requires
        column < bounds.0,
        row < bounds.1,
        bounds.0 * bounds.1 <= usize::MAX,
    ensures
        i == row * bounds.0 + column,
        i < bounds.0 * bounds.1,
{
    proof {
        assert(row * bounds.0 + column < bounds.0 * bounds.1) by (nonlinear_arith)
            requires
                column < bounds.0,
                row < bounds.1,
        ;
    }
    row * bounds.0 + column
}

/// Step one of the scheduler: a raster buffer holding one pixel per raster
/// cell, every pixel initialized to black.
pub fn blank_buffer(width: usize, height: usize) -> (buf: Vec<Color>)
    requires
        width * height <= usize::MAX,
    ensures
        buf@.len() == width * height,
        forall|i: int| 0 <= i < buf@.len() ==> buf@[i] == (Color { r: 0, g: 0, b: 0 }),
{
    let total = width * height;
    let mut buf: Vec<Color> = Vec::new();
    while buf.len() < total
        invariant
            buf@.len() <= total,
            forall|i: int| 0 <= i < buf@.len() ==> buf@[i] == (Color { r: 0, g: 0, b: 0 }),
        decreases total - buf.len(),
    {
        buf.push(Color::black());
    }
    buf
}

} // verus!
