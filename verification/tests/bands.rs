use mandelbrot::bands::{band_corner_pixels, blank_buffer, pixel_index, plan_bands, Band};
use mandelbrot::color::Color;

#[test]
fn plan_bands_concrete_partitions() {
    // Ten rows over three workers: 10 / 3 + 1 = 4 rows per band.
    assert_eq!(
        plan_bands(10, 3),
        vec![
            Band { top: 0, height: 4 },
            Band { top: 4, height: 4 },
            Band { top: 8, height: 2 },
        ]
    );
    // One worker takes the whole raster in a single band.
    assert_eq!(plan_bands(7, 1), vec![Band { top: 0, height: 7 }]);
    // More workers than rows: one-row bands, and fewer bands than workers.
    assert_eq!(
        plan_bands(3, 8),
        vec![
            Band { top: 0, height: 1 },
            Band { top: 1, height: 1 },
            Band { top: 2, height: 1 },
        ]
    );
    // An empty raster needs no bands.
    assert_eq!(plan_bands(0, 4), vec![]);
}

#[test]
fn plan_bands_covers_every_row_exactly_once() {
    // For every worker count from 1 to the height, the union of the band
    // row ranges is exactly [0, height), with no gaps and no overlaps.
    let height: usize = 23;
    for workers in 1..=height {
        let bands = plan_bands(height, workers);
        let mut owners = vec![0usize; height];
        for band in &bands {
            assert!(band.height >= 1);
            for row in band.top..band.top + band.height {
                assert!(row < height);
                owners[row] += 1;
            }
        }
        for row in 0..height {
            assert_eq!(owners[row], 1, "row {} with {} workers", row, workers);
        }
    }
}

#[test]
fn plan_bands_sizes_match_the_nominal_count() {
    let height: usize = 100;
    for workers in 1..=12 {
        let nominal = height / workers + 1;
        let bands = plan_bands(height, workers);
        for (i, band) in bands.iter().enumerate() {
            if i + 1 < bands.len() {
                assert_eq!(band.height, nominal);
            } else {
                assert!(band.height <= nominal);
            }
        }
    }
}

#[test]
fn plan_depends_only_on_nominal_band_size() {
    // 100 / w is 1 for every w in 51..=100, so all these worker counts
    // share one nominal band size and must produce the identical plan.
    let reference = plan_bands(100, 51);
    for workers in 52..=100 {
        assert_eq!(plan_bands(100, workers), reference);
    }
}

#[test]
fn band_pixel_ranges_tile_the_buffer() {
    // The bands' slices of the flat buffer are consecutive and exhaustive,
    // which is what lets each worker own its slice exclusively.
    let (width, height) = (7usize, 10usize);
    let bands = plan_bands(height, 3);
    let mut next_start = 0usize;
    for band in &bands {
        assert_eq!(band.top * width, next_start);
        next_start += band.height * width;
    }
    assert_eq!(next_start, width * height);
}

#[test]
fn band_corners_are_the_band_frame() {
    let band = Band { top: 4, height: 4 };
    assert_eq!(
        band_corner_pixels((100, 10), band),
        ((0, 4), (100, 8))
    );
}

#[test]
fn pixel_index_is_row_major() {
    assert_eq!(pixel_index((100, 50), 25, 3), 325);
    assert_eq!(pixel_index((100, 50), 0, 0), 0);
    assert_eq!(pixel_index((100, 50), 99, 49), 100 * 50 - 1);
}

#[test]
fn blank_buffer_is_all_black() {
    let buf = blank_buffer(4, 3);
    assert_eq!(buf.len(), 12);
    for c in &buf {
        assert_eq!(*c, Color { r: 0, g: 0, b: 0 });
    }
    assert_eq!(blank_buffer(5, 0).len(), 0);
    assert_eq!(Color::black(), Color { r: 0, g: 0, b: 0 });
}
