use mandelbrot::color::Color;
use mandelbrot::parse::{parse_bounds, parse_pair, parse_rgb, parse_triad};

#[test]
fn test_parse_pair() {
    assert_eq!(parse_pair::<i32>("", ','), None);
    assert_eq!(parse_pair::<i32>("10", ','), None);
    assert_eq!(parse_pair::<i32>(",10", ','), None);
    assert_eq!(parse_pair::<i32>("10,20", ','), Some((10, 20)));
    assert_eq!(parse_pair::<i32>("10,20xy", ','), None);
    assert_eq!(parse_pair::<f64>("0.5x", 'x'), None);
    assert_eq!(parse_pair::<f64>("0.5x1.5", 'x'), Some((0.5, 1.5)));
}

#[test]
fn parse_pair_splits_at_first_separator() {
    // "10,20,30" splits into "10" and "20,30"; the right side fails as i32.
    assert_eq!(parse_pair::<i32>("10,20,30", ','), None);
    assert_eq!(parse_pair::<i32>("10,,20", ','), None);
}

#[test]
fn parse_pair_reads_raster_dimensions() {
    assert_eq!(parse_pair::<usize>("1000x750", 'x'), Some((1000, 750)));
}

#[test]
fn test_parse_bounds() {
    assert_eq!(parse_bounds("1000x750", 'x'), Some((1000, 750)));
    assert_eq!(parse_bounds("10,20", ','), Some((10, 20)));
    assert_eq!(parse_bounds("10", ','), None);
    assert_eq!(parse_bounds(",10", ','), None);
    assert_eq!(parse_bounds("10,20xy", ','), None);
    assert_eq!(parse_bounds("1000x", 'x'), None);
    // The split happens at the first separator only.
    assert_eq!(parse_bounds("800x600x2", 'x'), None);
    // A count past the machine word fails to parse.
    assert_eq!(
        parse_bounds("99999999999999999999999999x10", 'x'),
        None
    );
}

#[test]
fn test_parse_triad() {
    assert_eq!(parse_triad::<i32>("1,2,3", ','), Some((1, 2, 3)));
    assert_eq!(parse_triad::<i32>("1,2", ','), None);
    assert_eq!(parse_triad::<i32>("1,2,3,4", ','), None);
    assert_eq!(parse_triad::<i32>("1,,3", ','), None);
    assert_eq!(parse_triad::<i32>("", ','), None);
    assert_eq!(parse_triad::<f64>("0.5x1.5x2.5", 'x'), Some((0.5, 1.5, 2.5)));
}

#[test]
fn test_parse_rgb() {
    assert_eq!(
        parse_rgb("255,0,10"),
        Some(Color { r: 255, g: 0, b: 10 })
    );
    assert_eq!(parse_rgb("0,0,0"), Some(Color { r: 0, g: 0, b: 0 }));
    // u8 parsing accepts one leading plus sign.
    assert_eq!(parse_rgb("+17,2,3"), Some(Color { r: 17, g: 2, b: 3 }));
}

#[test]
fn parse_rgb_rejects_malformed_triples() {
    // A channel above one byte.
    assert_eq!(parse_rgb("256,0,0"), None);
    // Too few and too many pieces.
    assert_eq!(parse_rgb("0,0"), None);
    assert_eq!(parse_rgb("1,2,3,4"), None);
    // Whitespace, signs and empty pieces are not digits.
    assert_eq!(parse_rgb("1, 2,3"), None);
    assert_eq!(parse_rgb("-1,2,3"), None);
    assert_eq!(parse_rgb("1,,3"), None);
    assert_eq!(parse_rgb(""), None);
}
