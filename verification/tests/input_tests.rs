use image::{Rgba, RgbaImage};
use palettefit::color::Rgb8;
use palettefit::input::{background, corner_colors, detect_background, exclude_background, sample_grid, BgMode, GridSample};
use palettefit::order::key_of_bits;
use palettefit::quantize::{histogram, Entry};

const BG_TOLERANCE: f64 = 4.0;

/// CIEDE2000 distances between the colors these tests use.
fn delta_e(a: Rgb8, b: Rgb8) -> f64 {
    if a == b {
        return 0.0;
    }
    let pairs = [
        (Rgb8::new(255, 255, 255), Rgb8::new(230, 57, 70), 44.46300610757674),
        (Rgb8::new(255, 0, 0), Rgb8::new(255, 255, 0), 64.30086090099857),
    ];
    for &(x, y, d) in &pairs {
        if (x, y) == (a, b) || (y, x) == (a, b) {
            return d;
        }
    }
    panic!("no distance known for {a:?} and {b:?}");
}

fn key(d: f64) -> u64 {
    key_of_bits(d.to_bits())
}

struct Sampled {
    entries: Vec<Entry>,
    background: Option<Rgb8>,
    excluded_share: f64,
}

fn sample(img: &RgbaImage, bg: BgMode) -> Sampled {
    let (width, height) = img.dimensions();
    let raw = img.clone().into_raw();
    let grid = sample_grid(&raw, width, height, 1);
    let detected = if bg == BgMode::Auto {
        let corners = corner_colors(&raw, width, height);
        let dist: Vec<Vec<u64>> = corners
            .iter()
            .map(|a| {
                corners
                    .iter()
                    .map(|b| match (a, b) {
                        (Some(a), Some(b)) => key(delta_e(*b, *a)),
                        _ => u64::MAX,
                    })
                    .collect()
            })
            .collect();
        detect_background(&corners, &dist, key(BG_TOLERANCE))
    } else {
        None
    };
    let background = background(bg, detected);
    let mut entries = histogram(&grid.opaque);
    let mut excluded = grid.transparent;
    if let Some(bg_color) = background {
        let dist: Vec<u64> = entries.iter().map(|&(c, _)| key(delta_e(c, bg_color))).collect();
        let (kept, removed) = exclude_background(&entries, &dist, key(BG_TOLERANCE));
        entries = kept;
        excluded += removed;
    }
    Sampled {
        entries,
        background,
        excluded_share: excluded as f64 / grid.sampled as f64,
    }
}

#[test]
fn white_background_is_detected_and_excluded() {
    let mut img = RgbaImage::from_pixel(40, 40, Rgba([255, 255, 255, 255]));
    for y in 10..30 {
        for x in 10..30 {
            img.put_pixel(x, y, Rgba([230, 57, 70, 255]));
        }
    }
    let s = sample(&img, BgMode::Auto);
    assert_eq!(s.background, Some(Rgb8::new(255, 255, 255)));
    assert_eq!(s.entries.len(), 1);
    assert_eq!(s.entries[0].0, Rgb8::new(230, 57, 70));
    assert!(s.excluded_share > 0.5);
}

#[test]
fn bg_none_keeps_the_background_color() {
    let img = RgbaImage::from_pixel(8, 8, Rgba([255, 255, 255, 255]));
    let s = sample(&img, BgMode::Off);
    assert_eq!(s.background, None);
    assert_eq!(s.entries.len(), 1);
}

#[test]
fn transparent_pixels_are_always_excluded() {
    let mut img = RgbaImage::from_pixel(10, 10, Rgba([0, 0, 0, 0]));
    for x in 0..10 {
        img.put_pixel(x, 5, Rgba([69, 123, 157, 255]));
    }
    let s = sample(&img, BgMode::Off);
    assert_eq!(s.entries.len(), 1);
    assert_eq!(s.entries[0].0, Rgb8::new(69, 123, 157));
}

#[test]
fn artwork_to_the_edges_detects_no_background() {
    let mut img = RgbaImage::new(4, 4);
    // Four clearly different corner colors.
    let cs = [
        [255, 0, 0, 255],
        [0, 255, 0, 255],
        [0, 0, 255, 255],
        [255, 255, 0, 255],
    ];
    for (i, p) in img.pixels_mut().enumerate() {
        *p = Rgba(cs[i % 4]);
    }
    let s = sample(&img, BgMode::Auto);
    assert_eq!(s.background, None);
}

#[test]
fn bg_values_parse() {
    assert_eq!(BgMode::parse("auto").unwrap(), BgMode::Auto);
    assert_eq!(BgMode::parse("none").unwrap(), BgMode::Off);
    assert_eq!(BgMode::parse("#ffffff").unwrap(), BgMode::Color(Rgb8::new(255, 255, 255)));
    assert_eq!(BgMode::parse("0f0").unwrap(), BgMode::Color(Rgb8::new(0, 255, 0)));
    let err = BgMode::parse("Auto").unwrap_err();
    assert_eq!(err.value, "Auto");
    assert!(BgMode::parse("").is_err());
}

#[test]
fn background_follows_the_mode() {
    let white = Rgb8::new(255, 255, 255);
    let red = Rgb8::new(255, 0, 0);
    assert_eq!(background(BgMode::Off, Some(white)), None);
    assert_eq!(background(BgMode::Color(red), Some(white)), Some(red));
    assert_eq!(background(BgMode::Color(red), None), Some(red));
    assert_eq!(background(BgMode::Auto, Some(white)), Some(white));
    assert_eq!(background(BgMode::Auto, None), None);
}

#[test]
fn grid_walks_every_step_th_pixel_of_every_step_th_row() {
    // 5 x 3, pixel (x, y) has red = 10 * y + x; the pixel at (2, 2) is transparent.
    let mut img = RgbaImage::new(5, 3);
    for y in 0..3 {
        for x in 0..5 {
            let a = if (x, y) == (2, 2) { 0 } else { 255 };
            img.put_pixel(x, y, Rgba([(10 * y + x) as u8, 0, 0, a]));
        }
    }
    let raw = img.into_raw();
    let g: GridSample = sample_grid(&raw, 5, 3, 2);
    assert_eq!(g.sampled, 6);
    assert_eq!(g.transparent, 1);
    let reds: Vec<u8> = g.opaque.iter().map(|c| c.r).collect();
    assert_eq!(reds, vec![0, 2, 4, 20, 24]);
    let all = sample_grid(&raw, 5, 3, 1);
    assert_eq!(all.sampled, 15);
    assert_eq!(all.opaque.len(), 14);
    let coarse = sample_grid(&raw, 5, 3, 7);
    assert_eq!(coarse.sampled, 1);
}

#[test]
fn alpha_just_below_the_limit_is_transparent() {
    let mut img = RgbaImage::from_pixel(2, 1, Rgba([1, 2, 3, 128]));
    img.put_pixel(1, 0, Rgba([1, 2, 3, 127]));
    let g = sample_grid(&img.into_raw(), 2, 1, 1);
    assert_eq!(g.transparent, 1);
    assert_eq!(g.opaque, vec![Rgb8::new(1, 2, 3)]);
}

#[test]
fn empty_image_samples_nothing() {
    let g = sample_grid(&Vec::new(), 0, 0, 1);
    assert_eq!(g.sampled, 0);
    assert!(g.opaque.is_empty());
}

#[test]
fn corners_report_opaque_colors_only() {
    let mut img = RgbaImage::from_pixel(3, 2, Rgba([9, 9, 9, 255]));
    img.put_pixel(2, 0, Rgba([1, 1, 1, 0]));
    img.put_pixel(0, 1, Rgba([7, 8, 9, 255]));
    let c = corner_colors(&img.into_raw(), 3, 2);
    assert_eq!(
        c,
        vec![Some(Rgb8::new(9, 9, 9)), None, Some(Rgb8::new(7, 8, 9)), Some(Rgb8::new(9, 9, 9))]
    );
}

#[test]
fn three_agreeing_corners_make_a_background_two_do_not() {
    let w = Some(Rgb8::new(250, 250, 250));
    let x = Some(Rgb8::new(0, 0, 0));
    let near = key(1.0);
    let far = key(50.0);
    let tol = key(4.0);
    // Corners 0, 1 and 3 agree; 2 is different.
    let corners = vec![w, w, x, w];
    let dist = vec![
        vec![key(0.0), near, far, near],
        vec![near, key(0.0), far, near],
        vec![far, far, key(0.0), far],
        vec![near, near, far, key(0.0)],
    ];
    assert_eq!(detect_background(&corners, &dist, tol), w);
    // With corner 3 transparent, only two opaque corners agree.
    let corners = vec![w, w, x, None];
    assert_eq!(detect_background(&corners, &dist, tol), None);
}

#[test]
fn exclusion_drops_entries_within_tolerance_and_counts_their_pixels() {
    let e = vec![(Rgb8::new(1, 1, 1), 5), (Rgb8::new(2, 2, 2), 7), (Rgb8::new(3, 3, 3), 11)];
    let dist = vec![key(4.0), key(4.5), key(0.0)];
    let (kept, removed) = exclude_background(&e, &dist, key(4.0));
    assert_eq!(kept, vec![(Rgb8::new(2, 2, 2), 7)]);
    assert_eq!(removed, 16);
}

#[test]
fn every_sample_is_counted_once_and_exclusion_loses_no_pixel() {
    let mut img = RgbaImage::from_pixel(7, 5, Rgba([10, 20, 30, 255]));
    img.put_pixel(3, 0, Rgba([0, 0, 0, 3]));
    img.put_pixel(6, 4, Rgba([200, 20, 30, 255]));
    let raw = img.into_raw();
    for step in 1..9 {
        let g = sample_grid(&raw, 7, 5, step);
        assert_eq!(g.sampled, g.transparent + g.opaque.len() as u64);
        let h = histogram(&g.opaque);
        let dist: Vec<u64> = h.iter().map(|&(c, _)| if c.r == 10 { key(0.0) } else { key(30.0) }).collect();
        let (kept, removed) = exclude_background(&h, &dist, key(4.0));
        let kept_total: u64 = kept.iter().map(|&(_, n)| n).sum();
        assert_eq!(kept_total + removed, g.opaque.len() as u64);
    }
}
