use mandelbrust::{equalize_image, gather_rows, row_ranges, MandelImage};

fn image_with(width: u32, height: u32, max: u32, counts: &[u32]) -> MandelImage {
    let mut image = MandelImage::new(width, height, max);
    image.set_iterations(0..height as i32, counts);
    image
}

fn equalized(image: &MandelImage) -> Vec<u32> {
    image.pixels().iter().map(|p| p.iterations_equalized).collect()
}

#[test]
fn equalize_exact_values() {
    // cdf: 0 -> 1, 3 -> 2, 5 -> 3; spread 3 - 1 = 2
    // 3: (2 - 1) / 2 * 9 = 4.5 -> 5; 5: (3 - 1) / 2 * 9 = 9
    let mut image = image_with(4, 1, 10, &[0, 5, 10, 3]);
    equalize_image(&mut image);
    assert_eq!(equalized(&image), vec![0, 9, 10, 5]);
    let raw: Vec<u32> = image.pixels().iter().map(|p| p.iterations).collect();
    assert_eq!(raw, vec![0, 5, 10, 3]);
}

#[test]
fn equalize_spreads_counts() {
    // counts 1, 1, 1, 2, 7 below max 8: cdf(0) = 0, cdf(1) = 3, cdf(2) = 4, cdf(7) = 5
    let mut image = image_with(6, 1, 8, &[1, 1, 1, 2, 7, 8]);
    equalize_image(&mut image);
    // 1: 3/5*7 = 4.2 -> 4; 2: 4/5*7 = 5.6 -> 6; 7: 7
    assert_eq!(equalized(&image), vec![4, 4, 4, 6, 7, 8]);
}

#[test]
fn equalize_all_in_set() {
    let mut image = image_with(3, 2, 50, &[50; 6]);
    equalize_image(&mut image);
    assert_eq!(equalized(&image), vec![50; 6]);
}

#[test]
fn equalize_without_spread_keeps_counts() {
    let mut image = image_with(4, 1, 50, &[0, 50, 0, 0]);
    equalize_image(&mut image);
    assert_eq!(equalized(&image), vec![0, 50, 0, 0]);
}

#[test]
fn equalize_zero_budget() {
    let mut image = MandelImage::new(2, 2, 0);
    equalize_image(&mut image);
    assert_eq!(equalized(&image), vec![0; 4]);
}

#[test]
fn equalize_is_monotonic_and_bounded() {
    let max = 30;
    let counts: Vec<u32> = (0..60u32).map(|i| (i * i + 3 * i) % (max + 1)).collect();
    let mut image = image_with(10, 6, max, &counts);
    equalize_image(&mut image);
    let cells = image.pixels();
    for a in cells {
        assert!(a.iterations_equalized <= max);
        if a.iterations == max {
            assert_eq!(a.iterations_equalized, max);
        }
        for b in cells {
            if a.iterations <= b.iterations {
                assert!(a.iterations_equalized <= b.iterations_equalized);
            }
        }
    }
}

#[test]
fn interior_pixel_stays_in_set_after_generate_and_equalize() {
    let (width, height, max) = (800u32, 600u32, 150u32);
    // the point 0+0i of the default view lies at pixel (560, 300)
    let count = |x: u32, y: u32| {
        let (dx, dy) = (x as i64 - 560, y as i64 - 300);
        if dx * dx + dy * dy <= 100 * 100 {
            max
        } else {
            (x / 8 + y / 8) % max
        }
    };
    let results: Vec<Option<Vec<u32>>> = row_ranges(height, 12)
        .into_iter()
        .map(|rows| {
            let mut v = Vec::new();
            for y in rows {
                for x in 0..width {
                    v.push(count(x, y));
                }
            }
            Some(v)
        })
        .collect();
    let mut image = MandelImage::new(width, height, max);
    assert_eq!(gather_rows(&mut image, &results), Ok(()));
    equalize_image(&mut image);
    assert_eq!(image.iterations(560, 300), 150);
    let cell = image.pixels()[560 + 300 * 800];
    assert_eq!((cell.x, cell.y), (560, 300));
    assert_eq!(cell.iterations, 150);
    assert_eq!(cell.iterations_equalized, 150);
}
