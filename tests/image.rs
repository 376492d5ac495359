use mandelbrust::{MandelImage, MandelPixel};

#[test]
fn new_pixel_has_zero_counts() {
    let p = MandelPixel::new(3, -7);
    assert_eq!(p.x, 3);
    assert_eq!(p.y, -7);
    assert_eq!(p.iterations, 0);
    assert_eq!(p.iterations_equalized, 0);
}

#[test]
fn new_image_is_row_major() {
    let image = MandelImage::new(4, 3, 150);
    assert_eq!(image.width(), 4);
    assert_eq!(image.height(), 3);
    assert_eq!(image.max_iterations(), 150);
    let cells = image.pixels();
    assert_eq!(cells.len(), 12);
    for (i, p) in cells.iter().enumerate() {
        assert_eq!(p.x, (i % 4) as i32);
        assert_eq!(p.y, (i / 4) as i32);
        assert_eq!(p.iterations, 0);
        assert_eq!(p.iterations_equalized, 0);
    }
}

#[test]
fn empty_image_has_no_cells() {
    let image = MandelImage::new(0, 5, 10);
    assert!(image.pixels().is_empty());
    let image = MandelImage::new(5, 0, 10);
    assert!(image.pixels().is_empty());
}

#[test]
fn set_iterations_writes_from_row_start() {
    let mut image = MandelImage::new(3, 4, 20);
    image.set_iterations(1..3, &[1, 2, 3, 4, 5, 6]);
    let raw: Vec<u32> = image.pixels().iter().map(|p| p.iterations).collect();
    assert_eq!(raw, vec![0, 0, 0, 1, 2, 3, 4, 5, 6, 0, 0, 0]);
    assert_eq!(image.iterations(0, 1), 1);
    assert_eq!(image.iterations(2, 1), 3);
    assert_eq!(image.iterations(1, 2), 5);
    assert_eq!(image.iterations(1, 3), 0);
    assert!(image.pixels().iter().all(|p| p.iterations_equalized == 0));
}

#[test]
fn set_iterations_keeps_coordinates() {
    let mut image = MandelImage::new(2, 2, 9);
    image.set_iterations(0..2, &[9, 8, 7, 6]);
    let cells = image.pixels();
    assert_eq!((cells[3].x, cells[3].y, cells[3].iterations), (1, 1, 6));
    assert_eq!(image.iterations(1, 0), 8);
}
