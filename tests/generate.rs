use mandelbrust::{gather_rows, row_ranges, GenerateError, MandelImage};

/// Counts of a made-up frame, row-major.
fn frame(width: u32, height: u32, max: u32) -> Vec<u32> {
    let mut v = Vec::new();
    for y in 0..height {
        for x in 0..width {
            v.push((x * 7 + y * 13) % (max + 1));
        }
    }
    v
}

/// What each of `workers` workers computes of `counts`.
fn worker_results(counts: &[u32], width: u32, height: u32, workers: u32) -> Vec<Option<Vec<u32>>> {
    row_ranges(height, workers)
        .into_iter()
        .map(|r| Some(counts[(r.start * width) as usize..(r.end * width) as usize].to_vec()))
        .collect()
}

fn raw_counts(image: &MandelImage) -> Vec<u32> {
    image.pixels().iter().map(|p| p.iterations).collect()
}

#[test]
fn rows_split_evenly() {
    let ranges = row_ranges(600, 12);
    assert_eq!(ranges.len(), 12);
    for (t, r) in ranges.iter().enumerate() {
        assert_eq!(*r, (t as u32 * 50)..(t as u32 * 50 + 50));
    }
}

#[test]
fn last_worker_takes_remainder() {
    assert_eq!(row_ranges(10, 3), vec![0..3, 3..6, 6..10]);
    assert_eq!(row_ranges(7, 1), vec![0..7]);
}

#[test]
fn more_workers_than_rows() {
    assert_eq!(row_ranges(2, 4), vec![0..0, 0..0, 0..0, 0..2]);
    assert_eq!(row_ranges(0, 3), vec![0..0, 0..0, 0..0]);
}

#[test]
fn one_worker_and_eight_give_same_image() {
    let (width, height, max) = (13, 29, 40);
    let counts = frame(width, height, max);
    let mut serial = MandelImage::new(width, height, max);
    let mut parallel = MandelImage::new(width, height, max);
    assert_eq!(gather_rows(&mut serial, &worker_results(&counts, width, height, 1)), Ok(()));
    assert_eq!(gather_rows(&mut parallel, &worker_results(&counts, width, height, 8)), Ok(()));
    assert_eq!(raw_counts(&serial), counts);
    assert_eq!(raw_counts(&parallel), counts);
}

#[test]
fn gather_leaves_equalized_counts() {
    let mut image = MandelImage::new(2, 2, 5);
    mandelbrust::equalize_image(&mut image);
    let before: Vec<u32> = image.pixels().iter().map(|p| p.iterations_equalized).collect();
    assert_eq!(gather_rows(&mut image, &[Some(vec![1, 2]), Some(vec![3, 4])]), Ok(()));
    let after: Vec<u32> = image.pixels().iter().map(|p| p.iterations_equalized).collect();
    assert_eq!(before, after);
    assert_eq!(raw_counts(&image), vec![1, 2, 3, 4]);
}

#[test]
fn missing_worker_is_reported() {
    let (width, height, max) = (4, 10, 20);
    let counts = frame(width, height, max);
    let mut image = MandelImage::new(width, height, max);
    let mut results = worker_results(&counts, width, height, 3);
    results[1] = None;
    assert_eq!(
        gather_rows(&mut image, &results),
        Err(GenerateError::MissingRows { start: 3, end: 6 })
    );
    assert!(raw_counts(&image).iter().all(|&c| c == 0));
}

#[test]
fn short_result_is_reported() {
    let (width, height, max) = (4, 10, 20);
    let counts = frame(width, height, max);
    let mut image = MandelImage::new(width, height, max);
    let mut results = worker_results(&counts, width, height, 3);
    results[2].as_mut().unwrap().pop();
    assert_eq!(
        gather_rows(&mut image, &results),
        Err(GenerateError::MalformedRows { start: 6, end: 10 })
    );
    assert!(raw_counts(&image).iter().all(|&c| c == 0));
}

#[test]
fn count_above_budget_is_reported() {
    let mut image = MandelImage::new(2, 2, 5);
    let results = vec![Some(vec![1, 6]), Some(vec![1, 2])];
    assert_eq!(
        gather_rows(&mut image, &results),
        Err(GenerateError::MalformedRows { start: 0, end: 1 })
    );
}

#[test]
fn first_failing_worker_is_reported() {
    let mut image = MandelImage::new(1, 4, 5);
    let results = vec![Some(vec![1]), Some(vec![9]), None, None];
    assert_eq!(
        gather_rows(&mut image, &results),
        Err(GenerateError::MalformedRows { start: 1, end: 2 })
    );
}
