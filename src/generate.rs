use crate::image::{ImageModel, MandelImage};
use vstd::arithmetic::div_mod::lemma_fundamental_div_mod;
use vstd::arithmetic::mul::lemma_mul_inequality;
use vstd::prelude::*;

verus! {

/// First row of worker `t` when `height` rows are shared by `workers`.
pub open spec fn worker_start(height: int, workers: int, t: int) -> int {
    t * (height / workers)
}

/// One past the last row of worker `t`: each worker gets
/// `height / workers` rows, and the last one also takes the remainder.
pub open spec fn worker_end(height: int, workers: int, t: int) -> int {
    if t + 1 < workers {
        (t + 1) * (height / workers)
    } else {
        height
    }
}

/// The ranges of rows of all workers follow one another from row 0 to row
/// `height`, so that each row belongs to exactly one worker.
pub proof fn lemma_rows_partition(height: int, workers: int, t: int)
    requires
        height >= 0,
        workers > 0,
        0 <= t < workers,
    ensures
        0 <= worker_start(height, workers, t) <= worker_end(height, workers, t) <= height,
        t == 0 ==> worker_start(height, workers, t) == 0,
        t + 1 < workers ==> worker_end(height, workers, t) == worker_start(height, workers, t + 1),
        t + 1 == workers ==> worker_end(height, workers, t) == height,
{
    let per = height / workers;
    lemma_fundamental_div_mod(height, workers);
    assert(per >= 0);
    lemma_mul_inequality(t, workers, per);
    assert(t * per <= workers * per);
    if t + 1 < workers {
        lemma_mul_inequality(t + 1, workers, per);
        assert(t * per <= (t + 1) * per) by (nonlinear_arith)
            requires
                per >= 0,
        ;
    }
    assert(workers * per <= height) by (nonlinear_arith)
        requires
            height == workers * per + height % workers,
            height % workers >= 0,
    ;
    assert(t * per >= 0) by (nonlinear_arith)
        requires
            t >= 0,
            per >= 0,
    ;
}

/// The rows of each of `workers` workers for an image `height` rows tall.
pub fn row_ranges(height: u32, workers: u32) -> (r: Vec<std::ops::Range<u32>>)
    requires
        workers > 0,
    ensures
        r@.len() == workers,
        forall|t: int|
            0 <= t < workers ==> (#[trigger] r@[t]).start == worker_start(
                height as int,
                workers as int,
                t,
            ) && r@[t].end == worker_end(height as int, workers as int, t),
        r@[0].start == 0,
        r@[workers - 1].end == height,
        forall|t: int| 0 <= t < workers ==> #[trigger] r@[t].start <= r@[t].end,
        forall|t: int| 0 <= t < workers - 1 ==> #[trigger] r@[t].end == r@[t + 1].start,
{
    let per = height / workers;
    let mut ranges: Vec<std::ops::Range<u32>> = Vec::new();
    let mut t: u32 = 0;
    while t < workers
        invariant
            workers > 0,
            t <= workers,
            per == height as int / workers as int,
            ranges@.len() == t,
            forall|u: int|
                0 <= u < t ==> (#[trigger] ranges@[u]).start == worker_start(
                    height as int,
                    workers as int,
                    u,
                ) && ranges@[u].end == worker_end(height as int, workers as int, u),
        decreases workers - t,
    {
        proof {
            lemma_rows_partition(height as int, workers as int, t as int);
        }
        let start = t * per;
        let end = if t + 1 < workers {
            (t + 1) * per
        } else {
            height
        };
        ranges.push(std::ops::Range { start, end });
        t = t + 1;
    }
    proof {
        assert forall|t: int| 0 <= t < workers implies #[trigger] ranges@[t].start
            <= ranges@[t].end by {
            lemma_rows_partition(height as int, workers as int, t);
        }
        assert forall|t: int| 0 <= t < workers - 1 implies #[trigger] ranges@[t].end
            == ranges@[t + 1].start by {
            lemma_rows_partition(height as int, workers as int, t);
        }
        lemma_rows_partition(height as int, workers as int, 0);
        lemma_rows_partition(height as int, workers as int, workers - 1);
    }
    ranges
}

/// Why a worker's result could not be gathered, with the rows
/// `start..end` that it was to compute.
#[derive(Clone, Copy, Debug, PartialEq, Eq)]
pub enum GenerateError {
    /// The worker delivered nothing.
    MissingRows { start: u32, end: u32 },
    /// The worker delivered a result of the wrong length, or with a count
    /// above the image's iteration budget.
    MalformedRows { start: u32, end: u32 },
}

/// First row of the rows that are done once the first `t` workers are.
spec fn rows_done(height: int, workers: int, t: int) -> int {
    if t == 0 {
        0
    } else {
        worker_end(height, workers, t - 1)
    }
}

/// `res` is a complete result of worker `t` of `workers` for `img`: one
/// count per pixel of its rows, each within the iteration budget.
pub open spec fn rows_delivered(img: ImageModel, workers: int, t: int, res: Option<Vec<u32>>) -> bool {
    match res {
        Some(v) => {
            &&& v@.len() == (worker_end(img.height as int, workers, t) - worker_start(
                img.height as int,
                workers,
                t,
            )) * img.width
            &&& forall|i: int| 0 <= i < v@.len() ==> #[trigger] v@[i] <= img.max_iterations
        },
        None => false,
    }
}

/// The error that reports the result `res` of worker `t`.
pub open spec fn rows_failure(img: ImageModel, workers: int, t: int, res: Option<Vec<u32>>) -> GenerateError {
    let start = worker_start(img.height as int, workers, t) as u32;
    let end = worker_end(img.height as int, workers, t) as u32;
    match res {
        Some(_) => GenerateError::MalformedRows { start, end },
        None => GenerateError::MissingRows { start, end },
    }
}

/// The counts that the workers delivered, in worker order.
pub open spec fn delivered(results: Seq<Option<Vec<u32>>>) -> Seq<Seq<u32>> {
    results.map_values(
        |res: Option<Vec<u32>>|
            match res {
                Some(v) => v@,
                None => Seq::empty(),
            },
    )
}

/// Rows `start..end` of a grid `width` wide hold at most `height * width`
/// cells, the last of which comes before cell `height * width`.
proof fn lemma_rows_cells(start: int, end: int, width: int, height: int)
    requires
        0 <= start <= end <= height,
        0 <= width,
    ensures
        0 <= (end - start) * width <= height * width,
        start * width + (end - start) * width == end * width,
        end * width <= height * width,
        0 <= start * width,
{
    assert(0 <= (end - start) * width <= height * width) by (nonlinear_arith)
        requires
            0 <= start <= end <= height,
            0 <= width,
    ;
    assert(start * width + (end - start) * width == end * width) by (nonlinear_arith);
    assert(end * width <= height * width) by (nonlinear_arith)
        requires
            end <= height,
            0 <= width,
    ;
    assert(0 <= start * width) by (nonlinear_arith)
        requires
            0 <= start,
            0 <= width,
    ;
}

/// Whether every count of `v` is at most `max`.
fn within_budget(v: &Vec<u32>, max: u32) -> (r: bool)
    ensures
        r == forall|i: int| 0 <= i < v@.len() ==> #[trigger] v@[i] <= max,
{
    let mut i: usize = 0;
    while i < v.len()
        invariant
            i <= v@.len(),
            forall|j: int| 0 <= j < i ==> #[trigger] v@[j] <= max,
        decreases v@.len() - i,
    {
        if v[i] > max {
            return false;
        }
        i = i + 1;
    }
    true
}

/// Checks the results of all workers, in worker order, and reports the
/// first that cannot be gathered.
fn check_results(image: &MandelImage, results: &[Option<Vec<u32>>]) -> (r: Result<(), GenerateError>)
    requires
        image@.wf(),
        results@.len() > 0,
    ensures
        match r {
            Ok(()) => forall|t: int|
                0 <= t < results@.len() ==> rows_delivered(
                    image@,
                    results@.len() as int,
                    t,
                    #[trigger] results@[t],
                ),
            Err(e) => exists|t: int|
                #![trigger results@[t]]
                {
                    &&& 0 <= t < results@.len()
                    &&& forall|u: int|
                        0 <= u < t ==> rows_delivered(
                            image@,
                            results@.len() as int,
                            u,
                            #[trigger] results@[u],
                        )
                    &&& !rows_delivered(image@, results@.len() as int, t, results@[t])
                    &&& e == rows_failure(image@, results@.len() as int, t, results@[t])
                },
        },
{
    let workers = results.len();
    let height = image.height();
    let width = image.width();
    let max = image.max_iterations();
    let per = height as usize / workers;
    let ghost img = image@;
    let mut t: usize = 0;
    while t < workers
        invariant
            workers == results@.len() > 0,
            per == height as int / workers as int,
            height == img.height,
            width == img.width,
            max == img.max_iterations,
            img == image@,
            img.wf(),
            t <= workers,
            forall|u: int|
                0 <= u < t ==> rows_delivered(img, workers as int, u, #[trigger] results@[u]),
        decreases workers - t,
    {
        proof {
            lemma_rows_partition(height as int, workers as int, t as int);
            lemma_rows_cells(
                worker_start(height as int, workers as int, t as int),
                worker_end(height as int, workers as int, t as int),
                width as int,
                height as int,
            );
        }
        let start = t * per;
        let end = if t + 1 < workers {
            (t + 1) * per
        } else {
            height as usize
        };
        match &results[t] {
            None => {
                return Err(GenerateError::MissingRows { start: start as u32, end: end as u32 });
            },
            Some(v) => {
                if v.len() != (end - start) * width as usize || !within_budget(v, max) {
                    return Err(
                        GenerateError::MalformedRows { start: start as u32, end: end as u32 },
                    );
                }
            },
        }
        t = t + 1;
    }
    Ok(())
}

/// Writes the results of `results.len()` workers into `image`, worker `t`
/// having computed the rows `worker_start(..)..worker_end(..)` row-major.
///
/// Either every worker delivered a complete result and all of them are
/// written, or the image is left as it was and the first worker (in worker
/// order) whose result is missing or malformed is reported with its rows.
pub fn gather_rows(image: &mut MandelImage, results: &[Option<Vec<u32>>]) -> (r: Result<(), GenerateError>)
    requires
        old(image)@.wf(),
        results@.len() > 0,
    ensures
        final(image)@.wf(),
        match r {
            Ok(()) => {
                &&& forall|t: int|
                    0 <= t < results@.len() ==> rows_delivered(
                        old(image)@,
                        results@.len() as int,
                        t,
                        #[trigger] results@[t],
                    )
                &&& final(image)@.width == old(image)@.width
                &&& final(image)@.height == old(image)@.height
                &&& final(image)@.max_iterations == old(image)@.max_iterations
                &&& final(image)@.iterations() == delivered(results@).flatten()
                &&& final(image)@.equalized() == old(image)@.equalized()
            },
            Err(e) => {
                &&& final(image)@ == old(image)@
                &&& exists|t: int|
                    #![trigger results@[t]]
                    {
                        &&& 0 <= t < results@.len()
                        &&& forall|u: int|
                            0 <= u < t ==> rows_delivered(
                                old(image)@,
                                results@.len() as int,
                                u,
                                #[trigger] results@[u],
                            )
                        &&& !rows_delivered(old(image)@, results@.len() as int, t, results@[t])
                        &&& e == rows_failure(old(image)@, results@.len() as int, t, results@[t])
                    }
            },
        },
{
    check_results(image, results)?;
    let workers = results.len();
    let height = image.height();
    let width = image.width();
    let per = height as usize / workers;
    let ghost before = image@;
    let ghost all = delivered(results@);
    let mut t: usize = 0;
    while t < workers
        invariant
            workers == results@.len() > 0,
            all == delivered(results@),
            per == height as int / workers as int,
            height == before.height,
            width == before.width,
            before.wf(),
            forall|u: int|
                0 <= u < workers ==> rows_delivered(before, workers as int, u, #[trigger] results@[u]),
            t <= workers,
            image@.wf(),
            image@.width == before.width,
            image@.height == before.height,
            image@.max_iterations == before.max_iterations,
            image@.equalized() == before.equalized(),
            all.take(t as int).flatten().len() == rows_done(height as int, workers as int, t as int)
                * width,
            image@.iterations() == all.take(t as int).flatten() + before.iterations().skip(
                rows_done(height as int, workers as int, t as int) * width,
            ),
        decreases workers - t,
    {
        let ghost prev = image@;
        proof {
            lemma_rows_partition(height as int, workers as int, t as int);
            if t > 0 {
                lemma_rows_partition(height as int, workers as int, t - 1);
            }
            lemma_rows_cells(
                worker_start(height as int, workers as int, t as int),
                worker_end(height as int, workers as int, t as int),
                width as int,
                height as int,
            );
            assert(before.iterations().len() == before.cells.len());
        }
        let start = t * per;
        let end = if t + 1 < workers {
            (t + 1) * per
        } else {
            height as usize
        };
        match &results[t] {
            Some(v) => {
                image.set_iterations(
                    std::ops::Range { start: start as i32, end: end as i32 },
                    v.as_slice(),
                );
                proof {
                    let s = start * width;
                    let e = end * width;
                    let done = all.take(t as int).flatten();
                    assert(all.take(t + 1) =~= all.take(t as int).push(v@));
                    assert(all[t as int] == v@);
                    all.take(t as int).lemma_flatten_push(v@);
                    assert(all.take(t + 1).flatten() =~= done + v@);
                    assert(prev.iterations().take(s) =~= done);
                    assert(prev.iterations().skip(s + v@.len()) =~= before.iterations().skip(e));
                    assert(image@.iterations() =~= all.take(t + 1).flatten()
                        + before.iterations().skip(e));
                }
            },
            None => {},
        }
        t = t + 1;
    }
    proof {
        assert(all.take(workers as int) =~= all);
        assert(height * width == width * height) by (nonlinear_arith);
        assert(before.iterations().skip(height * width) =~= Seq::<u32>::empty());
        assert(image@.iterations() =~= all.flatten());
    }
    Ok(())
}

/// Row-major `counts` of an image `width` wide and `height` tall, cut into
/// the rows of each of `workers` workers.
pub open spec fn split_rows(counts: Seq<u32>, width: int, height: int, workers: int) -> Seq<
    Seq<u32>,
> {
    Seq::new(
        workers as nat,
        |t: int|
            counts.subrange(
                worker_start(height, workers, t) * width,
                worker_end(height, workers, t) * width,
            ),
    )
}

/// The pieces of the first `k` workers, put together, are the counts of
/// the rows done by them.
proof fn lemma_split_prefix(counts: Seq<u32>, width: int, height: int, workers: int, k: int)
    requires
        width >= 0,
        height >= 0,
        workers > 0,
        0 <= k <= workers,
        counts.len() == width * height,
    ensures
        split_rows(counts, width, height, workers).take(k).flatten() == counts.take(
            rows_done(height, workers, k) * width,
        ),
    decreases k,
{
    let pieces = split_rows(counts, width, height, workers);
    if k == 0 {
        assert(pieces.take(0) =~= Seq::<Seq<u32>>::empty());
        assert(counts.take(0) =~= Seq::<u32>::empty());
    } else {
        let t = k - 1;
        lemma_split_prefix(counts, width, height, workers, t);
        lemma_rows_partition(height, workers, t);
        if t > 0 {
            lemma_rows_partition(height, workers, t - 1);
        }
        let start = worker_start(height, workers, t);
        let end = worker_end(height, workers, t);
        assert(rows_done(height, workers, t) == start);
        lemma_rows_cells(start, end, width, height);
        assert(height * width == width * height) by (nonlinear_arith);
        assert(pieces.take(k) =~= pieces.take(t).push(pieces[t]));
        pieces.take(t).lemma_flatten_push(pieces[t]);
        assert(counts.take(start * width) + counts.subrange(start * width, end * width)
            =~= counts.take(end * width));
    }
}

/// Gathering, in worker order, the rows that each worker computed gives
/// back the whole image, whatever the number of workers: an image computed
/// by one worker and one computed by eight are the same.
pub proof fn lemma_gather_independent_of_workers(
    counts: Seq<u32>,
    width: nat,
    height: nat,
    workers: nat,
    other: nat,
)
    requires
        workers > 0,
        other > 0,
        counts.len() == width * height,
    ensures
        forall|t: int|
            0 <= t < workers ==> (#[trigger] split_rows(counts, width as int, height as int, workers as int)[t]).len()
                == (worker_end(height as int, workers as int, t) - worker_start(
                height as int,
                workers as int,
                t,
            )) * width,
        split_rows(counts, width as int, height as int, workers as int).flatten() == counts,
        split_rows(counts, width as int, height as int, workers as int).flatten() == split_rows(
            counts,
            width as int,
            height as int,
            other as int,
        ).flatten(),
{
    assert(height * width == width * height) by (nonlinear_arith);
    assert forall|t: int| 0 <= t < workers implies (#[trigger] split_rows(
        counts,
        width as int,
        height as int,
        workers as int,
    )[t]).len() == (worker_end(height as int, workers as int, t) - worker_start(
        height as int,
        workers as int,
        t,
    )) * width by {
        lemma_rows_partition(height as int, workers as int, t);
        lemma_rows_cells(
            worker_start(height as int, workers as int, t),
            worker_end(height as int, workers as int, t),
            width as int,
            height as int,
        );
    }
    let pieces = split_rows(counts, width as int, height as int, workers as int);
    let others = split_rows(counts, width as int, height as int, other as int);
    lemma_split_prefix(counts, width as int, height as int, workers as int, workers as int);
    lemma_split_prefix(counts, width as int, height as int, other as int, other as int);
    lemma_rows_partition(height as int, workers as int, workers - 1);
    lemma_rows_partition(height as int, other as int, other - 1);
    assert(pieces.take(workers as int) =~= pieces);
    assert(others.take(other as int) =~= others);
    assert(counts.take(counts.len() as int) =~= counts);
}

} // verus!
