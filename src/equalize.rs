use crate::image::MandelImage;
use vstd::arithmetic::div_mod::{lemma_div_is_ordered, lemma_div_pos_is_pos, lemma_fundamental_div_mod};
use vstd::prelude::*;

verus! {

/// Number of counts in `s` that are at most `n`.
pub open spec fn count_at_most(s: Seq<u32>, n: int) -> nat
    decreases s.len(),
{
    if s.len() == 0 {
        0
    } else {
        count_at_most(s.drop_last(), n) + if s.last() <= n {
            1nat
        } else {
            0nat
        }
    }
}

/// Number of counts in `s` equal to `n`.
spec fn count_equal(s: Seq<u32>, n: int) -> nat
    decreases s.len(),
{
    if s.len() == 0 {
        0
    } else {
        count_equal(s.drop_last(), n) + if s.last() == n {
            1nat
        } else {
            0nat
        }
    }
}

/// `a / b` rounded to the nearest integer, halves upwards.
pub open spec fn round_div(a: int, b: int) -> int {
    (2 * a + b) / (2 * b)
}

/// Number of counts strictly between 0 and `max`: the cumulative
/// distribution of the escaping counts, less its first bucket.
pub open spec fn escape_spread(s: Seq<u32>, max: int) -> int {
    count_at_most(s, max - 1) - count_at_most(s, 0)
}

/// The equalized value of the raw count `n`, in an image whose raw counts
/// are `s` and whose budget is `max`.
///
/// An in-set count (`max`) stays as it is. An escaping count `n` becomes
/// `(cdf(n) - cdf(0)) / spread * (max - 1)`, rounded, where `cdf(n)` is the
/// number of cells with a count of at most `n` and `spread` is
/// [`escape_spread`]. Where no count lies strictly between 0 and `max` the
/// spread is zero, and each count stays as it is.
pub open spec fn equalized_count(s: Seq<u32>, max: int, n: int) -> int {
    if n == max {
        max
    } else if escape_spread(s, max) == 0 {
        n
    } else {
        round_div((count_at_most(s, n) - count_at_most(s, 0)) * (max - 1), escape_spread(s, max))
    }
}

/// No more counts are at most `n` than there are counts.
proof fn lemma_count_bounds(s: Seq<u32>, n: int)
    ensures
        count_at_most(s, n) <= s.len(),
        count_equal(s, n) <= s.len(),
    decreases s.len(),
{
    if s.len() > 0 {
        lemma_count_bounds(s.drop_last(), n);
    }
}

/// Counting up to `n` counts the cells up to `n - 1` and those at `n`.
proof fn lemma_count_step(s: Seq<u32>, n: int)
    ensures
        count_at_most(s, n) == count_at_most(s, n - 1) + count_equal(s, n),
    decreases s.len(),
{
    if s.len() > 0 {
        lemma_count_step(s.drop_last(), n);
    }
}

/// No count is below zero.
proof fn lemma_count_below_zero(s: Seq<u32>)
    ensures
        count_at_most(s, -1) == 0,
    decreases s.len(),
{
    if s.len() > 0 {
        lemma_count_below_zero(s.drop_last());
    }
}

/// Counting up to a larger bound counts no fewer cells.
proof fn lemma_count_monotonic(s: Seq<u32>, n: int, m: int)
    requires
        n <= m,
    ensures
        count_at_most(s, n) <= count_at_most(s, m),
    decreases s.len(),
{
    if s.len() > 0 {
        lemma_count_monotonic(s.drop_last(), n, m);
    }
}

/// Rounding `a / b` is monotonic in `a`, and stays below `max` while
/// `a <= b * (max - 1)`.
proof fn lemma_round_div(a: int, c: int, b: int, max: int)
    requires
        0 <= a <= c,
        0 < b,
        c <= b * (max - 1),
        max >= 1,
    ensures
        0 <= round_div(a, b) <= round_div(c, b) <= max - 1,
{
    lemma_div_is_ordered(2 * a + b, 2 * c + b, 2 * b);
    lemma_div_pos_is_pos(2 * a + b, 2 * b);
    let x = 2 * c + b;
    let q = x / (2 * b);
    lemma_fundamental_div_mod(x, 2 * b);
    assert(q <= max - 1) by (nonlinear_arith)
        requires
            x == (2 * b) * q + x % (2 * b),
            0 <= x % (2 * b),
            x == 2 * c + b,
            c <= b * (max - 1),
            b > 0,
    ;
}

/// Equalization keeps the order of raw counts, keeps every count within
/// `0..=max`, and leaves an in-set count at `max`.
pub proof fn lemma_equalize_monotonic(s: Seq<u32>, max: nat, n: int, m: int)
    requires
        0 <= n <= m <= max,
    ensures
        equalized_count(s, max as int, n) <= equalized_count(s, max as int, m),
        0 <= equalized_count(s, max as int, n) <= max,
        equalized_count(s, max as int, max as int) == max,
{
    let spread = escape_spread(s, max as int);
    lemma_count_monotonic(s, 0, n);
    lemma_count_monotonic(s, n, m);
    if n < max && spread != 0 {
        lemma_count_monotonic(s, 0, max - 1);
        let a = (count_at_most(s, n) - count_at_most(s, 0)) * (max - 1);
        let top = spread * (max - 1);
        lemma_count_monotonic(s, n, max - 1);
        assert(0 <= a <= top) by (nonlinear_arith)
            requires
                a == (count_at_most(s, n) - count_at_most(s, 0)) * (max - 1),
                top == spread * (max - 1),
                0 <= count_at_most(s, n) - count_at_most(s, 0) <= spread,
                max >= 1,
        ;
        if m < max {
            let c = (count_at_most(s, m) - count_at_most(s, 0)) * (max - 1);
            lemma_count_monotonic(s, m, max - 1);
            assert(a <= c <= top) by (nonlinear_arith)
                requires
                    a == (count_at_most(s, n) - count_at_most(s, 0)) * (max - 1),
                    c == (count_at_most(s, m) - count_at_most(s, 0)) * (max - 1),
                    top == spread * (max - 1),
                    count_at_most(s, n) <= count_at_most(s, m),
                    count_at_most(s, m) - count_at_most(s, 0) <= spread,
                    max >= 1,
            ;
            lemma_round_div(a, c, spread, max as int);
        } else {
            lemma_round_div(a, top, spread, max as int);
        }
    }
}

/// Histogram equalization: sets the equalized count of every cell to
/// [`equalized_count`] of its raw count, leaving everything else as it was.
pub fn equalize_image(image: &mut MandelImage)
    requires
        old(image)@.wf(),
        old(image)@.max_iterations < usize::MAX,
    ensures
        final(image)@.wf(),
        final(image)@.width == old(image)@.width,
        final(image)@.height == old(image)@.height,
        final(image)@.max_iterations == old(image)@.max_iterations,
        final(image)@.iterations() == old(image)@.iterations(),
        final(image)@.cells.len() == old(image)@.cells.len(),
        forall|i: int|
            0 <= i < final(image)@.cells.len() ==> (#[trigger] final(image)@.cells[i]).iterations_equalized
                == equalized_count(
                old(image)@.iterations(),
                old(image)@.max_iterations as int,
                old(image)@.cells[i].iterations as int,
            ),
{
    let ghost before = image@;
    let ghost s = image@.iterations();
    let max = image.max_iterations();
    let size = max as usize + 1;

    // how many cells have each raw count
    let mut counts: Vec<usize> = Vec::new();
    while counts.len() < size
        invariant
            counts@.len() <= size,
            forall|v: int| 0 <= v < counts@.len() ==> #[trigger] counts@[v] == 0,
        decreases size - counts@.len(),
    {
        counts.push(0);
    }
    let cells = image.pixels();
    let len = cells.len();
    for i in 0..len
        invariant
            len == s.len(),
            cells@ == before.cells,
            s == before.iterations(),
            before.wf(),
            max == before.max_iterations,
            size == max + 1,
            counts@.len() == size,
            forall|v: int| 0 <= v < size ==> #[trigger] counts@[v] == count_equal(s.take(i as int), v),
    {
        proof {
            assert(s.take(i + 1).drop_last() =~= s.take(i as int));
            lemma_count_bounds(s.take(i as int), cells@[i as int].iterations as int);
        }
        let raw = cells[i].iterations as usize;
        counts.set(raw, counts[raw] + 1);
    }
    proof {
        assert(s.take(len as int) =~= s);
    }

    // cumulative distribution of the escaping counts
    let mut cdf: Vec<usize> = Vec::new();
    let mut last: usize = 0;
    proof {
        lemma_count_below_zero(s);
    }
    for n in 0..max as usize
        invariant
            len == s.len(),
            size == max + 1,
            counts@.len() == size,
            forall|v: int| 0 <= v < size ==> #[trigger] counts@[v] == count_equal(s, v),
            cdf@.len() == n,
            forall|k: int| 0 <= k < n ==> #[trigger] cdf@[k] == count_at_most(s, k),
            last == count_at_most(s, n - 1),
    {
        proof {
            lemma_count_step(s, n as int);
            lemma_count_bounds(s, n as int);
        }
        last = last + counts[n];
        cdf.push(last);
    }

    // the equalized value of each raw count
    let mut table: Vec<u32> = Vec::new();
    let spread: usize = if max > 0 {
        proof {
            lemma_count_monotonic(s, 0, max - 1);
        }
        last - cdf[0]
    } else {
        0
    };
    assert(max > 0 ==> spread == escape_spread(s, max as int));
    for n in 0..max
        invariant
            size == max + 1,
            cdf@.len() == max,
            forall|k: int| 0 <= k < max ==> #[trigger] cdf@[k] == count_at_most(s, k),
            max > 0 ==> spread == escape_spread(s, max as int),
            table@.len() == n,
            forall|k: int|
                0 <= k < n ==> #[trigger] table@[k] == equalized_count(s, max as int, k),
    {
        proof {
            lemma_equalize_monotonic(s, max as nat, n as int, n as int);
            lemma_count_monotonic(s, 0, n as int);
        }
        let value: u32 = if spread == 0 {
            n
        } else {
            let above_first = (cdf[n as usize] - cdf[0]) as u128;
            assert(above_first <= u64::MAX);
            assert(above_first * (max - 1) <= u64::MAX * u32::MAX) by (nonlinear_arith)
                requires
                    above_first <= u64::MAX,
                    0 <= max - 1 <= u32::MAX,
            ;
            let scaled = above_first * (max - 1) as u128;
            ((2 * scaled + spread as u128) / (2 * spread as u128)) as u32
        };
        table.push(value);
    }
    table.push(max);
    proof {
        assert forall|n: int| 0 <= n < table@.len() implies #[trigger] table@[n] <= max by {
            lemma_equalize_monotonic(s, max as nat, n, n);
        }
    }
    image.set_equalized(table.as_slice());
}

} // verus!
