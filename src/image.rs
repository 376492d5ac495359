use vstd::arithmetic::div_mod::lemma_fundamental_div_mod_converse;
use vstd::prelude::*;

verus! {

/// What one pixel of a generated frame holds.
#[derive(Clone, Copy, Debug, PartialEq, Eq)]
pub struct MandelPixel {
    pub x: i32,
    pub y: i32,
    /// Raw escape count, at most the image's iteration budget.
    pub iterations: u32,
    /// Escape count after histogram equalization.
    pub iterations_equalized: u32,
}

impl MandelPixel {
    /// A pixel at `(x, y)` with both counts zero.
    pub fn new(x: i32, y: i32) -> (p: Self)
        ensures
            p == (MandelPixel { x, y, iterations: 0, iterations_equalized: 0 }),
    {
        MandelPixel { x, y, iterations: 0, iterations_equalized: 0 }
    }
}

/// Mathematical model of a [`MandelImage`].
pub struct ImageModel {
    pub width: nat,
    pub height: nat,
    pub max_iterations: nat,
    /// Row-major cells: the pixel `(x, y)` is at `x + y * width`.
    pub cells: Seq<MandelPixel>,
}

impl ImageModel {
    /// Index of the pixel `(x, y)` in `cells`.
    pub open spec fn index_of(self, x: int, y: int) -> int {
        x + y * self.width
    }

    /// Raw escape counts, cell by cell.
    pub open spec fn iterations(self) -> Seq<u32> {
        self.cells.map_values(|p: MandelPixel| p.iterations)
    }

    /// Equalized escape counts, cell by cell.
    pub open spec fn equalized(self) -> Seq<u32> {
        self.cells.map_values(|p: MandelPixel| p.iterations_equalized)
    }

    /// One cell per pixel, each knowing its own coordinates, and every
    /// count within the iteration budget. Every constructor and mutator of
    /// [`MandelImage`] keeps it.
    pub open spec fn wf(self) -> bool {
        &&& self.width <= i32::MAX
        &&& self.height <= i32::MAX
        &&& self.cells.len() == self.width * self.height
        &&& self.cells.len() <= usize::MAX
        &&& forall|i: int|
            0 <= i < self.cells.len() ==> {
                &&& (#[trigger] self.cells[i]).x == i % (self.width as int)
                &&& self.cells[i].y == i / (self.width as int)
                &&& self.cells[i].iterations <= self.max_iterations
                &&& self.cells[i].iterations_equalized <= self.max_iterations
            }
    }
}

/// Iteration counts of one frame, row-major.
pub struct MandelImage {
    width: u32,
    height: u32,
    max_iterations: u32,
    data: Vec<MandelPixel>,
}

impl View for MandelImage {
    type V = ImageModel;

    closed spec fn view(&self) -> ImageModel {
        ImageModel {
            width: self.width as nat,
            height: self.height as nat,
            max_iterations: self.max_iterations as nat,
            cells: self.data@,
        }
    }
}

impl MandelImage {
    /// The cell at index `i` of a new image `width` wide.
    spec fn fresh_at(p: MandelPixel, i: int, width: int) -> bool {
        &&& p.x == i % width
        &&& p.y == i / width
        &&& p.iterations == 0
        &&& p.iterations_equalized == 0
    }

    /// A `width` by `height` image for the budget `max_iterations`, with
    /// every count zero.
    pub fn new(width: u32, height: u32, max_iterations: u32) -> (img: Self)
        requires
            width <= i32::MAX,
            height <= i32::MAX,
            width * height <= usize::MAX,
        ensures
            img@.wf(),
            img@.width == width,
            img@.height == height,
            img@.max_iterations == max_iterations,
            forall|i: int|
                0 <= i < img@.cells.len() ==> (#[trigger] img@.cells[i]).iterations == 0
                    && img@.cells[i].iterations_equalized == 0,
    {
        let mut pixels: Vec<MandelPixel> = Vec::new();
        for y in 0..height
            invariant
                width <= i32::MAX,
                height <= i32::MAX,
                pixels@.len() == y * width,
                forall|i: int|
                    0 <= i < pixels@.len() ==> Self::fresh_at(#[trigger] pixels@[i], i, width as int),
        {
            for x in 0..width
                invariant
                    width <= i32::MAX,
                    y < height <= i32::MAX,
                    pixels@.len() == y * width + x,
                    forall|i: int|
                        0 <= i < pixels@.len() ==> Self::fresh_at(#[trigger] pixels@[i], i, width as int),
            {
                proof {
                    lemma_fundamental_div_mod_converse(
                        pixels@.len() as int,
                        width as int,
                        y as int,
                        x as int,
                    );
                }
                pixels.push(MandelPixel::new(x as i32, y as i32));
            }
            assert(pixels@.len() == (y + 1) * width) by (nonlinear_arith)
                requires
                    pixels@.len() == y * width + width,
            ;
        }
        assert(pixels@.len() == width * height) by (nonlinear_arith)
            requires
                pixels@.len() == height * width,
        ;
        MandelImage { width, height, max_iterations, data: pixels }
    }

    /// Raw escape count of the pixel `(x, y)`.
    pub fn iterations(&self, x: i32, y: i32) -> (r: u32)
        requires
            self@.wf(),
            0 <= x < self@.width,
            0 <= y < self@.height,
        ensures
            r == self@.cells[self@.index_of(x as int, y as int)].iterations,
    {
        proof {
            lemma_index_in_grid(x as int, y as int, self@.width as int, self@.height as int);
        }
        let len = self.data.len();
        assert(y * self.width <= x + y * self.width < len);
        self.data[x as usize + y as usize * self.width as usize].iterations
    }

    /// Writes `iters` as the raw counts of consecutive cells, starting with
    /// the first cell of row `rows.start`; every other part of the image
    /// stays as it was.
    pub fn set_iterations(&mut self, rows: std::ops::Range<i32>, iters: &[u32])
        requires
            old(self)@.wf(),
            0 <= rows.start,
            rows.start * old(self)@.width + iters@.len() <= old(self)@.cells.len(),
            forall|i: int| 0 <= i < iters@.len() ==> #[trigger] iters@[i] <= old(self)@.max_iterations,
        ensures
            final(self)@.wf(),
            final(self)@.width == old(self)@.width,
            final(self)@.height == old(self)@.height,
            final(self)@.max_iterations == old(self)@.max_iterations,
            final(self)@.iterations() == old(self)@.iterations().take(rows.start * old(self)@.width)
                + iters@ + old(self)@.iterations().skip(rows.start * old(self)@.width + iters@.len()),
            final(self)@.equalized() == old(self)@.equalized(),
    {
        let ghost before = self@;
        let len = self.data.len();
        let start = rows.start as usize * self.width as usize;
        let n = iters.len();
        for k in 0..n
            invariant
                n == iters@.len(),
                start == rows.start * before.width,
                start + n <= before.cells.len(),
                len == before.cells.len(),
                forall|i: int| 0 <= i < n ==> #[trigger] iters@[i] <= before.max_iterations,
                self@.width == before.width,
                self@.height == before.height,
                self@.max_iterations == before.max_iterations,
                self@.cells.len() == before.cells.len(),
                forall|i: int|
                    0 <= i < self@.cells.len() ==> #[trigger] self@.cells[i] == if start <= i < start
                        + k {
                        MandelPixel { iterations: iters@[i - start], ..before.cells[i] }
                    } else {
                        before.cells[i]
                    },
                before.wf(),
                self@.wf(),
        {
            self.data[start + k].iterations = iters[k];
        }
        proof {
            assert(self@.iterations() =~= before.iterations().take(start as int) + iters@
                + before.iterations().skip(start + n));
            assert(self@.equalized() =~= before.equalized());
        }
    }

    /// Sets the equalized count of every cell to the entry of `table` at
    /// the cell's raw count.
    pub(crate) fn set_equalized(&mut self, table: &[u32])
        requires
            old(self)@.wf(),
            table@.len() > old(self)@.max_iterations,
            forall|n: int| 0 <= n < table@.len() ==> #[trigger] table@[n] <= old(self)@.max_iterations,
        ensures
            final(self)@.wf(),
            final(self)@.width == old(self)@.width,
            final(self)@.height == old(self)@.height,
            final(self)@.max_iterations == old(self)@.max_iterations,
            final(self)@.iterations() == old(self)@.iterations(),
            final(self)@.cells.len() == old(self)@.cells.len(),
            forall|i: int|
                0 <= i < final(self)@.cells.len() ==> (#[trigger] final(self)@.cells[i]).iterations_equalized
                    == table@[old(self)@.cells[i].iterations as int],
    {
        let ghost before = self@;
        let len = self.data.len();
        for i in 0..len
            invariant
                len == before.cells.len(),
                before.wf(),
                table@.len() > before.max_iterations,
                forall|n: int| 0 <= n < table@.len() ==> #[trigger] table@[n] <= before.max_iterations,
                self@.width == before.width,
                self@.height == before.height,
                self@.max_iterations == before.max_iterations,
                self@.cells.len() == len,
                self@.wf(),
                forall|j: int|
                    0 <= j < len ==> #[trigger] self@.cells[j] == if j < i {
                        MandelPixel {
                            iterations_equalized: table@[before.cells[j].iterations as int],
                            ..before.cells[j]
                        }
                    } else {
                        before.cells[j]
                    },
        {
            let raw = self.data[i].iterations as usize;
            self.data[i].iterations_equalized = table[raw];
        }
        proof {
            assert(self@.iterations() =~= before.iterations());
        }
    }

    /// Width in pixels.
    pub fn width(&self) -> (r: u32)
        ensures
            r == self@.width,
    {
        self.width
    }

    /// Height in pixels.
    pub fn height(&self) -> (r: u32)
        ensures
            r == self@.height,
    {
        self.height
    }

    /// The iteration budget the image was made for.
    pub fn max_iterations(&self) -> (r: u32)
        ensures
            r == self@.max_iterations,
    {
        self.max_iterations
    }

    /// Every cell, row-major.
    pub fn pixels(&self) -> (r: &[MandelPixel])
        ensures
            r@ == self@.cells,
    {
        self.data.as_slice()
    }
}

/// The pixel `(x, y)` of a `width` by `height` grid has an index below
/// `width * height`.
proof fn lemma_index_in_grid(x: int, y: int, width: int, height: int)
    requires
        0 <= x < width,
        0 <= y < height,
    ensures
        0 <= x + y * width < width * height,
{
    assert(0 <= x + y * width < width * height) by (nonlinear_arith)
        requires
            0 <= x < width,
            0 <= y < height,
    ;
}

} // verus!
