use ndarray::Array2;
use vstd::prelude::*;

verus! {

// ---------------------------------------------------------------------------
// The count grid: an `ndarray` two-dimensional array of hit counts.
// ---------------------------------------------------------------------------

/// A two-dimensional grid of hit counts, indexed by (row, column), held in an
/// `ndarray::Array2<u64>`.
#[verifier::external_body]
pub struct CountGrid {
    cells: Array2<u64>,
}

/// The counts that a grid holds, keyed by (row, column).  Only the keys inside
/// the grid's shape are meaningful.
pub uninterp spec fn grid_counts(grid: CountGrid) -> Map<(int, int), u64>;

/// The (rows, columns) shape that a grid was made with.
pub uninterp spec fn grid_shape(grid: CountGrid) -> (nat, nat);

/// True when (row, col) lies inside a grid of the given shape.
pub open spec fn in_shape(shape: (nat, nat), row: int, col: int) -> bool {
    0 <= row < shape.0 && 0 <= col < shape.1
}

/// The product of the nonzero lengths among `a` and `b`.
pub open spec fn nonzero_product(a: nat, b: nat) -> nat {
    (if a == 0 { 1nat } else { a }) * (if b == 0 { 1nat } else { b })
}

/// A grid of `rows` by `cols` counts can be allocated: `ndarray` refuses shapes
/// whose nonzero lengths multiply past `isize::MAX`, and the buffer of 8-byte
/// counts must not exceed `isize::MAX` bytes.
pub open spec fn grid_fits(rows: nat, cols: nat) -> bool {
    &&& nonzero_product(rows, cols) <= isize::MAX
    &&& rows * cols * 8 <= isize::MAX
}

/// `ndarray::Array2::from_elem((rows, cols), value)`: an array of the given
/// shape whose every element is `value`.  The contract claims the shape and
/// that every in-shape element equals `value`; the call panics on shapes that
/// `grid_fits` leaves out, which `requires` excludes.
#[verifier::external_body]
fn grid_from_elem(rows: usize, cols: usize, value: u64) -> (grid: CountGrid)
    requires
        grid_fits(rows as nat, cols as nat),
    ensures
        grid_shape(grid) == (rows as nat, cols as nat),
        forall|r: int, c: int|
            in_shape(grid_shape(grid), r, c) ==> #[trigger] grid_counts(grid)[(r, c)] == value,
{
    CountGrid { cells: Array2::from_elem((rows, cols), value) }
}

/// `ndarray` `nrows()`: the length of axis 0 of the array.
#[verifier::external_body]
fn grid_nrows(grid: &CountGrid) -> (n: usize)
    ensures
        n == grid_shape(*grid).0,
{
    grid.cells.nrows()
}

/// `ndarray` `ncols()`: the length of axis 1 of the array.
#[verifier::external_body]
fn grid_ncols(grid: &CountGrid) -> (n: usize)
    ensures
        n == grid_shape(*grid).1,
{
    grid.cells.ncols()
}

/// `ndarray` `Index<(usize, usize)>`: a reference to the element at
/// (row, col).  The call panics outside the shape, which `requires` excludes.
#[verifier::external_body]
fn grid_index(grid: &CountGrid, row: usize, col: usize) -> (v: &u64)
    requires
        in_shape(grid_shape(*grid), row as int, col as int),
    ensures
        *v == grid_counts(*grid)[(row as int, col as int)],
{
    &grid.cells[(row, col)]
}

/// `ndarray` `IndexMut<(usize, usize)>`: a mutable reference to the element
/// at (row, col).  Whatever is written through it becomes the element; the
/// shape and every other element stay as they were.  The call panics outside
/// the shape, which `requires` excludes.
#[verifier::external_body]
fn grid_index_mut(grid: &mut CountGrid, row: usize, col: usize) -> (v: &mut u64)
    requires
        in_shape(grid_shape(*old(grid)), row as int, col as int),
    ensures
        *v == grid_counts(*old(grid))[(row as int, col as int)],
        grid_shape(*final(grid)) == grid_shape(*old(grid)),
        grid_counts(*final(grid))[(row as int, col as int)] == *final(v),
        forall|r: int, c: int|
            in_shape(grid_shape(*old(grid)), r, c) && (r, c) != (row as int, col as int)
                ==> #[trigger] grid_counts(*final(grid))[(r, c)] == grid_counts(*old(grid))[(
                r,
                c,
            )],
{
    &mut grid.cells[(row, col)]
}

/// `ndarray` `Clone` of an owned array: a new array with the same shape and
/// a copy of every element.
#[verifier::external_body]
fn grid_clone(grid: &CountGrid) -> (copy: CountGrid)
    ensures
        grid_shape(copy) == grid_shape(*grid),
        forall|r: int, c: int|
            in_shape(grid_shape(*grid), r, c) ==> #[trigger] grid_counts(copy)[(r, c)]
                == grid_counts(*grid)[(r, c)],
{
    CountGrid { cells: grid.cells.clone() }
}

/// `ndarray` `fill(value)`: every element of the array becomes `value`; the
/// shape stays as it was.
#[verifier::external_body]
fn grid_fill(grid: &mut CountGrid, value: u64)
    ensures
        grid_shape(*final(grid)) == grid_shape(*old(grid)),
        forall|r: int, c: int|
            in_shape(grid_shape(*final(grid)), r, c) ==> #[trigger] grid_counts(*final(grid))[(
                r,
                c,
            )] == value,
{
    grid.cells.fill(value)
}

// ---------------------------------------------------------------------------
// The histogram model.
// ---------------------------------------------------------------------------

/// What a histogram is: its size, the hit count of each cell keyed by (x, y),
/// and the recorded maximum count.
#[verifier::ext_equal]
pub struct HistogramView {
    pub width: nat,
    pub height: nat,
    pub counts: Map<(int, int), u64>,
    pub count_max: u64,
}

impl HistogramView {
    /// True when (x, y) names a cell of the histogram.
    pub open spec fn in_bounds(self, x: int, y: int) -> bool {
        0 <= x < self.width && 0 <= y < self.height
    }

    /// The set of cells of a `width` by `height` histogram.
    pub open spec fn cells_of(width: nat, height: nat) -> Set<(int, int)> {
        Set::new(|k: (int, int)| 0 <= k.0 < width && 0 <= k.1 < height)
    }

    /// The hit count of cell (x, y).
    pub open spec fn count(self, x: int, y: int) -> u64 {
        self.counts[(x, y)]
    }

    /// A `width` by `height` histogram with every count and the maximum at 0.
    pub open spec fn empty(width: nat, height: nat) -> HistogramView {
        HistogramView {
            width,
            height,
            counts: Map::new(|k: (int, int)| 0 <= k.0 < width && 0 <= k.1 < height, |k: (int, int)| 0u64),
            count_max: 0,
        }
    }

    /// The histogram with the count of cell (x, y) replaced by `v`.
    pub open spec fn with_count(self, x: int, y: int, v: u64) -> HistogramView {
        HistogramView { counts: self.counts.insert((x, y), v), ..self }
    }

    /// The histogram with the recorded maximum replaced by `m`.
    pub open spec fn with_count_max(self, m: u64) -> HistogramView {
        HistogramView { count_max: m, ..self }
    }

    /// True when `cell` is `None` or names a cell of the histogram.
    pub open spec fn holds_cell(self, cell: Option<(int, int)>) -> bool {
        match cell {
            Some(c) => self.in_bounds(c.0, c.1),
            None => true,
        }
    }

    /// The histogram after one iteration that recorded a hit in `cell`, or
    /// none when `cell` is `None`.
    pub open spec fn after_step(self, cell: Option<(int, int)>) -> HistogramView {
        match cell {
            Some(c) => self.with_count(c.0, c.1, (self.count(c.0, c.1) + 1) as u64),
            None => self,
        }
    }

    /// The histogram after iterations that recorded hits in the given cells,
    /// one iteration after the other.
    pub open spec fn after_steps(self, steps: Seq<Option<(int, int)>>) -> HistogramView
        decreases steps.len(),
    {
        if steps.len() == 0 {
            self
        } else {
            self.after_steps(steps.drop_last()).after_step(steps.last())
        }
    }

    /// The counts are defined exactly on the cells of the histogram.
    pub open spec fn wf(self) -> bool {
        self.counts.dom() == HistogramView::cells_of(self.width, self.height)
    }
}

/// The hit-count histogram of a fractal flame: one count per image cell,
/// addressed by (x, y) with x the column and y the row, and a recorded maximum
/// count.
pub struct Histogram {
    cells: CountGrid,
    count_max: u64,
}

impl View for Histogram {
    type V = HistogramView;

    closed spec fn view(&self) -> HistogramView {
        let shape = grid_shape(self.cells);
        HistogramView {
            width: shape.1,
            height: shape.0,
            counts: Map::new(
                |k: (int, int)| 0 <= k.0 < shape.1 && 0 <= k.1 < shape.0,
                |k: (int, int)| grid_counts(self.cells)[(k.1, k.0)],
            ),
            count_max: self.count_max,
        }
    }
}

/// The view of every histogram has its counts defined exactly on its cells.
pub broadcast proof fn lemma_histogram_view_wf(h: Histogram)
    ensures
        #[trigger] h@.wf(),
{
    assert(h@.counts.dom() =~= HistogramView::cells_of(h@.width, h@.height));
}

impl Clone for Histogram {
    /// A copy of the histogram: same size, counts and recorded maximum.
    fn clone(&self) -> (copy: Self)
        ensures
            copy@ == self@,
    {
        let copy = Histogram { cells: grid_clone(&self.cells), count_max: self.count_max };
        assert(copy@.counts =~= self@.counts);
        copy
    }
}

impl Histogram {
    /// A `width` by `height` histogram whose every count is 0, with maximum 0.
    pub fn new(width: usize, height: usize) -> (h: Self)
        requires
            grid_fits(height as nat, width as nat),
        ensures
            h@ == HistogramView::empty(width as nat, height as nat),
    {
        // Rows are indexed by y and columns by x.
        let cells = grid_from_elem(height, width, 0);
        let h = Self { cells, count_max: 0 };
        assert(h@.counts =~= HistogramView::empty(width as nat, height as nat).counts);
        h
    }

    /// Whether a `width` by `height` histogram can be made, that is whether
    /// `new` accepts these sizes.
    pub fn fits(width: usize, height: usize) -> (b: bool)
        ensures
            b == grid_fits(height as nat, width as nat),
    {
        let rows = height;
        let cols = width;
        let limit = isize::MAX as usize;
        let nonzero_rows: usize = if rows == 0 {
            1
        } else {
            rows
        };
        let nonzero_cols: usize = if cols == 0 {
            1
        } else {
            cols
        };
        match nonzero_rows.checked_mul(nonzero_cols) {
            None => {
                assert(nonzero_product(rows as nat, cols as nat) > isize::MAX);
                false
            },
            Some(product) => {
                if product > limit {
                    false
                } else {
                    match rows.checked_mul(cols) {
                        None => {
                            assert(rows * cols * 8 > isize::MAX) by (nonlinear_arith)
                                requires
                                    rows * cols > usize::MAX,
                                    usize::MAX >= isize::MAX,
                            ;
                            false
                        },
                        Some(cells) => match cells.checked_mul(8) {
                            None => false,
                            Some(bytes) => bytes <= limit,
                        },
                    }
                }
            },
        }
    }

    /// The number of columns.
    pub fn width(&self) -> (w: usize)
        ensures
            w == self@.width,
    {
        grid_ncols(&self.cells)
    }

    /// The number of rows.
    pub fn height(&self) -> (h: usize)
        ensures
            h == self@.height,
    {
        grid_nrows(&self.cells)
    }

    /// The recorded maximum count.
    pub fn count_max(&self) -> (m: u64)
        ensures
            m == self@.count_max,
    {
        self.count_max
    }

    /// Mutable access to the recorded maximum count; the counts stay as they
    /// are.
    pub fn count_max_mut(&mut self) -> (m: &mut u64)
        ensures
            *m == old(self)@.count_max,
            final(self)@ == old(self)@.with_count_max(*final(m)),
    {
        &mut self.count_max
    }

    /// The count of cell (x, y).
    pub fn get(&self, x: usize, y: usize) -> (c: &u64)
        requires
            self@.in_bounds(x as int, y as int),
        ensures
            *c == self@.count(x as int, y as int),
    {
        grid_index(&self.cells, y, x)
    }

    /// Mutable access to the count of cell (x, y): whatever is written through
    /// it becomes that cell's count, and nothing else changes.
    pub fn get_mut(&mut self, x: usize, y: usize) -> (c: &mut u64)
        requires
            old(self)@.in_bounds(x as int, y as int),
        ensures
            *c == old(self)@.count(x as int, y as int),
            final(self)@ == old(self)@.with_count(x as int, y as int, *final(c)),
    {
        let c = grid_index_mut(&mut self.cells, y, x);
        c
    }

    /// Records one hit in cell (x, y): its count grows by one and nothing else
    /// changes.
    pub fn record_hit(&mut self, x: usize, y: usize)
        requires
            old(self)@.in_bounds(x as int, y as int),
            old(self)@.count(x as int, y as int) < u64::MAX,
        ensures
            final(self)@ == old(self)@.after_step(Some((x as int, y as int))),
    {
        let c = self.get_mut(x, y);
        *c = *c + 1;
    }

    /// Sets every count and the recorded maximum back to 0: the histogram is
    /// then the one that `new` makes for its size.
    pub fn clear(&mut self)
        ensures
            final(self)@ == HistogramView::empty(old(self)@.width, old(self)@.height),
    {
        grid_fill(&mut self.cells, 0);
        self.count_max = 0;
        assert(self@.counts =~= HistogramView::empty(old(self)@.width, old(self)@.height).counts);
    }
}


// ---------------------------------------------------------------------------
// Merging the histograms of several workers.
// ---------------------------------------------------------------------------

/// The views of a sequence of histograms.
pub open spec fn views_of(parts: Seq<&Histogram>) -> Seq<HistogramView> {
    parts.map_values(|p: &Histogram| p@)
}

/// The sum of the counts of cell (x, y) over `parts`.
pub open spec fn sum_counts(parts: Seq<HistogramView>, x: int, y: int) -> int
    decreases parts.len(),
{
    if parts.len() == 0 {
        0
    } else {
        sum_counts(parts.drop_last(), x, y) + parts.last().count(x, y)
    }
}

/// `part` has every cell that `main` has.
pub open spec fn covers(part: HistogramView, main: HistogramView) -> bool {
    main.width == 0 || main.height == 0 || (main.width <= part.width && main.height
        <= part.height)
}

/// `main` with every count replaced by the sum of that cell's counts over
/// `parts`; its size and recorded maximum stay as they are.
pub open spec fn merged(main: HistogramView, parts: Seq<HistogramView>) -> HistogramView {
    HistogramView {
        counts: Map::new(
            |k: (int, int)| main.in_bounds(k.0, k.1),
            |k: (int, int)| sum_counts(parts, k.0, k.1) as u64,
        ),
        ..main
    }
}

/// A sum over a prefix of the parts never exceeds the sum over all of them.
pub proof fn lemma_sum_counts_prefix(parts: Seq<HistogramView>, i: int, x: int, y: int)
    requires
        0 <= i <= parts.len(),
    ensures
        0 <= sum_counts(parts.take(i), x, y) <= sum_counts(parts, x, y),
    decreases parts.len(),
{
    if parts.len() > 0 {
        if i == parts.len() {
            assert(parts.take(i) =~= parts);
            lemma_sum_counts_prefix(parts.drop_last(), i - 1, x, y);
        } else {
            assert(parts.take(i) =~= parts.drop_last().take(i));
            lemma_sum_counts_prefix(parts.drop_last(), i, x, y);
        }
    }
}

/// Whether `merge_counts` accepts `main` and `parts`: every part has every
/// cell of `main`, and every cell's counts add up to at most `u64::MAX`.
pub fn can_merge_counts(main: &Histogram, parts: &[&Histogram]) -> (b: bool)
    ensures
        b == ((forall|i: int| 0 <= i < parts@.len() ==> covers(#[trigger] parts@[i]@, main@))
            && (forall|x: int, y: int|
            main@.in_bounds(x, y) ==> #[trigger] sum_counts(views_of(parts@), x, y)
                <= u64::MAX)),
{
    let ghost parts_v = views_of(parts@);
    let width = main.width();
    let height = main.height();
    let mut i: usize = 0;
    while i < parts.len()
        invariant
            width == main@.width,
            height == main@.height,
            i <= parts.len(),
            forall|j: int| 0 <= j < i ==> covers(#[trigger] parts@[j]@, main@),
        decreases parts.len() - i,
    {
        let part: &Histogram = parts[i];
        if !(width == 0 || height == 0 || (width <= part.width() && height <= part.height())) {
            assert(!covers(parts@[i as int]@, main@));
            return false;
        }
        i = i + 1;
    }
    let mut y: usize = 0;
    while y < height
        invariant
            parts_v == views_of(parts@),
            forall|j: int| 0 <= j < parts@.len() ==> covers(#[trigger] parts@[j]@, main@),
            width == main@.width,
            height == main@.height,
            y <= height,
            forall|xx: int, yy: int|
                0 <= xx < width && 0 <= yy < y ==> #[trigger] sum_counts(parts_v, xx, yy)
                    <= u64::MAX,
        decreases height - y,
    {
        let mut x: usize = 0;
        while x < width
            invariant
                parts_v == views_of(parts@),
                forall|j: int| 0 <= j < parts@.len() ==> covers(#[trigger] parts@[j]@, main@),
                width == main@.width,
                height == main@.height,
                y < height,
                x <= width,
                forall|xx: int, yy: int|
                    (0 <= xx < width && 0 <= yy < y) || (0 <= xx < x && yy == y)
                        ==> #[trigger] sum_counts(parts_v, xx, yy) <= u64::MAX,
            decreases width - x,
        {
            let mut counts_sum: u64 = 0;
            let mut k: usize = 0;
            while k < parts.len()
                invariant
                    parts_v == views_of(parts@),
                    forall|j: int| 0 <= j < parts@.len() ==> covers(#[trigger] parts@[j]@, main@),
                    main@.in_bounds(x as int, y as int),
                    k <= parts.len(),
                    counts_sum == sum_counts(parts_v.take(k as int), x as int, y as int),
                decreases parts.len() - k,
            {
                let part: &Histogram = parts[k];
                assert(parts_v[k as int] == part@);
                let c = *part.get(x, y);
                proof {
                    assert(parts_v.take(k + 1).drop_last() =~= parts_v.take(k as int));
                    lemma_sum_counts_prefix(parts_v, k + 1, x as int, y as int);
                }
                match counts_sum.checked_add(c) {
                    None => {
                        assert(sum_counts(parts_v, x as int, y as int) > u64::MAX);
                        return false;
                    },
                    Some(next) => {
                        counts_sum = next;
                    },
                }
                k = k + 1;
            }
            assert(parts_v.take(parts.len() as int) =~= parts_v);
            x = x + 1;
        }
        y = y + 1;
    }
    true
}

/// Sets each count of `main` to the sum of that cell's counts over `parts`,
/// the counts of the workers' histograms.
pub fn merge_counts(main: &mut Histogram, parts: &[&Histogram])
    requires
        forall|i: int| 0 <= i < parts@.len() ==> covers(#[trigger] parts@[i]@, old(main)@),
        forall|x: int, y: int|
            old(main)@.in_bounds(x, y) ==> #[trigger] sum_counts(views_of(parts@), x, y)
                <= u64::MAX,
    ensures
        final(main)@ == merged(old(main)@, views_of(parts@)),
{
    broadcast use lemma_histogram_view_wf;

    let ghost parts_v = views_of(parts@);
    let width = main.width();
    let height = main.height();
    let mut y: usize = 0;
    while y < height
        invariant
            parts_v == views_of(parts@),
            forall|i: int| 0 <= i < parts@.len() ==> covers(#[trigger] parts@[i]@, old(main)@),
            forall|x: int, y: int|
                old(main)@.in_bounds(x, y) ==> #[trigger] sum_counts(parts_v, x, y) <= u64::MAX,
            width == old(main)@.width,
            height == old(main)@.height,
            y <= height,
            main@.width == width,
            main@.height == height,
            main@.count_max == old(main)@.count_max,
            forall|xx: int, yy: int|
                0 <= xx < width && 0 <= yy < y ==> #[trigger] main@.count(xx, yy) == sum_counts(
                    parts_v,
                    xx,
                    yy,
                ),
        decreases height - y,
    {
        let mut x: usize = 0;
        while x < width
            invariant
                parts_v == views_of(parts@),
                forall|i: int|
                    0 <= i < parts@.len() ==> covers(#[trigger] parts@[i]@, old(main)@),
                forall|x: int, y: int|
                    old(main)@.in_bounds(x, y) ==> #[trigger] sum_counts(parts_v, x, y)
                        <= u64::MAX,
                width == old(main)@.width,
                height == old(main)@.height,
                y < height,
                x <= width,
                main@.width == width,
                main@.height == height,
                main@.count_max == old(main)@.count_max,
                forall|xx: int, yy: int|
                    (0 <= xx < width && 0 <= yy < y) || (0 <= xx < x && yy == y)
                        ==> #[trigger] main@.count(xx, yy) == sum_counts(parts_v, xx, yy),
            decreases width - x,
        {
            let mut counts_sum: u64 = 0;
            let mut i: usize = 0;
            while i < parts.len()
                invariant
                    parts_v == views_of(parts@),
                    forall|i: int|
                        0 <= i < parts@.len() ==> covers(#[trigger] parts@[i]@, old(main)@),
                    old(main)@.in_bounds(x as int, y as int),
                    sum_counts(parts_v, x as int, y as int) <= u64::MAX,
                    i <= parts.len(),
                    counts_sum == sum_counts(parts_v.take(i as int), x as int, y as int),
                decreases parts.len() - i,
            {
                let part: &Histogram = parts[i];
                assert(parts_v[i as int] == part@);
                let c = *part.get(x, y);
                proof {
                    assert(parts_v.take(i + 1).drop_last() =~= parts_v.take(i as int));
                    lemma_sum_counts_prefix(parts_v, i + 1, x as int, y as int);
                }
                counts_sum = counts_sum + c;
                i = i + 1;
            }
            assert(parts_v.take(parts.len() as int) =~= parts_v);
            let ghost before = main@;
            let cell = main.get_mut(x, y);
            *cell = counts_sum;
            assert(main@ == before.with_count(x as int, y as int, counts_sum));
            assert forall|xx: int, yy: int|
                (0 <= xx < width && 0 <= yy < y) || (0 <= xx < x + 1 && yy == y) implies
                #[trigger] main@.count(xx, yy) == sum_counts(parts_v, xx, yy) by {
                if xx != x || yy != y {
                    assert(main@.count(xx, yy) == before.count(xx, yy));
                }
            }
            x = x + 1;
        }
        y = y + 1;
    }
    proof {
        lemma_histogram_view_wf(*main);
        let m = merged(old(main)@, parts_v);
        assert forall|k: (int, int)| #[trigger] m.counts.contains_key(k) implies main@.counts[k]
            == m.counts[k] by {
            lemma_sum_counts_prefix(parts_v, parts_v.len() as int, k.0, k.1);
            assert(parts_v.take(parts_v.len() as int) =~= parts_v);
            assert(main@.count(k.0, k.1) == sum_counts(parts_v, k.0, k.1));
        }
        assert(main@.counts =~= m.counts);
    }
}


// ---------------------------------------------------------------------------
// Laws.
// ---------------------------------------------------------------------------

/// Reading a cell after writing `v` to cell (x, y) gives `v` for that cell and
/// the old count for every other cell; the size and the recorded maximum are
/// kept.
pub proof fn lemma_write_then_read(h: HistogramView, x: int, y: int, v: u64, xx: int, yy: int)
    requires
        h.in_bounds(x, y),
        h.in_bounds(xx, yy),
    ensures
        h.with_count(x, y, v).count(xx, yy) == (if xx == x && yy == y {
            v
        } else {
            h.count(xx, yy)
        }),
        h.with_count(x, y, v).width == h.width,
        h.with_count(x, y, v).height == h.height,
        h.with_count(x, y, v).count_max == h.count_max,
{
}

/// Summing over the concatenation of two groups of parts adds their sums.
pub proof fn lemma_sum_counts_concat(a: Seq<HistogramView>, b: Seq<HistogramView>, x: int, y: int)
    ensures
        sum_counts(a + b, x, y) == sum_counts(a, x, y) + sum_counts(b, x, y),
    decreases b.len(),
{
    if b.len() == 0 {
        assert(a + b =~= a);
    } else {
        assert((a + b).drop_last() =~= a + b.drop_last());
        lemma_sum_counts_concat(a, b.drop_last(), x, y);
    }
}

/// The merged histogram does not depend on the order in which the workers'
/// histograms are given.
pub proof fn lemma_merge_order_independent(
    main: HistogramView,
    a: Seq<HistogramView>,
    b: Seq<HistogramView>,
)
    ensures
        merged(main, a + b) == merged(main, b + a),
{
    assert forall|k: (int, int)| main.in_bounds(k.0, k.1) implies #[trigger] merged(
        main,
        a + b,
    ).counts[k] == merged(main, b + a).counts[k] by {
        lemma_sum_counts_concat(a, b, k.0, k.1);
        lemma_sum_counts_concat(b, a, k.0, k.1);
    }
    assert(merged(main, a + b).counts =~= merged(main, b + a).counts);
}

/// Merging a single worker's histogram copies its counts.
pub proof fn lemma_merge_single(main: HistogramView, part: HistogramView, x: int, y: int)
    requires
        main.in_bounds(x, y),
    ensures
        merged(main, seq![part]).count(x, y) == part.count(x, y),
{
    let parts = seq![part];
    assert(parts.drop_last() =~= Seq::<HistogramView>::empty());
    assert(sum_counts(parts.drop_last(), x, y) == 0);
    assert(parts.last() == part);
    assert(sum_counts(parts, x, y) == part.count(x, y));
}

/// Merging no histogram at all sets every count to 0.
pub proof fn lemma_merge_nothing(main: HistogramView, x: int, y: int)
    requires
        main.in_bounds(x, y),
    ensures
        merged(main, Seq::<HistogramView>::empty()).count(x, y) == 0,
{
}

/// The sum of `f(x, y)` over the cells 0 <= x < `width` of row `y`.
pub open spec fn row_sum(f: spec_fn(int, int) -> int, width: nat, y: int) -> int
    decreases width,
{
    if width == 0 {
        0
    } else {
        row_sum(f, (width - 1) as nat, y) + f(width - 1, y)
    }
}

/// The sum of `f(x, y)` over the cells of a `width` by `height` grid.
pub open spec fn grid_sum(f: spec_fn(int, int) -> int, width: nat, height: nat) -> int
    decreases height,
{
    if height == 0 {
        0
    } else {
        grid_sum(f, width, (height - 1) as nat) + row_sum(f, width, height - 1)
    }
}

/// The number of hits a histogram holds over all its cells.
pub open spec fn total_hits(h: HistogramView) -> int {
    grid_sum(|x: int, y: int| h.count(x, y) as int, h.width, h.height)
}

/// The number of hits that a sequence of histograms hold together.
pub open spec fn parts_total_hits(parts: Seq<HistogramView>) -> int
    decreases parts.len(),
{
    if parts.len() == 0 {
        0
    } else {
        parts_total_hits(parts.drop_last()) + total_hits(parts.last())
    }
}

proof fn lemma_grid_sum_zero(f: spec_fn(int, int) -> int, width: nat, height: nat)
    requires
        forall|x: int, y: int| 0 <= x < width && 0 <= y < height ==> #[trigger] f(x, y) == 0,
    ensures
        grid_sum(f, width, height) == 0,
    decreases height,
{
    if height > 0 {
        lemma_grid_sum_zero(f, width, (height - 1) as nat);
        lemma_row_sum_zero(f, width, height - 1, height);
    }
}

proof fn lemma_row_sum_zero(f: spec_fn(int, int) -> int, width: nat, y: int, height: nat)
    requires
        0 <= y < height,
        forall|x: int, y: int| 0 <= x < width && 0 <= y < height ==> #[trigger] f(x, y) == 0,
    ensures
        row_sum(f, width, y) == 0,
    decreases width,
{
    if width > 0 {
        lemma_row_sum_zero(f, (width - 1) as nat, y, height);
    }
}

proof fn lemma_row_sum_linear(
    f: spec_fn(int, int) -> int,
    g: spec_fn(int, int) -> int,
    h: spec_fn(int, int) -> int,
    width: nat,
    y: int,
)
    requires
        forall|x: int| 0 <= x < width ==> #[trigger] h(x, y) == f(x, y) + g(x, y),
    ensures
        row_sum(h, width, y) == row_sum(f, width, y) + row_sum(g, width, y),
    decreases width,
{
    if width > 0 {
        lemma_row_sum_linear(f, g, h, (width - 1) as nat, y);
    }
}

proof fn lemma_grid_sum_linear(
    f: spec_fn(int, int) -> int,
    g: spec_fn(int, int) -> int,
    h: spec_fn(int, int) -> int,
    width: nat,
    height: nat,
)
    requires
        forall|x: int, y: int|
            0 <= x < width && 0 <= y < height ==> #[trigger] h(x, y) == f(x, y) + g(x, y),
    ensures
        grid_sum(h, width, height) == grid_sum(f, width, height) + grid_sum(g, width, height),
    decreases height,
{
    if height > 0 {
        lemma_grid_sum_linear(f, g, h, width, (height - 1) as nat);
        lemma_row_sum_linear(f, g, h, width, height - 1);
    }
}

/// The hits summed cell by cell over the parts are the parts' hits added up,
/// when every part has the given size.
proof fn lemma_grid_sum_of_sum_counts(parts: Seq<HistogramView>, width: nat, height: nat)
    requires
        forall|i: int|
            0 <= i < parts.len() ==> (#[trigger] parts[i]).width == width && parts[i].height
                == height,
    ensures
        grid_sum(|x: int, y: int| sum_counts(parts, x, y), width, height) == parts_total_hits(
            parts,
        ),
    decreases parts.len(),
{
    if parts.len() == 0 {
        lemma_grid_sum_zero(|x: int, y: int| sum_counts(parts, x, y), width, height);
    } else {
        let init = parts.drop_last();
        let last = parts.last();
        assert(forall|i: int| 0 <= i < init.len() ==> init[i] == parts[i]);
        lemma_grid_sum_of_sum_counts(init, width, height);
        assert(parts[parts.len() - 1] == last);
        let last_counts = |x: int, y: int| last.count(x, y) as int;
        lemma_grid_sum_linear(
            |x: int, y: int| sum_counts(init, x, y),
            last_counts,
            |x: int, y: int| sum_counts(parts, x, y),
            width,
            height,
        );
        assert(total_hits(last) == grid_sum(last_counts, width, height));
    }
}

/// Merging loses no hit and adds none: when every worker's histogram has the
/// size of the main one, the merged histogram holds exactly as many hits as
/// the workers' histograms together.
pub proof fn lemma_merge_keeps_total_hits(main: HistogramView, parts: Seq<HistogramView>)
    requires
        forall|i: int|
            0 <= i < parts.len() ==> (#[trigger] parts[i]).width == main.width
                && parts[i].height == main.height,
        forall|x: int, y: int|
            main.in_bounds(x, y) ==> #[trigger] sum_counts(parts, x, y) <= u64::MAX,
    ensures
        total_hits(merged(main, parts)) == parts_total_hits(parts),
{
    let m = merged(main, parts);
    assert forall|x: int, y: int| 0 <= x < main.width && 0 <= y < main.height implies #[trigger] (
    m.count(x, y) as int) == sum_counts(parts, x, y) + 0 by {
        lemma_sum_counts_prefix(parts, parts.len() as int, x, y);
        assert(parts.take(parts.len() as int) =~= parts);
    }
    let zero = |x: int, y: int| 0int;
    let m_counts = |x: int, y: int| m.count(x, y) as int;
    lemma_grid_sum_linear(
        |x: int, y: int| sum_counts(parts, x, y),
        zero,
        m_counts,
        main.width,
        main.height,
    );
    lemma_grid_sum_zero(zero, main.width, main.height);
    lemma_grid_sum_of_sum_counts(parts, main.width, main.height);
    assert(total_hits(m) == grid_sum(m_counts, main.width, main.height));
}

/// The number of iterations among `steps` that recorded a hit.
pub open spec fn recorded_hits(steps: Seq<Option<(int, int)>>) -> nat
    decreases steps.len(),
{
    if steps.len() == 0 {
        0
    } else {
        recorded_hits(steps.drop_last()) + if steps.last() is Some {
            1nat
        } else {
            0nat
        }
    }
}

/// The number of iterations among `steps` that recorded a hit in cell (x, y).
pub open spec fn hits_in(steps: Seq<Option<(int, int)>>, x: int, y: int) -> nat
    decreases steps.len(),
{
    if steps.len() == 0 {
        0
    } else {
        hits_in(steps.drop_last(), x, y) + if steps.last() == Some((x, y)) {
            1nat
        } else {
            0nat
        }
    }
}

proof fn lemma_row_sum_point(f: spec_fn(int, int) -> int, x0: int, y0: int, width: nat, y: int)
    requires
        0 <= x0 < width,
        forall|x: int|
            0 <= x < width ==> #[trigger] f(x, y) == (if x == x0 && y == y0 {
                1int
            } else {
                0int
            }),
    ensures
        row_sum(f, width, y) == (if y == y0 {
            1int
        } else {
            0int
        }),
    decreases width,
{
    if width > 0 {
        if x0 < width - 1 {
            lemma_row_sum_point(f, x0, y0, (width - 1) as nat, y);
        } else {
            lemma_row_sum_zero_row(f, (width - 1) as nat, y);
        }
    }
}

proof fn lemma_row_sum_zero_row(f: spec_fn(int, int) -> int, width: nat, y: int)
    requires
        forall|x: int| 0 <= x < width ==> #[trigger] f(x, y) == 0,
    ensures
        row_sum(f, width, y) == 0,
    decreases width,
{
    if width > 0 {
        lemma_row_sum_zero_row(f, (width - 1) as nat, y);
    }
}

proof fn lemma_grid_sum_point(f: spec_fn(int, int) -> int, x0: int, y0: int, width: nat, height: nat)
    requires
        0 <= x0 < width,
        0 <= y0,
        forall|x: int, y: int|
            0 <= x < width && 0 <= y < height ==> #[trigger] f(x, y) == (if x == x0 && y == y0 {
                1int
            } else {
                0int
            }),
    ensures
        grid_sum(f, width, height) == (if y0 < height {
            1int
        } else {
            0int
        }),
    decreases height,
{
    if height > 0 {
        lemma_grid_sum_point(f, x0, y0, width, (height - 1) as nat);
        lemma_row_sum_point(f, x0, y0, width, height - 1);
    }
}

/// Recording a hit adds exactly one hit to the histogram.
pub proof fn lemma_record_hit_adds_one(h: HistogramView, x: int, y: int)
    requires
        h.in_bounds(x, y),
        h.count(x, y) < u64::MAX,
    ensures
        total_hits(h.after_step(Some((x, y)))) == total_hits(h) + 1,
{
    let g = h.after_step(Some((x, y)));
    let f = |xx: int, yy: int| h.count(xx, yy) as int;
    let fg = |xx: int, yy: int| g.count(xx, yy) as int;
    let ind = |xx: int, yy: int|
        if xx == x && yy == y {
            1int
        } else {
            0int
        };
    lemma_grid_sum_linear(f, ind, fg, h.width, h.height);
    lemma_grid_sum_point(ind, x, y, h.width, h.height);
    assert(total_hits(g) == grid_sum(fg, h.width, h.height));
    assert(total_hits(h) == grid_sum(f, h.width, h.height));
}

/// Hits accumulate: after any iterations, each cell's count has grown by the
/// hits recorded in it, the histogram holds exactly as many more hits as the
/// iterations recorded, and that is at most the number of iterations.
pub proof fn lemma_hits_accumulate(h: HistogramView, steps: Seq<Option<(int, int)>>)
    requires
        forall|i: int| 0 <= i < steps.len() ==> h.holds_cell(#[trigger] steps[i]),
        forall|x: int, y: int|
            h.in_bounds(x, y) ==> h.count(x, y) + #[trigger] hits_in(steps, x, y) <= u64::MAX,
    ensures
        h.after_steps(steps).width == h.width,
        h.after_steps(steps).height == h.height,
        forall|x: int, y: int|
            h.in_bounds(x, y) ==> #[trigger] h.after_steps(steps).count(x, y) == h.count(x, y)
                + hits_in(steps, x, y),
        total_hits(h.after_steps(steps)) == total_hits(h) + recorded_hits(steps),
        recorded_hits(steps) <= steps.len(),
    decreases steps.len(),
{
    if steps.len() > 0 {
        let init = steps.drop_last();
        assert forall|i: int| 0 <= i < init.len() implies h.holds_cell(#[trigger] init[i]) by {
            assert(init[i] == steps[i]);
        }
        assert forall|x: int, y: int| h.in_bounds(x, y) implies h.count(x, y) + #[trigger] hits_in(
            init,
            x,
            y,
        ) <= u64::MAX by {
            assert(hits_in(init, x, y) <= hits_in(steps, x, y));
        }
        lemma_hits_accumulate(h, init);
        let p = h.after_steps(init);
        assert forall|x: int, y: int| h.in_bounds(x, y) implies #[trigger] h.after_steps(
            steps,
        ).count(x, y) == h.count(x, y) + hits_in(steps, x, y) by {
            assert(h.after_steps(steps) == p.after_step(steps.last()));
            assert(p.count(x, y) == h.count(x, y) + hits_in(init, x, y));
            if steps.last() == Some((x, y)) {
                assert(hits_in(steps, x, y) == hits_in(init, x, y) + 1);
            } else {
                assert(hits_in(steps, x, y) == hits_in(init, x, y));
            }
        }
        match steps.last() {
            Some(c) => {
                assert(steps[steps.len() - 1] == steps.last());
                assert(hits_in(steps, c.0, c.1) == hits_in(init, c.0, c.1) + 1);
                lemma_record_hit_adds_one(p, c.0, c.1);
            },
            None => {},
        }
    }
}

/// The workers' histograms, each `width` by `height`, after each worker ran
/// the iterations of its own sequence of steps from an empty histogram.
pub open spec fn workers_after(width: nat, height: nat, runs: Seq<Seq<Option<(int, int)>>>) -> Seq<
    HistogramView,
> {
    runs.map_values(|steps: Seq<Option<(int, int)>>| HistogramView::empty(width, height).after_steps(steps))
}

/// The hits that all the workers' iterations recorded in cell (x, y).
pub open spec fn runs_hits_in(runs: Seq<Seq<Option<(int, int)>>>, x: int, y: int) -> int
    decreases runs.len(),
{
    if runs.len() == 0 {
        0
    } else {
        runs_hits_in(runs.drop_last(), x, y) + hits_in(runs.last(), x, y)
    }
}

/// The hits that all the workers' iterations recorded.
pub open spec fn runs_recorded(runs: Seq<Seq<Option<(int, int)>>>) -> int
    decreases runs.len(),
{
    if runs.len() == 0 {
        0
    } else {
        runs_recorded(runs.drop_last()) + recorded_hits(runs.last())
    }
}

/// The number of iterations that all the workers ran.
pub open spec fn runs_iterations(runs: Seq<Seq<Option<(int, int)>>>) -> int
    decreases runs.len(),
{
    if runs.len() == 0 {
        0
    } else {
        runs_iterations(runs.drop_last()) + runs.last().len()
    }
}

/// Iterations fill the merged histogram: when every worker starts from an
/// empty histogram of the main one's size and runs its iterations, the merged
/// histogram counts in each cell exactly the hits that all the iterations
/// recorded there, and holds as many hits as they recorded, which is at most
/// the number of iterations run.
pub proof fn lemma_runs_fill_merged_histogram(
    main: HistogramView,
    runs: Seq<Seq<Option<(int, int)>>>,
)
    requires
        forall|i: int, j: int|
            0 <= i < runs.len() && 0 <= j < runs[i].len() ==> main.holds_cell(
                #[trigger] runs[i][j],
            ),
        forall|x: int, y: int| main.in_bounds(x, y) ==> #[trigger] runs_hits_in(runs, x, y) <= u64::MAX,
    ensures
        forall|x: int, y: int|
            main.in_bounds(x, y) ==> #[trigger] merged(
                main,
                workers_after(main.width, main.height, runs),
            ).count(x, y) == runs_hits_in(runs, x, y),
        total_hits(merged(main, workers_after(main.width, main.height, runs))) == runs_recorded(
            runs,
        ),
        runs_recorded(runs) <= runs_iterations(runs),
{
    let parts = workers_after(main.width, main.height, runs);
    lemma_workers_after(main, runs);
    assert forall|x: int, y: int| main.in_bounds(x, y) implies #[trigger] merged(main, parts).count(
        x,
        y,
    ) == runs_hits_in(runs, x, y) by {
        assert(sum_counts(parts, x, y) == runs_hits_in(runs, x, y));
        lemma_sum_counts_prefix(parts, parts.len() as int, x, y);
        assert(parts.take(parts.len() as int) =~= parts);
    }
    assert forall|x: int, y: int| main.in_bounds(x, y) implies #[trigger] sum_counts(parts, x, y)
        <= u64::MAX by {
        assert(sum_counts(parts, x, y) == runs_hits_in(runs, x, y));
    }
    lemma_merge_keeps_total_hits(main, parts);
}

/// The workers' histograms have the main one's size; over them, cell sums are
/// the recorded hits, and total hits are the recorded hits.
proof fn lemma_workers_after(main: HistogramView, runs: Seq<Seq<Option<(int, int)>>>)
    requires
        forall|i: int, j: int|
            0 <= i < runs.len() && 0 <= j < runs[i].len() ==> main.holds_cell(
                #[trigger] runs[i][j],
            ),
        forall|x: int, y: int| main.in_bounds(x, y) ==> #[trigger] runs_hits_in(runs, x, y) <= u64::MAX,
    ensures
        workers_after(main.width, main.height, runs).len() == runs.len(),
        forall|i: int|
            0 <= i < runs.len() ==> (#[trigger] workers_after(main.width, main.height, runs)[i]).width
                == main.width && workers_after(main.width, main.height, runs)[i].height
                == main.height,
        forall|x: int, y: int|
            main.in_bounds(x, y) ==> #[trigger] sum_counts(
                workers_after(main.width, main.height, runs),
                x,
                y,
            ) == runs_hits_in(runs, x, y),
        parts_total_hits(workers_after(main.width, main.height, runs)) == runs_recorded(runs),
        runs_recorded(runs) <= runs_iterations(runs),
    decreases runs.len(),
{
    let w = main.width;
    let h = main.height;
    let parts = workers_after(w, h, runs);
    if runs.len() > 0 {
        let init = runs.drop_last();
        let last = runs.last();
        let e = HistogramView::empty(w, h);
        assert forall|i: int, j: int| 0 <= i < init.len() && 0 <= j < init[i].len() implies main.holds_cell(
            #[trigger] init[i][j],
        ) by {
            assert(init[i] == runs[i]);
        }
        assert forall|x: int, y: int| main.in_bounds(x, y) implies #[trigger] runs_hits_in(
            init,
            x,
            y,
        ) <= u64::MAX by {
            assert(runs_hits_in(runs, x, y) == runs_hits_in(init, x, y) + hits_in(last, x, y));
        }
        lemma_workers_after(main, init);
        assert(parts.drop_last() =~= workers_after(w, h, init));
        assert(parts.last() == e.after_steps(last));
        assert forall|j: int| 0 <= j < last.len() implies e.holds_cell(#[trigger] last[j]) by {
            assert(runs[runs.len() - 1] == last);
            assert(main.holds_cell(runs[runs.len() - 1][j]));
        }
        assert forall|x: int, y: int| e.in_bounds(x, y) implies e.count(x, y) + #[trigger] hits_in(
            last,
            x,
            y,
        ) <= u64::MAX by {
            assert(runs_hits_in(runs, x, y) == runs_hits_in(init, x, y) + hits_in(last, x, y));
            lemma_runs_hits_in_nonneg(init, x, y);
            assert(main.in_bounds(x, y));
        }
        lemma_hits_accumulate(e, last);
        lemma_grid_sum_zero(|x: int, y: int| e.count(x, y) as int, w, h);
        assert(total_hits(e) == 0);
        assert forall|i: int| 0 <= i < runs.len() implies (#[trigger] parts[i]).width == w
            && parts[i].height == h by {
            if i < runs.len() - 1 {
                assert(parts[i] == workers_after(w, h, init)[i]);
            } else {
                assert(parts[i] == e.after_steps(last));
            }
        }
        assert forall|x: int, y: int| main.in_bounds(x, y) implies #[trigger] sum_counts(
            parts,
            x,
            y,
        ) == runs_hits_in(runs, x, y) by {
            assert(sum_counts(workers_after(w, h, init), x, y) == runs_hits_in(init, x, y));
            assert(e.after_steps(last).count(x, y) == e.count(x, y) + hits_in(last, x, y));
        }
    } else {
        assert(parts =~= Seq::<HistogramView>::empty());
    }
}

proof fn lemma_runs_hits_in_nonneg(runs: Seq<Seq<Option<(int, int)>>>, x: int, y: int)
    ensures
        runs_hits_in(runs, x, y) >= 0,
    decreases runs.len(),
{
    if runs.len() > 0 {
        lemma_runs_hits_in_nonneg(runs.drop_last(), x, y);
    }
}

} // verus!
