//! Spatial hash implementation.
//!
//! A uniform grid over the simulation domain.  A particle whose probe
//! circle fits inside one cell is stored only there; one that straddles
//! cell boundaries is replicated into every cell its bounding box
//! overlaps, so that no cross-cell contact can be missed.

use vstd::prelude::*;
use vstd::arithmetic::div_mod::{lemma_fundamental_div_mod, lemma_mod_bound};
use vstd::arithmetic::mul::lemma_mul_inequality;
use crate::collision::{
    canonical_for, canonicalize, check_pair, collision_of, distinct_indices,
    has_comp, has_pair, is_collision_from, is_overlap_pair, overlaps, sorted_strict,
    sound_collisions, valid_item, valid_items, Collision, Item, SpatialPartition,
};
use crate::num::{lemma_abs_square_bound, lemma_mul_range, lemma_square_monotone, COORD_LIMIT};
use crate::particle::valid_radius;
use crate::vector::{dist_sq, in_range, Vector};

verus! {

/// Most cells a grid may have.
pub const CELL_LIMIT: i64 = 1_000_000;

/// Most rows or columns a grid may have.
pub const SIDE_LIMIT: i64 = 100_000;

/// An entry of a grid cell, viewed as the snapshot it stands for.
pub open spec fn entry_item(e: (usize, i64, Vector)) -> Item {
    Item { index: e.0, radius: e.1, position: e.2 }
}

/// The bucket index of cell `(row, col)` in a grid with `cols` columns.
pub open spec fn grid_idx(row: int, col: int, cols: int) -> int {
    row * cols + col
}

pub struct SpatialHash {
    /// Grid buckets in row-major order: cell `(row, col)` is at
    /// `row * number_of_columns + col`.
    pub cells: Vec<Vec<(usize, i64, Vector)>>,
    pub number_of_columns: usize,
    pub number_of_rows: usize,
    pub width: i64,
    pub height: i64,
    /// The snapshots inserted since the last clear, in insertion order.
    pub items_view: Ghost<Seq<Item>>,
}

impl SpatialHash {
    pub open spec fn cols(self) -> int {
        self.number_of_columns as int
    }

    pub open spec fn rows(self) -> int {
        self.number_of_rows as int
    }

    /// The column a coordinate maps to, clamped to the grid.
    pub open spec fn col_of(self, x: int) -> int {
        let raw = (x * self.cols()) / (self.width as int);
        if raw < 0 {
            0
        } else if raw > self.cols() - 1 {
            self.cols() - 1
        } else {
            raw
        }
    }

    /// The row a coordinate maps to, clamped to the grid.
    pub open spec fn row_of(self, y: int) -> int {
        let raw = (y * self.rows()) / (self.height as int);
        if raw < 0 {
            0
        } else if raw > self.rows() - 1 {
            self.rows() - 1
        } else {
            raw
        }
    }

    /// The least x coordinate that maps to column `j` or beyond: the
    /// exact boundary between columns `j - 1` and `j`.
    pub open spec fn bd_x(self, j: int) -> int {
        (j * self.width + self.cols() - 1) / self.cols()
    }

    /// The least y coordinate that maps to row `j` or beyond.
    pub open spec fn bd_y(self, j: int) -> int {
        (j * self.height + self.rows() - 1) / self.rows()
    }

    /// The probe circle lies within the footprint of the one cell its
    /// centre maps to.
    pub open spec fn contained(self, p: Vector, rad: i64) -> bool {
        let c = self.col_of(p.x as int);
        let r = self.row_of(p.y as int);
        &&& self.bd_x(c) <= p.x - rad
        &&& p.x + rad <= self.bd_x(c + 1)
        &&& self.bd_y(r) <= p.y - rad
        &&& p.y + rad <= self.bd_y(r + 1)
    }

    /// First column of the cells the probe circle belongs in.
    pub open spec fn col_lo(self, p: Vector, rad: i64) -> int {
        if self.contained(p, rad) {
            self.col_of(p.x as int)
        } else {
            self.col_of(p.x - rad)
        }
    }

    /// Last column of the cells the probe circle belongs in.
    pub open spec fn col_hi(self, p: Vector, rad: i64) -> int {
        if self.contained(p, rad) {
            self.col_of(p.x as int)
        } else {
            self.col_of(p.x + rad)
        }
    }

    /// First row of the cells the probe circle belongs in.
    pub open spec fn row_lo(self, p: Vector, rad: i64) -> int {
        if self.contained(p, rad) {
            self.row_of(p.y as int)
        } else {
            self.row_of(p.y - rad)
        }
    }

    /// Last row of the cells the probe circle belongs in.
    pub open spec fn row_hi(self, p: Vector, rad: i64) -> int {
        if self.contained(p, rad) {
            self.row_of(p.y as int)
        } else {
            self.row_of(p.y + rad)
        }
    }

    /// Whether `(row, col)` is one of the cells the snapshot belongs in.
    pub open spec fn home(self, t: Item, row: int, col: int) -> bool {
        self.row_lo(t.position, t.radius) <= row <= self.row_hi(t.position, t.radius)
            && self.col_lo(t.position, t.radius) <= col <= self.col_hi(t.position, t.radius)
    }

    /// The bucket index of cell `(row, col)`.
    pub open spec fn cell_idx(self, row: int, col: int) -> int {
        row * self.cols() + col
    }

    /// The snapshot has an entry in the bucket of cell `(row, col)`.
    pub open spec fn stored_at(self, t: Item, row: int, col: int) -> bool {
        exists|m: int|
            0 <= m < self.cells@[self.cell_idx(row, col)]@.len() && entry_item(
                #[trigger] self.cells@[self.cell_idx(row, col)]@[m],
            ) == t
    }

    /// The entry at place `m` of bucket `ci` is a recorded snapshot
    /// sitting in one of its home cells.
    pub open spec fn recorded_with_home(self, ci: int, m: int) -> bool {
        exists|k: int|
            0 <= k < self.items_view@.len() && (#[trigger] self.items_view@[k]) == entry_item(
                self.cells@[ci]@[m],
            ) && self.home(self.items_view@[k], ci / self.cols(), ci % self.cols())
    }

    /// The grid's dimensions are usable.
    pub open spec fn wf_dims(self) -> bool {
        &&& 1 <= self.cols() <= SIDE_LIMIT
        &&& 1 <= self.rows() <= SIDE_LIMIT
        &&& self.cols() * self.rows() <= CELL_LIMIT
        &&& self.cols() <= self.width <= COORD_LIMIT
        &&& self.rows() <= self.height <= COORD_LIMIT
        &&& self.cells@.len() == self.cols() * self.rows()
    }

    /// The structure's invariant: dimensions are usable, the recorded
    /// snapshots are valid with distinct indices, every snapshot is
    /// stored in each of its home cells, and every bucket entry is a
    /// recorded snapshot stored in one of its home cells, at most once
    /// per bucket.
    pub open spec fn inv(self) -> bool {
        &&& self.wf_dims()
        &&& valid_items(self.items_view@)
        &&& distinct_indices(self.items_view@)
        &&& forall|k: int, row: int, col: int|
            #![trigger self.home(self.items_view@[k], row, col)]
            0 <= k < self.items_view@.len() && self.home(self.items_view@[k], row, col)
                ==> self.stored_at(self.items_view@[k], row, col)
        &&& forall|ci: int, m: int|
            #![trigger self.recorded_with_home(ci, m)]
            0 <= ci < self.cells@.len() && 0 <= m < self.cells@[ci]@.len()
                ==> self.recorded_with_home(ci, m)
        &&& forall|ci: int, m1: int, m2: int|
            #![trigger self.cells@[ci]@[m1], self.cells@[ci]@[m2]]
            0 <= ci < self.cells@.len() && 0 <= m1 < m2 < self.cells@[ci]@.len()
                ==> (self.cells@[ci]@[m1]).0 != (self.cells@[ci]@[m2]).0
    }

    /// Construct a new SpatialHash over a `width` by `height` domain
    /// with the given grid resolution.  Construction fails when any
    /// dimension is unusable, or when the requested cells are finer than
    /// the minimum supported probe diameter `2 * min_radius`.
    pub fn new(
        width: i64,
        height: i64,
        number_of_columns: usize,
        number_of_rows: usize,
        min_radius: i64,
    ) -> (r: Option<SpatialHash>)
        ensures
            r is Some <==> {
                &&& 1 <= number_of_columns <= SIDE_LIMIT
                &&& 1 <= number_of_rows <= SIDE_LIMIT
                &&& number_of_columns * number_of_rows <= CELL_LIMIT
                &&& 0 < width <= COORD_LIMIT
                &&& 0 < height <= COORD_LIMIT
                &&& valid_radius(min_radius)
                &&& width >= 2 * min_radius * number_of_columns
                &&& height >= 2 * min_radius * number_of_rows
            },
            r is Some ==> {
                &&& r->Some_0.inv()
                &&& r->Some_0.items_view@ == Seq::<Item>::empty()
                &&& r->Some_0.width == width
                &&& r->Some_0.height == height
                &&& r->Some_0.number_of_columns == number_of_columns
                &&& r->Some_0.number_of_rows == number_of_rows
            },
    {
        if !(1 <= number_of_columns && number_of_columns <= SIDE_LIMIT as usize && 1
            <= number_of_rows && number_of_rows <= SIDE_LIMIT as usize) {
            return None;
        }
        if !(number_of_columns <= CELL_LIMIT as usize / number_of_rows) {
            proof {
                lemma_div_grid(number_of_columns as int, number_of_rows as int);
            }
            return None;
        }
        proof {
            lemma_div_grid(number_of_columns as int, number_of_rows as int);
        }
        if !(0 < width && width <= COORD_LIMIT && 0 < height && height <= COORD_LIMIT) {
            return None;
        }
        if !(1 <= min_radius && min_radius <= COORD_LIMIT) {
            return None;
        }
        proof {
            lemma_mul_range(
                2 * min_radius as int,
                number_of_columns as int,
                2 * COORD_LIMIT as int,
                SIDE_LIMIT as int,
            );
            lemma_mul_range(
                2 * min_radius as int,
                number_of_rows as int,
                2 * COORD_LIMIT as int,
                SIDE_LIMIT as int,
            );
        }
        if !(width >= 2 * min_radius * (number_of_columns as i64) && height >= 2 * min_radius * (
        number_of_rows as i64)) {
            return None;
        }
        let n = number_of_columns * number_of_rows;
        let mut cells: Vec<Vec<(usize, i64, Vector)>> = Vec::new();
        let mut i: usize = 0;
        while i < n
            invariant
                i <= n,
                cells@.len() == i,
                forall|ci: int| 0 <= ci < i ==> (#[trigger] cells@[ci])@.len() == 0,
            decreases n - i,
        {
            cells.push(Vec::new());
            i += 1;
        }
        proof {
            assert(2 * (min_radius as int) * (number_of_columns as int) >= 2
                * (number_of_columns as int)) by (nonlinear_arith)
                requires
                    min_radius >= 1,
                    number_of_columns >= 1,
            ;
            assert(2 * (min_radius as int) * (number_of_rows as int) >= 2 * (number_of_rows as int))
                by (nonlinear_arith)
                requires
                    min_radius >= 1,
                    number_of_rows >= 1,
            ;
        }
        Some(
            SpatialHash {
                cells,
                number_of_columns,
                number_of_rows,
                width,
                height,
                items_view: Ghost(Seq::empty()),
            },
        )
    }

    /// Map a position to its (row, column) cell in the grid.  The
    /// resulting row and column are guaranteed to be bounded by the grid
    /// size.
    pub fn map_to_cell(&self, v: Vector) -> (rc: (usize, usize))
        requires
            self.wf_dims(),
            -2 * COORD_LIMIT <= v.x <= 2 * COORD_LIMIT,
            -2 * COORD_LIMIT <= v.y <= 2 * COORD_LIMIT,
        ensures
            rc.0 == self.row_of(v.y as int),
            rc.1 == self.col_of(v.x as int),
            rc.0 < self.rows(),
            rc.1 < self.cols(),
    {
        (self.row_coord(v.y), self.col_coord(v.x))
    }

    /// The clamped column of an x coordinate.
    fn col_coord(&self, x: i64) -> (c: usize)
        requires
            self.wf_dims(),
            -2 * COORD_LIMIT <= x <= 2 * COORD_LIMIT,
        ensures
            c == self.col_of(x as int),
            c < self.cols(),
    {
        proof {
            lemma_mul_range(x as int, self.cols(), 2 * COORD_LIMIT as int, SIDE_LIMIT as int);
        }
        if x <= 0 {
            proof {
                if x < 0 {
                    assert(x * self.cols() < 0) by (nonlinear_arith)
                        requires
                            x <= -1,
                            self.cols() >= 1,
                    ;
                    lemma_neg_div(x * self.cols(), self.width as int);
                }
            }
            0
        } else {
            proof {
                assert(x * self.cols() > 0) by (nonlinear_arith)
                    requires
                        x >= 1,
                        self.cols() >= 1,
                ;
            }
            let q = (x * (self.number_of_columns as i64)) / self.width;
            if q >= (self.number_of_columns as i64) - 1 {
                self.number_of_columns - 1
            } else {
                q as usize
            }
        }
    }

    /// The clamped row of a y coordinate.
    fn row_coord(&self, y: i64) -> (r: usize)
        requires
            self.wf_dims(),
            -2 * COORD_LIMIT <= y <= 2 * COORD_LIMIT,
        ensures
            r == self.row_of(y as int),
            r < self.rows(),
    {
        proof {
            lemma_mul_range(y as int, self.rows(), 2 * COORD_LIMIT as int, SIDE_LIMIT as int);
        }
        if y <= 0 {
            proof {
                if y < 0 {
                    assert(y * self.rows() < 0) by (nonlinear_arith)
                        requires
                            y <= -1,
                            self.rows() >= 1,
                    ;
                    lemma_neg_div(y * self.rows(), self.height as int);
                }
            }
            0
        } else {
            proof {
                assert(y * self.rows() > 0) by (nonlinear_arith)
                    requires
                        y >= 1,
                        self.rows() >= 1,
                ;
            }
            let q = (y * (self.number_of_rows as i64)) / self.height;
            if q >= (self.number_of_rows as i64) - 1 {
                self.number_of_rows - 1
            } else {
                q as usize
            }
        }
    }

    /// The exact x boundary between columns `j - 1` and `j`.
    fn bd_x_exec(&self, j: usize) -> (b: i64)
        requires
            self.wf_dims(),
            j <= self.cols(),
        ensures
            b == self.bd_x(j as int),
            0 <= b <= COORD_LIMIT,
    {
        proof {
            lemma_mul_range(j as int, self.width as int, SIDE_LIMIT as int, COORD_LIMIT as int);
            lemma_bd_range(j as int, self.width as int, self.cols());
        }
        ((j as i64) * self.width + (self.number_of_columns as i64) - 1)
            / (self.number_of_columns as i64)
    }

    /// The exact y boundary between rows `j - 1` and `j`.
    fn bd_y_exec(&self, j: usize) -> (b: i64)
        requires
            self.wf_dims(),
            j <= self.rows(),
        ensures
            b == self.bd_y(j as int),
            0 <= b <= COORD_LIMIT,
    {
        proof {
            lemma_mul_range(j as int, self.height as int, SIDE_LIMIT as int, COORD_LIMIT as int);
            lemma_bd_range(j as int, self.height as int, self.rows());
        }
        ((j as i64) * self.height + (self.number_of_rows as i64) - 1) / (self.number_of_rows as i64)
    }

    /// Is the probe circle completely contained within the grid cell.
    fn is_contained(&self, row: usize, column: usize, v: Vector, radius: i64) -> (b: bool)
        requires
            self.wf_dims(),
            in_range(v),
            valid_radius(radius),
            row == self.row_of(v.y as int),
            column == self.col_of(v.x as int),
        ensures
            b == self.contained(v, radius),
    {
        let b1 = self.bd_x_exec(column) <= v.x - radius;
        let b2 = v.x + radius <= self.bd_x_exec(column + 1);
        let b3 = self.bd_y_exec(row) <= v.y - radius;
        let b4 = v.y + radius <= self.bd_y_exec(row + 1);
        b1 && b2 && b3 && b4
    }

    /// Get the min and max corners of a particle's bounding box.
    fn get_min_max(v: Vector, radius: i64) -> (r: (Vector, Vector))
        requires
            in_range(v),
            valid_radius(radius),
        ensures
            r.0 == (Vector { x: (v.x - radius) as i64, y: (v.y - radius) as i64 }),
            r.1 == (Vector { x: (v.x + radius) as i64, y: (v.y + radius) as i64 }),
    {
        (Vector { x: v.x - radius, y: v.y - radius }, Vector { x: v.x + radius, y: v.y + radius })
    }

    /// Get the bucket index of the cell.
    fn get_cell_index(&self, row: usize, column: usize) -> (ci: usize)
        requires
            self.wf_dims(),
            row < self.rows(),
            column < self.cols(),
        ensures
            ci == self.cell_idx(row as int, column as int),
            ci < self.cells@.len(),
    {
        proof {
            lemma_cell_idx_bound(row as int, column as int, self.rows(), self.cols());
        }
        row * self.number_of_columns + column
    }
}

/// A grid with both sides bounded and the product test passed has a
/// bounded product, and conversely.
proof fn lemma_div_grid(c: int, r: int)
    requires
        1 <= c,
        1 <= r,
    ensures
        c <= (CELL_LIMIT as int) / r <==> c * r <= CELL_LIMIT,
{
    lemma_fundamental_div_mod(CELL_LIMIT as int, r);
    lemma_mod_bound(CELL_LIMIT as int, r);
    let q = (CELL_LIMIT as int) / r;
    assert(r * q == q * r) by (nonlinear_arith);
    if c <= q {
        lemma_mul_inequality(c, q, r);
    }
    if c > q {
        lemma_mul_inequality(q + 1, c, r);
        assert((q + 1) * r == q * r + r) by (nonlinear_arith);
    }
}

/// A negative value divided by a positive one stays negative.
proof fn lemma_neg_div(n: int, w: int)
    requires
        n < 0,
        w >= 1,
    ensures
        n / w < 0,
{
    lemma_fundamental_div_mod(n, w);
    lemma_mod_bound(n, w);
    if n / w >= 0 {
        lemma_mul_inequality(0, n / w, w);
        assert(w * (n / w) == (n / w) * w) by (nonlinear_arith);
    }
}

/// A floored quotient reaches `j` exactly when the numerator reaches
/// `j` times the divisor.
proof fn lemma_floor_threshold(n: int, w: int, j: int)
    requires
        w >= 1,
    ensures
        n / w >= j <==> n >= j * w,
{
    lemma_fundamental_div_mod(n, w);
    lemma_mod_bound(n, w);
    if n / w >= j {
        lemma_mul_inequality(j, n / w, w);
        assert(w * (n / w) == (n / w) * w) by (nonlinear_arith);
    }
    if n >= j * w && n / w < j {
        lemma_mul_inequality(n / w + 1, j, w);
        assert(w * (n / w) == (n / w) * w) by (nonlinear_arith);
        assert((n / w + 1) * w == (n / w) * w + w) by (nonlinear_arith);
    }
}

/// The ceiling quotient `(a + b - 1) / b` brackets `a`.
proof fn lemma_ceil_bounds(a: int, b: int)
    requires
        b >= 1,
        a >= 0,
    ensures
        ((a + b - 1) / b) * b >= a,
        (((a + b - 1) / b) - 1) * b < a,
        (a + b - 1) / b >= 0,
{
    lemma_fundamental_div_mod(a + b - 1, b);
    lemma_mod_bound(a + b - 1, b);
    let q = (a + b - 1) / b;
    assert(b * q == q * b) by (nonlinear_arith);
    assert((q - 1) * b == q * b - b) by (nonlinear_arith);
    if q < 0 {
        lemma_mul_inequality(q, -1, b);
        assert((-1) * b == -b) by (nonlinear_arith);
    }
}

/// A boundary coordinate lies between 0 and the domain width.
proof fn lemma_bd_range(j: int, w: int, c: int)
    requires
        0 <= j <= c,
        1 <= c,
        1 <= w,
    ensures
        0 <= (j * w + c - 1) / c <= w,
{
    assert(j * w >= 0) by (nonlinear_arith)
        requires
            j >= 0,
            w >= 1,
    ;
    lemma_ceil_bounds(j * w, c);
    let q = (j * w + c - 1) / c;
    lemma_mul_inequality(j, c, w);
    if q - 1 >= w {
        lemma_mul_inequality(w, q - 1, c);
        assert(c * w == w * c) by (nonlinear_arith);
        assert(false);
    }
}

/// Both snapshots belong in a common cell of the given region.
pub open spec fn shares_cell_in(
    h: SpatialHash,
    t1: Item,
    t2: Item,
    r0: int,
    c0: int,
    nr: int,
    nc: int,
) -> bool {
    exists|row: int, col: int|
        #![trigger h.home(t1, row, col), h.home(t2, row, col)]
        r0 <= row < r0 + nr && c0 <= col < c0 + nc && h.home(t1, row, col) && h.home(t2, row, col)
}

/// `(a, b)` is an ordered index pair of two stored overlapping snapshots
/// that belong in a common cell of the given region.
pub open spec fn region_pair(
    h: SpatialHash,
    a: int,
    b: int,
    r0: int,
    c0: int,
    nr: int,
    nc: int,
) -> bool {
    exists|k1: int, k2: int|
        #![trigger h.items_view@[k1], h.items_view@[k2]]
        {
            &&& 0 <= k1 < h.items_view@.len()
            &&& 0 <= k2 < h.items_view@.len()
            &&& h.items_view@[k1].index == a
            &&& h.items_view@[k2].index == b
            &&& a < b
            &&& overlaps(h.items_view@[k1], h.items_view@[k2])
            &&& shares_cell_in(h, h.items_view@[k1], h.items_view@[k2], r0, c0, nr, nc)
        }
}

/// The list is exactly the canonical collision list of the pairs found
/// within the given region of cells.
pub open spec fn canonical_region(
    s: Seq<Collision>,
    h: SpatialHash,
    r0: int,
    c0: int,
    nr: int,
    nc: int,
) -> bool {
    &&& sorted_strict(s)
    &&& sound_collisions(s, h.items_view@)
    &&& forall|a: int, b: int|
        #[trigger] region_pair(h, a, b, r0, c0, nr, nc) ==> has_pair(s, a, b)
}

/// Every overlapping pair of entries of the cell's bucket is in the list.
pub open spec fn bucket_pairs_done(h: SpatialHash, s: Seq<Collision>, row: int, col: int) -> bool {
    forall|m1: int, m2: int|
        #![trigger h.cells@[h.cell_idx(row, col)]@[m1], h.cells@[h.cell_idx(row, col)]@[m2]]
        0 <= m1 < m2 < h.cells@[h.cell_idx(row, col)]@.len() && overlaps(
            entry_item(h.cells@[h.cell_idx(row, col)]@[m1]),
            entry_item(h.cells@[h.cell_idx(row, col)]@[m2]),
        ) ==> has_pair(
            s,
            min_idx(
                entry_item(h.cells@[h.cell_idx(row, col)]@[m1]),
                entry_item(h.cells@[h.cell_idx(row, col)]@[m2]),
            ),
            max_idx(
                entry_item(h.cells@[h.cell_idx(row, col)]@[m1]),
                entry_item(h.cells@[h.cell_idx(row, col)]@[m2]),
            ),
        )
}

/// The smaller of two snapshots' indices.
pub open spec fn min_idx(a: Item, b: Item) -> int {
    if a.index <= b.index {
        a.index as int
    } else {
        b.index as int
    }
}

/// The larger of two snapshots' indices.
pub open spec fn max_idx(a: Item, b: Item) -> int {
    if a.index <= b.index {
        b.index as int
    } else {
        a.index as int
    }
}

impl SpatialPartition for SpatialHash {
    open spec fn items(&self) -> Seq<Item> {
        self.items_view@
    }

    open spec fn wf(&self) -> bool {
        self.inv()
    }

    open spec fn domain_width(&self) -> int {
        self.width as int
    }

    open spec fn domain_height(&self) -> int {
        self.height as int
    }

    open spec fn accepts_radius(&self, radius: i64) -> bool {
        valid_radius(radius)
    }

    open spec fn parallel_exact(&self) -> bool {
        self.rows() % 2 == 0 && self.cols() % 2 == 0
    }

    open spec fn resolution(&self) -> (int, int) {
        (self.rows(), self.cols())
    }

    open spec fn parallel_covered_pair(&self, a: int, b: int) -> bool {
        let hr = self.rows() / 2;
        let hc = self.cols() / 2;
        ||| region_pair(*self, a, b, 0, 0, hr, hc)
        ||| region_pair(*self, a, b, hr, 0, hr, hc)
        ||| region_pair(*self, a, b, 0, hc, hr, hc)
        ||| region_pair(*self, a, b, hr, hc, hr, hc)
    }

    open spec fn cleared(&self) -> bool {
        forall|ci: int| 0 <= ci < self.cells@.len() ==> (#[trigger] self.cells@[ci])@.len() == 0
    }

    fn insert(&mut self, index: usize, position: Vector, radius: i64) {
        let ghost t = Item { index, radius, position };
        let ghost old_cells = self.cells@;
        let ghost nrows = self.rows();
        let ghost ncols = self.cols();
        let (row, col) = self.map_to_cell(position);
        if self.is_contained(row, col, position, radius) {
            let ci = self.get_cell_index(row, col);
            self.cells[ci].push((index, radius, position));
            proof {
                assert forall|rr: int, cc: int|
                    #![trigger grid_idx(rr, cc, ncols)]
                    0 <= rr < nrows && 0 <= cc < ncols implies (if (rr == row as int && cc
                    == col as int) {
                    self.cells@[grid_idx(rr, cc, ncols)]@ == old_cells[grid_idx(rr, cc, ncols)]@.push(
                        (index, radius, position),
                    )
                } else {
                    self.cells@[grid_idx(rr, cc, ncols)]@ == old_cells[grid_idx(rr, cc, ncols)]@
                }) by {
                    lemma_cell_idx_bound(rr, cc, nrows, ncols);
                    if !(rr == row as int && cc == col as int) {
                        lemma_cell_idx_distinct(rr, cc, row as int, col as int, ncols);
                    }
                }
                assert forall|rr: int, cc: int|
                    #![trigger grid_idx(rr, cc, ncols)]
                    0 <= rr < nrows && 0 <= cc < ncols implies (if self.home(t, rr, cc) {
                    self.cells@[grid_idx(rr, cc, ncols)]@ == old_cells[grid_idx(rr, cc, ncols)]@.push(
                        (index, radius, position),
                    )
                } else {
                    self.cells@[grid_idx(rr, cc, ncols)]@ == old_cells[grid_idx(rr, cc, ncols)]@
                }) by {
                    assert(self.home(t, rr, cc) <==> (rr == row as int && cc == col as int));
                }
            }
        } else {
            let (mn, mx) = Self::get_min_max(position, radius);
            let (r1, c1) = self.map_to_cell(mn);
            let (r2, c2) = self.map_to_cell(mx);
            proof {
                self.lemma_row_of_monotone(mn.y as int, mx.y as int);
                self.lemma_col_of_monotone(mn.x as int, mx.x as int);
            }
            let mut i: usize = r1;
            while i <= r2
                invariant
                    self.wf_dims(),
                    self.number_of_columns == old(self).number_of_columns,
                    self.number_of_rows == old(self).number_of_rows,
                    self.width == old(self).width,
                    self.height == old(self).height,
                    self.items_view == old(self).items_view,
                    self.cells@.len() == old_cells.len(),
                    old_cells == old(self).cells@,
                    nrows == self.rows(),
                    ncols == self.cols(),
                    r1 <= i,
                    i <= r2 + 1,
                    r2 < nrows,
                    c1 <= c2 < ncols,
                    !self.contained(position, radius),
                    r1 == self.row_lo(position, radius),
                    r2 == self.row_hi(position, radius),
                    c1 == self.col_lo(position, radius),
                    c2 == self.col_hi(position, radius),
                    t == (Item { index, radius, position }),
                    forall|rr: int, cc: int|
                        #![trigger grid_idx(rr, cc, ncols)]
                        0 <= rr < nrows && 0 <= cc < ncols ==> (if (r1 <= rr <= r2 && c1 <= cc <= c2
                            && rr < i) {
                            self.cells@[grid_idx(rr, cc, ncols)]@ == old_cells[grid_idx(
                                rr,
                                cc,
                                ncols,
                            )]@.push((index, radius, position))
                        } else {
                            self.cells@[grid_idx(rr, cc, ncols)]@ == old_cells[grid_idx(
                                rr,
                                cc,
                                ncols,
                            )]@
                        }),
                decreases r2 + 1 - i,
            {
                let mut j: usize = c1;
                while j <= c2
                    invariant
                        self.wf_dims(),
                        self.number_of_columns == old(self).number_of_columns,
                        self.number_of_rows == old(self).number_of_rows,
                        self.width == old(self).width,
                        self.height == old(self).height,
                        self.items_view == old(self).items_view,
                        self.cells@.len() == old_cells.len(),
                        old_cells == old(self).cells@,
                        nrows == self.rows(),
                        ncols == self.cols(),
                        r1 <= i <= r2,
                        c1 <= j,
                        j <= c2 + 1,
                        r2 < nrows,
                        c1 <= c2 < ncols,
                        !self.contained(position, radius),
                        r1 == self.row_lo(position, radius),
                        r2 == self.row_hi(position, radius),
                        c1 == self.col_lo(position, radius),
                        c2 == self.col_hi(position, radius),
                        t == (Item { index, radius, position }),
                        forall|rr: int, cc: int|
                            #![trigger grid_idx(rr, cc, ncols)]
                            0 <= rr < nrows && 0 <= cc < ncols ==> (if (r1 <= rr <= r2 && c1 <= cc
                                <= c2 && (rr < i || (rr == i && cc < j))) {
                                self.cells@[grid_idx(rr, cc, ncols)]@ == old_cells[grid_idx(
                                    rr,
                                    cc,
                                    ncols,
                                )]@.push((index, radius, position))
                            } else {
                                self.cells@[grid_idx(rr, cc, ncols)]@ == old_cells[grid_idx(
                                    rr,
                                    cc,
                                    ncols,
                                )]@
                            }),
                    decreases c2 + 1 - j,
                {
                    let ci = self.get_cell_index(i, j);
                    let ghost before = self.cells@;
                    self.cells[ci].push((index, radius, position));
                    proof {
                        assert(ci as int == grid_idx(i as int, j as int, ncols));
                        assert forall|rr: int, cc: int|
                            #![trigger grid_idx(rr, cc, ncols)]
                            0 <= rr < nrows && 0 <= cc < ncols implies (if (r1 <= rr <= r2 && c1
                                <= cc <= c2 && (rr < i || (rr == i && cc < j + 1))) {
                            self.cells@[grid_idx(rr, cc, ncols)]@ == old_cells[grid_idx(
                                rr,
                                cc,
                                ncols,
                            )]@.push((index, radius, position))
                        } else {
                            self.cells@[grid_idx(rr, cc, ncols)]@ == old_cells[grid_idx(
                                rr,
                                cc,
                                ncols,
                            )]@
                        }) by {
                            lemma_cell_idx_bound(rr, cc, nrows, ncols);
                            if rr == i as int && cc == j as int {
                                assert(before[grid_idx(rr, cc, ncols)]@ == old_cells[grid_idx(
                                    rr,
                                    cc,
                                    ncols,
                                )]@);
                            } else {
                                lemma_cell_idx_distinct(rr, cc, i as int, j as int, ncols);
                                assert(self.cells@[grid_idx(rr, cc, ncols)]@ == before[grid_idx(
                                    rr,
                                    cc,
                                    ncols,
                                )]@);
                            }
                        }
                    }
                    j += 1;
                }
                i += 1;
            }
            proof {
                assert forall|rr: int, cc: int|
                    #![trigger grid_idx(rr, cc, ncols)]
                    0 <= rr < nrows && 0 <= cc < ncols implies (if self.home(t, rr, cc) {
                    self.cells@[grid_idx(rr, cc, ncols)]@ == old_cells[grid_idx(rr, cc, ncols)]@.push(
                        (index, radius, position),
                    )
                } else {
                    self.cells@[grid_idx(rr, cc, ncols)]@ == old_cells[grid_idx(rr, cc, ncols)]@
                }) by {
                    assert(self.home(t, rr, cc) <==> (r1 <= rr <= r2 && c1 <= cc <= c2));
                }
            }
        }
        self.items_view = Ghost(self.items_view@.push(t));
        proof {
            assert forall|k: int| 0 <= k < old(self).items_view@.len() implies (
            #[trigger] old(self).items_view@[k]).index != index by {
                assert(old(self).items()[k] == old(self).items_view@[k]);
            }
            assert forall|rr: int, cc: int|
                #![trigger self.cell_idx(rr, cc)]
                0 <= rr < self.rows() && 0 <= cc < self.cols() implies (if self.home(t, rr, cc) {
                self.cells@[self.cell_idx(rr, cc)]@ == old(self).cells@[self.cell_idx(rr, cc)]@.push(
                    (index, radius, position),
                )
            } else {
                self.cells@[self.cell_idx(rr, cc)]@ == old(self).cells@[self.cell_idx(rr, cc)]@
            }) by {
                assert(self.cell_idx(rr, cc) == grid_idx(rr, cc, ncols));
            }
            self.lemma_insert_restores(*old(self), t);
        }
    }

    fn clear(&mut self) {
        let n = self.cells.len();
        let mut i: usize = 0;
        while i < n
            invariant
                n == self.cells@.len(),
                i <= n,
                self.number_of_columns == old(self).number_of_columns,
                self.number_of_rows == old(self).number_of_rows,
                self.width == old(self).width,
                self.height == old(self).height,
                old(self).wf_dims(),
                forall|ci: int| 0 <= ci < i ==> (#[trigger] self.cells@[ci])@.len() == 0,
            decreases n - i,
        {
            self.cells[i].clear();
            i += 1;
        }
        self.items_view = Ghost(Seq::empty());
    }

    fn collision_check(&self) -> (r: Vec<Collision>) {
        self.check_full()
    }

    fn collision_check_parallel(&self) -> (r: Vec<Collision>) {
        let half_rows = self.number_of_rows / 2;
        let half_cols = self.number_of_columns / 2;
        let (v1, v2, v3, v4) = scan_subgrids_concurrently(self, half_rows, half_cols);
        let ghost s1 = v1@;
        let ghost s2 = v2@;
        let ghost s3 = v3@;
        let ghost s4 = v4@;
        let mut all = v1;
        let mut v2 = v2;
        let mut v3 = v3;
        let mut v4 = v4;
        all.append(&mut v2);
        all.append(&mut v3);
        all.append(&mut v4);
        proof {
            assert(all@ == s1 + s2 + s3 + s4);
        }
        let r = canonicalize(all);
        proof {
            let items = self.items_view@;
            let merged = s1 + s2 + s3 + s4;
            assert forall|k: int| 0 <= k < r@.len() implies is_collision_from(
                items,
                #[trigger] r@[k],
            ) by {
                assert(merged.contains(r@[k]));
                let m = choose|m: int| 0 <= m < merged.len() && merged[m] == r@[k];
                if m < s1.len() {
                    assert(r@[k] == s1[m]);
                } else if m < s1.len() + s2.len() {
                    assert(r@[k] == s2[m - s1.len()]);
                } else if m < s1.len() + s2.len() + s3.len() {
                    assert(r@[k] == s3[m - s1.len() - s2.len()]);
                } else {
                    assert(r@[k] == s4[m - s1.len() - s2.len() - s3.len()]);
                }
            }
            assert forall|a: int, b: int| #[trigger] self.parallel_covered_pair(a, b)
                implies has_pair(r@, a, b) by {
                let hr = self.rows() / 2;
                let hc = self.cols() / 2;
                let part: Seq<Collision> = if region_pair(*self, a, b, 0, 0, hr, hc) {
                    s1
                } else if region_pair(*self, a, b, hr, 0, hr, hc) {
                    s2
                } else if region_pair(*self, a, b, 0, hc, hr, hc) {
                    s3
                } else {
                    s4
                };
                assert(has_pair(part, a, b));
                if has_pair(s1, a, b) || has_pair(s2, a, b) {
                    crate::collision::lemma_has_pair_concat(s1, s2, a, b);
                }
                if has_pair(s1 + s2, a, b) || has_pair(s3, a, b) {
                    crate::collision::lemma_has_pair_concat(s1 + s2, s3, a, b);
                }
                crate::collision::lemma_has_pair_concat(s1 + s2 + s3, s4, a, b);
                let m = choose|m: int|
                    0 <= m < merged.len() && (#[trigger] merged[m]).p1 == a && merged[m].p2 == b;
                assert(has_pair(r@, merged[m].p1 as int, merged[m].p2 as int));
            }
            if self.parallel_exact() {
                let hr = self.rows() / 2;
                let hc = self.cols() / 2;
                vstd::arithmetic::div_mod::lemma_fundamental_div_mod(self.rows(), 2);
                vstd::arithmetic::div_mod::lemma_fundamental_div_mod(self.cols(), 2);
                assert(2 * hr == self.rows());
                assert(2 * hc == self.cols());
                assert forall|a: int, b: int| #[trigger] is_overlap_pair(items, a, b)
                    implies has_pair(r@, a, b) by {
                    let (k1, k2): (int, int) = choose|k1: int, k2: int|
                        #![trigger items[k1], items[k2]]
                        {
                            &&& 0 <= k1 < items.len()
                            &&& 0 <= k2 < items.len()
                            &&& items[k1].index == a
                            &&& items[k2].index == b
                            &&& a < b
                            &&& overlaps(items[k1], items[k2])
                        };
                    let t1 = items[k1];
                    let t2 = items[k2];
                    self.lemma_shared_cell(t1, t2);
                    let (row, col): (int, int) = choose|row: int, col: int|
                        #![trigger self.home(t1, row, col), self.home(t2, row, col)]
                        0 <= row < self.rows() && 0 <= col < self.cols() && self.home(t1, row, col)
                            && self.home(t2, row, col);
                    let qr: int = if row < hr { 0 } else { hr };
                    let qc: int = if col < hc { 0 } else { hc };
                    assert(qr <= row < qr + hr && qc <= col < qc + hc);
                    assert(shares_cell_in(*self, t1, t2, qr, qc, hr, hc));
                    assert(region_pair(*self, a, b, qr, qc, hr, hc));
                    assert(self.parallel_covered_pair(a, b));
                }
            }
        }
        r
    }

    fn collision_check_with_comparisons(&self) -> (r: (Vec<Collision>, Vec<(usize, usize)>)) {
        let (raw, comps) = self.scan_region(0, 0, self.number_of_rows, self.number_of_columns);
        let canon = canonicalize(raw);
        proof {
            lemma_region_complete(*self, raw@, 0, 0, self.rows(), self.cols());
            assert forall|k: int| 0 <= k < canon@.len() implies is_collision_from(
                self.items_view@,
                #[trigger] canon@[k],
            ) by {
                assert(raw@.contains(canon@[k]));
                let m = choose|m: int| 0 <= m < raw@.len() && raw@[m] == canon@[k];
                assert(is_collision_from(self.items_view@, raw@[m]));
            }
            assert forall|a: int, b: int|
                #[trigger] region_pair(*self, a, b, 0, 0, self.rows(), self.cols()) implies has_pair(
                canon@,
                a,
                b,
            ) by {
                let m = choose|m: int|
                    0 <= m < raw@.len() && (#[trigger] raw@[m]).p1 == a && raw@[m].p2 == b;
                assert(has_pair(canon@, raw@[m].p1 as int, raw@[m].p2 as int));
            }
            self.lemma_full_region(canon@);
            assert forall|a: int, b: int| #[trigger] is_overlap_pair(self.items_view@, a, b)
                implies has_comp(comps@, a, b) by {
                assert(has_pair(canon@, a, b));
                let k = choose|k: int|
                    0 <= k < canon@.len() && (#[trigger] canon@[k]).p1 == a && canon@[k].p2 == b;
                let m = choose|m: int| 0 <= m < raw@.len() && raw@[m] == canon@[k];
                assert(has_comp(comps@, raw@[m].p1 as int, raw@[m].p2 as int));
            }
        }
        (canon, comps)
    }
}

/// Relies on scoped_pool: `Pool::new(4)` starts four workers,
/// `Scope::execute` schedules a job, and `Pool::scoped` returns only
/// after every scheduled job has run, so the four quadrant scans are
/// complete when this returns; each scan is the library's own verified
/// `check_collisions_in_subgrid`, whose contract the result lists are
/// promised to meet.  `Pool::shutdown` stops the workers.
#[verifier::external_body]
fn scan_subgrids_concurrently(h: &SpatialHash, hr: usize, hc: usize) -> (r: (
    Vec<Collision>,
    Vec<Collision>,
    Vec<Collision>,
    Vec<Collision>,
))
    requires
        h.inv(),
        hr == h.rows() / 2,
        hc == h.cols() / 2,
    ensures
        canonical_region(r.0@, *h, 0, 0, h.rows() / 2, h.cols() / 2),
        canonical_region(r.1@, *h, h.rows() / 2, 0, h.rows() / 2, h.cols() / 2),
        canonical_region(r.2@, *h, 0, h.cols() / 2, h.rows() / 2, h.cols() / 2),
        canonical_region(r.3@, *h, h.rows() / 2, h.cols() / 2, h.rows() / 2, h.cols() / 2),
{
    let (mut a, mut b, mut c, mut d) = (Vec::new(), Vec::new(), Vec::new(), Vec::new());
    let pool = scoped_pool::Pool::new(4);
    pool.scoped(|scope| {
        scope.execute(|| { a = h.check_collisions_in_subgrid(0, 0, hr, hc) });
        scope.execute(|| { b = h.check_collisions_in_subgrid(hr, 0, hr, hc) });
        scope.execute(|| { c = h.check_collisions_in_subgrid(0, hc, hr, hc) });
        scope.execute(|| { d = h.check_collisions_in_subgrid(hr, hc, hr, hc) });
    });
    pool.shutdown();
    (a, b, c, d)
}

impl SpatialHash {
    /// After pushing a fresh snapshot's entry into exactly each of its
    /// home cells and recording it, the structure's invariant holds
    /// again.
    #[verifier::rlimit(50)]
    proof fn lemma_insert_restores(self, old_h: SpatialHash, t: Item)
        requires
            old_h.inv(),
            valid_item(t),
            forall|k: int|
                0 <= k < old_h.items_view@.len() ==> (#[trigger] old_h.items_view@[k]).index
                    != t.index,
            self.number_of_columns == old_h.number_of_columns,
            self.number_of_rows == old_h.number_of_rows,
            self.width == old_h.width,
            self.height == old_h.height,
            self.items_view@ == old_h.items_view@.push(t),
            self.cells@.len() == old_h.cells@.len(),
            forall|rr: int, cc: int|
                #![trigger self.cell_idx(rr, cc)]
                0 <= rr < self.rows() && 0 <= cc < self.cols() ==> (if self.home(t, rr, cc) {
                    self.cells@[self.cell_idx(rr, cc)]@ == old_h.cells@[self.cell_idx(rr, cc)]@.push(
                        (t.index, t.radius, t.position),
                    )
                } else {
                    self.cells@[self.cell_idx(rr, cc)]@ == old_h.cells@[self.cell_idx(rr, cc)]@
                }),
        ensures
            self.inv(),
    {
        let items = self.items_view@;
        let old_items = old_h.items_view@;
        assert(self.wf_dims());
        assert(self.cells@.len() == self.rows() * self.cols()) by {
            assert(self.cols() * self.rows() == self.rows() * self.cols()) by (nonlinear_arith);
        }
        assert forall|k: int| 0 <= k < self.items_view@.len() implies valid_item(
            #[trigger] self.items_view@[k],
        ) by {
            if k < old_h.items_view@.len() {
                assert(self.items_view@[k] == old_h.items_view@[k]);
                assert(valid_item(old_h.items_view@[k]));
            } else {
                assert(self.items_view@[k] == t);
            }
        }
        assert forall|k1: int, k2: int| 0 <= k1 < k2 < self.items_view@.len() implies (
        #[trigger] self.items_view@[k1]).index != (#[trigger] self.items_view@[k2]).index by {
            assert(self.items_view@[k1] == old_h.items_view@[k1]);
            if k2 < old_h.items_view@.len() {
                assert(self.items_view@[k2] == old_h.items_view@[k2]);
            } else {
                assert(self.items_view@[k2] == t);
                assert(old_h.items_view@[k1].index != t.index);
            }
        }
        assert forall|k: int, row: int, col: int|
            #![trigger self.home(self.items_view@[k], row, col)]
            0 <= k < self.items_view@.len() && self.home(self.items_view@[k], row, col)
            implies self.stored_at(self.items_view@[k], row, col) by {
            assert(0 <= row < self.rows() && 0 <= col < self.cols());
            lemma_cell_idx_bound(row, col, self.rows(), self.cols());
            let ci = self.cell_idx(row, col);
            assert(self.cell_idx(row, col) == ci);
            if k < old_h.items_view@.len() {
                assert(self.items_view@[k] == old_h.items_view@[k]);
                assert(old_h.home(old_h.items_view@[k], row, col));
                assert(old_h.stored_at(old_h.items_view@[k], row, col));
                assert(old_h.cell_idx(row, col) == ci);
                let m = choose|m: int|
                    0 <= m < old_h.cells@[old_h.cell_idx(row, col)]@.len() && entry_item(
                        #[trigger] old_h.cells@[old_h.cell_idx(row, col)]@[m],
                    ) == old_h.items_view@[k];
                assert(self.cells@[ci]@[m] == old_h.cells@[ci]@[m]);
                assert(entry_item(self.cells@[self.cell_idx(row, col)]@[m])
                    == self.items_view@[k]);
            } else {
                assert(self.items_view@[k] == t);
                assert(self.cells@[self.cell_idx(row, col)]@ == old_h.cells@[self.cell_idx(
                    row,
                    col,
                )]@.push((t.index, t.radius, t.position)));
                let m = old_h.cells@[ci]@.len() as int;
                assert(entry_item(self.cells@[self.cell_idx(row, col)]@[m]) == t);
            }
        }
        assert forall|ci: int, m: int|
            #![trigger self.recorded_with_home(ci, m)]
            0 <= ci < self.cells@.len() && 0 <= m < self.cells@[ci]@.len()
            implies self.recorded_with_home(ci, m) by {
            let rr = ci / self.cols();
            let cc = ci % self.cols();
            lemma_cell_idx_surjective(ci, self.rows(), self.cols());
            assert(self.cell_idx(rr, cc) == ci);
            if m < old_h.cells@[ci]@.len() {
                if self.home(t, rr, cc) {
                    assert(self.cells@[ci]@[m] == old_h.cells@[ci]@[m]);
                } else {
                    assert(self.cells@[ci]@[m] == old_h.cells@[ci]@[m]);
                }
                assert(0 <= m < old_h.cells@[ci]@.len());
                assert(old_h.recorded_with_home(ci, m));
                let k = choose|k: int|
                    0 <= k < old_h.items_view@.len() && (#[trigger] old_h.items_view@[k])
                        == entry_item(old_h.cells@[ci]@[m]) && old_h.home(
                        old_h.items_view@[k],
                        ci / old_h.cols(),
                        ci % old_h.cols(),
                    );
                assert(self.items_view@[k] == old_h.items_view@[k]);
                assert(self.items_view@[k] == entry_item(self.cells@[ci]@[m]));
                assert(self.home(self.items_view@[k], ci / self.cols(), ci % self.cols()));
                assert(self.recorded_with_home(ci, m));
            } else {
                assert(self.home(t, rr, cc));
                assert(self.cells@[self.cell_idx(rr, cc)]@ == old_h.cells@[self.cell_idx(
                    rr,
                    cc,
                )]@.push((t.index, t.radius, t.position)));
                assert(m == old_h.cells@[ci]@.len());
                let k = self.items_view@.len() - 1;
                assert(self.items_view@[k] == t);
                assert(self.items_view@[k] == entry_item(self.cells@[ci]@[m]));
                assert(self.home(self.items_view@[k], ci / self.cols(), ci % self.cols()));
                assert(self.recorded_with_home(ci, m));
            }
        }
        assert forall|ci: int, m1: int, m2: int|
            #![trigger self.cells@[ci]@[m1], self.cells@[ci]@[m2]]
            0 <= ci < self.cells@.len() && 0 <= m1 < m2 < self.cells@[ci]@.len() implies (
        self.cells@[ci]@[m1]).0 != (self.cells@[ci]@[m2]).0 by {
            let rr = ci / self.cols();
            let cc = ci % self.cols();
            lemma_cell_idx_surjective(ci, self.rows(), self.cols());
            assert(self.cell_idx(rr, cc) == ci);
            if m2 < old_h.cells@[ci]@.len() {
                if self.home(t, rr, cc) {
                    assert(self.cells@[ci]@[m1] == old_h.cells@[ci]@[m1]);
                    assert(self.cells@[ci]@[m2] == old_h.cells@[ci]@[m2]);
                } else {
                    assert(self.cells@[ci]@[m1] == old_h.cells@[ci]@[m1]);
                    assert(self.cells@[ci]@[m2] == old_h.cells@[ci]@[m2]);
                }
            } else {
                assert(self.home(t, rr, cc));
                assert(self.cells@[self.cell_idx(rr, cc)]@ == old_h.cells@[self.cell_idx(
                    rr,
                    cc,
                )]@.push((t.index, t.radius, t.position)));
                assert(m2 == old_h.cells@[ci]@.len());
                assert((self.cells@[ci]@[m2]).0 == t.index);
                assert(self.cells@[ci]@[m1] == old_h.cells@[ci]@[m1]);
                assert(0 <= m1 < old_h.cells@[ci]@.len());
                assert(old_h.recorded_with_home(ci, m1));
                let k = choose|k: int|
                    0 <= k < old_h.items_view@.len() && (#[trigger] old_h.items_view@[k])
                        == entry_item(old_h.cells@[ci]@[m1]) && old_h.home(
                        old_h.items_view@[k],
                        ci / old_h.cols(),
                        ci % old_h.cols(),
                    );
                assert((old_h.cells@[ci]@[m1]).0 == old_h.items_view@[k].index);
                assert(old_h.items_view@[k].index != t.index);
            }
        }
    }
}

/// A bucket index within the grid determines a valid cell.
proof fn lemma_cell_idx_surjective(ci: int, rows: int, cols: int)
    requires
        1 <= rows,
        1 <= cols,
        0 <= ci < rows * cols,
    ensures
        0 <= ci / cols < rows,
        0 <= ci % cols < cols,
        (ci / cols) * cols + (ci % cols) == ci,
{
    lemma_fundamental_div_mod(ci, cols);
    lemma_mod_bound(ci, cols);
    assert(cols * (ci / cols) == (ci / cols) * cols) by (nonlinear_arith);
    vstd::arithmetic::div_mod::lemma_div_pos_is_pos(ci, cols);
    lemma_floor_threshold(ci, cols, rows);
    if ci / cols >= rows {
        assert(ci >= rows * cols) by {
            assert(rows * cols == cols * rows) by (nonlinear_arith);
            lemma_floor_threshold(ci, cols, rows);
        }
    }
}

/// A bucket entry stands for a valid recorded snapshot.
proof fn lemma_bucket_entry(h: SpatialHash, ci: int, m: int)
    requires
        h.inv(),
        0 <= ci < h.cells@.len(),
        0 <= m < h.cells@[ci]@.len(),
    ensures
        valid_item(entry_item(h.cells@[ci]@[m])),
        exists|k: int|
            0 <= k < h.items_view@.len() && #[trigger] h.items_view@[k] == entry_item(
                h.cells@[ci]@[m],
            ),
{
    let e = h.cells@[ci]@[m];
    assert(h.recorded_with_home(ci, m));
    let k = choose|k: int|
        0 <= k < h.items_view@.len() && (#[trigger] h.items_view@[k]) == entry_item(h.cells@[ci]@[m])
            && h.home(h.items_view@[k], ci / h.cols(), ci % h.cols());
    assert(valid_item(h.items_view@[k]));
}

/// A done cell stays done when the list grows.
proof fn lemma_done_prefix(h: SpatialHash, s1: Seq<Collision>, s2: Seq<Collision>, row: int, col: int)
    requires
        crate::collision::seq_prefix(s1, s2),
        bucket_pairs_done(h, s1, row, col),
    ensures
        bucket_pairs_done(h, s2, row, col),
{
    let ci = h.cell_idx(row, col);
    assert forall|m1: int, m2: int|
        #![trigger h.cells@[ci]@[m1], h.cells@[ci]@[m2]]
        0 <= m1 < m2 < h.cells@[ci]@.len() && overlaps(
            entry_item(h.cells@[ci]@[m1]),
            entry_item(h.cells@[ci]@[m2]),
        ) implies has_pair(
        s2,
        min_idx(entry_item(h.cells@[ci]@[m1]), entry_item(h.cells@[ci]@[m2])),
        max_idx(entry_item(h.cells@[ci]@[m1]), entry_item(h.cells@[ci]@[m2])),
    ) by {
        crate::collision::lemma_has_pair_prefix(
            s1,
            s2,
            min_idx(entry_item(h.cells@[ci]@[m1]), entry_item(h.cells@[ci]@[m2])),
            max_idx(entry_item(h.cells@[ci]@[m1]), entry_item(h.cells@[ci]@[m2])),
        );
    }
}

/// When every cell of a region is done, every pair found in the region
/// is in the list.
proof fn lemma_region_complete(
    h: SpatialHash,
    s: Seq<Collision>,
    r0: int,
    c0: int,
    nr: int,
    nc: int,
)
    requires
        h.inv(),
        r0 + nr <= h.rows(),
        c0 + nc <= h.cols(),
        0 <= r0,
        0 <= c0,
        forall|row: int, col: int|
            #![trigger bucket_pairs_done(h, s, row, col)]
            r0 <= row < r0 + nr && c0 <= col < c0 + nc ==> bucket_pairs_done(h, s, row, col),
    ensures
        forall|a: int, b: int| #[trigger] region_pair(h, a, b, r0, c0, nr, nc) ==> has_pair(s, a, b),
{
    assert forall|a: int, b: int| #[trigger] region_pair(h, a, b, r0, c0, nr, nc) implies has_pair(
        s,
        a,
        b,
    ) by {
        let (k1, k2): (int, int) = choose|k1: int, k2: int|
            #![trigger h.items_view@[k1], h.items_view@[k2]]
            {
                &&& 0 <= k1 < h.items_view@.len()
                &&& 0 <= k2 < h.items_view@.len()
                &&& h.items_view@[k1].index == a
                &&& h.items_view@[k2].index == b
                &&& a < b
                &&& overlaps(h.items_view@[k1], h.items_view@[k2])
                &&& shares_cell_in(h, h.items_view@[k1], h.items_view@[k2], r0, c0, nr, nc)
            };
        let t1 = h.items_view@[k1];
        let t2 = h.items_view@[k2];
        let (row, col): (int, int) = choose|row: int, col: int|
            #![trigger h.home(t1, row, col), h.home(t2, row, col)]
            r0 <= row < r0 + nr && c0 <= col < c0 + nc && h.home(t1, row, col) && h.home(
                t2,
                row,
                col,
            );
        assert(h.stored_at(t1, row, col));
        assert(h.stored_at(t2, row, col));
        let ci = h.cell_idx(row, col);
        lemma_cell_idx_bound(row, col, h.rows(), h.cols());
        let m1 = choose|m: int|
            0 <= m < h.cells@[ci]@.len() && entry_item(#[trigger] h.cells@[ci]@[m]) == t1;
        let m2 = choose|m: int|
            0 <= m < h.cells@[ci]@.len() && entry_item(#[trigger] h.cells@[ci]@[m]) == t2;
        assert(m1 != m2);
        crate::collision::lemma_overlaps_symmetric(t1, t2);
        if m1 < m2 {
            assert(bucket_pairs_done(h, s, row, col));
            assert(has_pair(s, min_idx(t1, t2), max_idx(t1, t2)));
        } else {
            assert(bucket_pairs_done(h, s, row, col));
            assert(has_pair(s, min_idx(t2, t1), max_idx(t2, t1)));
        }
    }
}

impl SpatialHash {
    /// Collect the collisions and the compared index pairs of one cell's
    /// bucket.
    fn scan_bucket(
        &self,
        row: usize,
        col: usize,
        out: &mut Vec<Collision>,
        comps: &mut Vec<(usize, usize)>,
    )
        requires
            self.inv(),
            row < self.rows(),
            col < self.cols(),
            sound_collisions(old(out)@, self.items_view@),
            forall|k: int|
                0 <= k < old(out)@.len() ==> has_comp(
                    old(comps)@,
                    (#[trigger] old(out)@[k]).p1 as int,
                    old(out)@[k].p2 as int,
                ),
        ensures
            crate::collision::seq_prefix(old(out)@, final(out)@),
            crate::collision::seq_prefix(old(comps)@, final(comps)@),
            sound_collisions(final(out)@, self.items_view@),
            forall|k: int|
                0 <= k < final(out)@.len() ==> has_comp(
                    final(comps)@,
                    (#[trigger] final(out)@[k]).p1 as int,
                    final(out)@[k].p2 as int,
                ),
            bucket_pairs_done(*self, final(out)@, row as int, col as int),
    {
        let ci = self.get_cell_index(row, col);
        let ghost gci = ci as int;
        let n = self.cells[ci].len();
        let mut m1: usize = 0;
        while m1 < n
            invariant
                self.inv(),
                row < self.rows(),
                col < self.cols(),
                gci == self.cell_idx(row as int, col as int),
                ci == gci,
                ci < self.cells@.len(),
                n == self.cells@[gci]@.len(),
                m1 <= n,
                crate::collision::seq_prefix(old(out)@, out@),
                crate::collision::seq_prefix(old(comps)@, comps@),
                sound_collisions(out@, self.items_view@),
                forall|k: int|
                    0 <= k < out@.len() ==> has_comp(
                        comps@,
                        (#[trigger] out@[k]).p1 as int,
                        out@[k].p2 as int,
                    ),
                forall|a1: int, a2: int|
                    #![trigger self.cells@[gci]@[a1], self.cells@[gci]@[a2]]
                    0 <= a1 < a2 < n && a1 < m1 && overlaps(
                        entry_item(self.cells@[gci]@[a1]),
                        entry_item(self.cells@[gci]@[a2]),
                    ) ==> has_pair(
                        out@,
                        min_idx(entry_item(self.cells@[gci]@[a1]), entry_item(self.cells@[gci]@[a2])),
                        max_idx(entry_item(self.cells@[gci]@[a1]), entry_item(self.cells@[gci]@[a2])),
                    ),
            decreases n - m1,
        {
            let mut m2: usize = m1 + 1;
            while m2 < n
                invariant
                    self.inv(),
                    row < self.rows(),
                    col < self.cols(),
                    gci == self.cell_idx(row as int, col as int),
                    ci == gci,
                    ci < self.cells@.len(),
                    n == self.cells@[gci]@.len(),
                    m1 < n,
                    m1 < m2 <= n,
                    crate::collision::seq_prefix(old(out)@, out@),
                    crate::collision::seq_prefix(old(comps)@, comps@),
                    sound_collisions(out@, self.items_view@),
                    forall|k: int|
                        0 <= k < out@.len() ==> has_comp(
                            comps@,
                            (#[trigger] out@[k]).p1 as int,
                            out@[k].p2 as int,
                        ),
                    forall|a1: int, a2: int|
                        #![trigger self.cells@[gci]@[a1], self.cells@[gci]@[a2]]
                        0 <= a1 < a2 < n && (a1 < m1 || (a1 == m1 && a2 < m2)) && overlaps(
                            entry_item(self.cells@[gci]@[a1]),
                            entry_item(self.cells@[gci]@[a2]),
                        ) ==> has_pair(
                            out@,
                            min_idx(
                                entry_item(self.cells@[gci]@[a1]),
                                entry_item(self.cells@[gci]@[a2]),
                            ),
                            max_idx(
                                entry_item(self.cells@[gci]@[a1]),
                                entry_item(self.cells@[gci]@[a2]),
                            ),
                        ),
                decreases n - m2,
            {
                let bucket = &self.cells[ci];
                let e1 = bucket[m1];
                let e2 = bucket[m2];
                let a = Item { index: e1.0, radius: e1.1, position: e1.2 };
                let b = Item { index: e2.0, radius: e2.1, position: e2.2 };
                proof {
                    lemma_bucket_entry(*self, gci, m1 as int);
                    lemma_bucket_entry(*self, gci, m2 as int);
                    assert(a == entry_item(self.cells@[gci]@[m1 as int]));
                    assert(b == entry_item(self.cells@[gci]@[m2 as int]));
                }
                let ghost out0 = out@;
                let ghost comps0 = comps@;
                comps.push((e1.0, e2.0));
                if let Some(c) = check_pair(a, b) {
                    out.push(c);
                    proof {
                        let k1 = choose|k: int|
                            0 <= k < self.items_view@.len() && #[trigger] self.items_view@[k]
                                == entry_item(self.cells@[gci]@[m1 as int]);
                        let k2 = choose|k: int|
                            0 <= k < self.items_view@.len() && #[trigger] self.items_view@[k]
                                == entry_item(self.cells@[gci]@[m2 as int]);
                        crate::collision::lemma_collision_of_symmetric(a, b);
                        crate::collision::lemma_overlaps_symmetric(a, b);
                        if a.index < b.index {
                            assert(self.items_view@[k1].index == c.p1);
                            assert(is_collision_from(self.items_view@, c));
                        } else {
                            assert(self.items_view@[k2].index == c.p1);
                            assert(is_collision_from(self.items_view@, c));
                        }
                        assert(out@[out0.len() as int] == c);
                        assert(comps@[comps0.len() as int] == (e1.0, e2.0));
                        assert(has_comp(comps@, c.p1 as int, c.p2 as int));
                    }
                }
                proof {
                    assert(crate::collision::seq_prefix(out0, out@));
                    assert(crate::collision::seq_prefix(comps0, comps@));
                    assert forall|k: int| 0 <= k < out@.len() implies has_comp(
                        comps@,
                        (#[trigger] out@[k]).p1 as int,
                        out@[k].p2 as int,
                    ) by {
                        if k < out0.len() {
                            crate::collision::lemma_has_comp_prefix(
                                comps0,
                                comps@,
                                out0[k].p1 as int,
                                out0[k].p2 as int,
                            );
                        }
                    }
                    assert forall|a1: int, a2: int|
                        #![trigger self.cells@[gci]@[a1], self.cells@[gci]@[a2]]
                        0 <= a1 < a2 < n && (a1 < m1 || (a1 == m1 && a2 < m2 + 1)) && overlaps(
                            entry_item(self.cells@[gci]@[a1]),
                            entry_item(self.cells@[gci]@[a2]),
                        ) implies has_pair(
                        out@,
                        min_idx(entry_item(self.cells@[gci]@[a1]), entry_item(self.cells@[gci]@[a2])),
                        max_idx(entry_item(self.cells@[gci]@[a1]), entry_item(self.cells@[gci]@[a2])),
                    ) by {
                        if a1 == m1 && a2 == m2 {
                            assert(overlaps(a, b));
                            assert(has_pair(out@, min_idx(a, b), max_idx(a, b)));
                        } else {
                            crate::collision::lemma_has_pair_prefix(
                                out0,
                                out@,
                                min_idx(
                                    entry_item(self.cells@[gci]@[a1]),
                                    entry_item(self.cells@[gci]@[a2]),
                                ),
                                max_idx(
                                    entry_item(self.cells@[gci]@[a1]),
                                    entry_item(self.cells@[gci]@[a2]),
                                ),
                            );
                        }
                    }
                }
                m2 += 1;
            }
            m1 += 1;
        }
    }

    /// Collect the collisions and the compared index pairs of every cell
    /// in a rectangular region of the grid.
    fn scan_region(&self, r0: usize, c0: usize, nr: usize, nc: usize) -> (rc: (
        Vec<Collision>,
        Vec<(usize, usize)>,
    ))
        requires
            self.inv(),
            r0 + nr <= self.rows(),
            c0 + nc <= self.cols(),
        ensures
            sound_collisions(rc.0@, self.items_view@),
            forall|k: int|
                0 <= k < rc.0@.len() ==> has_comp(
                    rc.1@,
                    (#[trigger] rc.0@[k]).p1 as int,
                    rc.0@[k].p2 as int,
                ),
            forall|row: int, col: int|
                #![trigger bucket_pairs_done(*self, rc.0@, row, col)]
                r0 <= row < r0 + nr && c0 <= col < c0 + nc ==> bucket_pairs_done(
                    *self,
                    rc.0@,
                    row,
                    col,
                ),
    {
        let mut out: Vec<Collision> = Vec::new();
        let mut comps: Vec<(usize, usize)> = Vec::new();
        let mut ri: usize = 0;
        while ri < nr
            invariant
                self.inv(),
                r0 + nr <= self.rows(),
                c0 + nc <= self.cols(),
                ri <= nr,
                sound_collisions(out@, self.items_view@),
                forall|k: int|
                    0 <= k < out@.len() ==> has_comp(
                        comps@,
                        (#[trigger] out@[k]).p1 as int,
                        out@[k].p2 as int,
                    ),
                forall|row: int, col: int|
                    #![trigger bucket_pairs_done(*self, out@, row, col)]
                    r0 <= row < r0 + ri && c0 <= col < c0 + nc ==> bucket_pairs_done(
                        *self,
                        out@,
                        row,
                        col,
                    ),
            decreases nr - ri,
        {
            let mut cj: usize = 0;
            while cj < nc
                invariant
                    self.inv(),
                    r0 + nr <= self.rows(),
                    c0 + nc <= self.cols(),
                    ri < nr,
                    cj <= nc,
                    sound_collisions(out@, self.items_view@),
                    forall|k: int|
                        0 <= k < out@.len() ==> has_comp(
                            comps@,
                            (#[trigger] out@[k]).p1 as int,
                            out@[k].p2 as int,
                        ),
                    forall|row: int, col: int|
                        #![trigger bucket_pairs_done(*self, out@, row, col)]
                        r0 <= row < r0 + nr && c0 <= col < c0 + nc && (row < r0 + ri || (row == r0
                            + ri && col < c0 + cj)) ==> bucket_pairs_done(*self, out@, row, col),
                decreases nc - cj,
            {
                let ghost out0 = out@;
                self.scan_bucket(r0 + ri, c0 + cj, &mut out, &mut comps);
                proof {
                    assert forall|row: int, col: int|
                        #![trigger bucket_pairs_done(*self, out@, row, col)]
                        r0 <= row < r0 + nr && c0 <= col < c0 + nc && (row < r0 + ri || (row == r0
                            + ri && col < c0 + cj + 1)) implies bucket_pairs_done(
                        *self,
                        out@,
                        row,
                        col,
                    ) by {
                        if row == r0 + ri && col == c0 + cj {
                        } else {
                            lemma_done_prefix(*self, out0, out@, row, col);
                        }
                    }
                }
                cj += 1;
            }
            proof {
                assert forall|row: int, col: int|
                    #![trigger bucket_pairs_done(*self, out@, row, col)]
                    r0 <= row < r0 + ri + 1 && c0 <= col < c0 + nc implies bucket_pairs_done(
                    *self,
                    out@,
                    row,
                    col,
                ) by {}
            }
            ri += 1;
        }
        (out, comps)
    }

    /// Get the canonical collision list of every pair found within a
    /// rectangular region of cells: sorted, deduplicated, sound, and
    /// complete for the region.
    fn check_collisions_in_subgrid(&self, row: usize, column: usize, rows: usize, columns: usize) -> (r:
        Vec<Collision>)
        requires
            self.inv(),
            row + rows <= self.rows(),
            column + columns <= self.cols(),
        ensures
            canonical_region(r@, *self, row as int, column as int, rows as int, columns as int),
    {
        let (raw, _comps) = self.scan_region(row, column, rows, columns);
        let r = canonicalize(raw);
        proof {
            lemma_region_complete(
                *self,
                raw@,
                row as int,
                column as int,
                rows as int,
                columns as int,
            );
            assert forall|k: int| 0 <= k < r@.len() implies is_collision_from(
                self.items_view@,
                #[trigger] r@[k],
            ) by {
                assert(raw@.contains(r@[k]));
                let m = choose|m: int| 0 <= m < raw@.len() && raw@[m] == r@[k];
                assert(is_collision_from(self.items_view@, raw@[m]));
            }
            assert forall|a: int, b: int|
                #[trigger] region_pair(
                    *self,
                    a,
                    b,
                    row as int,
                    column as int,
                    rows as int,
                    columns as int,
                ) implies has_pair(r@, a, b) by {
                let m = choose|m: int|
                    0 <= m < raw@.len() && (#[trigger] raw@[m]).p1 == a && raw@[m].p2 == b;
                assert(has_pair(r@, raw@[m].p1 as int, raw@[m].p2 as int));
            }
        }
        r
    }

    /// The serial check body: the canonical list over the whole grid.
    fn check_full(&self) -> (r: Vec<Collision>)
        requires
            self.inv(),
        ensures
            canonical_for(r@, self.items_view@),
    {
        let r = self.check_collisions_in_subgrid(0, 0, self.number_of_rows, self.number_of_columns);
        proof {
            self.lemma_full_region(r@);
        }
        r
    }

    /// Completeness for the full region is completeness outright,
    /// because overlapping snapshots always share a home cell.
    proof fn lemma_full_region(self, s: Seq<Collision>)
        requires
            self.inv(),
            canonical_region(s, self, 0, 0, self.rows(), self.cols()),
        ensures
            canonical_for(s, self.items_view@),
    {
        assert forall|a: int, b: int| #[trigger] is_overlap_pair(self.items_view@, a, b)
            implies has_pair(s, a, b) by {
            let (k1, k2): (int, int) = choose|k1: int, k2: int|
                #![trigger self.items_view@[k1], self.items_view@[k2]]
                {
                    &&& 0 <= k1 < self.items_view@.len()
                    &&& 0 <= k2 < self.items_view@.len()
                    &&& self.items_view@[k1].index == a
                    &&& self.items_view@[k2].index == b
                    &&& a < b
                    &&& overlaps(self.items_view@[k1], self.items_view@[k2])
                };
            self.lemma_shared_cell(self.items_view@[k1], self.items_view@[k2]);
            assert(shares_cell_in(
                self,
                self.items_view@[k1],
                self.items_view@[k2],
                0,
                0,
                self.rows(),
                self.cols(),
            ));
            assert(region_pair(self, a, b, 0, 0, self.rows(), self.cols()));
        }
    }
}

/// Distinct cells have distinct bucket indices.
proof fn lemma_cell_idx_distinct(r1: int, c1: int, r2: int, c2: int, cols: int)
    requires
        0 <= c1 < cols,
        0 <= c2 < cols,
        0 <= r1,
        0 <= r2,
        !(r1 == r2 && c1 == c2),
    ensures
        r1 * cols + c1 != r2 * cols + c2,
{
    if r1 == r2 {
    } else if r1 < r2 {
        lemma_mul_inequality(r1 + 1, r2, cols);
        assert((r1 + 1) * cols == r1 * cols + cols) by (nonlinear_arith);
    } else {
        lemma_mul_inequality(r2 + 1, r1, cols);
        assert((r2 + 1) * cols == r2 * cols + cols) by (nonlinear_arith);
    }
}

/// The floored scale `x * c / w` reaches `j` exactly when `x` reaches
/// the exact boundary `ceil(j * w / c)`.
proof fn lemma_threshold_bridge(x: int, w: int, c: int, j: int)
    requires
        c >= 1,
        w >= 1,
        j >= 0,
    ensures
        (x * c) / w >= j <==> x >= (j * w + c - 1) / c,
{
    assert(j * w >= 0) by (nonlinear_arith)
        requires
            j >= 0,
            w >= 1,
    ;
    lemma_floor_threshold(x * c, w, j);
    lemma_ceil_bounds(j * w, c);
    let q = (j * w + c - 1) / c;
    if x >= q {
        lemma_mul_inequality(q, x, c);
    }
    if x * c >= j * w && x < q {
        lemma_mul_inequality(x, q - 1, c);
    }
}

impl SpatialHash {
    /// The clamped column reaches `j` exactly at the column boundary.
    proof fn lemma_col_of_ge(self, x: int, j: int)
        requires
            self.wf_dims(),
            0 <= j <= self.cols() - 1,
        ensures
            self.col_of(x) >= j <==> (j == 0 || x >= self.bd_x(j)),
    {
        if j > 0 {
            lemma_threshold_bridge(x, self.width as int, self.cols(), j);
        }
    }

    /// The clamped column stays at or below `j` exactly below the next
    /// column boundary.
    proof fn lemma_col_of_le(self, x: int, j: int)
        requires
            self.wf_dims(),
            0 <= j <= self.cols() - 1,
        ensures
            self.col_of(x) <= j <==> (j == self.cols() - 1 || x < self.bd_x(j + 1)),
    {
        if j < self.cols() - 1 {
            lemma_threshold_bridge(x, self.width as int, self.cols(), j + 1);
        }
    }

    /// The clamped row reaches `j` exactly at the row boundary.
    proof fn lemma_row_of_ge(self, y: int, j: int)
        requires
            self.wf_dims(),
            0 <= j <= self.rows() - 1,
        ensures
            self.row_of(y) >= j <==> (j == 0 || y >= self.bd_y(j)),
    {
        if j > 0 {
            lemma_threshold_bridge(y, self.height as int, self.rows(), j);
        }
    }

    /// The clamped row stays at or below `j` exactly below the next row
    /// boundary.
    proof fn lemma_row_of_le(self, y: int, j: int)
        requires
            self.wf_dims(),
            0 <= j <= self.rows() - 1,
        ensures
            self.row_of(y) <= j <==> (j == self.rows() - 1 || y < self.bd_y(j + 1)),
    {
        if j < self.rows() - 1 {
            lemma_threshold_bridge(y, self.height as int, self.rows(), j + 1);
        }
    }

    /// Cell mapping is monotone in the coordinate.
    proof fn lemma_col_of_monotone(self, x1: int, x2: int)
        requires
            self.wf_dims(),
            x1 <= x2,
        ensures
            self.col_of(x1) <= self.col_of(x2),
    {
        lemma_mul_inequality(x1, x2, self.cols());
        vstd::arithmetic::div_mod::lemma_div_is_ordered(
            x1 * self.cols(),
            x2 * self.cols(),
            self.width as int,
        );
    }

    /// Cell mapping is monotone in the coordinate.
    proof fn lemma_row_of_monotone(self, y1: int, y2: int)
        requires
            self.wf_dims(),
            y1 <= y2,
        ensures
            self.row_of(y1) <= self.row_of(y2),
    {
        lemma_mul_inequality(y1, y2, self.rows());
        vstd::arithmetic::div_mod::lemma_div_is_ordered(
            y1 * self.rows(),
            y2 * self.rows(),
            self.height as int,
        );
    }

    /// Column boundaries are monotone.
    proof fn lemma_bd_x_monotone(self, j1: int, j2: int)
        requires
            self.wf_dims(),
            0 <= j1 <= j2,
        ensures
            self.bd_x(j1) <= self.bd_x(j2),
    {
        lemma_mul_inequality(j1, j2, self.width as int);
        vstd::arithmetic::div_mod::lemma_div_is_ordered(
            j1 * self.width + self.cols() - 1,
            j2 * self.width + self.cols() - 1,
            self.cols(),
        );
    }

    /// Row boundaries are monotone.
    proof fn lemma_bd_y_monotone(self, j1: int, j2: int)
        requires
            self.wf_dims(),
            0 <= j1 <= j2,
        ensures
            self.bd_y(j1) <= self.bd_y(j2),
    {
        lemma_mul_inequality(j1, j2, self.height as int);
        vstd::arithmetic::div_mod::lemma_div_is_ordered(
            j1 * self.height + self.rows() - 1,
            j2 * self.height + self.rows() - 1,
            self.rows(),
        );
    }

    /// The column ranges of two circles whose x extents come closer
    /// than their summed radii intersect.
    proof fn lemma_col_ranges_intersect(self, p1: Vector, r1: i64, p2: Vector, r2: i64)
        requires
            self.wf_dims(),
            -(r1 + r2) < p1.x - p2.x < r1 + r2,
            valid_radius(r1),
            valid_radius(r2),
        ensures
            self.col_lo(p1, r1) <= self.col_hi(p2, r2),
            self.col_lo(p2, r2) <= self.col_hi(p1, r1),
            0 <= self.col_lo(p1, r1) <= self.col_hi(p1, r1) <= self.cols() - 1,
            0 <= self.col_lo(p2, r2) <= self.col_hi(p2, r2) <= self.cols() - 1,
    {
        let c1 = self.col_of(p1.x as int);
        let c2 = self.col_of(p2.x as int);
        self.lemma_col_of_monotone(p1.x - r1, p1.x + r1);
        self.lemma_col_of_monotone(p2.x - r2, p2.x + r2);
        if self.contained(p1, r1) && self.contained(p2, r2) {
            if c1 < c2 {
                self.lemma_bd_x_monotone(c1 + 1, c2);
                assert(false);
            }
            if c2 < c1 {
                self.lemma_bd_x_monotone(c2 + 1, c1);
                assert(false);
            }
        } else if self.contained(p1, r1) {
            self.lemma_col_of_le(p2.x - r2, c1);
            self.lemma_col_of_ge(p2.x + r2, c1);
        } else if self.contained(p2, r2) {
            self.lemma_col_of_le(p1.x - r1, c2);
            self.lemma_col_of_ge(p1.x + r1, c2);
        } else {
            self.lemma_col_of_monotone(p1.x - r1, p2.x + r2);
            self.lemma_col_of_monotone(p2.x - r2, p1.x + r1);
        }
    }

    /// The row ranges of two circles whose y extents come closer than
    /// their summed radii intersect.
    proof fn lemma_row_ranges_intersect(self, p1: Vector, r1: i64, p2: Vector, r2: i64)
        requires
            self.wf_dims(),
            -(r1 + r2) < p1.y - p2.y < r1 + r2,
            valid_radius(r1),
            valid_radius(r2),
        ensures
            self.row_lo(p1, r1) <= self.row_hi(p2, r2),
            self.row_lo(p2, r2) <= self.row_hi(p1, r1),
            0 <= self.row_lo(p1, r1) <= self.row_hi(p1, r1) <= self.rows() - 1,
            0 <= self.row_lo(p2, r2) <= self.row_hi(p2, r2) <= self.rows() - 1,
    {
        let c1 = self.row_of(p1.y as int);
        let c2 = self.row_of(p2.y as int);
        self.lemma_row_of_monotone(p1.y - r1, p1.y + r1);
        self.lemma_row_of_monotone(p2.y - r2, p2.y + r2);
        if self.contained(p1, r1) && self.contained(p2, r2) {
            if c1 < c2 {
                self.lemma_bd_y_monotone(c1 + 1, c2);
                assert(false);
            }
            if c2 < c1 {
                self.lemma_bd_y_monotone(c2 + 1, c1);
                assert(false);
            }
        } else if self.contained(p1, r1) {
            self.lemma_row_of_le(p2.y - r2, c1);
            self.lemma_row_of_ge(p2.y + r2, c1);
        } else if self.contained(p2, r2) {
            self.lemma_row_of_le(p1.y - r1, c2);
            self.lemma_row_of_ge(p1.y + r1, c2);
        } else {
            self.lemma_row_of_monotone(p1.y - r1, p2.y + r2);
            self.lemma_row_of_monotone(p2.y - r2, p1.y + r1);
        }
    }

    /// Two overlapping circles always share one of their home cells:
    /// the heart of the grid's completeness.
    pub proof fn lemma_shared_cell(self, t1: Item, t2: Item)
        requires
            self.wf_dims(),
            valid_item(t1),
            valid_item(t2),
            overlaps(t1, t2),
        ensures
            exists|row: int, col: int|
                #![trigger self.home(t1, row, col), self.home(t2, row, col)]
                0 <= row < self.rows() && 0 <= col < self.cols() && self.home(t1, row, col)
                    && self.home(t2, row, col),
    {
        lemma_axis_overlap(t1, t2);
        self.lemma_col_ranges_intersect(t1.position, t1.radius, t2.position, t2.radius);
        self.lemma_row_ranges_intersect(t1.position, t1.radius, t2.position, t2.radius);
        let col = if self.col_lo(t1.position, t1.radius) >= self.col_lo(t2.position, t2.radius) {
            self.col_lo(t1.position, t1.radius)
        } else {
            self.col_lo(t2.position, t2.radius)
        };
        let row = if self.row_lo(t1.position, t1.radius) >= self.row_lo(t2.position, t2.radius) {
            self.row_lo(t1.position, t1.radius)
        } else {
            self.row_lo(t2.position, t2.radius)
        };
        assert(self.home(t1, row, col) && self.home(t2, row, col));
    }
}

/// Two overlapping circles come closer than their summed radii along
/// each axis separately.
pub proof fn lemma_axis_overlap(t1: Item, t2: Item)
    requires
        valid_item(t1),
        valid_item(t2),
        overlaps(t1, t2),
    ensures
        -(t1.radius + t2.radius) < t1.position.x - t2.position.x < t1.radius + t2.radius,
        -(t1.radius + t2.radius) < t1.position.y - t2.position.y < t1.radius + t2.radius,
{
    let dx = t1.position.x - t2.position.x;
    let dy = t1.position.y - t2.position.y;
    let s = t1.radius + t2.radius;
    lemma_abs_square_bound(dx, 2 * COORD_LIMIT as int);
    lemma_abs_square_bound(dy, 2 * COORD_LIMIT as int);
    if dx >= s {
        lemma_square_monotone(s, dx);
        assert(false);
    }
    if dx <= -s {
        lemma_square_monotone(s, -dx);
        assert((-dx) * (-dx) == dx * dx) by (nonlinear_arith);
        assert(false);
    }
    if dy >= s {
        lemma_square_monotone(s, dy);
        assert(false);
    }
    if dy <= -s {
        lemma_square_monotone(s, -dy);
        assert((-dy) * (-dy) == dy * dy) by (nonlinear_arith);
        assert(false);
    }
}

/// A cell's bucket index is within the grid.
proof fn lemma_cell_idx_bound(row: int, col: int, rows: int, cols: int)
    requires
        0 <= row < rows,
        0 <= col < cols,
        1 <= rows,
        1 <= cols,
    ensures
        0 <= row * cols + col < rows * cols,
{
    lemma_mul_inequality(row + 1, rows, cols);
    assert(row * cols >= 0) by (nonlinear_arith)
        requires
            row >= 0,
            cols >= 1,
    ;
    assert((row + 1) * cols == row * cols + cols) by (nonlinear_arith);
}

} // verus!
