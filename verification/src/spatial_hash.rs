//! A uniform spatial hash grid over a toroidal domain: buckets of
//! (position, item) pairs per cell, with radius queries that wrap across the
//! domain edges.

use vstd::prelude::*;
use crate::buckets::{
    cat_cells, cat_sel, cross_sel, lemma_cat_sel_add, lemma_cat_sel_covers, lemma_cat_sel_push,
    lemma_cross_sel_contains, lemma_cross_sel_increasing, lemma_filter_none, lemma_filter_push,
    row_sel,
};
use crate::math::{wrap_delta, Rect, Vec2, MAX_COORD};
use vstd::arithmetic::div_mod::{
    lemma_div_is_ordered, lemma_div_multiples_vanish, lemma_div_pos_is_pos,
    lemma_fundamental_div_mod, lemma_fundamental_div_mod_converse_div,
    lemma_hoist_over_denominator, lemma_mod_division_less_than_divisor, lemma_multiply_divide_lt,
};

verus! {

/// Upper bound on the cell count per axis.
pub const MAX_CELLS: usize = 4096;

/// The squared toroidal distance between two points of the domain: the
/// squares of the per-axis shortest wrapped differences, summed.
pub open spec fn tor_dist_sq(dom: Rect, a: Vec2, b: Vec2) -> int {
    let dx = wrap_delta(dom.width(), b.x - a.x);
    let dy = wrap_delta(dom.height(), b.y - a.y);
    dx * dx + dy * dy
}

/// A uniform grid of buckets over a toroidal domain. Rebuilt from scratch
/// every tick: cleared, then filled by inserting every particle once.
#[derive(Debug)]
pub struct SpatialHashGrid<T> {
    cells: Vec<Vec<(Vec2, T)>>,
    bounds: Rect,
    cols: usize,
    rows: usize,
}

impl<T: Copy> SpatialHashGrid<T> {
    pub closed spec fn bounds_spec(self) -> Rect {
        self.bounds
    }

    pub closed spec fn cols_spec(self) -> int {
        self.cols as int
    }

    pub closed spec fn rows_spec(self) -> int {
        self.rows as int
    }

    /// The bucket of one cell, by linear cell index.
    pub closed spec fn cell(self, c: int) -> Seq<(Vec2, T)> {
        self.cells@[c]@
    }

    /// The column holding an x coordinate: offsets from the domain's left
    /// edge, in units of one cell width, rounded down.
    pub open spec fn cell_x(self, x: int) -> int {
        (x - self.bounds_spec().min.x) * self.cols_spec() / self.bounds_spec().width()
    }

    /// The row holding a y coordinate.
    pub open spec fn cell_y(self, y: int) -> int {
        (y - self.bounds_spec().min.y) * self.rows_spec() / self.bounds_spec().height()
    }

    /// The linear cell index of a position.
    pub open spec fn cell_of(self, p: Vec2) -> int {
        self.cell_y(p.y as int) * self.cols_spec() + self.cell_x(p.x as int)
    }

    /// Well-formed: a valid domain, one bucket per cell, and every stored
    /// pair lying in the domain, in exactly the bucket its position hashes
    /// to.
    pub closed spec fn wf(self) -> bool {
        &&& self.bounds.wf()
        &&& 1 <= self.cols <= MAX_CELLS
        &&& 1 <= self.rows <= MAX_CELLS
        &&& self.cells@.len() == self.rows_spec() * self.cols_spec()
        &&& forall|c: int, k: int|
            0 <= c < self.cells@.len() && 0 <= k < self.cell(c).len() ==> {
                &&& self.bounds_spec().contains((#[trigger] self.cell(c)[k]).0)
                &&& self.cell_of(self.cell(c)[k].0) == c
            }
    }

    /// True when the grid holds no items at all.
    pub open spec fn is_empty(self) -> bool {
        forall|c: int|
            0 <= c < self.rows_spec() * self.cols_spec() ==> #[trigger] self.cell(c).len() == 0
    }

    /// A well-formed grid covers a well-formed domain.
    pub proof fn lemma_bounds_wf(self)
        requires
            self.wf(),
        ensures
            self.bounds_spec().wf(),
    {
    }

    /// The domain the grid currently covers.
    pub fn bounds(&self) -> (b: Rect)
        ensures
            b == self.bounds_spec(),
    {
        self.bounds
    }

    /// Allocates an empty grid of `x` by `y` cells over the domain.
    pub fn new(bounds: Rect, cell_count: (usize, usize)) -> (g: SpatialHashGrid<T>)
        requires
            bounds.wf(),
            1 <= cell_count.0 <= MAX_CELLS,
            1 <= cell_count.1 <= MAX_CELLS,
        ensures
            g.wf(),
            g.bounds_spec() == bounds,
            g.cols_spec() == cell_count.0,
            g.rows_spec() == cell_count.1,
            g.is_empty(),
            g.items() == Seq::<(Vec2, T)>::empty(),
    {
        let (x, y) = cell_count;
        proof {
            assert(x * y <= MAX_CELLS * MAX_CELLS && x * y == y * x) by (nonlinear_arith)
                requires
                    1 <= x <= MAX_CELLS,
                    1 <= y <= MAX_CELLS,
            ;
        }
        let n = x * y;
        let mut cells: Vec<Vec<(Vec2, T)>> = Vec::new();
        let mut i: usize = 0;
        while i < n
            invariant
                i <= n,
                cells@.len() == i,
                forall|c: int| 0 <= c < i ==> #[trigger] cells@[c]@.len() == 0,
            decreases n - i,
        {
            cells.push(Vec::new());
            i = i + 1;
        }
        let g = SpatialHashGrid { cells, bounds, cols: x, rows: y };
        proof {
            assert(forall|c: int| 0 <= c < g.cells@.len() ==> #[trigger] g.cell(c).len() == 0);
            crate::buckets::lemma_cat_cells_all_empty(g.cell_seqs());
        }
        g
    }

    /// Recomputes the domain after a resize. The grid does not rehash, so it
    /// must have been cleared first.
    pub fn update_bounds(&mut self, bounds: Rect)
        requires
            old(self).wf(),
            old(self).is_empty(),
            bounds.wf(),
        ensures
            final(self).wf(),
            final(self).bounds_spec() == bounds,
            final(self).cols_spec() == old(self).cols_spec(),
            final(self).rows_spec() == old(self).rows_spec(),
            final(self).is_empty(),
    {
        self.bounds = bounds;
        proof {
            assert(forall|c: int|
                0 <= c < self.cells@.len() ==> #[trigger] self.cell(c).len() == old(self).cell(
                    c,
                ).len());
        }
    }

    /// Empties every bucket, keeping the allocation for the next tick.
    pub fn clear(&mut self)
        requires
            old(self).wf(),
        ensures
            final(self).wf(),
            final(self).bounds_spec() == old(self).bounds_spec(),
            final(self).cols_spec() == old(self).cols_spec(),
            final(self).rows_spec() == old(self).rows_spec(),
            final(self).is_empty(),
            final(self).items() == Seq::<(Vec2, T)>::empty(),
    {
        let n = self.cells.len();
        let mut i: usize = 0;
        while i < n
            invariant
                i <= n,
                n == self.cells@.len(),
                self.bounds == old(self).bounds,
                self.cols == old(self).cols,
                self.rows == old(self).rows,
                self.cells@.len() == old(self).cells@.len(),
                forall|c: int| 0 <= c < i ==> #[trigger] self.cells@[c]@.len() == 0,
            decreases n - i,
        {
            let cell = &mut self.cells[i];
            cell.clear();
            i = i + 1;
        }
        proof {
            assert(old(self).wf());
            assert(forall|c: int| 0 <= c < n ==> #[trigger] self.cell(c).len() == 0);
            crate::buckets::lemma_cat_cells_all_empty(self.cell_seqs());
        }
    }

    /// The grid column and row of a world position, unwrapped: positions
    /// outside the domain give coordinates outside the grid.
    pub fn world_to_grid(&self, pos: Vec2) -> (g: (i64, i64))
        requires
            self.wf(),
            pos.bounded(),
        ensures
            g.0 == self.cell_x(pos.x as int),
            g.1 == self.cell_y(pos.y as int),
    {
        proof {
            lemma_offset_product_bounded(
                pos.x - self.bounds.min.x,
                self.cols as int,
            );
            lemma_offset_product_bounded(
                pos.y - self.bounds.min.y,
                self.rows as int,
            );
        }
        let gx = floor_div(
            (pos.x - self.bounds.min.x) * (self.cols as i64),
            self.bounds.max.x - self.bounds.min.x,
        );
        let gy = floor_div(
            (pos.y - self.bounds.min.y) * (self.rows as i64),
            self.bounds.max.y - self.bounds.min.y,
        );
        (gx, gy)
    }

    /// Wraps unwrapped grid coordinates onto the torus of cells, matching
    /// the toroidal topology of the domain itself.
    pub fn wrap_coordinates(&self, c: (i64, i64)) -> (w: (usize, usize))
        requires
            self.wf(),
            -65_536_000_000 <= c.0 <= 65_536_000_000,
            -65_536_000_000 <= c.1 <= 65_536_000_000,
        ensures
            w.0 == c.0 as int % self.cols_spec(),
            w.1 == c.1 as int % self.rows_spec(),
            w.0 < self.cols_spec(),
            w.1 < self.rows_spec(),
    {
        let wx = wrap_cell(c.0, self.cols as i64);
        let wy = wrap_cell(c.1, self.rows as i64);
        (wx as usize, wy as usize)
    }

    /// The linear bucket index of wrapped grid coordinates: row-major, rows
    /// of `cols` cells.
    pub fn grid_to_index(&self, c: (usize, usize)) -> (idx: usize)
        requires
            self.wf(),
            c.0 < self.cols_spec(),
            c.1 < self.rows_spec(),
        ensures
            idx == c.1 * self.cols_spec() + c.0,
            idx < self.rows_spec() * self.cols_spec(),
    {
        proof {
            lemma_linear_index_in_range(c.0 as int, c.1 as int, self.cols as int, self.rows as int);
        }
        c.1 * self.cols + c.0
    }

    /// The number of cells a query radius spans per axis, rounding up.
    pub open spec fn x_radius(self, radius: int) -> int {
        (radius * self.cols_spec() + self.bounds_spec().width() - 1) / self.bounds_spec().width()
    }

    pub open spec fn y_radius(self, radius: int) -> int {
        (radius * self.rows_spec() + self.bounds_spec().height() - 1) / self.bounds_spec().height()
    }

    /// The squared toroidal distance between two points, measured through
    /// the grid's domain.
    pub fn toroidal_distance_sq(&self, a: Vec2, b: Vec2) -> (d: i64)
        requires
            self.wf(),
            a.bounded(),
            b.bounded(),
        ensures
            d == tor_dist_sq(self.bounds_spec(), a, b),
            d >= 0,
    {
        let delta = self.bounds.toroidal_displacement(a, b);
        proof {
            assert(delta.x * delta.x + delta.y * delta.y <= 2 * 32_000_000 * 32_000_000
                && 0 <= delta.x * delta.x && 0 <= delta.y * delta.y) by (nonlinear_arith)
                requires
                    -32_000_000 <= delta.x <= 32_000_000,
                    -32_000_000 <= delta.y <= 32_000_000,
            ;
        }
        delta.x * delta.x + delta.y * delta.y
    }

    /// Enumerates the wrapped coordinates of every cell a query must scan:
    /// the block of cells within the per-axis cell radius of the query
    /// position's cell, columns outermost, wrapped onto the cell torus.
    pub fn get_query_cells(&self, pos: Vec2, radius: i64) -> (out: Vec<(usize, usize)>)
        requires
            self.wf(),
            self.bounds_spec().contains(pos),
            0 <= radius <= MAX_COORD,
        ensures
            ({
                let xr = self.x_radius(radius as int);
                let yr = self.y_radius(radius as int);
                let gx = self.cell_x(pos.x as int);
                let gy = self.cell_y(pos.y as int);
                &&& out@.len() == (2 * xr + 1) * (2 * yr + 1)
                &&& forall|k: int|
                    0 <= k < out@.len() ==> #[trigger] out@[k] == (
                        ((gx - xr + k / (2 * yr + 1)) % self.cols_spec()) as usize,
                        ((gy - yr + k % (2 * yr + 1)) % self.rows_spec()) as usize,
                    )
            }),
    {
        proof {
            assert(pos.bounded());
        }
        let (gx, gy) = self.world_to_grid(pos);
        let w = self.bounds.max.x - self.bounds.min.x;
        let h = self.bounds.max.y - self.bounds.min.y;
        proof {
            lemma_cell_range_iff(*self, pos);
            lemma_offset_product_bounded(radius as int, self.cols as int);
            lemma_offset_product_bounded(radius as int, self.rows as int);
            lemma_cell_radius_bounds(radius as int, self.cols as int, w as int);
            lemma_cell_radius_bounds(radius as int, self.rows as int, h as int);
        }
        let xr = (radius * (self.cols as i64) + w - 1) / w;
        let yr = (radius * (self.rows as i64) + h - 1) / h;
        let ghost span_y = 2 * yr + 1;

        let mut out: Vec<(usize, usize)> = Vec::new();
        let mut x = gx - xr;
        while x <= gx + xr
            invariant
                self.wf(),
                pos.bounded(),
                -33_000_000_000 <= gx - xr <= x <= gx + xr + 1,
                gx + xr <= 33_000_000_000,
                -33_000_000_000 <= gy - yr,
                gy + yr <= 33_000_000_000,
                0 <= yr,
                gx == self.cell_x(pos.x as int),
                gy == self.cell_y(pos.y as int),
                xr == self.x_radius(radius as int),
                yr == self.y_radius(radius as int),
                span_y == 2 * yr + 1,
                out@.len() == (x - (gx - xr)) * span_y,
                forall|k: int|
                    0 <= k < out@.len() ==> #[trigger] out@[k] == (
                        ((gx - xr + k / span_y) % self.cols_spec()) as usize,
                        ((gy - yr + k % span_y) % self.rows_spec()) as usize,
                    ),
            decreases gx + xr + 1 - x,
        {
            let ghost xi = x - (gx - xr);
            let mut y = gy - yr;
            while y <= gy + yr
                invariant
                    self.wf(),
                    -33_000_000_000 <= gy - yr <= y <= gy + yr + 1,
                    gy + yr <= 33_000_000_000,
                    -33_000_000_000 <= x <= 33_000_000_000,
                    span_y == 2 * yr + 1,
                    xi == x - (gx - xr),
                    0 <= xi,
                    out@.len() == xi * span_y + (y - (gy - yr)),
                    forall|k: int|
                        0 <= k < out@.len() ==> #[trigger] out@[k] == (
                            ((gx - xr + k / span_y) % self.cols_spec()) as usize,
                            ((gy - yr + k % span_y) % self.rows_spec()) as usize,
                        ),
                decreases gy + yr + 1 - y,
            {
                let ghost yi = y - (gy - yr);
                let cell = self.wrap_coordinates((x, y));
                out.push(cell);
                proof {
                    let k = xi * span_y + yi;
                    lemma_fundamental_div_mod_converse_div(k, span_y, xi, yi);
                    vstd::arithmetic::div_mod::lemma_fundamental_div_mod_converse_mod(
                        k,
                        span_y,
                        xi,
                        yi,
                    );
                    assert(k == xi * span_y + yi);
                    assert(gx - xr + k / span_y == x && gy - yr + k % span_y == y);
                }
                y = y + 1;
            }
            x = x + 1;
            proof {
                assert((xi + 1) * span_y == xi * span_y + span_y) by (nonlinear_arith);
            }
        }
        proof {
            assert((2 * xr + 1) * span_y == (gx + xr + 1 - (gx - xr)) * span_y);
        }
        out
    }

    /// Stores a pair in the bucket of its position. A position outside the
    /// domain is discarded defensively, leaving the grid unchanged.
    pub fn insert(&mut self, pos: Vec2, item: T)
        requires
            old(self).wf(),
            pos.bounded(),
        ensures
            final(self).wf(),
            final(self).bounds_spec() == old(self).bounds_spec(),
            final(self).cols_spec() == old(self).cols_spec(),
            final(self).rows_spec() == old(self).rows_spec(),
            old(self).bounds_spec().contains(pos) ==> {
                &&& final(self).cell(old(self).cell_of(pos)) == old(self).cell(
                    old(self).cell_of(pos),
                ).push((pos, item))
                &&& forall|c: int|
                    0 <= c < old(self).rows_spec() * old(self).cols_spec() && c != old(
                        self,
                    ).cell_of(pos) ==> final(self).cell(c) == #[trigger] old(self).cell(c)
            },
            old(self).bounds_spec().contains(pos) ==> final(self).items().to_multiset() == old(
                self,
            ).items().to_multiset().insert((pos, item)),
            !old(self).bounds_spec().contains(pos) ==> final(self).items() == old(self).items(),
            !old(self).bounds_spec().contains(pos) ==> forall|c: int|
                0 <= c < old(self).rows_spec() * old(self).cols_spec() ==> final(self).cell(c)
                    == #[trigger] old(self).cell(c),
    {
        let (gx, gy) = self.world_to_grid(pos);
        proof {
            lemma_cell_range_iff(*self, pos);
        }
        if gx >= 0 && gx < self.cols as i64 && gy >= 0 && gy < self.rows as i64 {
            proof {
                lemma_linear_index_in_range(gx as int, gy as int, self.cols as int, self.rows as int);
            }
            let idx = (gy as usize) * self.cols + (gx as usize);
            let ghost before = *self;
            let cell = &mut self.cells[idx];
            cell.push((pos, item));
            proof {
                assert(self.cell(idx as int) == before.cell(idx as int).push((pos, item)));
                assert(forall|c: int|
                    0 <= c < self.cells@.len() && c != idx ==> self.cell(c) == #[trigger] before
                        .cell(c));
                assert forall|c: int, k: int|
                    0 <= c < self.cells@.len() && 0 <= k < self.cell(c).len() implies {
                    &&& self.bounds_spec().contains((#[trigger] self.cell(c)[k]).0)
                    &&& self.cell_of(self.cell(c)[k].0) == c
                } by {
                    if c == idx && k == self.cell(c).len() - 1 {
                        assert(self.cell(c)[k] == (pos, item));
                    } else {
                        assert(self.cell(c)[k] == before.cell(c)[k]);
                    }
                }
                assert(self.cell_seqs() =~= before.cell_seqs().update(
                    idx as int,
                    before.cell_seqs()[idx as int].push((pos, item)),
                ));
                crate::buckets::lemma_cat_cells_push(before.cell_seqs(), idx as int, (pos, item));
            }
        }
    }

    /// All bucket contents, as a sequence of bucket sequences.
    pub closed spec fn cell_seqs(self) -> Seq<Seq<(Vec2, T)>> {
        self.cells@.map_values(|v: Vec<(Vec2, T)>| v@)
    }

    /// Everything the grid holds: every bucket, concatenated.
    pub open spec fn items(self) -> Seq<(Vec2, T)> {
        cat_cells(self.cell_seqs())
    }

    /// Whether a stored pair lies within the query radius of a point,
    /// measured toroidally.
    pub open spec fn within_radius(self, pos: Vec2, radius: int) -> spec_fn((Vec2, T)) -> bool {
        |pr: (Vec2, T)| tor_dist_sq(self.bounds_spec(), pr.0, pos) <= radius * radius
    }

    /// Returns every stored pair whose toroidal distance to `pos` is at most
    /// `radius` — each exactly as often as the grid holds it, no other — by
    /// scanning just the block of cells the radius can reach, wrapped across
    /// the domain edges.
    #[verifier::loop_isolation(false)]
    pub fn query(&self, pos: Vec2, radius: i64) -> (out: Vec<(Vec2, T)>)
        requires
            self.wf(),
            self.bounds_spec().contains(pos),
            0 <= radius <= MAX_COORD,
        ensures
            out@.to_multiset() == self.items().filter(
                self.within_radius(pos, radius as int),
            ).to_multiset(),
            forall|i: int|
                0 <= i < out@.len() ==> tor_dist_sq(self.bounds_spec(), (#[trigger] out@[i]).0, pos)
                    <= radius * radius,
    {
        let ghost pred = self.within_radius(pos, radius as int);
        let ghost cs = self.cell_seqs();
        let ghost cols_g = self.cols_spec();
        proof {
            lemma_cell_range_iff(*self, pos);
        }
        let (gx, gy) = self.world_to_grid(pos);
        let w = self.bounds.max.x - self.bounds.min.x;
        let h = self.bounds.max.y - self.bounds.min.y;
        proof {
            lemma_offset_product_bounded(radius as int, self.cols as int);
            lemma_offset_product_bounded(radius as int, self.rows as int);
            lemma_cell_radius_bounds(radius as int, self.cols as int, w as int);
            lemma_cell_radius_bounds(radius as int, self.rows as int, h as int);
        }
        let xr = (radius * (self.cols as i64) + w - 1) / w;
        let yr = (radius * (self.rows as i64) + h - 1) / h;
        let span_x = if 2 * xr + 1 <= self.cols as i64 {
            2 * xr + 1
        } else {
            self.cols as i64
        };
        let span_y = if 2 * yr + 1 <= self.rows as i64 {
            2 * yr + 1
        } else {
            self.rows as i64
        };
        let xs = residue_run(gx - xr, span_x, self.cols);
        let ys = residue_run(gy - yr, span_y, self.rows);
        proof {
            assert(0 <= radius * radius <= MAX_COORD * MAX_COORD) by (nonlinear_arith)
                requires
                    0 <= radius <= MAX_COORD,
            ;
        }
        let rsq = radius * radius;

        let mut out: Vec<(Vec2, T)> = Vec::new();
        let mut yi: usize = 0;
        while yi < ys.len()
            invariant
                yi <= ys@.len(),
                out@ == cat_sel(cs, cross_sel(ys@.take(yi as int), xs@, cols_g)).filter(pred),
            decreases ys@.len() - yi,
        {
            let cy = ys[yi];
            let ghost row_base = cat_sel(cs, cross_sel(ys@.take(yi as int), xs@, cols_g)).filter(
                pred,
            );
            let mut xi: usize = 0;
            while xi < xs.len()
                invariant
                    xi <= xs@.len(),
                    out@ == row_base + cat_sel(
                        cs,
                        row_sel(cy as int, xs@.take(xi as int), cols_g),
                    ).filter(pred),
                decreases xs@.len() - xi,
            {
                let cx = xs[xi];
                proof {
                    lemma_linear_index_in_range(
                        cx as int,
                        cy as int,
                        self.cols as int,
                        self.rows as int,
                    );
                }
                let idx = (cy as usize) * self.cols + (cx as usize);
                let ghost cell_base = out@;
                let n_items = self.cells[idx].len();
                let mut k: usize = 0;
                while k < n_items
                    invariant
                        k <= n_items,
                        out@ == cell_base + self.cell(idx as int).take(k as int).filter(pred),
                    decreases n_items - k,
                {
                    let (q, it) = self.cells[idx][k];
                    proof {
                        assert(self.bounds_spec().contains(q));
                        assert(q.bounded());
                    }
                    let d = self.toroidal_distance_sq(q, pos);
                    proof {
                        assert(self.cell(idx as int).take(k as int + 1) =~= self.cell(
                            idx as int,
                        ).take(k as int).push((q, it)));
                        lemma_filter_push(self.cell(idx as int).take(k as int), pred, (q, it));
                    }
                    if d <= rsq {
                        out.push((q, it));
                        proof {
                            assert(out@ =~= cell_base + self.cell(idx as int).take(
                                k as int + 1,
                            ).filter(pred));
                        }
                    } else {
                        proof {
                            assert(out@ =~= cell_base + self.cell(idx as int).take(
                                k as int + 1,
                            ).filter(pred));
                        }
                    }
                    k = k + 1;
                }
                xi = xi + 1;
                proof {
                    assert(self.cell(idx as int).take(n_items as int) =~= self.cell(idx as int));
                    assert(xs@.take(xi as int).drop_last() =~= xs@.take(xi as int - 1));
                    assert(row_sel(cy as int, xs@.take(xi as int), cols_g) == row_sel(
                        cy as int,
                        xs@.take(xi as int - 1),
                        cols_g,
                    ).push(cy as int * cols_g + cx as int));
                    lemma_cat_sel_push(
                        cs,
                        row_sel(cy as int, xs@.take(xi as int - 1), cols_g),
                        cy as int * cols_g + cx as int,
                    );
                    assert(cs[idx as int] == self.cell(idx as int));
                    Seq::filter_distributes_over_add(
                        cat_sel(cs, row_sel(cy as int, xs@.take(xi as int - 1), cols_g)),
                        self.cell(idx as int),
                        pred,
                    );
                    assert(out@ =~= row_base + cat_sel(
                        cs,
                        row_sel(cy as int, xs@.take(xi as int), cols_g),
                    ).filter(pred));
                }
            }
            yi = yi + 1;
            proof {
                assert(xs@.take(xs@.len() as int) =~= xs@);
                assert(ys@.take(yi as int).drop_last() =~= ys@.take(yi as int - 1));
                assert(cross_sel(ys@.take(yi as int), xs@, cols_g) == cross_sel(
                    ys@.take(yi as int - 1),
                    xs@,
                    cols_g,
                ) + row_sel(cy as int, xs@, cols_g));
                lemma_cat_sel_add(
                    cs,
                    cross_sel(ys@.take(yi as int - 1), xs@, cols_g),
                    row_sel(cy as int, xs@, cols_g),
                );
                Seq::filter_distributes_over_add(
                    cat_sel(cs, cross_sel(ys@.take(yi as int - 1), xs@, cols_g)),
                    cat_sel(cs, row_sel(cy as int, xs@, cols_g)),
                    pred,
                );
            }
        }
        proof {
            assert(ys@.take(ys@.len() as int) =~= ys@);
            let cross = cross_sel(ys@, xs@, cols_g);
            lemma_cross_sel_increasing(ys@, xs@, self.cols_spec(), self.rows_spec());
            assert forall|c: int|
                0 <= c < cs.len() && !cross.contains(c) implies (#[trigger] cs[c]).filter(pred)
                == Seq::<(Vec2, T)>::empty() by {
                assert(cs[c] == self.cell(c));
                assert forall|k: int| 0 <= k < self.cell(c).len() implies !pred(
                    #[trigger] self.cell(c)[k],
                ) by {
                    if pred(self.cell(c)[k]) {
                        let q = self.cell(c)[k].0;
                        lemma_in_range_cell_visited(
                            *self,
                            pos,
                            radius as int,
                            q,
                            xs@,
                            ys@,
                            xr as int,
                            yr as int,
                        );
                        let cqx = self.cell_x(q.x as int);
                        let cqy = self.cell_y(q.y as int);
                        let xi0 = choose|i: int| 0 <= i < xs@.len() && xs@[i] == cqx as usize;
                        let yi0 = choose|i: int| 0 <= i < ys@.len() && ys@[i] == cqy as usize;
                        lemma_cross_sel_contains(ys@, xs@, cols_g, yi0, xi0);
                        assert((ys@[yi0] as int) == cqy && (xs@[xi0] as int) == cqx);
                        assert(c == cqy * cols_g + cqx);
                        assert(cross.contains(c));
                    }
                }
                lemma_filter_none(self.cell(c), pred);
            }
            lemma_cat_sel_covers(cs, cross, pred);
            assert forall|i: int|
                0 <= i < out@.len() implies tor_dist_sq(
                self.bounds_spec(),
                (#[trigger] out@[i]).0,
                pos,
            ) <= radius * radius by {
                cat_sel(cs, cross).lemma_filter_pred(pred, i);
            }
        }
        out
    }
}

/// Membership in a wrapped run of consecutive residues: `c` is one of
/// (start + 0..count) modulo m.
pub open spec fn in_run(c: int, start: int, count: int, m: int) -> bool {
    exists|k: int| 0 <= k < count && c == #[trigger] ((start + k) % m)
}

/// Lists the residues (start + 0..count) modulo n in strictly increasing
/// order.
fn residue_run(start: i64, count: i64, n: usize) -> (out: Vec<usize>)
    requires
        1 <= n <= MAX_CELLS,
        1 <= count <= n,
        -65_536_000_000 <= start <= 65_536_000_000,
    ensures
        out@.len() > 0,
        forall|i: int, j: int| 0 <= i < j < out@.len() ==> out@[i] < out@[j],
        forall|i: int| 0 <= i < out@.len() ==> (#[trigger] out@[i]) < n,
        forall|c: int|
            0 <= c < n ==> (out@.contains(c as usize) <==> in_run(
                c,
                start as int,
                count as int,
                n as int,
            )),
{
    let s0 = wrap_cell(start, n as i64);
    let wraps = s0 + count > n as i64;
    let lo_len: usize = if wraps {
        (s0 + count - n as i64) as usize
    } else {
        0
    };
    let hi_end: usize = if wraps {
        n
    } else {
        (s0 + count) as usize
    };

    let mut out: Vec<usize> = Vec::new();
    let mut i: usize = 0;
    while i < lo_len
        invariant
            i <= lo_len,
            out@.len() == i,
            forall|k: int| 0 <= k < i ==> #[trigger] out@[k] == k,
        decreases lo_len - i,
    {
        out.push(i);
        i = i + 1;
    }
    let mut j: usize = s0 as usize;
    while j < hi_end
        invariant
            s0 <= j <= hi_end,
            lo_len <= s0,
            out@.len() == lo_len + (j - s0),
            forall|k: int| 0 <= k < lo_len ==> #[trigger] out@[k] == k,
            forall|k: int| lo_len <= k < out@.len() ==> #[trigger] out@[k] == s0 + (k - lo_len),
        decreases hi_end - j,
    {
        out.push(j);
        j = j + 1;
    }
    proof {
        lemma_residue_run_membership(
            out@,
            start as int,
            count as int,
            n as int,
            s0 as int,
            lo_len as int,
            hi_end as int,
        );
    }
    out
}

/// The two sorted intervals produced by `residue_run` list exactly the
/// wrapped run of residues.
proof fn lemma_residue_run_membership(
    out: Seq<usize>,
    start: int,
    count: int,
    n: int,
    s0: int,
    lo_len: int,
    hi_end: int,
)
    requires
        1 <= count <= n <= MAX_CELLS,
        0 <= s0 < n,
        s0 == start % n,
        lo_len == if s0 + count > n { s0 + count - n } else { 0 },
        hi_end == if s0 + count > n { n } else { s0 + count },
        out.len() == lo_len + (hi_end - s0),
        forall|k: int| 0 <= k < lo_len ==> #[trigger] out[k] == k,
        forall|k: int| lo_len <= k < out.len() ==> #[trigger] out[k] == s0 + (k - lo_len),
    ensures
        out.len() > 0,
        forall|c: int| 0 <= c < n ==> (out.contains(c as usize) <==> in_run(c, start, count, n)),
{
    assert forall|c: int| 0 <= c < n implies (out.contains(c as usize) <==> in_run(
        c,
        start,
        count,
        n,
    )) by {
        // Listed implies in the run.
        if out.contains(c as usize) {
            let idx = choose|idx: int| 0 <= idx < out.len() && out[idx] == c as usize;
            if idx < lo_len {
                let k = c + n - s0;
                assert((c as usize) as int == c);
                assert(out[idx] == idx);
                assert(c == idx);
                assert((s0 + k) % n == c) by {
                    vstd::arithmetic::div_mod::lemma_mod_multiples_vanish(1, c, n);
                    vstd::arithmetic::div_mod::lemma_small_mod(c as nat, n as nat);
                }
                lemma_run_residue(start, n, s0, k, c);
                assert(0 <= k < count);
                assert(in_run(c, start, count, n));
            } else {
                let k = c - s0;
                assert((c as usize) as int == c);
                assert(out[idx] == s0 + (idx - lo_len));
                assert(c == s0 + (idx - lo_len));
                assert((s0 + k) % n == c) by {
                    vstd::arithmetic::div_mod::lemma_small_mod(c as nat, n as nat);
                }
                lemma_run_residue(start, n, s0, k, c);
                assert(0 <= k < count);
                assert(in_run(c, start, count, n));
            }
        }
        // In the run implies listed.
        if in_run(c, start, count, n) {
            let k = choose|k: int| 0 <= k < count && c == #[trigger] ((start + k) % n);
            lemma_run_residue(start, n, s0, k, (s0 + k) % n);
            if s0 + k < n {
                vstd::arithmetic::div_mod::lemma_small_mod((s0 + k) as nat, n as nat);
                assert(c == s0 + k);
                assert(out[lo_len + (c - s0)] == c as usize);
                assert(out.contains(c as usize));
            } else {
                assert((s0 + k) % n == s0 + k - n) by {
                    vstd::arithmetic::div_mod::lemma_mod_multiples_vanish(1, s0 + k - n, n);
                    vstd::arithmetic::div_mod::lemma_small_mod((s0 + k - n) as nat, n as nat);
                }
                assert(c == s0 + k - n);
                assert(out[c] == c as usize);
                assert(out.contains(c as usize));
            }
        }
    }
}

/// Two residues of the same class: start + k and s0 + k agree modulo n when
/// s0 is start's residue.
proof fn lemma_run_residue(start: int, n: int, s0: int, k: int, c: int)
    requires
        1 <= n,
        0 <= s0 < n,
        s0 == start % n,
        c == (s0 + k) % n,
    ensures
        c == (start + k) % n,
{
    let q = start / n;
    lemma_fundamental_div_mod(start, n);
    assert(start + k == n * q + (s0 + k));
    vstd::arithmetic::div_mod::lemma_mod_multiples_vanish(q, s0 + k, n);
}

/// The span of cells scanned per axis: the full ring of cells when the
/// radius wraps most of the way round, else one run of cells around the
/// query's cell.
pub open spec fn run_span(xr: int, n: int) -> int {
    if 2 * xr + 1 <= n {
        2 * xr + 1
    } else {
        n
    }
}

/// Any in-domain coordinate whose wrapped difference from the query
/// coordinate is within the radius falls inside the scanned run of cells on
/// that axis. `o_pos` and `o_q` are offsets from the domain edge; `w` is the
/// domain extent and `n` the cell count.
proof fn lemma_axis_covered(o_pos: int, o_q: int, w: int, n: int, radius: int)
    requires
        0 < w <= 2 * MAX_COORD,
        1 <= n <= MAX_CELLS,
        0 <= o_pos < w,
        0 <= o_q < w,
        0 <= radius <= MAX_COORD,
        -radius <= wrap_delta(w, o_q - o_pos) <= radius,
    ensures
        in_run(
            o_q * n / w,
            o_pos * n / w - (radius * n + w - 1) / w,
            run_span((radius * n + w - 1) / w, n),
            n,
        ),
{
    let xr = (radius * n + w - 1) / w;
    let gp = o_pos * n / w;
    let gq = o_q * n / w;
    let d = wrap_delta(w, o_q - o_pos);
    let e: int = if 2 * (o_q - o_pos) > w {
        1
    } else if 2 * (o_q - o_pos) < -w {
        -1
    } else {
        0
    };
    assert(o_q == o_pos + d + e * w) by {
        if e == 1 {
            assert(e * w == w) by (nonlinear_arith)
                requires
                    e == 1,
            ;
        } else if e == -1 {
            assert(e * w == -w) by (nonlinear_arith)
                requires
                    e == -1,
            ;
        } else {
            assert(e * w == 0) by (nonlinear_arith)
                requires
                    e == 0,
            ;
        }
    }

    // The cell radius covers the world radius: xr * w >= radius * n.
    let b = radius * n;
    assert(0 <= b <= 32_768_000_000) by (nonlinear_arith)
        requires
            0 <= radius <= MAX_COORD,
            1 <= n <= MAX_CELLS,
            b == radius * n,
    ;
    lemma_fundamental_div_mod(b + w - 1, w);
    lemma_mod_division_less_than_divisor(b + w - 1, w);
    assert(w * xr >= b);
    lemma_div_pos_is_pos(b + w - 1, w);

    // The unwrapped coordinate o_pos + d lands within xr cells of gp.
    let a = o_pos * n;
    let dd = d * n;
    assert(-b <= dd <= b) by (nonlinear_arith)
        requires
            -radius <= d <= radius,
            1 <= n,
            b == radius * n,
            dd == d * n,
    ;
    let cu = (a + dd) / w;
    assert((a + (-xr) * w) / w == gp - xr && (a + xr * w) / w == gp + xr) by {
        lemma_hoist_over_denominator(a, -xr, w as nat);
        lemma_hoist_over_denominator(a, xr, w as nat);
    }
    assert(a + (-xr) * w <= a + dd <= a + xr * w) by (nonlinear_arith)
        requires
            -b <= dd <= b,
            w * xr >= b,
            0 < w,
    ;
    lemma_div_is_ordered(a + (-xr) * w, a + dd, w);
    lemma_div_is_ordered(a + dd, a + xr * w, w);
    assert(gp - xr <= cu <= gp + xr);

    // The wrapped coordinate's cell is the unwrapped cell shifted by whole
    // rings of cells.
    assert(o_q * n == (a + dd) + (e * n) * w) by (nonlinear_arith)
        requires
            o_q == o_pos + d + e * w,
            a == o_pos * n,
            dd == d * n,
    ;
    assert(gq == cu + e * n) by {
        lemma_hoist_over_denominator(a + dd, e * n, w as nat);
    }

    // The query's own cell and the target cell are in the grid.
    lemma_offset_cell_iff(o_q, w, n);
    lemma_offset_cell_iff(o_pos, w, n);

    if 2 * xr + 1 <= n {
        let k = cu - (gp - xr);
        assert(0 <= k < 2 * xr + 1);
        assert(((gp - xr) + k) % n == gq) by {
            assert((-e) * n == -(e * n)) by (nonlinear_arith);
            assert(cu == gq + (-e) * n);
            vstd::arithmetic::div_mod::lemma_mod_multiples_vanish(-e, gq, n);
            vstd::arithmetic::div_mod::lemma_small_mod(gq as nat, n as nat);
        }
        assert(in_run(gq, gp - xr, run_span(xr, n), n));
    } else {
        let k = (gq - (gp - xr)) % n;
        lemma_mod_division_less_than_divisor(gq - (gp - xr), n);
        lemma_fundamental_div_mod(gq - (gp - xr), n);
        let q2 = (gq - (gp - xr)) / n;
        assert((gp - xr) + k == n * (-q2) + gq) by (nonlinear_arith)
            requires
                gq - (gp - xr) == n * q2 + k,
        ;
        assert(((gp - xr) + k) % n == gq) by {
            vstd::arithmetic::div_mod::lemma_mod_multiples_vanish(-q2, gq, n);
            vstd::arithmetic::div_mod::lemma_small_mod(gq as nat, n as nat);
        }
        assert(in_run(gq, gp - xr, run_span(xr, n), n));
    }
}

/// A square below another square bounds the base: from a*a <= r*r and r
/// nonnegative follows -r <= a <= r.
proof fn lemma_abs_le_of_sq_le(a: int, r: int)
    requires
        a * a <= r * r,
        0 <= r,
    ensures
        -r <= a <= r,
{
    assert(-r <= a <= r) by (nonlinear_arith)
        requires
            a * a <= r * r,
            0 <= r,
    ;
}

/// A stored position within the query radius of the query point has its
/// cell column and row among the scanned runs.
proof fn lemma_in_range_cell_visited<T: Copy>(
    g: SpatialHashGrid<T>,
    pos: Vec2,
    radius: int,
    q: Vec2,
    xs: Seq<usize>,
    ys: Seq<usize>,
    xr: int,
    yr: int,
)
    requires
        g.wf(),
        g.bounds_spec().contains(pos),
        g.bounds_spec().contains(q),
        0 <= radius <= MAX_COORD,
        tor_dist_sq(g.bounds_spec(), q, pos) <= radius * radius,
        xr == (radius * g.cols_spec() + g.bounds_spec().width() - 1) / g.bounds_spec().width(),
        yr == (radius * g.rows_spec() + g.bounds_spec().height() - 1) / g.bounds_spec().height(),
        forall|c: int|
            0 <= c < g.cols_spec() ==> (#[trigger] xs.contains(c as usize) <==> in_run(
                c,
                g.cell_x(pos.x as int) - xr,
                run_span(xr, g.cols_spec()),
                g.cols_spec(),
            )),
        forall|c: int|
            0 <= c < g.rows_spec() ==> (#[trigger] ys.contains(c as usize) <==> in_run(
                c,
                g.cell_y(pos.y as int) - yr,
                run_span(yr, g.rows_spec()),
                g.rows_spec(),
            )),
    ensures
        0 <= g.cell_x(q.x as int) < g.cols_spec(),
        0 <= g.cell_y(q.y as int) < g.rows_spec(),
        xs.contains(g.cell_x(q.x as int) as usize),
        ys.contains(g.cell_y(q.y as int) as usize),
{
    let dom = g.bounds_spec();
    let w = dom.width();
    let h = dom.height();
    let dx = wrap_delta(w, pos.x - q.x);
    let dy = wrap_delta(h, pos.y - q.y);
    assert(dy * dy >= 0 && dx * dx >= 0) by (nonlinear_arith);
    lemma_abs_le_of_sq_le(dx, radius);
    lemma_abs_le_of_sq_le(dy, radius);
    assert(wrap_delta(w, (q.x - dom.min.x) - (pos.x - dom.min.x)) == -dx);
    assert(wrap_delta(h, (q.y - dom.min.y) - (pos.y - dom.min.y)) == -dy);
    lemma_axis_covered(pos.x - dom.min.x, q.x - dom.min.x, w, g.cols_spec(), radius);
    lemma_axis_covered(pos.y - dom.min.y, q.y - dom.min.y, h, g.rows_spec(), radius);
    lemma_cell_range_iff(g, q);
}

/// Quotient rounded down, for signed numerators over a positive divisor.
fn floor_div(num: i64, den: i64) -> (q: i64)
    requires
        0 < den <= 2 * MAX_COORD,
        -4_000_000_000_000_000_000 <= num <= 4_000_000_000_000_000_000,
    ensures
        q == num as int / den as int,
{
    if num >= 0 {
        num / den
    } else {
        let down = -((-num + den - 1) / den);
        proof {
            lemma_floor_div_negative(num as int, den as int);
        }
        down
    }
}

/// For a negative numerator the floored quotient is the negated, rounded-up
/// quotient of the negation.
proof fn lemma_floor_div_negative(num: int, den: int)
    requires
        num < 0,
        0 < den,
    ensures
        -((-num + den - 1) / den) == num / den,
{
    let q = num / den;
    let r = num % den;
    lemma_fundamental_div_mod(num, den);
    lemma_mod_division_less_than_divisor(num, den);
    assert(-num + den - 1 == (-q) * den + (den - 1 - r)) by (nonlinear_arith)
        requires
            num == den * q + r,
    ;
    lemma_fundamental_div_mod_converse_div(-num + den - 1, den, -q, den - 1 - r);
}

/// Reduces an unwrapped cell coordinate modulo the cell count.
fn wrap_cell(c: i64, n: i64) -> (w: i64)
    requires
        1 <= n <= MAX_CELLS,
        -65_536_000_000 <= c <= 65_536_000_000,
    ensures
        w == c as int % n as int,
        0 <= w < n,
{
    let q = floor_div(c, n);
    proof {
        lemma_fundamental_div_mod(c as int, n as int);
        lemma_mod_division_less_than_divisor(c as int, n as int);
        assert(q * (n as int) == (n as int) * q) by (nonlinear_arith);
    }
    c - q * n
}

/// The per-axis cell radius of a query is nonnegative and bounded.
proof fn lemma_cell_radius_bounds(radius: int, n: int, w: int)
    requires
        0 <= radius <= MAX_COORD,
        1 <= n <= MAX_CELLS,
        0 < w <= 2 * MAX_COORD,
    ensures
        0 <= (radius * n + w - 1) / w <= 32_800_000_000,
{
    assert(0 <= radius * n <= 32_768_000_000) by (nonlinear_arith)
        requires
            0 <= radius <= MAX_COORD,
            1 <= n <= MAX_CELLS,
    ;
    lemma_div_pos_is_pos(radius * n + w - 1, w);
    vstd::arithmetic::div_mod::lemma_div_nonincreasing(radius * n + w - 1, w);
}

/// The product of a bounded offset and a cell count stays far inside i64.
proof fn lemma_offset_product_bounded(off: int, n: int)
    requires
        -2 * MAX_COORD <= off <= 2 * MAX_COORD,
        1 <= n <= MAX_CELLS,
    ensures
        -65_536_000_000 <= off * n <= 65_536_000_000,
{
    assert(-65_536_000_000 <= off * n <= 65_536_000_000) by (nonlinear_arith)
        requires
            -2 * MAX_COORD <= off <= 2 * MAX_COORD,
            1 <= n <= MAX_CELLS,
    ;
}

/// A wrapped coordinate pair indexes inside the bucket vector.
proof fn lemma_linear_index_in_range(cx: int, cy: int, cols: int, rows: int)
    requires
        0 <= cx < cols <= MAX_CELLS,
        0 <= cy < rows <= MAX_CELLS,
    ensures
        0 <= cy * cols + cx < rows * cols,
        rows * cols <= MAX_CELLS * MAX_CELLS,
{
    assert(0 <= cy * cols + cx < rows * cols && rows * cols <= MAX_CELLS * MAX_CELLS)
        by (nonlinear_arith)
        requires
            0 <= cx < cols <= MAX_CELLS,
            0 <= cy < rows <= MAX_CELLS,
    ;
}

/// An offset into the domain is inside its axis exactly when its scaled
/// floored quotient is inside the cell range.
proof fn lemma_offset_cell_iff(o: int, w: int, n: int)
    requires
        0 < w,
        1 <= n,
    ensures
        (0 <= o < w) <==> (0 <= o * n / w < n),
{
    if 0 <= o < w {
        assert(0 <= o * n && o * n < w * n) by (nonlinear_arith)
            requires
                0 <= o < w,
                1 <= n,
        ;
        lemma_div_pos_is_pos(o * n, w);
        lemma_multiply_divide_lt(o * n, w, n);
    } else if o < 0 {
        lemma_fundamental_div_mod(o * n, w);
        let q = o * n / w;
        lemma_mod_division_less_than_divisor(o * n, w);
        assert(o * n <= -n) by (nonlinear_arith)
            requires
                o < 0,
                1 <= n,
        ;
        assert(q < 0) by (nonlinear_arith)
            requires
                o * n == w * q + o * n % w,
                0 <= o * n % w < w,
                o * n <= -n,
                1 <= n,
                0 < w,
        ;
    } else {
        assert(w * n <= o * n) by (nonlinear_arith)
            requires
                w <= o,
                1 <= n,
        ;
        lemma_div_is_ordered(w * n, o * n, w);
        assert(w * n == n * w) by (nonlinear_arith);
        lemma_div_multiples_vanish(n, w);
    }
}

/// A position hashes into the grid exactly when it lies in the domain, on
/// each axis separately.
proof fn lemma_cell_range_iff<T: Copy>(g: SpatialHashGrid<T>, pos: Vec2)
    requires
        g.wf(),
    ensures
        (g.bounds_spec().min.x <= pos.x < g.bounds_spec().max.x) <==> (0 <= g.cell_x(pos.x as int)
            < g.cols_spec()),
        (g.bounds_spec().min.y <= pos.y < g.bounds_spec().max.y) <==> (0 <= g.cell_y(pos.y as int)
            < g.rows_spec()),
{
    lemma_offset_cell_iff(
        pos.x - g.bounds_spec().min.x,
        g.bounds_spec().width(),
        g.cols_spec(),
    );
    lemma_offset_cell_iff(
        pos.y - g.bounds_spec().min.y,
        g.bounds_spec().height(),
        g.rows_spec(),
    );
}

} // verus!
