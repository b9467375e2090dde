use vstd::prelude::*;

use vstd::arithmetic::div_mod::{lemma_fundamental_div_mod, lemma_mod_bound};
use vstd::arithmetic::mul::{lemma_mul_inequality, lemma_mul_strict_inequality};

use crate::bounding_box::{ceil_div, contains, is_proper, max_extent, BoundingBox};
use crate::grid::Grid;
use crate::point::{dist2, lemma_square_bound, squared_distance, Point, Position, COORD_LIMIT};

verus! {

/// Largest sampling radius, in position units.
pub const MAX_RADIUS: u64 = 2_305_843_009_213_693_952;

/// Most cells along one axis of a sampler's lattice. Where the radius is too
/// small for that, cells are widened; a wider cell never weakens the
/// separation guarantee.
pub const AXIS_CELLS_LIMIT: i64 = 256;

/// The spatial hash of a sampler: cubic cells of side `cell` from the corner
/// `min`, `nx * ny * nz` of them, for sampling at `radius`.
#[derive(Clone, Copy, Debug)]
pub struct Lattice {
    pub min: Position,
    pub cell: i64,
    pub nx: usize,
    pub ny: usize,
    pub nz: usize,
    pub radius: u64,
}

/// The cell index along one axis of an offset `d` from the corner: the floor
/// of `d / cell`, clamped to the last cell.
pub open spec fn axis_index(d: int, cell: int, n: int) -> int {
    if d / cell < n {
        d / cell
    } else {
        n - 1
    }
}

/// `c` is `floor(r / sqrt 3)`: the largest side whose cell diagonal is at
/// most `r`.
pub open spec fn is_cell_for_radius(c: int, r: int) -> bool {
    &&& c >= 0
    &&& 3 * c * c <= r * r
    &&& 3 * (c + 1) * (c + 1) > r * r
}

/// Squared distance of two points, by their positions.
pub open spec fn pdist2(p: Point, q: Point) -> int {
    dist2(p.position, q.position)
}

/// `pdist2` is symmetric.
pub proof fn lemma_dist2_symmetric(p: Position, q: Position)
    ensures
        dist2(p, q) == dist2(q, p),
{
    assert(dist2(p, q) == dist2(q, p)) by (nonlinear_arith);
}

/// Along one axis, offsets whose cells are at least three apart are more than
/// two cells apart.
proof fn lemma_axis_far(a: int, b: int, cell: int, n: int)
    requires
        a >= 0,
        b >= 0,
        cell >= 1,
        n >= 1,
        axis_index(b, cell, n) >= axis_index(a, cell, n) + 3,
    ensures
        b - a > 2 * cell,
{
    let ka = axis_index(a, cell, n);
    let kb = axis_index(b, cell, n);
    lemma_fundamental_div_mod(a, cell);
    lemma_fundamental_div_mod(b, cell);
    lemma_mod_bound(a, cell);
    lemma_mod_bound(b, cell);
    assert(ka == a / cell);
    assert(kb <= b / cell);
    lemma_mul_inequality(kb, b / cell, cell);
    assert(kb * cell <= b);
    assert(a < (ka + 1) * cell) by (nonlinear_arith)
        requires
            a == cell * ka + a % cell,
            a % cell < cell,
    ;
    lemma_mul_inequality(ka + 3, kb, cell);
    assert((ka + 3) * cell == (ka + 1) * cell + 2 * cell) by (nonlinear_arith);
}

/// Along one axis, offsets in the same cell are at most a cell apart.
proof fn lemma_axis_near(a: int, b: int, cell: int, n: int)
    requires
        0 <= a <= n * cell,
        0 <= b <= n * cell,
        cell >= 1,
        n >= 1,
        axis_index(a, cell, n) == axis_index(b, cell, n),
    ensures
        -cell <= a - b <= cell,
{
    let k = axis_index(a, cell, n);
    lemma_fundamental_div_mod(a, cell);
    lemma_fundamental_div_mod(b, cell);
    lemma_mod_bound(a, cell);
    lemma_mod_bound(b, cell);
    assert(k * cell <= a <= (k + 1) * cell) by (nonlinear_arith)
        requires
            a == cell * (a / cell) + a % cell,
            0 <= a % cell < cell,
            k == if a / cell < n { a / cell } else { n - 1 },
            a <= n * cell,
            cell >= 1,
    ;
    assert(k * cell <= b <= (k + 1) * cell) by (nonlinear_arith)
        requires
            b == cell * (b / cell) + b % cell,
            0 <= b % cell < cell,
            k == if b / cell < n { b / cell } else { n - 1 },
            b <= n * cell,
            cell >= 1,
    ;
    assert((k + 1) * cell == k * cell + cell) by (nonlinear_arith);
}

impl Lattice {
    pub open spec fn wf(&self) -> bool {
        &&& self.min.in_range()
        &&& self.cell >= 1
        &&& 1 <= self.radius <= MAX_RADIUS
        &&& 2 * self.cell >= self.radius
        &&& 1 <= self.nx <= AXIS_CELLS_LIMIT
        &&& 1 <= self.ny <= AXIS_CELLS_LIMIT
        &&& 1 <= self.nz <= AXIS_CELLS_LIMIT
    }

    /// `p` is in range and within the lattice's extent on every axis.
    pub open spec fn holds(&self, p: Position) -> bool {
        &&& p.in_range()
        &&& self.min.x <= p.x <= self.min.x + self.nx * self.cell
        &&& self.min.y <= p.y <= self.min.y + self.ny * self.cell
        &&& self.min.z <= p.z <= self.min.z + self.nz * self.cell
    }

    pub open spec fn index_of(&self, p: Position) -> (int, int, int) {
        (
            axis_index(p.x - self.min.x, self.cell as int, self.nx as int),
            axis_index(p.y - self.min.y, self.cell as int, self.ny as int),
            axis_index(p.z - self.min.z, self.cell as int, self.nz as int),
        )
    }

    pub open spec fn in_lattice(&self, t: (int, int, int)) -> bool {
        &&& 0 <= t.0 < self.nx
        &&& 0 <= t.1 < self.ny
        &&& 0 <= t.2 < self.nz
    }

    /// Position of a cell in the flat cell vector (x fastest, then y, then z).
    pub open spec fn flat(&self, t: (int, int, int)) -> int {
        (t.2 * self.ny + t.1) * self.nx + t.0
    }

    pub open spec fn cell_count(&self) -> int {
        self.nx * self.ny * self.nz
    }

    /// The flat index of the cell that holds `p`.
    pub open spec fn cell_of(&self, p: Position) -> int {
        self.flat(self.index_of(p))
    }

    /// Every representative lies in the cell that holds it.
    pub open spec fn reps_placed<'a>(&self, cells: Seq<Grid<'a, Point>>) -> bool {
        forall|j: int|
            0 <= j < cells.len() && (#[trigger] cells[j].rep()) is Some ==> {
                &&& self.holds(cells[j].rep()->0.position)
                &&& self.cell_of(cells[j].rep()->0.position) == j
            }
    }

    /// Representatives of distinct cells are more than `radius` apart.
    pub open spec fn separated<'a>(&self, cells: Seq<Grid<'a, Point>>) -> bool {
        forall|i: int, j: int|
            0 <= i < cells.len() && 0 <= j < cells.len() && i != j && (#[trigger] cells[i].rep())
                is Some && (#[trigger] cells[j].rep()) is Some ==> pdist2(
                cells[i].rep()->0,
                cells[j].rep()->0,
            ) > self.radius * self.radius
    }

    /// Every candidate of cell `j` is one of `inputs` and lies in cell `j`.
    pub open spec fn cands_placed<'a>(
        &self,
        cells: Seq<Grid<'a, Point>>,
        inputs: Seq<Point>,
    ) -> bool {
        forall|j: int, k: int|
            0 <= j < cells.len() && 0 <= k < cells[j].cands().len() ==> {
                &&& inputs.contains(*#[trigger] cells[j].cands()[k])
                &&& self.holds(cells[j].cands()[k].position)
                &&& self.cell_of(cells[j].cands()[k].position) == j
            }
    }

    /// Every representative is one of `inputs`.
    pub open spec fn reps_from<'a>(&self, cells: Seq<Grid<'a, Point>>, inputs: Seq<Point>) -> bool {
        forall|j: int|
            0 <= j < cells.len() && (#[trigger] cells[j].rep()) is Some ==> inputs.contains(
                cells[j].rep()->0,
            )
    }

    /// A point held by the lattice is in a cell of it.
    pub proof fn lemma_index_in_lattice(&self, p: Position)
        requires
            self.wf(),
            self.holds(p),
        ensures
            self.in_lattice(self.index_of(p)),
            0 <= self.cell_of(p) < self.cell_count(),
    {
        let c = self.cell as int;
        vstd::arithmetic::div_mod::lemma_div_pos_is_pos(p.x - self.min.x, c);
        vstd::arithmetic::div_mod::lemma_div_pos_is_pos(p.y - self.min.y, c);
        vstd::arithmetic::div_mod::lemma_div_pos_is_pos(p.z - self.min.z, c);
        self.lemma_flat_in_range(self.index_of(p));
    }

    pub proof fn lemma_flat_in_range(&self, t: (int, int, int))
        requires
            self.wf(),
            self.in_lattice(t),
        ensures
            0 <= self.flat(t) < self.cell_count(),
            self.cell_count() <= AXIS_CELLS_LIMIT * AXIS_CELLS_LIMIT * AXIS_CELLS_LIMIT,
    {
        let nx = self.nx as int;
        let ny = self.ny as int;
        let nz = self.nz as int;
        assert(0 <= (t.2 * ny + t.1) * nx + t.0 < nx * ny * nz) by (nonlinear_arith)
            requires
                0 <= t.0 < nx,
                0 <= t.1 < ny,
                0 <= t.2 < nz,
        ;
        assert(nx * ny * nz <= 256 * 256 * 256) by (nonlinear_arith)
            requires
                1 <= nx <= 256,
                1 <= ny <= 256,
                1 <= nz <= 256,
        ;
    }

    /// Points of one cell are within the cell's diagonal of each other.
    pub proof fn lemma_same_cell(&self, p: Position, q: Position)
        requires
            self.wf(),
            self.holds(p),
            self.holds(q),
            self.index_of(p) == self.index_of(q),
        ensures
            dist2(p, q) <= 3 * self.cell * self.cell,
    {
        let c = self.cell as int;
        lemma_axis_near(p.x - self.min.x, q.x - self.min.x, c, self.nx as int);
        lemma_axis_near(p.y - self.min.y, q.y - self.min.y, c, self.ny as int);
        lemma_axis_near(p.z - self.min.z, q.z - self.min.z, c, self.nz as int);
        let (dx, dy, dz) = (p.x - q.x, p.y - q.y, p.z - q.z);
        assert(dist2(p, q) <= 3 * c * c) by (nonlinear_arith)
            requires
                -c <= dx <= c,
                -c <= dy <= c,
                -c <= dz <= c,
                dist2(p, q) == dx * dx + dy * dy + dz * dz,
        ;
    }

    /// A point refused by some cells is refused once more representatives
    /// are added and none is taken away.
    pub proof fn lemma_refusal_kept<'a>(
        &self,
        before: Seq<Grid<'a, Point>>,
        after: Seq<Grid<'a, Point>>,
        q: Point,
    )
        requires
            before.len() == after.len(),
            forall|j: int|
                0 <= j < before.len() && (#[trigger] before[j].rep()) is Some ==> after[j].rep()
                    == before[j].rep(),
            !self.admits(before, q),
        ensures
            !self.admits(after, q),
    {
        let j = choose|j: int| 0 <= j < before.len() && !#[trigger] self.clear_of(before, q, j);
        assert(!self.clear_of(after, q, j));
    }

    /// Distinct cells have distinct flat indices.
    pub proof fn lemma_flat_injective(&self, t: (int, int, int), u: (int, int, int))
        requires
            self.wf(),
            self.in_lattice(t),
            self.in_lattice(u),
            self.flat(t) == self.flat(u),
        ensures
            t == u,
    {
        let nx = self.nx as int;
        let ny = self.ny as int;
        vstd::arithmetic::div_mod::lemma_fundamental_div_mod_converse(
            self.flat(t),
            nx,
            t.2 * ny + t.1,
            t.0,
        );
        vstd::arithmetic::div_mod::lemma_fundamental_div_mod_converse(
            self.flat(u),
            nx,
            u.2 * ny + u.1,
            u.0,
        );
        vstd::arithmetic::div_mod::lemma_fundamental_div_mod_converse(
            t.2 * ny + t.1,
            ny,
            t.2,
            t.1,
        );
        vstd::arithmetic::div_mod::lemma_fundamental_div_mod_converse(
            u.2 * ny + u.1,
            ny,
            u.2,
            u.1,
        );
    }

    /// Points held in cells that are three or more apart along some axis are
    /// more than `radius` apart.
    pub proof fn lemma_far(&self, p: Position, q: Position)
        requires
            self.wf(),
            self.holds(p),
            self.holds(q),
            !(-2 <= self.index_of(p).0 - self.index_of(q).0 <= 2 && -2 <= self.index_of(p).1
                - self.index_of(q).1 <= 2 && -2 <= self.index_of(p).2 - self.index_of(q).2 <= 2),
        ensures
            dist2(p, q) > self.radius * self.radius,
    {
        let c = self.cell as int;
        let r = self.radius as int;
        let ip = self.index_of(p);
        let iq = self.index_of(q);
        let d: int;
        if ip.0 - iq.0 > 2 {
            lemma_axis_far(q.x - self.min.x, p.x - self.min.x, c, self.nx as int);
            d = p.x - q.x;
        } else if iq.0 - ip.0 > 2 {
            lemma_axis_far(p.x - self.min.x, q.x - self.min.x, c, self.nx as int);
            d = q.x - p.x;
        } else if ip.1 - iq.1 > 2 {
            lemma_axis_far(q.y - self.min.y, p.y - self.min.y, c, self.ny as int);
            d = p.y - q.y;
        } else if iq.1 - ip.1 > 2 {
            lemma_axis_far(p.y - self.min.y, q.y - self.min.y, c, self.ny as int);
            d = q.y - p.y;
        } else if ip.2 - iq.2 > 2 {
            lemma_axis_far(q.z - self.min.z, p.z - self.min.z, c, self.nz as int);
            d = p.z - q.z;
        } else {
            lemma_axis_far(p.z - self.min.z, q.z - self.min.z, c, self.nz as int);
            d = q.z - p.z;
        }
        assert(d * d > r * r) by (nonlinear_arith)
            requires
                d > 2 * c,
                2 * c >= r,
                r >= 1,
        ;
        let ax = (p.x - q.x) * (p.x - q.x);
        let ay = (p.y - q.y) * (p.y - q.y);
        let az = (p.z - q.z) * (p.z - q.z);
        lemma_square_bound(p.x - q.x, 0x4000_0000_0000_0000);
        lemma_square_bound(p.y - q.y, 0x4000_0000_0000_0000);
        lemma_square_bound(p.z - q.z, 0x4000_0000_0000_0000);
        assert(d * d == ax || d * d == ay || d * d == az) by (nonlinear_arith)
            requires
                d == p.x - q.x || d == q.x - p.x || d == p.y - q.y || d == q.y - p.y || d == p.z
                    - q.z || d == q.z - p.z,
                ax == (p.x - q.x) * (p.x - q.x),
                ay == (p.y - q.y) * (p.y - q.y),
                az == (p.z - q.z) * (p.z - q.z),
        ;
    }

    /// The lattice for sampling points of `bounds` at `radius`: its corner is
    /// `bounds.min`, its cell side `floor(radius / sqrt 3)`, so that a cell's
    /// diagonal is at most the radius, but at least half the radius, so that a
    /// point within the radius is at most two cells away (this only matters
    /// below a radius of 13), and widened where the box would need more than
    /// `AXIS_CELLS_LIMIT` cells along an axis; it has `max(1, ceil(size /
    /// cell))` cells along each axis.
    pub fn new(bounds: &BoundingBox, radius: u64) -> (l: Lattice)
        requires
            is_proper(*bounds),
            1 <= radius <= MAX_RADIUS,
        ensures
            l.wf(),
            l.min == bounds.min,
            l.radius == radius,
            l.cell == lattice_cell(radius as int, max_extent(*bounds)),
            forall|p: Position| p.in_range() && contains(*bounds, p) ==> #[trigger] l.holds(p),
            l.nx == axis_cells(bounds.max.x - bounds.min.x, l.cell as int),
            l.ny == axis_cells(bounds.max.y - bounds.min.y, l.cell as int),
            l.nz == axis_cells(bounds.max.z - bounds.min.z, l.cell as int),
    {
        let c0 = radius_cell(radius);
        let half = ceil_i64(radius as i64, 2);
        let s = bounds.size();
        let m = bounds.max_size();
        let wide = ceil_i64(m, AXIS_CELLS_LIMIT);
        let c1 = if c0 >= half {
            c0
        } else {
            half
        };
        let cell = if c1 >= wide {
            c1
        } else {
            wide
        };
        proof {
            lemma_fundamental_div_mod(radius as int, 2);
            assert(AXIS_CELLS_LIMIT * cell >= m) by (nonlinear_arith)
                requires
                    cell >= wide,
                    wide == ceil_div(m as int, 256),
                    m >= 0,
            {
                lemma_fundamental_div_mod(m as int, 256);
            }
        }
        let nx = count_cells(s.x, cell, m);
        let ny = count_cells(s.y, cell, m);
        let nz = count_cells(s.z, cell, m);
        let l = Lattice { min: bounds.min, cell, nx, ny, nz, radius };
        proof {
            lemma_cells_cover(s.x as int, cell as int);
            lemma_cells_cover(s.y as int, cell as int);
            lemma_cells_cover(s.z as int, cell as int);
        }
        l
    }

    /// The cell of a held point.
    pub fn index(&self, p: &Position) -> (t: (usize, usize, usize))
        requires
            self.wf(),
            self.holds(*p),
        ensures
            (t.0 as int, t.1 as int, t.2 as int) == self.index_of(*p),
            self.in_lattice(self.index_of(*p)),
    {
        proof {
            self.lemma_index_in_lattice(*p);
        }
        (
            clamp_index(p.x - self.min.x, self.cell, self.nx),
            clamp_index(p.y - self.min.y, self.cell, self.ny),
            clamp_index(p.z - self.min.z, self.cell, self.nz),
        )
    }

    pub fn flat_index(&self, x: usize, y: usize, z: usize) -> (j: usize)
        requires
            self.wf(),
            self.in_lattice((x as int, y as int, z as int)),
        ensures
            j == self.flat((x as int, y as int, z as int)),
            j < self.cell_count(),
    {
        proof {
            self.lemma_flat_in_range((x as int, y as int, z as int));
            let (nx, ny) = (self.nx as int, self.ny as int);
            assert(z * ny + y < 256 * 256 && (z * ny + y) * nx + x < 256 * 256 * 256)
                by (nonlinear_arith)
                requires
                    0 <= x < nx <= 256,
                    0 <= y < ny <= 256,
                    0 <= z < 256,
                    (z * ny + y) * nx + x < 256 * 256 * 256,
            ;
        }
        (z * self.ny + y) * self.nx + x
    }

    /// The cells after inserting the first `i` inputs: no representative;
    /// each candidate an input of its cell; each of those inputs among its
    /// cell's candidates, the first of a cell at its front; no candidates in a
    /// cell none of them falls in.
    #[verifier::opaque]
    pub open spec fn built_upto<'a>(&self, cells: Seq<Grid<'a, Point>>, inputs: Seq<Point>, i: int) -> bool {
        &&& forall|k: int| 0 <= k < cells.len() ==> (#[trigger] cells[k].rep()) is None
        &&& self.cands_placed(cells, inputs)
        &&& forall|k: int|
            0 <= k < i ==> cells[self.cell_of(#[trigger] inputs[k].position)].cands().contains(
                &inputs[k],
            )
        &&& forall|k: int|
            0 <= k < i && (forall|h: int|
                0 <= h < k ==> self.cell_of(inputs[h].position) != self.cell_of(inputs[k].position))
                ==> *cells[self.cell_of(#[trigger] inputs[k].position)].cands()[0] == inputs[k]
        &&& forall|m: int|
            0 <= m < cells.len() && (forall|h: int| 0 <= h < i ==> self.cell_of(inputs[h].position) != m)
                ==> (#[trigger] cells[m]).cands().len() == 0
        &&& forall|m: int|
            0 <= m < cells.len() && (#[trigger] cells[m]).cands().len() > 0 ==> exists|x: int|
                0 <= x < i && *cells[m].cands()[0] == inputs[x] && self.cell_of(inputs[x].position)
                    == m && forall|h: int|
                    0 <= h < x ==> self.cell_of(#[trigger] inputs[h].position) != m
    }

    proof fn lemma_build_step<'a>(
        &self,
        before: Seq<Grid<'a, Point>>,
        after: Seq<Grid<'a, Point>>,
        inputs: Seq<Point>,
        i: int,
        f: int,
    )
        requires
            self.wf(),
            0 <= i < inputs.len(),
            forall|k: int| 0 <= k < inputs.len() ==> self.holds(#[trigger] inputs[k].position),
            before.len() == self.cell_count(),
            self.built_upto(before, inputs, i),
            f == self.cell_of(inputs[i].position),
            after.len() == before.len(),
            forall|m: int| 0 <= m < before.len() && m != f ==> after[m] == before[m],
            after[f].cands() == before[f].cands().push(&inputs[i]),
            after[f].rep() == before[f].rep(),
        ensures
            self.built_upto(after, inputs, i + 1),
    {
        reveal(Lattice::built_upto);
        self.lemma_index_in_lattice(inputs[i].position);
        assert forall|k: int| 0 <= k < after.len() implies (#[trigger] after[k].rep()) is None by {
            if k != f {
                assert(after[k] == before[k]);
            }
        }
        assert forall|m: int|
            0 <= m < after.len() && (forall|h: int|
                0 <= h < i + 1 ==> self.cell_of(inputs[h].position) != m) implies (
        #[trigger] after[m]).cands().len() == 0 by {
            assert(self.cell_of(inputs[i].position) != m);
            assert(after[m] == before[m]);
        }
        assert forall|k: int|
            0 <= k < i + 1 && (forall|h: int|
                0 <= h < k ==> self.cell_of(inputs[h].position) != self.cell_of(inputs[k].position))
                implies *after[self.cell_of(#[trigger] inputs[k].position)].cands()[0] == inputs[k] by {
            self.lemma_index_in_lattice(inputs[k].position);
            let cf = self.cell_of(inputs[k].position);
            if k < i {
                assert(before[cf].cands().contains(&inputs[k]));
                assert(before[cf].cands().len() > 0);
                if cf == f {
                    assert(after[cf].cands()[0] == before[cf].cands()[0]);
                } else {
                    assert(after[cf] == before[cf]);
                }
            } else {
                assert(before[cf].cands().len() == 0);
            }
        }
        assert forall|k: int| 0 <= k < i + 1 implies after[self.cell_of(
            #[trigger] inputs[k].position,
        )].cands().contains(&inputs[k]) by {
            self.lemma_index_in_lattice(inputs[k].position);
            let cf = self.cell_of(inputs[k].position);
            if k < i {
                assert(before[cf].cands().contains(&inputs[k]));
                let m = choose|m: int| 0 <= m < before[cf].cands().len() && before[cf].cands()[m] == &inputs[k];
                if cf == f {
                    assert(after[cf].cands()[m] == &inputs[k]);
                } else {
                    assert(after[cf] == before[cf]);
                }
            } else {
                assert(after[cf].cands()[after[cf].cands().len() - 1] == &inputs[k]);
            }
        }
        assert forall|a: int, b: int|
            0 <= a < after.len() && 0 <= b < after[a].cands().len() implies {
            &&& inputs.contains(*#[trigger] after[a].cands()[b])
            &&& self.holds(after[a].cands()[b].position)
            &&& self.cell_of(after[a].cands()[b].position) == a
        } by {
            if a == f && b == before[a].cands().len() {
                assert(inputs.contains(inputs[i]));
            } else if a == f {
                assert(after[a].cands()[b] == before[a].cands()[b]);
            } else {
                assert(after[a] == before[a]);
            }
        }
        assert forall|m: int|
            0 <= m < after.len() && (#[trigger] after[m]).cands().len() > 0 implies exists|x: int|
            0 <= x < i + 1 && *after[m].cands()[0] == inputs[x] && self.cell_of(inputs[x].position)
                == m && forall|h: int|
                0 <= h < x ==> self.cell_of(#[trigger] inputs[h].position) != m by {
            if m != f {
                assert(after[m] == before[m]);
            } else if before[m].cands().len() > 0 {
                assert(after[m].cands()[0] == before[m].cands()[0]);
            } else {
                assert(*after[m].cands()[0] == inputs[i]);
                assert forall|h: int| 0 <= h < i implies self.cell_of(
                    #[trigger] inputs[h].position,
                ) != m by {
                    if self.cell_of(inputs[h].position) == m {
                        assert(before[m].cands().contains(&inputs[h]));
                    }
                }
            }
        }
    }

    /// An empty cell for each place of the lattice, then each input inserted
    /// as a candidate of its cell, in input order.
    pub fn build_cells<'a>(&self, inputs: &'a [Point]) -> (cells: Vec<Grid<'a, Point>>)
        requires
            self.wf(),
            forall|i: int| 0 <= i < inputs@.len() ==> self.holds(#[trigger] inputs@[i].position),
        ensures
            cells@.len() == self.cell_count(),
            forall|j: int| 0 <= j < cells@.len() ==> (#[trigger] cells@[j].rep()) is None,
            self.cands_placed(cells@, inputs@),
            forall|i: int|
                0 <= i < inputs@.len() ==> cells@[self.cell_of(
                    #[trigger] inputs@[i].position,
                )].cands().contains(&inputs@[i]),
            forall|i: int|
                0 <= i < inputs@.len() && (forall|h: int|
                    0 <= h < i ==> self.cell_of(inputs@[h].position) != self.cell_of(
                        inputs@[i].position,
                    )) ==> *cells@[self.cell_of(#[trigger] inputs@[i].position)].cands()[0]
                    == inputs@[i],
            forall|m: int|
                0 <= m < cells@.len() && (#[trigger] cells@[m]).cands().len() > 0 ==> exists|x: int|
                    0 <= x < inputs@.len() && *cells@[m].cands()[0] == inputs@[x] && self.cell_of(
                        inputs@[x].position,
                    ) == m && forall|h: int|
                        0 <= h < x ==> self.cell_of(#[trigger] inputs@[h].position) != m,
    {
        proof {
            self.lemma_flat_in_range((0, 0, 0));
            let (nx, ny) = (self.nx as int, self.ny as int);
            assert(nx * ny <= 256 * 256) by (nonlinear_arith)
                requires
                    1 <= nx <= 256,
                    1 <= ny <= 256,
            ;
        }
        let total = self.nx * self.ny * self.nz;
        let mut cells: Vec<Grid<'a, Point>> = Vec::new();
        let mut j: usize = 0;
        while j < total
            invariant
                j <= total,
                total == self.cell_count(),
                cells@.len() == j,
                forall|k: int| 0 <= k < j ==> (#[trigger] cells@[k].rep()) is None && cells@[k].cands().len() == 0,
            decreases total - j,
        {
            cells.push(Grid::new());
            j += 1;
        }
        assert forall|a: int, b: int|
            0 <= a < cells@.len() && 0 <= b < cells@[a].cands().len() implies {
            &&& inputs@.contains(*#[trigger] cells@[a].cands()[b])
            &&& self.holds(cells@[a].cands()[b].position)
            &&& self.cell_of(cells@[a].cands()[b].position) == a
        } by {
            assert(cells@[a].rep() is None);
        }
        assert forall|m: int| 0 <= m < cells@.len() implies (#[trigger] cells@[m]).cands().len()
            == 0 by {
            assert(cells@[m].rep() is None);
        }
        proof {
            reveal(Lattice::built_upto);
        }
        let mut i: usize = 0;
        while i < inputs.len()
            invariant
                self.wf(),
                i <= inputs@.len(),
                forall|k: int| 0 <= k < inputs@.len() ==> self.holds(#[trigger] inputs@[k].position),
                cells@.len() == self.cell_count(),
                self.built_upto(cells@, inputs@, i as int),
            decreases inputs@.len() - i,
        {
            let p: &'a Point = &inputs[i];
            let t = self.index(&p.position);
            let f = self.flat_index(t.0, t.1, t.2);
            let ghost before = cells@;
            cells[f].insert(p);
            proof {
                assert(*p == inputs@[i as int]);
                self.lemma_build_step(before, cells@, inputs@, i as int, f as int);
            }
            i += 1;
        }
        proof {
            reveal(Lattice::built_upto);
        }
        cells
    }

    /// Cell `j` holds no representative within `radius` of `q`.
    pub open spec fn clear_of<'a>(&self, cells: Seq<Grid<'a, Point>>, q: Point, j: int) -> bool {
        cells[j].rep() is Some ==> pdist2(q, cells[j].rep()->0) > self.radius * self.radius
    }

    /// `q` is more than `radius` from every representative.
    pub open spec fn admits<'a>(&self, cells: Seq<Grid<'a, Point>>, q: Point) -> bool {
        forall|j: int| 0 <= j < cells.len() ==> #[trigger] self.clear_of(cells, q, j)
    }

    /// Whether `q` is more than `radius` from every representative. Only the
    /// cells within two steps of `q`'s cell are read: a point within `radius`
    /// of `q` lies no farther away, since `radius <= 2 * cell`.
    pub fn is_valid<'a>(&self, cells: &Vec<Grid<'a, Point>>, q: &Point) -> (ok: bool)
        requires
            self.wf(),
            cells@.len() == self.cell_count(),
            self.holds(q.position),
            self.reps_placed(cells@),
        ensures
            ok == self.admits(cells@, *q),
    {
        let t = self.index(&q.position);
        let (x0, x1) = around(t.0, self.nx);
        let (y0, y1) = around(t.1, self.ny);
        let (z0, z1) = around(t.2, self.nz);
        proof {
            lemma_square_bound(self.radius as int, MAX_RADIUS as int);
        }
        let r2 = (self.radius as u128) * (self.radius as u128);
        let mut z = z0;
        while z <= z1
            invariant
                self.wf(),
                cells@.len() == self.cell_count(),
                self.holds(q.position),
                self.reps_placed(cells@),
                r2 == self.radius * self.radius,
                x0 <= x1 < self.nx,
                y0 <= y1 < self.ny,
                z0 <= z <= z1 + 1,
                z1 < self.nz,
                forall|a: int, b: int, c: int|
                    x0 <= a <= x1 && y0 <= b <= y1 && z0 <= c < z ==> #[trigger] self.clear_of(
                        cells@,
                        *q,
                        self.flat((a, b, c)),
                    ),
            decreases z1 + 1 - z,
        {
            let mut y = y0;
            while y <= y1
                invariant
                    self.wf(),
                    cells@.len() == self.cell_count(),
                    self.holds(q.position),
                    self.reps_placed(cells@),
                    r2 == self.radius * self.radius,
                    x0 <= x1 < self.nx,
                    y0 <= y <= y1 + 1,
                    y1 < self.ny,
                    z0 <= z <= z1,
                    z1 < self.nz,
                    forall|a: int, b: int, c: int|
                        (x0 <= a <= x1 && y0 <= b <= y1 && z0 <= c < z) || (x0 <= a <= x1 && y0
                            <= b < y && c == z) ==> #[trigger] self.clear_of(
                            cells@,
                            *q,
                            self.flat((a, b, c)),
                        ),
                decreases y1 + 1 - y,
            {
                let mut x = x0;
                while x <= x1
                    invariant
                        self.wf(),
                        cells@.len() == self.cell_count(),
                        self.holds(q.position),
                        self.reps_placed(cells@),
                        r2 == self.radius * self.radius,
                        x0 <= x <= x1 + 1,
                        x1 < self.nx,
                        y0 <= y <= y1,
                        y1 < self.ny,
                        z0 <= z <= z1,
                        z1 < self.nz,
                        forall|a: int, b: int, c: int|
                            (x0 <= a <= x1 && y0 <= b <= y1 && z0 <= c < z) || (x0 <= a <= x1
                                && y0 <= b < y && c == z) || (x0 <= a < x && b == y && c == z)
                                ==> #[trigger] self.clear_of(cells@, *q, self.flat((a, b, c))),
                    decreases x1 + 1 - x,
                {
                    let f = self.flat_index(x, y, z);
                    match cells[f].representative() {
                        Some(s) => {
                            if squared_distance(&q.position, &s.position) <= r2 {
                                assert(!self.clear_of(cells@, *q, f as int));
                                return false;
                            }
                        },
                        None => {},
                    }
                    x += 1;
                }
                y += 1;
            }
            z += 1;
        }
        assert forall|j: int| 0 <= j < cells@.len() implies #[trigger] self.clear_of(
            cells@,
            *q,
            j,
        ) by {
            if cells@[j].rep() is Some {
                let s = cells@[j].rep()->0;
                let u = self.index_of(s.position);
                self.lemma_index_in_lattice(s.position);
                if -2 <= u.0 - t.0 <= 2 && -2 <= u.1 - t.1 <= 2 && -2 <= u.2 - t.2 <= 2 {
                    assert(self.clear_of(cells@, *q, self.flat((u.0, u.1, u.2))));
                } else {
                    self.lemma_far(s.position, q.position);
                    lemma_dist2_symmetric(s.position, q.position);
                }
            }
        }
        true
    }

    /// A candidate of cell `j` that is more than the radius from every
    /// representative: the first one, if any.
    pub fn first_valid<'a>(&self, cells: &Vec<Grid<'a, Point>>, j: usize) -> (r: Option<Point>)
        requires
            self.wf(),
            cells@.len() == self.cell_count(),
            j < cells@.len(),
            self.reps_placed(cells@),
            forall|k: int|
                0 <= k < cells@[j as int].cands().len() ==> self.holds(
                    (#[trigger] cells@[j as int].cands()[k]).position,
                ),
        ensures
            r matches Some(q) ==> {
                &&& cells@[j as int].cands().contains(&q)
                &&& self.admits(cells@, q)
            },
            r matches Some(q) ==> exists|k: int|
                0 <= k < cells@[j as int].cands().len() && *cells@[j as int].cands()[k] == q
                    && forall|m: int|
                    0 <= m < k ==> !self.admits(cells@, *#[trigger] cells@[j as int].cands()[m]),
            r is None ==> forall|k: int|
                0 <= k < cells@[j as int].cands().len() ==> !self.admits(
                    cells@,
                    *#[trigger] cells@[j as int].cands()[k],
                ),
    {
        let cands = cells[j].candidates();
        let mut k: usize = 0;
        while k < cands.len()
            invariant
                self.wf(),
                cells@.len() == self.cell_count(),
                self.reps_placed(cells@),
                cands@ == cells@[j as int].cands(),
                k <= cands@.len(),
                forall|m: int| 0 <= m < cands@.len() ==> self.holds((#[trigger] cands@[m]).position),
                forall|m: int| 0 <= m < k ==> !self.admits(cells@, *#[trigger] cands@[m]),
            decreases cands@.len() - k,
        {
            let q: &Point = cands[k];
            if self.is_valid(cells, q) {
                assert(cands@.contains(cands@[k as int]));
                return Some(*q);
            }
            k += 1;
        }
        None
    }

    /// The representatives, in cell order.
    pub fn representatives<'a>(&self, cells: &Vec<Grid<'a, Point>>) -> (out: Vec<Point>)
        ensures
            forall|k: int| 0 <= k < out@.len() ==> is_rep_in(cells@, #[trigger] out@[k]),
            self.separated(cells@) ==> forall|k: int, l: int|
                0 <= k < out@.len() && 0 <= l < out@.len() && k != l ==> pdist2(
                    #[trigger] out@[k],
                    #[trigger] out@[l],
                ) > self.radius * self.radius,
            (exists|j: int| 0 <= j < cells@.len() && (#[trigger] cells@[j].rep()) is Some) ==> out@.len()
                > 0,
            forall|j: int|
                0 <= j < cells@.len() && (#[trigger] cells@[j].rep()) is Some ==> out@.contains(
                    cells@[j].rep()->0,
                ),
    {
        let mut out: Vec<Point> = Vec::new();
        let ghost mut src: Seq<int> = Seq::empty();
        let mut j: usize = 0;
        while j < cells.len()
            invariant
                j <= cells@.len(),
                src.len() == out@.len(),
                forall|k: int| 0 <= k < src.len() ==> 0 <= #[trigger] src[k] < j,
                forall|k: int, l: int| 0 <= k < l < src.len() ==> #[trigger] src[k] < #[trigger] src[l],
                forall|k: int| 0 <= k < src.len() ==> cells@[#[trigger] src[k]].rep() == Some(out@[k]),
                (exists|i: int| 0 <= i < j && (#[trigger] cells@[i].rep()) is Some) ==> out@.len() > 0,
                forall|i: int|
                    0 <= i < j && (#[trigger] cells@[i].rep()) is Some ==> out@.contains(
                        cells@[i].rep()->0,
                    ),
            decreases cells@.len() - j,
        {
            let ghost before = out@;
            match cells[j].representative() {
                Some(p) => {
                    out.push(*p);
                    proof {
                        src = src.push(j as int);
                        assert forall|i: int|
                            0 <= i <= j && (#[trigger] cells@[i].rep()) is Some implies out@.contains(
                            cells@[i].rep()->0,
                        ) by {
                            if i < j {
                                let m = choose|m: int| 0 <= m < before.len() && before[m] == cells@[i].rep()->0;
                                assert(out@[m] == before[m]);
                            } else {
                                assert(out@[out@.len() - 1] == cells@[i].rep()->0);
                            }
                        }
                    }
                },
                None => {},
            }
            j += 1;
        }
        assert forall|k: int| 0 <= k < out@.len() implies is_rep_in(cells@, #[trigger] out@[k]) by {
            assert(cells@[src[k]].rep() == Some(out@[k]));
        }
        proof {
            if self.separated(cells@) {
            assert forall|k: int, l: int|
                0 <= k < out@.len() && 0 <= l < out@.len() && k != l implies #[trigger] pdist2(
                #[trigger] out@[k],
                #[trigger] out@[l],
            ) > self.radius * self.radius by {
                assert(cells@[src[k]].rep() == Some(out@[k]));
                assert(cells@[src[l]].rep() == Some(out@[l]));
                if k < l {
                    assert(src[k] < src[l]);
                } else {
                    assert(src[l] < src[k]);
                }
            }
            }
        }
        out
    }
}

/// `p` is the representative of one of the cells.
pub open spec fn is_rep_in<'a>(cells: Seq<Grid<'a, Point>>, p: Point) -> bool {
    exists|j: int| 0 <= j < cells.len() && (#[trigger] cells[j].rep()) == Some(p)
}

/// The cells within two steps of `t` along an axis of `n` cells.
fn around(t: usize, n: usize) -> (r: (usize, usize))
    requires
        t < n <= AXIS_CELLS_LIMIT,
    ensures
        r.0 <= t <= r.1 < n,
        r.0 == if t >= 2 { t - 2 } else { 0 },
        r.1 == if t + 2 < n { t + 2 } else { n - 1 },
{
    let lo = if t >= 2 {
        t - 2
    } else {
        0
    };
    let hi = if t + 2 < n {
        t + 2
    } else {
        n - 1
    };
    (lo, hi)
}

/// `floor(r / sqrt 3)`: the largest side whose cell diagonal is at most `r`.
pub open spec fn cell_side(r: int) -> int
    recommends
        r >= 1,
{
    choose|c: int| is_cell_for_radius(c, r)
}

/// The cell side of a sampler's lattice at radius `r` for a box of largest
/// extent `e`.
pub open spec fn lattice_cell(r: int, e: int) -> int {
    let c1 = if cell_side(r) >= ceil_div(r, 2) {
        cell_side(r)
    } else {
        ceil_div(r, 2)
    };
    if c1 >= ceil_div(e, AXIS_CELLS_LIMIT as int) {
        c1
    } else {
        ceil_div(e, AXIS_CELLS_LIMIT as int)
    }
}

/// Cells along an axis of extent `s`: `max(1, ceil(s / cell))`.
pub open spec fn axis_cells(s: int, cell: int) -> int {
    if ceil_div(s, cell) >= 1 {
        ceil_div(s, cell)
    } else {
        1
    }
}

/// Binary search for `floor(r / sqrt 3)`.
fn radius_cell(radius: u64) -> (c: i64)
    requires
        1 <= radius <= MAX_RADIUS,
    ensures
        is_cell_for_radius(c as int, radius as int),
        c == cell_side(radius as int),
        0 <= c <= radius,
{
    let r = radius as u128;
    proof {
        lemma_square_bound(r as int, MAX_RADIUS as int);
    }
    let r2 = r * r;
    let mut lo: u128 = 0;
    let mut hi: u128 = r;
    proof {
        assert(3 * r * r > r * r) by (nonlinear_arith)
            requires
                r >= 1,
        ;
    }
    while hi - lo > 1
        invariant
            1 <= radius <= MAX_RADIUS,
            r == radius,
            r2 == r * r,
            lo < hi <= r,
            3 * hi * hi > r * r,
            3 * lo * lo <= r * r,
        decreases hi - lo,
    {
        let mid = lo + (hi - lo) / 2;
        proof {
            assert(mid < hi);
            lemma_square_bound(mid as int, MAX_RADIUS as int);
            assert(3 * (mid * mid) == 3 * mid * mid) by (nonlinear_arith);
        }
        if 3 * mid * mid <= r2 {
            lo = mid;
        } else {
            hi = mid;
        }
    }
    proof {
        assert(is_cell_for_radius(lo as int, radius as int));
        lemma_cell_side_unique(lo as int, radius as int);
    }
    lo as i64
}

/// At most one side is `floor(r / sqrt 3)`.
proof fn lemma_cell_side_unique(c: int, r: int)
    requires
        is_cell_for_radius(c, r),
    ensures
        cell_side(r) == c,
{
    let d = cell_side(r);
    assert(is_cell_for_radius(d, r));
    if d < c {
        lemma_mul_inequality(d + 1, c, d + 1);
        lemma_mul_inequality(d + 1, c, c);
        assert(3 * (d + 1) * (d + 1) <= 3 * c * c) by (nonlinear_arith)
            requires
                (d + 1) * (d + 1) <= c * (d + 1),
                (d + 1) * c <= c * c,
        ;
    } else if c < d {
        lemma_mul_inequality(c + 1, d, c + 1);
        lemma_mul_inequality(c + 1, d, d);
        assert(3 * (c + 1) * (c + 1) <= 3 * d * d) by (nonlinear_arith)
            requires
                (c + 1) * (c + 1) <= d * (c + 1),
                (c + 1) * d <= d * d,
        ;
    }
}

/// `n` cells of side `cell` cover an extent `s`: `s <= axis_cells(s) * cell`.
proof fn lemma_cells_cover(s: int, cell: int)
    requires
        s >= 0,
        cell >= 1,
    ensures
        s <= axis_cells(s, cell) * cell,
{
    lemma_fundamental_div_mod(s, cell);
    lemma_mod_bound(s, cell);
    assert(s <= ceil_div(s, cell) * cell) by (nonlinear_arith)
        requires
            s == cell * (s / cell) + s % cell,
            0 <= s % cell < cell,
            ceil_div(s, cell) == if s % cell == 0 { s / cell } else { s / cell + 1 },
    ;
    if ceil_div(s, cell) < 1 {
        assert(s <= 0) by (nonlinear_arith)
            requires
                s <= ceil_div(s, cell) * cell,
                ceil_div(s, cell) < 1,
                cell >= 1,
        ;
    }
}

/// `ceil(a / b)` for `a >= 0` and `b >= 1`.
fn ceil_i64(a: i64, b: i64) -> (c: i64)
    requires
        0 <= a <= 2 * COORD_LIMIT,
        b >= 1,
    ensures
        c == ceil_div(a as int, b as int),
        c >= 0,
{
    if a % b == 0 {
        a / b
    } else {
        a / b + 1
    }
}

/// `max(1, ceil(s / cell))` for an extent that needs at most
/// `AXIS_CELLS_LIMIT` cells.
fn count_cells(s: i64, cell: i64, m: i64) -> (n: usize)
    requires
        0 <= s <= m <= 2 * COORD_LIMIT,
        cell >= 1,
        AXIS_CELLS_LIMIT * cell >= m,
    ensures
        n == axis_cells(s as int, cell as int),
        1 <= n <= AXIS_CELLS_LIMIT,
{
    let q = ceil_i64(s, cell);
    proof {
        lemma_fundamental_div_mod(s as int, cell as int);
        lemma_mod_bound(s as int, cell as int);
        assert(q <= 256) by (nonlinear_arith)
            requires
                s == cell * (s / cell) + s % cell,
                0 <= s % cell < cell,
                q == if s % cell == 0 { s / cell } else { s / cell + 1 },
                256 * cell >= s,
                cell >= 1,
        ;
    }
    if q >= 1 {
        q as usize
    } else {
        1
    }
}

/// `min(d / cell, n - 1)` for `d >= 0`.
fn clamp_index(d: i64, cell: i64, n: usize) -> (k: usize)
    requires
        d >= 0,
        cell >= 1,
        1 <= n <= AXIS_CELLS_LIMIT,
    ensures
        k == axis_index(d as int, cell as int, n as int),
{
    let q = d / cell;
    if q < n as i64 {
        q as usize
    } else {
        n - 1
    }
}

} // verus!
