use vstd::prelude::*;

use crate::bounding_box::{
    box_of, contains, lemma_box_of_proper, lemma_box_of_tight, max_extent, positions_of,
    BoundingBox,
};
use crate::grid::Grid;
use crate::lattice::{axis_cells, is_rep_in, lattice_cell, lemma_dist2_symmetric, pdist2, Lattice, MAX_RADIUS};
use crate::point::{squared_distance, Point};

verus! {

/// Poisson-disk sub-sampling of a point set: a frontier walk over a spatial
/// hash that keeps at most one input point per cell, every kept point more
/// than the radius from every other.
#[derive(Clone, Copy, Debug)]
pub struct PoissonDiskSampling {}

/// The kept points are input points, pairwise more than `radius` apart, and
/// some point is kept whenever there is an input.
pub open spec fn is_sampling(inputs: Seq<Point>, radius: int, out: Seq<Point>) -> bool {
    &&& forall|k: int| 0 <= k < out.len() ==> inputs.contains(#[trigger] out[k])
    &&& forall|k: int, l: int|
        0 <= k < out.len() && 0 <= l < out.len() && k != l ==> pdist2(
            #[trigger] out[k],
            #[trigger] out[l],
        ) > radius * radius
    &&& (out.len() > 0 <==> inputs.len() > 0)
}

/// Every input point is within `radius` of a kept point.
pub open spec fn covers(inputs: Seq<Point>, radius: int, out: Seq<Point>) -> bool {
    covers_sq(inputs, radius * radius, out)
}

/// Every input point is within squared distance `bound` of a kept point.
pub open spec fn covers_sq(inputs: Seq<Point>, bound: int, out: Seq<Point>) -> bool {
    forall|i: int| 0 <= i < inputs.len() ==> #[trigger] near_one(inputs[i], bound, out)
}

/// The squared distance within which `sample` keeps a point near every
/// input: the radius, or the cells' diagonal where that is longer (a cell
/// keeps one point).
pub open spec fn coverage_bound(inputs: Seq<Point>, radius: int) -> int {
    let c = lattice_cell(radius, max_extent(box_of(positions_of(inputs))));
    if 3 * c * c <= radius * radius {
        radius * radius
    } else {
        3 * c * c
    }
}

/// `p` is within squared distance `bound` of one of `out`.
pub open spec fn near_one(p: Point, bound: int, out: Seq<Point>) -> bool {
    exists|k: int| 0 <= k < out.len() && pdist2(p, #[trigger] out[k]) <= bound
}

/// The sampler's cells for these inputs have a diagonal of at most `radius`:
/// always so for a radius of 13 units or more, unless the box of the inputs
/// is over `AXIS_CELLS_LIMIT * radius / sqrt 3` long.
pub open spec fn fine_lattice(inputs: Seq<Point>, radius: int) -> bool {
    let c = lattice_cell(radius, max_extent(box_of(positions_of(inputs))));
    3 * c * c <= radius * radius
}

/// Cell `m` has a representative, or none of its candidates is more than the
/// radius from every representative.
pub open spec fn cell_done<'a>(lat: Lattice, cells: Seq<Grid<'a, Point>>, m: int) -> bool {
    cells[m].rep() is Some || forall|k: int|
        0 <= k < cells[m].cands().len() ==> !lat.admits(cells, *#[trigger] cells[m].cands()[k])
}

/// The lattice `sample` builds for these inputs at this radius.
pub open spec fn sample_lattice(inputs: Seq<Point>, radius: int) -> Lattice {
    let b = box_of(positions_of(inputs));
    let c = lattice_cell(radius, max_extent(b));
    Lattice {
        min: b.min,
        cell: c as i64,
        nx: axis_cells(b.max.x - b.min.x, c) as usize,
        ny: axis_cells(b.max.y - b.min.y, c) as usize,
        nz: axis_cells(b.max.z - b.min.z, c) as usize,
        radius: radius as u64,
    }
}

/// Input `i0` is the first, in input order, of the lowest-numbered cell of
/// the sampler's lattice that holds inputs: the point the walk starts from.
pub open spec fn first_of_lowest_cell(inputs: Seq<Point>, radius: int, i0: int) -> bool {
    let l = sample_lattice(inputs, radius);
    &&& 0 <= i0 < inputs.len()
    &&& forall|i: int|
        0 <= i < inputs.len() ==> l.cell_of(inputs[i0].position) <= l.cell_of(
            #[trigger] inputs[i].position,
        )
    &&& forall|i: int|
        0 <= i < i0 ==> l.cell_of(#[trigger] inputs[i].position) != l.cell_of(
            inputs[i0].position,
        )
}

/// Number of `true` entries.
pub open spec fn num_true(s: Seq<bool>) -> nat
    decreases s.len(),
{
    if s.len() == 0 {
        0
    } else {
        num_true(s.drop_last()) + if s.last() {
            1nat
        } else {
            0nat
        }
    }
}

proof fn lemma_num_true_clear(s: Seq<bool>, i: int)
    requires
        0 <= i < s.len(),
    ensures
        num_true(s.update(i, false)) + (if s[i] {
            1int
        } else {
            0int
        }) == num_true(s),
    decreases s.len(),
{
    let t = s.update(i, false);
    if i == s.len() - 1 {
        assert(t.drop_last() == s.drop_last());
    } else {
        assert(t.drop_last() == s.drop_last().update(i, false));
        lemma_num_true_clear(s.drop_last(), i);
    }
}

/// Which cells have no representative yet.
pub open spec fn open_cells<'a>(cells: Seq<Grid<'a, Point>>) -> Seq<bool> {
    Seq::new(cells.len(), |j: int| cells[j].rep() is None)
}

/// From the unvisited cells next to `current`'s, the first candidate at a
/// distance between half the radius and the radius from `current` that is
/// more than the radius from every representative.
fn find_near<'a>(lat: &Lattice, cells: &Vec<Grid<'a, Point>>, current: &Point) -> (r: Option<
    Point,
>)
    requires
        lat.wf(),
        cells@.len() == lat.cell_count(),
        lat.holds(current.position),
        lat.reps_placed(cells@),
        forall|j: int, k: int|
            0 <= j < cells@.len() && 0 <= k < cells@[j].cands().len() ==> lat.holds(
                (#[trigger] cells@[j].cands()[k]).position,
            ),
    ensures
        r matches Some(q) ==> {
            &&& exists|j: int|
                0 <= j < cells@.len() && (#[trigger] cells@[j].rep()) is None && cells@[j].cands().contains(&q)
            &&& lat.admits(cells@, q)
        },
{
    let t = lat.index(&current.position);
    proof {
        crate::point::lemma_square_bound(lat.radius as int, MAX_RADIUS as int);
    }
    let r2 = (lat.radius as u128) * (lat.radius as u128);
    let mut dz: i64 = -1;
    while dz <= 1
        invariant
            lat.wf(),
            cells@.len() == lat.cell_count(),
            lat.reps_placed(cells@),
            lat.in_lattice((t.0 as int, t.1 as int, t.2 as int)),
            r2 == lat.radius * lat.radius,
            lat.radius <= MAX_RADIUS,
            lat.holds(current.position),
            -1 <= dz <= 2,
            forall|j: int, k: int|
                0 <= j < cells@.len() && 0 <= k < cells@[j].cands().len() ==> lat.holds(
                    (#[trigger] cells@[j].cands()[k]).position,
                ),
        decreases 2 - dz,
    {
        let z = t.2 as i64 + dz;
        if 0 <= z && z < lat.nz as i64 {
            let mut dy: i64 = -1;
            while dy <= 1
                invariant
                    lat.wf(),
                    cells@.len() == lat.cell_count(),
                    lat.reps_placed(cells@),
                    lat.in_lattice((t.0 as int, t.1 as int, t.2 as int)),
                    r2 == lat.radius * lat.radius,
                    lat.radius <= MAX_RADIUS,
                    lat.holds(current.position),
                    0 <= z < lat.nz,
                    -1 <= dy <= 2,
                    forall|j: int, k: int|
                        0 <= j < cells@.len() && 0 <= k < cells@[j].cands().len() ==> lat.holds(
                            (#[trigger] cells@[j].cands()[k]).position,
                        ),
                decreases 2 - dy,
            {
                let y = t.1 as i64 + dy;
                if 0 <= y && y < lat.ny as i64 {
                    let mut dx: i64 = -1;
                    while dx <= 1
                        invariant
                            lat.wf(),
                            cells@.len() == lat.cell_count(),
                            lat.reps_placed(cells@),
                            lat.in_lattice((t.0 as int, t.1 as int, t.2 as int)),
                            r2 == lat.radius * lat.radius,
                            lat.radius <= MAX_RADIUS,
                            lat.holds(current.position),
                            0 <= z < lat.nz,
                            0 <= y < lat.ny,
                            -1 <= dx <= 2,
                            forall|j: int, k: int|
                                0 <= j < cells@.len() && 0 <= k < cells@[j].cands().len()
                                    ==> lat.holds((#[trigger] cells@[j].cands()[k]).position),
                        decreases 2 - dx,
                    {
                        let x = t.0 as i64 + dx;
                        if 0 <= x && x < lat.nx as i64 && !(dx == 0 && dy == 0 && dz == 0) {
                            let f = lat.flat_index(x as usize, y as usize, z as usize);
                            if !cells[f].visited() {
                                let cands = cells[f].candidates();
                                let mut k: usize = 0;
                                while k < cands.len()
                                    invariant
                                        lat.wf(),
                                        cells@.len() == lat.cell_count(),
                                        lat.reps_placed(cells@),
                                        r2 == lat.radius * lat.radius,
                                        lat.radius <= MAX_RADIUS,
                                        lat.holds(current.position),
                                        f < cells@.len(),
                                        cells@[f as int].rep() is None,
                                        cands@ == cells@[f as int].cands(),
                                        k <= cands@.len(),
                                        forall|m: int|
                                            0 <= m < cands@.len() ==> lat.holds(
                                                (#[trigger] cands@[m]).position,
                                            ),
                                    decreases cands@.len() - k,
                                {
                                    let q: &Point = cands[k];
                                    let d2 = squared_distance(&current.position, &q.position);
                                    proof {
                                        crate::point::lemma_square_bound(
                                            lat.radius as int,
                                            MAX_RADIUS as int,
                                        );
                                    }
                                    if r2 <= 4 * d2 && d2 <= r2 && lat.is_valid(cells, q) {
                                        assert(cands@.contains(cands@[k as int]));
                                        return Some(*q);
                                    }
                                    k += 1;
                                }
                            }
                        }
                        dx += 1;
                    }
                }
                dy += 1;
            }
        }
        dz += 1;
    }
    None
}

/// When every input's cell is done, every input point is within the radius,
/// or within its cell's diagonal, of a representative.
pub proof fn lemma_all_covered<'a>(
    lat: Lattice,
    cells: Seq<Grid<'a, Point>>,
    inputs: Seq<Point>,
    out: Seq<Point>,
)
    requires
        lat.wf(),
        cells.len() == lat.cell_count(),
        lat.reps_placed(cells),
        forall|i: int|
            0 <= i < inputs.len() ==> cell_done(lat, cells, lat.cell_of(#[trigger] inputs[i].position)),
        forall|i: int| 0 <= i < inputs.len() ==> lat.holds(#[trigger] inputs[i].position),
        forall|i: int|
            0 <= i < inputs.len() ==> cells[lat.cell_of(#[trigger] inputs[i].position)].cands().contains(
                &inputs[i],
            ),
        forall|j: int|
            0 <= j < cells.len() && (#[trigger] cells[j].rep()) is Some ==> out.contains(
                cells[j].rep()->0,
            ),
    ensures
        covers_sq(
            inputs,
            if 3 * lat.cell * lat.cell <= lat.radius * lat.radius {
                lat.radius * lat.radius
            } else {
                3 * lat.cell * lat.cell
            },
            out,
        ),
{
    let r = lat.radius as int;
    let bound = if 3 * lat.cell * lat.cell <= lat.radius * lat.radius {
        lat.radius * lat.radius
    } else {
        3 * lat.cell * lat.cell
    };
    assert forall|i: int| 0 <= i < inputs.len() implies #[trigger] near_one(inputs[i], bound, out) by {
        let p = inputs[i];
        lat.lemma_index_in_lattice(p.position);
        let j = lat.cell_of(p.position);
        assert(cell_done(lat, cells, lat.cell_of(inputs[i].position)));
        let k0 = choose|k0: int| 0 <= k0 < cells[j].cands().len() && cells[j].cands()[k0] == &p;
        let m = if cells[j].rep() is Some {
            j
        } else {
            choose|m: int| 0 <= m < cells.len() && !#[trigger] lat.clear_of(cells, p, m)
        };
        if cells[j].rep() is Some {
            let s = cells[j].rep()->0;
            lat.lemma_index_in_lattice(s.position);
            lat.lemma_flat_injective(lat.index_of(s.position), lat.index_of(p.position));
            lat.lemma_same_cell(p.position, s.position);
            lemma_dist2_symmetric(p.position, s.position);
        } else {
            assert(!lat.admits(cells, *cells[j].cands()[k0]));
        }
        let s = cells[m].rep()->0;
        assert(pdist2(p, s) <= bound);
        assert(out.contains(s));
        let k = choose|k: int| 0 <= k < out.len() && out[k] == s;
        assert(pdist2(inputs[i], out[k]) <= bound);
    }
}

/// What the freshly built cells give: which cells start pending, and for
/// each non-empty cell the input at the front of its candidates, the first
/// input in that cell.
#[verifier::opaque]
pub open spec fn built_facts<'a>(
    lat: Lattice,
    built: Seq<Grid<'a, Point>>,
    pend0: Seq<bool>,
    inputs: Seq<Point>,
) -> bool {
    &&& forall|m: int| 0 <= m < pend0.len() ==> #[trigger] pend0[m] == (built[m].cands().len() > 0)
    &&& forall|m: int|
        0 <= m < built.len() && (#[trigger] built[m]).cands().len() > 0 ==> exists|x: int|
            0 <= x < inputs.len() && *built[m].cands()[0] == inputs[x] && lat.cell_of(
                inputs[x].position,
            ) == m && forall|h: int| 0 <= h < x ==> lat.cell_of(#[trigger] inputs[h].position) != m
}

/// The walk's first pick: with nothing kept yet and every cell below `jc`
/// empty, the first admissible candidate of cell `jc` is the first input of
/// the lowest cell holding inputs.
proof fn lemma_first_pick<'a>(
    lat: Lattice,
    cells: Seq<Grid<'a, Point>>,
    built: Seq<Grid<'a, Point>>,
    pending: Seq<bool>,
    pend0: Seq<bool>,
    inputs: Seq<Point>,
    radius: int,
    jc: int,
    found: Option<Point>,
)
    requires
        lat.wf(),
        lat == sample_lattice(inputs, radius),
        cells.len() == lat.cell_count(),
        built.len() == cells.len(),
        pend0.len() == cells.len(),
        pending.len() == cells.len(),
        0 <= jc < cells.len(),
        forall|j: int| 0 <= j < cells.len() ==> (#[trigger] cells[j]).cands() == built[j].cands(),
        built_facts(lat, built, pend0, inputs),
        pending == pend0.update(jc, false),
        pend0[jc],
        forall|m: int| 0 <= m < jc ==> !#[trigger] pending[m],
        forall|j: int| 0 <= j < cells.len() ==> (#[trigger] cells[j].rep()) is None,
        forall|i: int| 0 <= i < inputs.len() ==> lat.holds(#[trigger] inputs[i].position),
        forall|i: int|
            0 <= i < inputs.len() ==> cells[lat.cell_of(#[trigger] inputs[i].position)].cands().contains(
                &inputs[i],
            ),
        found matches Some(q) ==> exists|k: int|
            0 <= k < cells[jc].cands().len() && *cells[jc].cands()[k] == q && forall|mm: int|
                0 <= mm < k ==> !lat.admits(cells, *#[trigger] cells[jc].cands()[mm]),
        found is None ==> forall|k: int|
            0 <= k < cells[jc].cands().len() ==> !lat.admits(cells, *#[trigger] cells[jc].cands()[k]),
    ensures
        exists|x: int|
            first_of_lowest_cell(inputs, radius, x) && found == Some(inputs[x]) && lat.cell_of(
                inputs[x].position,
            ) == jc,
{
    reveal(built_facts);
    let x = choose|x: int|
        0 <= x < inputs.len() && *built[jc].cands()[0] == inputs[x] && lat.cell_of(inputs[x].position)
            == jc && forall|h: int| 0 <= h < x ==> lat.cell_of(#[trigger] inputs[h].position) != jc;
    assert forall|i: int| 0 <= i < inputs.len() implies lat.cell_of(inputs[x].position) <= lat.cell_of(
        #[trigger] inputs[i].position,
    ) by {
        let ci = lat.cell_of(inputs[i].position);
        lat.lemma_index_in_lattice(inputs[i].position);
        assert(cells[ci].cands().contains(&inputs[i]));
        assert(built[ci].cands().len() > 0);
        if ci < jc {
            assert(pend0.update(jc, false)[ci] == pend0[ci]);
        }
    }
    assert(first_of_lowest_cell(inputs, radius, x));
    let c = *cells[jc].cands()[0];
    assert(lat.admits(cells, c));
    if found is Some {
        let k = choose|k: int|
            0 <= k < cells[jc].cands().len() && *cells[jc].cands()[k] == found->0 && forall|mm: int|
                0 <= mm < k ==> !lat.admits(cells, *#[trigger] cells[jc].cands()[mm]);
        if k > 0 {
            assert(!lat.admits(cells, *cells[jc].cands()[0]));
        }
    }
    assert(found == Some(inputs[x]));
}

impl Default for PoissonDiskSampling {
    fn default() -> (s: Self) {
        PoissonDiskSampling {  }
    }
}

impl PoissonDiskSampling {
    pub fn new() -> (s: Self) {
        PoissonDiskSampling {  }
    }

    /// Sub-samples `inputs` so that the kept points are pairwise more than
    /// `radius` apart and every input point is within `radius` of a kept
    /// point, or within a cell's diagonal where the lattice is coarser than
    /// the radius (`coverage_bound`).
    ///
    /// All inputs are bucketed into a lattice of cells of side about
    /// `radius / sqrt 3` (see `Lattice::new`). A cell with candidates is
    /// picked and its first
    /// valid candidate kept and made active; then, while cells remain, the
    /// head of the active queue looks in its unvisited neighbour cells for a
    /// candidate between half the radius and the radius away that is valid,
    /// keeps it and makes it active, or else leaves the queue. When the queue
    /// is empty, the next unpicked cell with candidates is tried.
    #[verifier::rlimit(100)]
    pub fn sample(&self, inputs: &[Point], radius: u64) -> (out: Vec<Point>)
        requires
            1 <= radius <= MAX_RADIUS,
            forall|i: int| 0 <= i < inputs@.len() ==> (#[trigger] inputs@[i]).in_range(),
        ensures
            is_sampling(inputs@, radius as int, out@),
            covers_sq(inputs@, coverage_bound(inputs@, radius as int), out@),
            fine_lattice(inputs@, radius as int) ==> covers(inputs@, radius as int, out@),
            forall|i0: int|
                #[trigger] first_of_lowest_cell(inputs@, radius as int, i0) ==> out@.contains(
                    inputs@[i0],
                ),
    {
        if inputs.len() == 0 {
            return Vec::new();
        }
        let bounds = BoundingBox::from_points(inputs);
        let ghost ps = positions_of(inputs@);
        proof {
            assert forall|i: int| 0 <= i < ps.len() implies (#[trigger] ps[i]).in_range() by {
                assert(ps[i] == inputs@[i].position);
            }
            lemma_box_of_proper(ps);
            lemma_box_of_tight(ps);
        }
        let lat = Lattice::new(&bounds, radius);
        assert(lat == sample_lattice(inputs@, radius as int));
        assert forall|i: int| 0 <= i < inputs@.len() implies lat.holds(
            #[trigger] inputs@[i].position,
        ) by {
            assert(ps[i] == inputs@[i].position);
            assert(contains(box_of(ps), ps[i]));
        }
        let mut cells = lat.build_cells(inputs);
        let ghost built = cells@;
        let n = cells.len();
        let mut pending: Vec<bool> = Vec::new();
        let mut j: usize = 0;
        while j < n
            invariant
                n == cells@.len(),
                j <= n,
                pending@.len() == j,
                forall|m: int| 0 <= m < j ==> #[trigger] pending@[m] == (cells@[m].cands().len() > 0),
            decreases n - j,
        {
            pending.push(cells[j].candidates().len() > 0);
            j += 1;
        }
        proof {
            lat.lemma_index_in_lattice(inputs@[0].position);
            let c0 = lat.cell_of(inputs@[0].position);
            assert(pending@[c0]);
        }
        assert forall|m: int| 0 <= m < n && !#[trigger] pending@[m] implies cell_done(
            lat,
            cells@,
            m,
        ) by {
            assert(cells@[m].cands().len() == 0);
        }
        let ghost pend0 = pending@;
        proof {
            reveal(built_facts);
        }
        let ghost mut started = false;
        let ghost mut i0: int = 0;
        let mut actives: Vec<Point> = Vec::new();
        let mut head: usize = 0;
        let mut cursor: usize = 0;
        while cursor < n
            invariant
                lat == sample_lattice(inputs@, radius as int),
                built.len() == cells@.len(),
                pend0.len() == n,
                forall|j: int| 0 <= j < cells@.len() ==> (#[trigger] cells@[j]).cands() == built[j].cands(),
                built_facts(lat, built, pend0, inputs@),
                !started ==> pending@ == pend0 && actives@.len() == 0 && head == 0 && forall|j: int|
                    0 <= j < cells@.len() ==> (#[trigger] cells@[j].rep()) is None,
                started ==> first_of_lowest_cell(inputs@, radius as int, i0) && cells@[lat.cell_of(
                    inputs@[i0].position,
                )].rep() == Some(inputs@[i0]),
                lat.wf(),
                lat.radius == radius,
                n == cells@.len(),
                cells@.len() == lat.cell_count(),
                lat.reps_placed(cells@),
                lat.separated(cells@),
                lat.reps_from(cells@, inputs@),
                lat.cands_placed(cells@, inputs@),
                pending@.len() == n,
                cursor <= n,
                forall|m: int| 0 <= m < cursor ==> !#[trigger] pending@[m],
                forall|m: int|
                    0 <= m < n && #[trigger] pending@[m] ==> cells@[m].rep() is None
                        && cells@[m].cands().len() > 0,
                head <= actives@.len(),
                forall|m: int| 0 <= m < actives@.len() ==> lat.holds((#[trigger] actives@[m]).position),
                forall|m: int| 0 <= m < n && !#[trigger] pending@[m] ==> cell_done(lat, cells@, m),
                forall|i: int| 0 <= i < inputs@.len() ==> lat.holds(#[trigger] inputs@[i].position),
                forall|i: int|
                    0 <= i < inputs@.len() ==> cells@[lat.cell_of(
                        #[trigger] inputs@[i].position,
                    )].cands().contains(&inputs@[i]),
                (exists|m: int| 0 <= m < n && (#[trigger] cells@[m].rep()) is Some) || (exists|
                    m: int,
                | 0 <= m < n && #[trigger] pending@[m]),
            decreases 2 * num_true(open_cells(cells@)) + num_true(pending@) + (actives@.len()
                - head) + (n - cursor),
        {
            proof {
                assert forall|a: int, b: int|
                    0 <= a < cells@.len() && 0 <= b < cells@[a].cands().len() implies lat.holds(
                    (#[trigger] cells@[a].cands()[b]).position,
                ) by {
                    assert(lat.cands_placed(cells@, inputs@));
                }
            }
            let ghost cells0 = cells@;
            let ghost was_started = started;
            if !pending[cursor] {
                cursor += 1;
            } else {
                let found;
                if head == actives.len() {
                    let jc = cursor;
                    proof {
                        lemma_num_true_clear(pending@, jc as int);
                    }
                    pending.set(jc, false);
                    found = lat.first_valid(&cells, jc);
                    proof {
                        if !started {
                            assert(pend0[jc as int]);
                            assert(pending@ =~= pend0.update(jc as int, false));
                            lemma_first_pick(
                                lat,
                                cells@,
                                built,
                                pending@,
                                pend0,
                                inputs@,
                                radius as int,
                                jc as int,
                                found,
                            );
                            let x = choose|x: int|
                                first_of_lowest_cell(inputs@, radius as int, x) && found == Some(
                                    inputs@[x],
                                ) && lat.cell_of(inputs@[x].position) == jc;
                            i0 = x;
                            started = true;
                        }
                        if found is None {
                            let c0 = *cells@[jc as int].cands()[0];
                            assert(!lat.admits(cells@, c0));
                            let i = choose|i: int|
                                0 <= i < cells@.len() && !#[trigger] lat.clear_of(cells@, c0, i);
                            assert(cells@[i].rep() is Some);
                        } else {
                            let q = found->0;
                            let k = choose|k: int|
                                0 <= k < cells@[jc as int].cands().len()
                                    && cells@[jc as int].cands()[k] == &q;
                            assert(cells@[jc as int].cands()[k] == &q);
                        }
                    }
                } else {
                    found = find_near(&lat, &cells, &actives[head]);
                    if found.is_none() {
                        head += 1;
                    }
                }
                match found {
                    Some(q) => {
                        let ghost jq = choose|m: int|
                            0 <= m < cells@.len() && (#[trigger] cells@[m].rep()) is None
                                && cells@[m].cands().contains(&q);
                        proof {
                            let k = choose|k: int|
                                0 <= k < cells@[jq].cands().len() && cells@[jq].cands()[k] == &q;
                            assert(cells@[jq].cands()[k] == &q);
                        }
                        let t = lat.index(&q.position);
                        let f = lat.flat_index(t.0, t.1, t.2);
                        assert(f == jq);
                        let ghost before = cells@;
                        proof {
                            lemma_num_true_clear(open_cells(before), f as int);
                            lemma_num_true_clear(pending@, f as int);
                        }
                        cells[f].set(q);
                        assert(open_cells(cells@) == open_cells(before).update(f as int, false));
                        pending.set(f, false);
                        actives.push(q);
                        assert forall|a: int, b: int|
                            0 <= a < cells@.len() && 0 <= b < cells@.len() && a != b && (
                            #[trigger] cells@[a].rep()) is Some && (#[trigger] cells@[b].rep())
                                is Some implies pdist2(cells@[a].rep()->0, cells@[b].rep()->0)
                            > lat.radius * lat.radius by {
                            if a == f {
                                assert(lat.clear_of(before, q, b));
                            } else if b == f {
                                assert(lat.clear_of(before, q, a));
                                lemma_dist2_symmetric(
                                    q.position,
                                    cells@[a].rep()->0.position,
                                );
                            } else {
                                assert(before[a].rep() == cells@[a].rep());
                                assert(before[b].rep() == cells@[b].rep());
                            }
                        }
                        assert(cells@[f as int].rep() is Some);
                        assert forall|m: int| 0 <= m < n && !#[trigger] pending@[m] implies cell_done(
                            lat,
                            cells@,
                            m,
                        ) by {
                            if m != f {
                                assert(cells@[m] == before[m]);
                                if before[m].rep() is None {
                                    assert forall|k: int| 0 <= k < cells@[m].cands().len() implies !lat.admits(
                                        cells@,
                                        *#[trigger] cells@[m].cands()[k],
                                    ) by {
                                        assert(!lat.admits(before, *before[m].cands()[k]));
                                        lat.lemma_refusal_kept(before, cells@, *before[m].cands()[k]);
                                    }
                                }
                            }
                        }
                        assert forall|i: int| 0 <= i < inputs@.len() implies cells@[lat.cell_of(
                            #[trigger] inputs@[i].position,
                        )].cands().contains(&inputs@[i]) by {
                            lat.lemma_index_in_lattice(inputs@[i].position);
                            assert(cells@[lat.cell_of(inputs@[i].position)].cands() == before[lat.cell_of(
                                inputs@[i].position,
                            )].cands());
                        }
                    },
                    None => {},
                }
                proof {
                    let ci = lat.cell_of(inputs@[i0].position);
                    lat.lemma_index_in_lattice(inputs@[i0].position);
                    if was_started {
                        assert(cells0[ci].rep() == Some(inputs@[i0]));
                    }
                    assert(cells@[ci].rep() == Some(inputs@[i0]));
                }
            }
        }
        let out = lat.representatives(&cells);
        proof {
            if inputs@.len() > 0 {
                assert(lat.cell == lattice_cell(radius as int, max_extent(bounds)));
                assert forall|i: int| 0 <= i < inputs@.len() implies cell_done(
                    lat,
                    cells@,
                    lat.cell_of(#[trigger] inputs@[i].position),
                ) by {
                    lat.lemma_index_in_lattice(inputs@[i].position);
                    assert(!pending@[lat.cell_of(inputs@[i].position)]);
                }
                lemma_all_covered(lat, cells@, inputs@, out@);
            }
            if !started {
                reveal(built_facts);
                lat.lemma_index_in_lattice(inputs@[0].position);
                let c = lat.cell_of(inputs@[0].position);
                assert(cells@[c].cands().contains(&inputs@[0]));
                assert(pend0[c]);
                assert(!pending@[c]);
            }
            let ci = lat.cell_of(inputs@[i0].position);
            lat.lemma_index_in_lattice(inputs@[i0].position);
            assert(out@.contains(inputs@[i0]));
            assert forall|j0: int| #[trigger]
                first_of_lowest_cell(inputs@, radius as int, j0) implies out@.contains(inputs@[j0]) by {
                if j0 < i0 {
                    assert(lat.cell_of(inputs@[j0].position) != lat.cell_of(inputs@[i0].position));
                } else if i0 < j0 {
                    assert(lat.cell_of(inputs@[i0].position) != lat.cell_of(inputs@[j0].position));
                }
            }
        }
        out
    }
}

} // verus!
