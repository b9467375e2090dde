use vstd::prelude::*;

use rand::seq::SliceRandom;

use vstd::arithmetic::div_mod::lemma_fundamental_div_mod;

use crate::bounding_box::{
    box_of, contains, is_proper, lemma_box_of_proper, lemma_box_of_tight, max_extent, positions_of,
    BoundingBox,
};
use crate::grid::Grid;
use crate::lattice::{axis_cells, is_rep_in, lattice_cell, lemma_dist2_symmetric, pdist2, Lattice, MAX_RADIUS};
use crate::poisson_disk_sampling::{
    cell_done, coverage_bound, covers, covers_sq, fine_lattice, lemma_all_covered,
};
use crate::point::{Point, Position};

verus! {

/// Relies on rand's `SliceRandom::shuffle` with the generator of
/// `rand::thread_rng`: it permutes the vector in place (a Fisher-Yates pass
/// of swaps), so the offsets stay the same and only their order is random.
#[verifier::external_body]
fn shuffle_offsets(v: &mut Vec<(usize, usize, usize)>)
    ensures
        final(v)@.to_multiset() == old(v)@.to_multiset(),
{
    v.shuffle(&mut rand::thread_rng());
}

/// Why a step could not be taken.
#[derive(Clone, Copy, Debug, PartialEq, Eq, Structural)]
pub enum StepError {
    /// Every partition has been processed already.
    NoPartitionLeft,
}

/// Poisson-disk sub-sampling by partitions: the lattice cells are split into
/// the 27 classes of their indices modulo 3, and each step processes one
/// class. Cells of one class are at least three cells apart along some axis,
/// so points in them are more than the radius apart and the class's cells can
/// be decided independently of each other.
pub struct ParallelPoissonDiskSampling<'a> {
    lattice: Lattice,
    grid: Vec<Grid<'a, Point>>,
    partitions: Vec<(usize, usize, usize)>,
    partitions_count: usize,
    inputs: Ghost<Seq<Point>>,
}

/// The lattice index `t` belongs to the partition with offset `a`.
pub open spec fn in_partition(t: (int, int, int), a: (int, int, int)) -> bool {
    &&& t.0 % 3 == a.0
    &&& t.1 % 3 == a.1
    &&& t.2 % 3 == a.2
}

pub open spec fn offset(a: (usize, usize, usize)) -> (int, int, int) {
    (a.0 as int, a.1 as int, a.2 as int)
}

/// `t` comes before `(x, y, z)` in the order of the loops (z, then y, then x).
pub open spec fn lex_before(t: (int, int, int), x: int, y: int, z: int) -> bool {
    t.2 < z || (t.2 == z && t.1 < y) || (t.2 == z && t.1 == y && t.0 < x)
}

/// What a step leaves in cell `t` of its partition: on the first step, the
/// first candidate if there is one; on later steps, a representative unless no
/// candidate is more than the radius from every representative.
pub open spec fn settled<'a>(
    lat: Lattice,
    cells: Seq<Grid<'a, Point>>,
    t: (int, int, int),
    first: bool,
) -> bool {
    let c = cells[lat.flat(t)];
    if first {
        c.cands().len() > 0 ==> c.rep() == Some(*c.cands()[0])
    } else {
        c.rep() is None ==> forall|k: int|
            0 <= k < c.cands().len() ==> !lat.admits(cells, *#[trigger] c.cands()[k])
    }
}

/// `b` is what a step leaves of the well-formed sampler `a`: well-formed,
/// over the same points and lattice, with the next partition taken off when
/// one was left.
pub open spec fn stepped<'a>(a: ParallelPoissonDiskSampling<'a>, b: ParallelPoissonDiskSampling<'a>) -> bool {
    &&& b.wf()
    &&& b.points() == a.points()
    &&& b.lattice_of() == a.lattice_of()
    &&& b.iterations() == a.iterations()
    &&& if a.pending().len() > 0 {
        b.pending() == a.pending().drop_last()
    } else {
        b.pending() == a.pending()
    }
}

/// Taking `max_iterations()` steps from a new sampler processes every
/// partition: the sampler is then complete, so its samples are pairwise more
/// than the radius apart and, on a fine lattice, every point is within the
/// radius of one (see `samples`).
pub proof fn lemma_complete_after_all_steps<'a>(states: Seq<ParallelPoissonDiskSampling<'a>>)
    requires
        states.len() >= 1,
        states[0].wf(),
        states[0].next_is_first(),
        states.len() == states[0].iterations() + 1,
        forall|i: int| 0 <= i < states.len() - 1 ==> stepped(#[trigger] states[i], states[i + 1]),
    ensures
        states.last().wf(),
        states.last().pending().len() == 0,
        states.last().points() == states[0].points(),
        states.last().radius() == states[0].radius(),
{
    lemma_steps_prefix(states, states.len() - 1);
}

/// What holds of the state after `i` steps.
proof fn lemma_steps_prefix<'a>(states: Seq<ParallelPoissonDiskSampling<'a>>, i: int)
    requires
        0 <= i < states.len(),
        states[0].wf(),
        states[0].next_is_first(),
        states.len() == states[0].iterations() + 1,
        forall|j: int| 0 <= j < states.len() - 1 ==> stepped(#[trigger] states[j], states[j + 1]),
    ensures
        states[i].wf(),
        states[i].pending().len() == states[0].iterations() - i,
        states[i].iterations() == states[0].iterations(),
        states[i].points() == states[0].points(),
        states[i].lattice_of() == states[0].lattice_of(),
    decreases i,
{
    if i > 0 {
        lemma_steps_prefix(states, i - 1);
        assert(stepped(states[i - 1], states[i]));
    }
}

/// Partition offsets along an axis of `n` cells: `min(n, 3)`.
pub open spec fn fit3(n: int) -> int {
    if n < 3 {
        n
    } else {
        3
    }
}

pub open spec fn clip(v: int, m: int) -> int {
    if v < m {
        v
    } else {
        m
    }
}

/// Distinct indices of one partition are three or more apart along some axis.
proof fn lemma_partition_apart(t: (int, int, int), u: (int, int, int), a: (int, int, int))
    requires
        t.0 >= 0 && t.1 >= 0 && t.2 >= 0,
        u.0 >= 0 && u.1 >= 0 && u.2 >= 0,
        in_partition(t, a),
        in_partition(u, a),
        t != u,
    ensures
        !(-2 <= t.0 - u.0 <= 2 && -2 <= t.1 - u.1 <= 2 && -2 <= t.2 - u.2 <= 2),
{
    if t.0 != u.0 {
        lemma_same_residue_apart(t.0, u.0);
    } else if t.1 != u.1 {
        lemma_same_residue_apart(t.1, u.1);
    } else {
        lemma_same_residue_apart(t.2, u.2);
    }
}

/// A non-negative integer whose residue modulo 3 is `a` is at least `a`.
proof fn lemma_residue_floor(p: int, a: int)
    requires
        p >= 0,
        0 <= a < 3,
        p % 3 == a,
    ensures
        p >= a,
{
    lemma_fundamental_div_mod(p, 3);
    vstd::arithmetic::div_mod::lemma_div_pos_is_pos(p, 3);
}

/// Distinct integers with the same residue modulo 3 are three or more apart.
proof fn lemma_same_residue_apart(p: int, q: int)
    requires
        p % 3 == q % 3,
        p != q,
    ensures
        !(-2 <= p - q <= 2),
{
    lemma_fundamental_div_mod(p, 3);
    lemma_fundamental_div_mod(q, 3);
    assert(p - q == 3 * (p / 3 - q / 3));
    assert(!(-2 <= 3 * (p / 3 - q / 3) <= 2 && p / 3 - q / 3 != 0)) by (nonlinear_arith);
}

impl<'a> ParallelPoissonDiskSampling<'a> {
    pub closed spec fn lattice_of(&self) -> Lattice {
        self.lattice
    }

    /// The cells of the lattice, in flat order.
    pub closed spec fn cells(&self) -> Seq<Grid<'a, Point>> {
        self.grid@
    }

    /// The points being sampled.
    pub closed spec fn points(&self) -> Seq<Point> {
        self.inputs@
    }

    /// The partition offsets not yet processed; the last is processed next.
    pub closed spec fn pending(&self) -> Seq<(usize, usize, usize)> {
        self.partitions@
    }

    pub closed spec fn iterations(&self) -> int {
        self.partitions_count as int
    }

    /// No partition has been processed yet.
    pub open spec fn next_is_first(&self) -> bool {
        self.pending().len() == self.iterations()
    }

    pub open spec fn radius(&self) -> int {
        self.lattice_of().radius as int
    }

    pub closed spec fn wf(&self) -> bool {
        &&& self.lattice.wf()
        &&& self.grid@.len() == self.lattice.cell_count()
        &&& self.lattice.reps_placed(self.grid@)
        &&& self.lattice.separated(self.grid@)
        &&& self.lattice.reps_from(self.grid@, self.inputs@)
        &&& self.lattice.cands_placed(self.grid@, self.inputs@)
        &&& self.partitions@.len() <= self.partitions_count <= 27
        &&& forall|k: int|
            0 <= k < self.partitions@.len() ==> {
                let a = #[trigger] self.partitions@[k];
                &&& a.0 < 3 && a.1 < 3 && a.2 < 3
                &&& self.lattice.in_lattice((a.0 as int, a.1 as int, a.2 as int))
            }
        &&& self.partitions@.no_duplicates()
        &&& self.partitions@.len() == self.partitions_count ==> forall|j: int|
            0 <= j < self.grid@.len() ==> (#[trigger] self.grid@[j].rep()) is None
        &&& forall|j: int, k: int|
            0 <= j < self.grid@.len() && (#[trigger] self.grid@[j].rep()) is Some && 0 <= k
                < self.partitions@.len() ==> !in_partition(
                self.lattice.index_of(self.grid@[j].rep()->0.position),
                offset(#[trigger] self.partitions@[k]),
            )
        &&& forall|i: int|
            0 <= i < self.inputs@.len() ==> self.lattice.holds(#[trigger] self.inputs@[i].position)
        &&& forall|i: int|
            0 <= i < self.inputs@.len() ==> self.grid@[self.lattice.cell_of(
                #[trigger] self.inputs@[i].position,
            )].cands().contains(&self.inputs@[i])
        &&& self.inputs@.len() > 0 ==> self.lattice.cell == lattice_cell(
            self.lattice.radius as int,
            max_extent(box_of(positions_of(self.inputs@))),
        )
        &&& forall|t: (int, int, int)|
            self.lattice.in_lattice(t) && !self.pending_covers(t) ==> #[trigger] cell_done(
                self.lattice,
                self.grid@,
                self.lattice.flat(t),
            )
    }

    /// Cell `t` belongs to a partition not yet processed.
    pub closed spec fn pending_covers(&self, t: (int, int, int)) -> bool {
        exists|k: int|
            0 <= k < self.partitions@.len() && in_partition(t, offset(#[trigger] self.partitions@[k]))
    }

    /// A sampler for `inputs` at `radius`, with no point chosen yet and the
    /// partition offsets that fit the lattice in random order.
    pub fn new(inputs: &'a [Point], radius: u64) -> (s: Self)
        requires
            1 <= radius <= MAX_RADIUS,
            forall|i: int| 0 <= i < inputs@.len() ==> (#[trigger] inputs@[i]).in_range(),
        ensures
            s.wf(),
            s.points() == inputs@,
            s.radius() == radius,
            s.pending().len() == s.iterations(),
            s.iterations() == fit3(s.lattice_of().nx as int) * fit3(s.lattice_of().ny as int) * fit3(
                s.lattice_of().nz as int,
            ),
            s.lattice_of().radius == radius,
            inputs@.len() > 0 ==> s.lattice_of().cell == lattice_cell(
                radius as int,
                max_extent(box_of(positions_of(inputs@))),
            ),
            ({
                let b = if inputs@.len() > 0 {
                    box_of(positions_of(inputs@))
                } else {
                    BoundingBox {
                        min: Position { x: 0, y: 0, z: 0 },
                        max: Position { x: 0, y: 0, z: 0 },
                    }
                };
                let l = s.lattice_of();
                &&& l.min == b.min
                &&& l.nx == axis_cells(b.max.x - b.min.x, l.cell as int)
                &&& l.ny == axis_cells(b.max.y - b.min.y, l.cell as int)
                &&& l.nz == axis_cells(b.max.z - b.min.z, l.cell as int)
            }),
            forall|j: int| 0 <= j < s.cells().len() ==> (#[trigger] s.cells()[j].rep()) is None,
    {
        let bounds = if inputs.len() == 0 {
            let o = Position { x: 0, y: 0, z: 0 };
            BoundingBox { min: o, max: o }
        } else {
            BoundingBox::from_points(inputs)
        };
        let ghost ps = positions_of(inputs@);
        proof {
            if inputs@.len() > 0 {
                assert forall|i: int| 0 <= i < ps.len() implies (#[trigger] ps[i]).in_range() by {
                    assert(ps[i] == inputs@[i].position);
                }
                lemma_box_of_proper(ps);
                lemma_box_of_tight(ps);
            }
        }
        let lattice = Lattice::new(&bounds, radius);
        assert forall|i: int| 0 <= i < inputs@.len() implies lattice.holds(
            #[trigger] inputs@[i].position,
        ) by {
            assert(ps[i] == inputs@[i].position);
            assert(contains(box_of(ps), ps[i]));
        }
        let grid = lattice.build_cells(inputs);
        let mut partitions: Vec<(usize, usize, usize)> = Vec::new();
        proof {
            let (fx, fy) = (fit3(lattice.nx as int), fit3(lattice.ny as int));
            assert(0 * fy * fx == 0 && 0 * fx == 0) by (nonlinear_arith);
        }
        let mut z: usize = 0;
        while z < 3
            invariant
                lattice.wf(),
                z <= 3,
                partitions@.len() == clip(z as int, fit3(lattice.nz as int)) * fit3(lattice.ny as int)
                    * fit3(lattice.nx as int),
                partitions@.no_duplicates(),
                forall|k: int|
                    0 <= k < partitions@.len() ==> lex_before(
                        offset(#[trigger] partitions@[k]),
                        0,
                        0,
                        z as int,
                    ),
                forall|a: (int, int, int)|
                    0 <= a.0 < 3 && 0 <= a.1 < 3 && 0 <= a.2 < 3 && lattice.in_lattice(a)
                        && #[trigger] lex_before(a, 0, 0, z as int) ==> exists|k: int|
                        0 <= k < partitions@.len() && offset(partitions@[k]) == a,
                forall|k: int|
                    0 <= k < partitions@.len() ==> {
                        let a = #[trigger] partitions@[k];
                        &&& a.0 < 3 && a.1 < 3 && a.2 < 3
                        &&& lattice.in_lattice((a.0 as int, a.1 as int, a.2 as int))
                    },
            decreases 3 - z,
        {
            let mut y: usize = 0;
            proof {
                assert(0 * fit3(lattice.nx as int) == 0) by (nonlinear_arith);
            }
            while y < 3
                invariant
                    lattice.wf(),
                    z < 3,
                    y <= 3,
                    partitions@.len() == clip(z as int, fit3(lattice.nz as int)) * fit3(
                        lattice.ny as int,
                    ) * fit3(lattice.nx as int) + if z < lattice.nz {
                        clip(y as int, fit3(lattice.ny as int)) * fit3(lattice.nx as int)
                    } else {
                        0
                    },
                    partitions@.no_duplicates(),
                    forall|k: int|
                        0 <= k < partitions@.len() ==> lex_before(
                            offset(#[trigger] partitions@[k]),
                            0,
                            y as int,
                            z as int,
                        ),
                    forall|a: (int, int, int)|
                        0 <= a.0 < 3 && 0 <= a.1 < 3 && 0 <= a.2 < 3 && lattice.in_lattice(a)
                            && #[trigger] lex_before(a, 0, y as int, z as int) ==> exists|k: int|
                            0 <= k < partitions@.len() && offset(partitions@[k]) == a,
                    forall|k: int|
                        0 <= k < partitions@.len() ==> {
                            let a = #[trigger] partitions@[k];
                            &&& a.0 < 3 && a.1 < 3 && a.2 < 3
                            &&& lattice.in_lattice((a.0 as int, a.1 as int, a.2 as int))
                        },
                decreases 3 - y,
            {
                let mut x: usize = 0;
                while x < 3
                    invariant
                        lattice.wf(),
                        z < 3,
                        y < 3,
                        x <= 3,
                        partitions@.len() == clip(z as int, fit3(lattice.nz as int)) * fit3(
                            lattice.ny as int,
                        ) * fit3(lattice.nx as int) + (if z < lattice.nz {
                            clip(y as int, fit3(lattice.ny as int)) * fit3(lattice.nx as int)
                        } else {
                            0
                        }) + if z < lattice.nz && y < lattice.ny {
                            clip(x as int, fit3(lattice.nx as int))
                        } else {
                            0
                        },
                        partitions@.no_duplicates(),
                        forall|k: int|
                            0 <= k < partitions@.len() ==> lex_before(
                                offset(#[trigger] partitions@[k]),
                                x as int,
                                y as int,
                                z as int,
                            ),
                        forall|a: (int, int, int)|
                            0 <= a.0 < 3 && 0 <= a.1 < 3 && 0 <= a.2 < 3 && lattice.in_lattice(a)
                                && #[trigger] lex_before(a, x as int, y as int, z as int) ==> exists|
                                k: int,
                            | 0 <= k < partitions@.len() && offset(partitions@[k]) == a,
                        forall|k: int|
                            0 <= k < partitions@.len() ==> {
                                let a = #[trigger] partitions@[k];
                                &&& a.0 < 3 && a.1 < 3 && a.2 < 3
                                &&& lattice.in_lattice((a.0 as int, a.1 as int, a.2 as int))
                            },
                    decreases 3 - x,
                {
                    let ghost old = partitions@;
                    if x < lattice.nx && y < lattice.ny && z < lattice.nz {
                        partitions.push((x, y, z));
                    }
                    proof {
                        assert forall|a: (int, int, int)|
                            0 <= a.0 < 3 && 0 <= a.1 < 3 && 0 <= a.2 < 3 && lattice.in_lattice(a)
                                && #[trigger] lex_before(
                                a,
                                x as int + 1,
                                y as int,
                                z as int,
                            ) implies exists|k: int|
                            0 <= k < partitions@.len() && offset(partitions@[k]) == a by {
                            if a == (x as int, y as int, z as int) {
                                assert(offset(partitions@[old.len() as int]) == a);
                            } else {
                                assert(lex_before(a, x as int, y as int, z as int));
                                let k = choose|k: int| 0 <= k < old.len() && offset(old[k]) == a;
                                assert(partitions@[k] == old[k]);
                            }
                        }
                    }
                    x += 1;
                }
                proof {
                    let fx = fit3(lattice.nx as int);
                    let c = clip(y as int, fit3(lattice.ny as int));
                    assert((c + 1) * fx == c * fx + fx) by (nonlinear_arith);
                    assert forall|a: (int, int, int)|
                        0 <= a.0 < 3 && 0 <= a.1 < 3 && 0 <= a.2 < 3 && lattice.in_lattice(a)
                            && #[trigger] lex_before(a, 0, y as int + 1, z as int) implies exists|
                        k: int,
                    | 0 <= k < partitions@.len() && offset(partitions@[k]) == a by {
                        assert(lex_before(a, x as int, y as int, z as int));
                    }
                }
                y += 1;
            }
            proof {
                let fx = fit3(lattice.nx as int);
                let fy = fit3(lattice.ny as int);
                let c = clip(z as int, fit3(lattice.nz as int));
                assert((c + 1) * fy * fx == c * fy * fx + fy * fx) by (nonlinear_arith);
                assert forall|a: (int, int, int)|
                    0 <= a.0 < 3 && 0 <= a.1 < 3 && 0 <= a.2 < 3 && lattice.in_lattice(a)
                        && #[trigger] lex_before(a, 0, 0, z as int + 1) implies exists|k: int|
                    0 <= k < partitions@.len() && offset(partitions@[k]) == a by {
                    assert(lex_before(a, 0, y as int, z as int));
                }
            }
            z += 1;
        }
        let ghost before = partitions@;
        shuffle_offsets(&mut partitions);
        proof {
            before.to_multiset_ensures();
            partitions@.to_multiset_ensures();
            before.lemma_multiset_has_no_duplicates();
            partitions@.lemma_multiset_has_no_duplicates_conv();
            assert forall|k: int| 0 <= k < partitions@.len() implies {
                let a = #[trigger] partitions@[k];
                &&& a.0 < 3 && a.1 < 3 && a.2 < 3
                &&& lattice.in_lattice((a.0 as int, a.1 as int, a.2 as int))
            } by {
                let a = partitions@[k];
                assert(partitions@.contains(a));
                assert(partitions@.to_multiset().count(a) > 0);
                assert(before.to_multiset().count(a) > 0);
                assert(before.contains(a));
                let i = choose|i: int| 0 <= i < before.len() && before[i] == a;
                assert(before[i] == a);
            }
        }
        let partitions_count = partitions.len();
        proof {
            let (fx, fy, fz) = (
                fit3(lattice.nx as int),
                fit3(lattice.ny as int),
                fit3(lattice.nz as int),
            );
            assert(1 <= fz * fy * fx <= 27) by (nonlinear_arith)
                requires
                    1 <= fx <= 3,
                    1 <= fy <= 3,
                    1 <= fz <= 3,
            ;
            assert(fz * fy * fx == fx * fy * fz) by (nonlinear_arith);
        }
        let s = ParallelPoissonDiskSampling {
            lattice,
            grid,
            partitions,
            partitions_count,
            inputs: Ghost(inputs@),
        };
        proof {
            assert forall|t: (int, int, int)| lattice.in_lattice(t) implies s.pending_covers(t) by {
                let a = (t.0 % 3, t.1 % 3, t.2 % 3);
                assert(lex_before(a, 0, 0, 3));
                let k = choose|k: int| 0 <= k < before.len() && offset(before[k]) == a;
                assert(before.contains(before[k]));
                assert(before.to_multiset().count(before[k]) > 0);
                assert(s.partitions@.contains(before[k]));
                let k2 = choose|k2: int| 0 <= k2 < s.partitions@.len() && s.partitions@[k2] == before[k];
                assert(in_partition(t, offset(s.partitions@[k2])));
            }
            if inputs@.len() > 0 {
                assert(bounds == box_of(positions_of(inputs@)));
            }
        }
        s
    }

    /// The chosen points, in cell order.
    pub fn samples(&self) -> (out: Vec<Point>)
        requires
            self.wf(),
        ensures
            forall|k: int| 0 <= k < out@.len() ==> self.points().contains(#[trigger] out@[k]),
            forall|k: int, l: int|
                0 <= k < out@.len() && 0 <= l < out@.len() && k != l ==> pdist2(
                    #[trigger] out@[k],
                    #[trigger] out@[l],
                ) > self.radius() * self.radius(),
            forall|k: int| 0 <= k < out@.len() ==> is_rep_in(self.cells(), #[trigger] out@[k]),
            forall|j: int|
                0 <= j < self.cells().len() && (#[trigger] self.cells()[j].rep()) is Some
                    ==> out@.contains(self.cells()[j].rep()->0),
            (exists|j: int| 0 <= j < self.cells().len() && (#[trigger] self.cells()[j].rep()) is Some)
                ==> out@.len() > 0,
            self.pending().len() == 0 ==> covers_sq(
                self.points(),
                coverage_bound(self.points(), self.radius()),
                out@,
            ),
            self.pending().len() == 0 && fine_lattice(self.points(), self.radius()) ==> covers(
                self.points(),
                self.radius(),
                out@,
            ),
    {
        let out = self.lattice.representatives(&self.grid);
        proof {
            if self.partitions@.len() == 0 && self.inputs@.len() > 0 {
                let lat = self.lattice;
                assert forall|i: int| 0 <= i < self.inputs@.len() implies cell_done(
                    lat,
                    self.grid@,
                    lat.cell_of(#[trigger] self.inputs@[i].position),
                ) by {
                    let t = lat.index_of(self.inputs@[i].position);
                    lat.lemma_index_in_lattice(self.inputs@[i].position);
                    assert(!self.pending_covers(t));
                }
                lemma_all_covered(lat, self.grid@, self.inputs@, out@);
            }
        }
        assert forall|k: int| 0 <= k < out@.len() implies self.points().contains(
            #[trigger] out@[k],
        ) by {
            assert(is_rep_in(self.grid@, out@[k]));
            let j = choose|j: int|
                0 <= j < self.grid@.len() && (#[trigger] self.grid@[j].rep()) == Some(out@[k]);
            assert(self.lattice.reps_from(self.grid@, self.inputs@));
        }
        out
    }

    pub fn is_completed(&self) -> (b: bool)
        ensures
            b == (self.pending().len() == 0),
    {
        self.partitions.len() == 0
    }

    /// The number of steps that complete the sampler.
    pub fn max_iterations(&self) -> (n: usize)
        ensures
            n == self.iterations(),
    {
        self.partitions_count
    }

    /// What holds while the cells of partition `a` are processed, the cells
    /// before `(x, y, z)` being done.
    closed spec fn step_inv(
        &self,
        g0: Seq<Grid<'a, Point>>,
        a: (int, int, int),
        first: bool,
        x: int,
        y: int,
        z: int,
    ) -> bool {
        let lat = self.lattice;
        let cells = self.grid@;
        &&& lat.wf()
        &&& cells.len() == lat.cell_count()
        &&& g0.len() == cells.len()
        &&& lat.reps_placed(cells)
        &&& lat.separated(cells)
        &&& lat.reps_from(cells, self.inputs@)
        &&& lat.cands_placed(cells, self.inputs@)
        &&& forall|j: int| 0 <= j < cells.len() ==> (#[trigger] cells[j]).cands() == g0[j].cands()
        &&& forall|j: int|
            0 <= j < cells.len() && (#[trigger] g0[j].rep()) is Some ==> cells[j].rep()
                == g0[j].rep()
        &&& forall|j: int|
            0 <= j < cells.len() && (#[trigger] cells[j].rep()) is Some ==> {
                let u = lat.index_of(cells[j].rep()->0.position);
                ||| (g0[j].rep() == cells[j].rep() && !in_partition(u, a))
                ||| (g0[j].rep() is None && in_partition(u, a) && lex_before(u, x, y, z))
            }
        &&& first ==> forall|j: int| 0 <= j < g0.len() ==> (#[trigger] g0[j].rep()) is None
        &&& forall|t: (int, int, int)|
            lat.in_lattice(t) && in_partition(t, a) && lex_before(t, x, y, z) ==> #[trigger] settled(
                lat,
                cells,
                t,
                first,
            )
    }

    /// Processes cell `(x, y, z)` of partition `a`.
    fn settle_cell(
        &mut self,
        Ghost(g0): Ghost<Seq<Grid<'a, Point>>>,
        Ghost(a): Ghost<(int, int, int)>,
        first: bool,
        x: usize,
        y: usize,
        z: usize,
    )
        requires
            old(self).step_inv(g0, a, first, x as int, y as int, z as int),
            old(self).lattice.in_lattice((x as int, y as int, z as int)),
            in_partition((x as int, y as int, z as int), a),
            0 <= a.0 < 3 && 0 <= a.1 < 3 && 0 <= a.2 < 3,
        ensures
            final(self).step_inv(g0, a, first, x as int + 1, y as int, z as int),
            final(self).lattice == old(self).lattice,
            final(self).inputs == old(self).inputs,
            final(self).partitions == old(self).partitions,
            final(self).partitions_count == old(self).partitions_count,
    {
        let ghost lat = self.lattice;
        let ghost here = (x as int, y as int, z as int);
        let ghost before = self.grid@;
        let f = self.lattice.flat_index(x, y, z);
        proof {
            if before[f as int].rep() is Some {
                let u = lat.index_of(before[f as int].rep()->0.position);
                lat.lemma_index_in_lattice(before[f as int].rep()->0.position);
                lat.lemma_flat_injective(u, here);
            }
            assert forall|j: int, k: int|
                0 <= j < before.len() && 0 <= k < before[j].cands().len() implies lat.holds(
                (#[trigger] before[j].cands()[k]).position,
            ) by {
                assert(lat.cands_placed(before, self.inputs@));
            }
        }
        let pick = if first {
            if self.grid[f].candidates().len() > 0 {
                let p: Point = *self.grid[f].candidates()[0];
                Some(p)
            } else {
                None
            }
        } else {
            self.lattice.first_valid(&self.grid, f)
        };
        match pick {
            Some(p) => {
                proof {
                    let k = choose|k: int|
                        0 <= k < before[f as int].cands().len() && before[f as int].cands()[k]
                            == &p;
                    assert(before[f as int].cands()[k] == &p);
                    lat.lemma_index_in_lattice(p.position);
                    lat.lemma_flat_injective(lat.index_of(p.position), here);
                    if first {
                        assert forall|j: int|
                            0 <= j < before.len() && j != f && (#[trigger] before[j].rep())
                                is Some implies lat.clear_of(before, p, j) by {
                            let s = before[j].rep()->0;
                            let u = lat.index_of(s.position);
                            lat.lemma_index_in_lattice(s.position);
                            lemma_partition_apart(u, here, a);
                            lat.lemma_far(s.position, p.position);
                            lemma_dist2_symmetric(s.position, p.position);
                        }
                    }
                }
                self.grid[f].set(p);
                proof {
                    let cells = self.grid@;
                    assert forall|i: int, j: int|
                        0 <= i < cells.len() && 0 <= j < cells.len() && i != j && (
                        #[trigger] cells[i].rep()) is Some && (#[trigger] cells[j].rep()) is Some implies pdist2(
                        cells[i].rep()->0,
                        cells[j].rep()->0,
                    ) > lat.radius * lat.radius by {
                        if i == f {
                            assert(lat.clear_of(before, p, j));
                        } else if j == f {
                            assert(lat.clear_of(before, p, i));
                            lemma_dist2_symmetric(p.position, cells[i].rep()->0.position);
                        } else {
                            assert(before[i].rep() == cells[i].rep());
                            assert(before[j].rep() == cells[j].rep());
                        }
                    }
                    assert forall|t: (int, int, int)|
                        lat.in_lattice(t) && in_partition(t, a) && lex_before(
                            t,
                            x as int + 1,
                            y as int,
                            z as int,
                        ) implies #[trigger] settled(lat, cells, t, first) by {
                        if t != here {
                            assert(settled(lat, before, t, first));
                            lat.lemma_flat_in_range(t);
                            if lat.flat(t) == f {
                                lat.lemma_flat_injective(t, here);
                            }
                            if !first && cells[lat.flat(t)].rep() is None {
                                let c = cells[lat.flat(t)];
                                assert forall|k: int| 0 <= k < c.cands().len() implies !lat.admits(
                                    cells,
                                    *#[trigger] c.cands()[k],
                                ) by {
                                    assert(!lat.admits(before, *before[lat.flat(t)].cands()[k]));
                                    lat.lemma_refusal_kept(before, cells, *c.cands()[k]);
                                }
                            }
                        }
                    }
                }
            },
            None => {
                proof {
                    let cells = self.grid@;
                    assert forall|t: (int, int, int)|
                        lat.in_lattice(t) && in_partition(t, a) && lex_before(
                            t,
                            x as int + 1,
                            y as int,
                            z as int,
                        ) implies #[trigger] settled(lat, cells, t, first) by {
                        if t != here {
                            assert(settled(lat, before, t, first));
                        }
                    }
                }
            },
        }
    }

    /// `step_inv` at `(x, y, z)` holds at `(x', y, z)` when no cell of the
    /// partition lies between them.
    proof fn lemma_inv_shift(
        &self,
        g0: Seq<Grid<'a, Point>>,
        a: (int, int, int),
        first: bool,
        x: int,
        y: int,
        z: int,
        x2: int,
        y2: int,
        z2: int,
    )
        requires
            self.step_inv(g0, a, first, x, y, z),
            0 <= a.0 < 3 && 0 <= a.1 < 3 && 0 <= a.2 < 3,
            forall|t: (int, int, int)|
                self.lattice.in_lattice(t) && in_partition(t, a) ==> (lex_before(t, x, y, z)
                    <==> #[trigger] lex_before(t, x2, y2, z2)),
        ensures
            self.step_inv(g0, a, first, x2, y2, z2),
    {
        let lat = self.lattice;
        let cells = self.grid@;
        assert forall|j: int| 0 <= j < cells.len() && (#[trigger] cells[j].rep()) is Some implies {
            let u = lat.index_of(cells[j].rep()->0.position);
            ||| (g0[j].rep() == cells[j].rep() && !in_partition(u, a))
            ||| (g0[j].rep() is None && in_partition(u, a) && lex_before(u, x2, y2, z2))
        } by {
            lat.lemma_index_in_lattice(cells[j].rep()->0.position);
        }
    }

    /// Processes the next partition: on the first step each of its cells
    /// takes its first candidate, with no test, since cells of one partition
    /// are too far apart to conflict; on later steps each takes its first
    /// candidate that is more than the radius from every chosen point.
    pub fn step(&mut self) -> (r: Result<(), StepError>)
        requires
            old(self).wf(),
        ensures
            stepped(*old(self), *final(self)),
            forall|j: int|
                0 <= j < old(self).cells().len() ==> (#[trigger] final(self).cells()[j]).cands()
                    == old(self).cells()[j].cands(),
            forall|j: int|
                0 <= j < old(self).cells().len() && (#[trigger] old(self).cells()[j].rep()) is Some
                    ==> final(self).cells()[j].rep() == old(self).cells()[j].rep(),
            old(self).pending().len() == 0 ==> r == Err::<(), StepError>(
                StepError::NoPartitionLeft,
            ) && final(self).cells() == old(self).cells() && final(self).pending() == old(
                self,
            ).pending(),
            old(self).pending().len() > 0 ==> forall|j: int|
                0 <= j < old(self).cells().len() && old(self).cells()[j].rep() is None && (
                #[trigger] final(self).cells()[j].rep()) is Some ==> in_partition(
                    old(self).lattice_of().index_of(final(self).cells()[j].rep()->0.position),
                    offset(old(self).pending().last()),
                ),
            old(self).pending().len() > 0 ==> r is Ok && final(self).pending() == old(
                self,
            ).pending().drop_last() && forall|t: (int, int, int)|
                old(self).lattice_of().in_lattice(t) && in_partition(
                    t,
                    offset(old(self).pending().last()),
                ) ==> #[trigger] settled(
                    old(self).lattice_of(),
                    final(self).cells(),
                    t,
                    old(self).next_is_first(),
                ),
    {
        let ghost rest = self.partitions@;
        let address = match self.partitions.pop() {
            Some(a) => a,
            None => {
                return Err(StepError::NoPartitionLeft);
            },
        };
        let ghost g0 = self.grid@;
        let ghost a = offset(address);
        let ghost lat = self.lattice;
        let first = self.partitions.len() + 1 == self.partitions_count;
        let ghost inp = self.inputs@;
        proof {
            assert(rest[rest.len() - 1] == address);
            assert(address.0 < 3 && address.1 < 3 && address.2 < 3);
            assert forall|j: int| 0 <= j < g0.len() && (#[trigger] g0[j].rep()) is Some implies !in_partition(
                lat.index_of(g0[j].rep()->0.position),
                a,
            ) by {
                assert(rest[rest.len() - 1] == address);
            }
            assert forall|t: (int, int, int)|
                lat.in_lattice(t) && in_partition(t, a) implies !#[trigger] lex_before(
                t,
                0,
                0,
                a.2,
            ) by {
                lemma_residue_floor(t.2, a.2);
            }
            assert(self.step_inv(g0, a, first, 0, 0, a.2));
        }
        let mut z = address.2;
        while z < self.lattice.nz
            invariant
                self.lattice == lat,
                self.partitions@ == rest.drop_last(),
                self.inputs@ == inp,
                self.partitions_count == old(self).partitions_count,
                a == offset(address),
                z % 3 == a.2,
                z <= lat.nz + 2,
                0 <= a.0 < 3 && 0 <= a.1 < 3 && 0 <= a.2 < 3,
                self.step_inv(g0, a, first, 0, 0, z as int),
            decreases lat.nz + 2 - z,
        {
            let mut y = address.1;
            proof {
                assert forall|t: (int, int, int)|
                    lat.in_lattice(t) && in_partition(t, a) implies (lex_before(t, 0, 0, z as int)
                        <==> #[trigger] lex_before(t, 0, y as int, z as int)) by {
                    lemma_residue_floor(t.1, a.1);
                }
                self.lemma_inv_shift(g0, a, first, 0, 0, z as int, 0, y as int, z as int);
            }
            while y < self.lattice.ny
                invariant
                    self.lattice == lat,
                    self.partitions@ == rest.drop_last(),
                    self.inputs@ == inp,
                    self.partitions_count == old(self).partitions_count,
                    a == offset(address),
                    z % 3 == a.2,
                    z < lat.nz,
                    y % 3 == a.1,
                    y <= lat.ny + 2,
                    0 <= a.0 < 3 && 0 <= a.1 < 3 && 0 <= a.2 < 3,
                    self.step_inv(g0, a, first, 0, y as int, z as int),
                decreases lat.ny + 2 - y,
            {
                let mut x = address.0;
                proof {
                    assert forall|t: (int, int, int)|
                        lat.in_lattice(t) && in_partition(t, a) implies (lex_before(
                            t,
                            0,
                            y as int,
                            z as int,
                        ) <==> #[trigger] lex_before(t, x as int, y as int, z as int)) by {
                        lemma_residue_floor(t.0, a.0);
                    }
                    self.lemma_inv_shift(g0, a, first, 0, y as int, z as int, x as int, y as int, z as int);
                }
                while x < self.lattice.nx
                    invariant
                        self.lattice == lat,
                        self.partitions@ == rest.drop_last(),
                        self.inputs@ == inp,
                        self.partitions_count == old(self).partitions_count,
                        a == offset(address),
                        z % 3 == a.2,
                        z < lat.nz,
                        y % 3 == a.1,
                        y < lat.ny,
                        x % 3 == a.0,
                        x <= lat.nx + 2,
                        0 <= a.0 < 3 && 0 <= a.1 < 3 && 0 <= a.2 < 3,
                        self.step_inv(g0, a, first, x as int, y as int, z as int),
                    decreases lat.nx + 2 - x,
                {
                    self.settle_cell(Ghost(g0), Ghost(a), first, x, y, z);
                    proof {
                        assert forall|t: (int, int, int)|
                            lat.in_lattice(t) && in_partition(t, a) implies (lex_before(
                                t,
                                x as int + 1,
                                y as int,
                                z as int,
                            ) <==> #[trigger] lex_before(t, x as int + 3, y as int, z as int)) by {
                            if t.2 == z && t.1 == y && t.0 != x {
                                lemma_same_residue_apart(t.0, x as int);
                            }
                        }
                        self.lemma_inv_shift(g0, a, first, x as int + 1, y as int, z as int, x as int + 3, y as int, z as int);
                    }
                    x += 3;
                }
                proof {
                    assert forall|t: (int, int, int)|
                        lat.in_lattice(t) && in_partition(t, a) implies (lex_before(
                            t,
                            x as int,
                            y as int,
                            z as int,
                        ) <==> #[trigger] lex_before(t, 0, y as int + 3, z as int)) by {
                        if t.2 == z && t.1 != y {
                            lemma_same_residue_apart(t.1, y as int);
                        }
                    }
                    self.lemma_inv_shift(g0, a, first, x as int, y as int, z as int, 0, y as int + 3, z as int);
                }
                y += 3;
            }
            proof {
                assert forall|t: (int, int, int)|
                    lat.in_lattice(t) && in_partition(t, a) implies (lex_before(
                        t,
                        0,
                        y as int,
                        z as int,
                    ) <==> #[trigger] lex_before(t, 0, 0, z as int + 3)) by {
                    if t.2 != z {
                        lemma_same_residue_apart(t.2, z as int);
                    }
                }
                self.lemma_inv_shift(g0, a, first, 0, y as int, z as int, 0, 0, z as int + 3);
            }
            z += 3;
        }
        proof {
            let cells = self.grid@;
            assert(self.partitions@.no_duplicates()) by {
                assert forall|i: int, j: int|
                    0 <= i < self.partitions@.len() && 0 <= j < self.partitions@.len() && i != j implies self.partitions@[i]
                    != self.partitions@[j] by {
                    assert(self.partitions@[i] == rest[i]);
                    assert(self.partitions@[j] == rest[j]);
                }
            }
            assert forall|k: int| 0 <= k < self.partitions@.len() implies {
                let a = #[trigger] self.partitions@[k];
                &&& a.0 < 3 && a.1 < 3 && a.2 < 3
                &&& lat.in_lattice((a.0 as int, a.1 as int, a.2 as int))
            } by {
                assert(self.partitions@[k] == rest[k]);
            }
            assert forall|j: int, k: int|
                0 <= j < cells.len() && (#[trigger] cells[j].rep()) is Some && 0 <= k
                    < self.partitions@.len() implies !in_partition(
                lat.index_of(cells[j].rep()->0.position),
                offset(#[trigger] self.partitions@[k]),
            ) by {
                assert(self.partitions@[k] == rest[k]);
                if g0[j].rep() is None {
                    let u = lat.index_of(cells[j].rep()->0.position);
                    if in_partition(u, offset(rest[k])) {
                        assert(rest[k] == address);
                    }
                }
            }
            assert forall|t: (int, int, int)|
                lat.in_lattice(t) && in_partition(t, a) implies #[trigger] settled(
                    lat,
                    cells,
                    t,
                    first,
                ) by {
                assert(lex_before(t, 0, 0, z as int));
            }
            assert forall|i: int| 0 <= i < inp.len() implies cells[lat.cell_of(
                #[trigger] inp[i].position,
            )].cands().contains(&inp[i]) by {
                lat.lemma_index_in_lattice(inp[i].position);
                assert(cells[lat.cell_of(inp[i].position)].cands() == g0[lat.cell_of(
                    inp[i].position,
                )].cands());
            }
            assert forall|t: (int, int, int)|
                lat.in_lattice(t) && !self.pending_covers(t) implies #[trigger] cell_done(
                lat,
                cells,
                lat.flat(t),
            ) by {
                lat.lemma_flat_in_range(t);
                let f = lat.flat(t);
                if in_partition(t, a) {
                    assert(lex_before(t, 0, 0, z as int));
                    assert(settled(lat, cells, t, first));
                } else {
                    assert(!old(self).pending_covers(t)) by {
                        assert forall|k: int| 0 <= k < rest.len() implies !in_partition(
                            t,
                            offset(#[trigger] rest[k]),
                        ) by {
                            if k < rest.len() - 1 {
                                assert(rest[k] == self.partitions@[k]);
                            }
                        }
                    }
                    assert(cell_done(lat, g0, f));
                    if g0[f].rep() is None && cells[f].rep() is None {
                        assert forall|k: int| 0 <= k < cells[f].cands().len() implies !lat.admits(
                            cells,
                            *#[trigger] cells[f].cands()[k],
                        ) by {
                            assert(!lat.admits(g0, *g0[f].cands()[k]));
                            lat.lemma_refusal_kept(g0, cells, *g0[f].cands()[k]);
                        }
                    }
                }
            }
        }
        Ok(())
    }

    /// Whether `p` is more than the radius from every chosen point.
    fn is_valid(&self, p: &Point) -> (ok: bool)
        requires
            self.wf(),
            self.lattice.holds(p.position),
        ensures
            ok == self.lattice.admits(self.grid@, *p),
    {
        self.lattice.is_valid(&self.grid, p)
    }
}

} // verus!
