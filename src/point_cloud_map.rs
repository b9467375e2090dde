use vstd::prelude::*;

use crate::bounding_box::{is_proper, max_extent, BoundingBox};
use crate::point::{Point, Position};

use rayon::iter::{IntoParallelRefIterator, ParallelIterator};

verus! {

/// Octree key of a cell: its index along x, y and z at the map's level.
pub type LODKey = (i32, i32, i32);

/// Deepest level the octree descends to: keys must fit `i32`.
pub const MAX_LOD: u32 = 30;

/// The points of one octree cell.
pub struct PointCloudUnit {
    pub points: Vec<Point>,
}

impl PointCloudUnit {
    pub fn points(&self) -> (p: &Vec<Point>)
        ensures
            p@ == self.points@,
    {
        &self.points
    }
}

/// `2^lod`, the number of cells along each axis at level `lod`.
pub open spec fn cells_per_axis(lod: nat) -> int
    decreases lod,
{
    if lod == 0 {
        1
    } else {
        2 * cells_per_axis((lod - 1) as nat)
    }
}

/// The cell index along one axis of a point at offset `d` from the box's
/// minimum, at `div` cells over the extent `e`: `floor(d * div / e)`, clamped
/// to `0 ..= div - 1` (every offset falls in cell 0 when the extent is 0).
pub open spec fn axis_key(d: int, e: int, div: int) -> int {
    if e <= 0 || d <= 0 {
        0
    } else if d * div / e >= div {
        div - 1
    } else {
        d * div / e
    }
}

/// The key at level `lod` of the cell that holds `p`, for the box `b`: cells
/// are cubes of side `max_extent(b) / 2^lod` from `b.min`.
pub open spec fn key_of(b: BoundingBox, lod: nat, p: Position) -> (int, int, int) {
    let e = max_extent(b);
    let div = cells_per_axis(lod);
    (
        axis_key(p.x - b.min.x, e, div),
        axis_key(p.y - b.min.y, e, div),
        axis_key(p.z - b.min.z, e, div),
    )
}

pub open spec fn key_view(k: LODKey) -> (int, int, int) {
    (k.0 as int, k.1 as int, k.2 as int)
}

/// The points of a unit whose key is `k`, in order.
pub open spec fn with_key(b: BoundingBox, lod: nat, pts: Seq<Point>, k: (int, int, int)) -> Seq<
    Point,
> {
    pts.filter(|p: Point| key_of(b, lod, p.position) == k)
}

/// The key of a point at one level is half (rounded down) its key at the
/// next.
proof fn lemma_half_key(d: int, e: int, div: int)
    requires
        div >= 1,
    ensures
        axis_key(d, e, 2 * div) / 2 == axis_key(d, e, div),
{
    if e > 0 && d > 0 {
        let n = d * div;
        assert(n >= 0) by (nonlinear_arith)
            requires
                n == d * div,
                d > 0,
                div >= 1,
        ;
        vstd::arithmetic::div_mod::lemma_div_denominator(2 * n, e, 2);
        vstd::arithmetic::div_mod::lemma_div_multiples_vanish_quotient(2, n, e);
        assert(e * 2 == 2 * e);
        assert(d * (2 * div) == 2 * n) by (nonlinear_arith)
            requires
                n == d * div,
        ;
        let a = (2 * n) / e;
        vstd::arithmetic::div_mod::lemma_div_pos_is_pos(2 * n, e);
        if a >= 2 * div {
            assert(a / 2 >= div);
        } else {
            assert(a / 2 < div);
        }
    }
}

/// A non-empty group of a unit's points by their next-level key `k` comes
/// from the unit whose key is `k` halved.
proof fn lemma_child_of(parent: PointCloudMap, u: int, k: (int, int, int))
    requires
        parent.keyed(),
        0 <= u < parent.units().len(),
        with_key(
            parent.box_spec(),
            parent.level() + 1,
            parent.units()[u].1.points@,
            k,
        ).len() > 0,
    ensures
        key_view(parent.units()[u].0) == (k.0 / 2, k.1 / 2, k.2 / 2),
{
    let b = parent.box_spec();
    let l = parent.level();
    let src = parent.units()[u].1.points@;
    let pred = |q: Point| key_of(b, l + 1, q.position) == k;
    let pts = src.filter(pred);
    src.lemma_filter_pred(pred, 0);
    let p = pts[0];
    assert(pts.contains(p));
    src.lemma_filter_contains_rev(pred, p);
    let i = choose|i: int| 0 <= i < src.len() && src[i] == p;
    assert(key_of(b, l, src[i].position) == key_view(parent.units()[u].0));
    let e = max_extent(b);
    let div = cells_per_axis(l);
    lemma_cells_per_axis_pos(l);
    assert(cells_per_axis(l + 1) == 2 * div);
    lemma_half_key(p.position.x - b.min.x, e, div);
    lemma_half_key(p.position.y - b.min.y, e, div);
    lemma_half_key(p.position.z - b.min.z, e, div);
}

proof fn lemma_cells_per_axis_pos(lod: nat)
    ensures
        cells_per_axis(lod) >= 1,
    decreases lod,
{
    if lod > 0 {
        lemma_cells_per_axis_pos((lod - 1) as nat);
    }
}

/// `next` is the level that `parent.divide(threshold)` makes: each unit of
/// `parent` with more than `threshold` points is split by the keys of the next
/// level; every unit of `next` is non-empty, holds only points of its key, and
/// is what one such unit has of that key; every point of such a unit lands in
/// a unit of `next` with its key.
pub open spec fn divided(parent: PointCloudMap, threshold: usize, next: PointCloudMap) -> bool {
    &&& next.wf()
    &&& next.level() == parent.level() + 1
    &&& next.box_spec() == parent.box_spec()
    &&& forall|g: int|
                    0 <= g < next.units().len() ==> {
                        let pts = (#[trigger] next.units()[g]).1.points@;
                        let k = key_view(next.units()[g].0);
                        &&& pts.len() > 0
                        &&& forall|i: int|
                            0 <= i < pts.len() ==> key_of(
                                parent.box_spec(),
                                next.level(),
                                (#[trigger] pts[i]).position,
                            ) == k
                        &&& exists|u: int|
                            0 <= u < parent.units().len() && (#[trigger] parent.units()[u]).1.points@.len()
                                > threshold && pts == with_key(
                                parent.box_spec(),
                                next.level(),
                                parent.units()[u].1.points@,
                                k,
                            )
                    }
    &&& forall|u: int, i: int|
                    0 <= u < parent.units().len() && parent.units()[u].1.points@.len() > threshold && 0
                        <= i < parent.units()[u].1.points@.len() ==> exists|g: int|
                        0 <= g < next.units().len() && key_view((#[trigger] next.units()[g]).0)
                            == key_of(
                            parent.box_spec(),
                            next.level(),
                            (#[trigger] parent.units()[u].1.points@[i]).position,
                        ) && next.units()[g].1.points@ == with_key(
                            parent.box_spec(),
                            next.level(),
                            parent.units()[u].1.points@,
                            key_view(next.units()[g].0),
                        )
}

/// The levels of an octree over a point cloud: at level `lod` the cells are
/// cubes of side `max_extent(bounds) / 2^lod`, each unit holding the points
/// of one cell.
pub struct PointCloudMap {
    lod: u32,
    bounds: BoundingBox,
    octree: Vec<(LODKey, PointCloudUnit)>,
}

impl PointCloudMap {
    pub closed spec fn level(&self) -> nat {
        self.lod as nat
    }

    pub closed spec fn box_spec(&self) -> BoundingBox {
        self.bounds
    }

    /// The units, each with its key.
    pub closed spec fn units(&self) -> Seq<(LODKey, PointCloudUnit)> {
        self.octree@
    }

    pub open spec fn wf(&self) -> bool {
        &&& self.level() <= MAX_LOD
        &&& is_proper(self.box_spec())
        &&& forall|u: int, i: int|
            0 <= u < self.units().len() && 0 <= i < self.units()[u].1.points@.len() ==> (
            #[trigger] self.units()[u].1.points@[i]).in_range()
        &&& self.keyed()
    }

    /// Each unit holds only points of its key, and no two units share a key.
    pub open spec fn keyed(&self) -> bool {
        &&& forall|u: int, i: int|
            0 <= u < self.units().len() && 0 <= i < self.units()[u].1.points@.len() ==> key_of(
                self.box_spec(),
                self.level(),
                (#[trigger] self.units()[u].1.points@[i]).position,
            ) == key_view(self.units()[u].0)
        &&& forall|u: int, v: int|
            0 <= u < self.units().len() && 0 <= v < self.units().len() && u != v ==> key_view(
                (#[trigger] self.units()[u]).0,
            ) != key_view((#[trigger] self.units()[v]).0)
    }

    /// Level 0: one unit, key `(0, 0, 0)`, holding a copy of all the points.
    pub fn root(bounds: BoundingBox, points: &Vec<Point>) -> (m: Self)
        ensures
            is_proper(bounds) && (forall|i: int| 0 <= i < points@.len() ==> (#[trigger] points@[i]).in_range())
                ==> m.wf(),
            m.level() == 0,
            m.box_spec() == bounds,
            m.units().len() == 1,
            m.units()[0].0 == (0i32, 0i32, 0i32),
            m.units()[0].1.points@ == points@,
    {
        let mut copy: Vec<Point> = Vec::new();
        let mut i: usize = 0;
        while i < points.len()
            invariant
                i <= points@.len(),
                copy@ == points@.take(i as int),
            decreases points@.len() - i,
        {
            copy.push(points[i]);
            assert(points@.take(i + 1) == points@.take(i as int).push(points@[i as int]));
            i += 1;
        }
        assert(points@.take(i as int) == points@);
        let mut octree: Vec<(LODKey, PointCloudUnit)> = Vec::new();
        octree.push(((0, 0, 0), PointCloudUnit { points: copy }));
        let m = PointCloudMap { lod: 0, bounds, octree };
        proof {
            assert forall|u: int, i: int|
                0 <= u < m.units().len() && 0 <= i < m.units()[u].1.points@.len() implies key_of(
                m.box_spec(),
                m.level(),
                (#[trigger] m.units()[u].1.points@[i]).position,
            ) == key_view(m.units()[u].0) by {
                let p = m.units()[u].1.points@[i].position;
                let e = max_extent(bounds);
                assert(cells_per_axis(0) == 1);
                assert forall|d: int| #[trigger] axis_key(d, e, 1) == 0 by {
                    if e > 0 && d > 0 && d * 1 / e < 1 {
                        vstd::arithmetic::div_mod::lemma_div_pos_is_pos(d * 1, e);
                    }
                }
            }
        }
        m
    }

    pub fn lod(&self) -> (l: u32)
        ensures
            l == self.level(),
    {
        self.lod
    }

    pub fn bounds(&self) -> (b: &BoundingBox)
        ensures
            *b == self.box_spec(),
    {
        &self.bounds
    }

    pub fn map(&self) -> (m: &Vec<(LODKey, PointCloudUnit)>)
        ensures
            m@ == self.units(),
    {
        &self.octree
    }

    /// The next level: each unit holding more than `threshold` points is
    /// split into the cells of the next level that its points fall in; the
    /// other units are not carried over.
    pub fn divide(&self, threshold: usize) -> (next: Self)
        requires
            self.wf(),
            self.level() < MAX_LOD,
        ensures
            divided(*self, threshold, next),
    {
        let next_lod = self.lod + 1;
        let mut div: i64 = 1;
        let mut l: u32 = 0;
        while l < next_lod
            invariant
                l <= next_lod <= MAX_LOD,
                div == cells_per_axis(l as nat),
                1 <= div <= 0x8000_0000,
            decreases next_lod - l,
        {
            proof {
                assert(cells_per_axis((l + 1) as nat) == 2 * cells_per_axis(l as nat));
                lemma_pow_bound((l + 1) as nat);
            }
            div = div * 2;
            l += 1;
        }
        proof {
            lemma_cells_per_axis_pos(next_lod as nat);
        }
        let extent = self.bounds.max_size();
        let mut next: Vec<(LODKey, PointCloudUnit)> = Vec::new();
        let ghost mut src: Seq<int> = Seq::empty();
        let mut u: usize = 0;
        while u < self.octree.len()
            invariant
                self.wf(),
                src.len() == next@.len(),
                forall|g: int|
                    0 <= g < next@.len() ==> 0 <= #[trigger] src[g] < u && next@[g].1.points@ == with_key(
                        self.box_spec(),
                        next_lod as nat,
                        self.units()[src[g]].1.points@,
                        key_view(next@[g].0),
                    ),
                forall|g: int, h: int|
                    0 <= g < next@.len() && 0 <= h < next@.len() && g != h ==> key_view(
                        (#[trigger] next@[g]).0,
                    ) != key_view((#[trigger] next@[h]).0),
                next_lod == self.level() + 1,
                div == cells_per_axis(next_lod as nat),
                1 <= div <= 0x8000_0000,
                extent == max_extent(self.box_spec()),
                u <= self.units().len(),
                forall|g: int|
                    0 <= g < next@.len() ==> {
                        let pts = (#[trigger] next@[g]).1.points@;
                        let k = key_view(next@[g].0);
                        &&& pts.len() > 0
                        &&& pts.len() > 0
                        &&& forall|i: int|
                            0 <= i < pts.len() ==> key_of(
                                self.box_spec(),
                                next_lod as nat,
                                (#[trigger] pts[i]).position,
                            ) == k
                        &&& forall|i: int| 0 <= i < pts.len() ==> (#[trigger] pts[i]).in_range()
                        &&& exists|v: int|
                            0 <= v < u && (#[trigger] self.units()[v]).1.points@.len() > threshold
                                && pts == with_key(
                                self.box_spec(),
                                next_lod as nat,
                                self.units()[v].1.points@,
                                k,
                            )
                    },
                forall|v: int, i: int|
                    0 <= v < u && self.units()[v].1.points@.len() > threshold && 0 <= i
                        < self.units()[v].1.points@.len() ==> exists|g: int|
                        0 <= g < next@.len() && key_view((#[trigger] next@[g]).0) == key_of(
                            self.box_spec(),
                            next_lod as nat,
                            (#[trigger] self.units()[v].1.points@[i]).position,
                        ) && next@[g].1.points@ == with_key(
                            self.box_spec(),
                            next_lod as nat,
                            self.units()[v].1.points@,
                            key_view(next@[g].0),
                        ),
            decreases self.units().len() - u,
        {
            let unit = &self.octree[u].1;
            if unit.points.len() > threshold {
                let local = split_unit(&self.bounds, next_lod, div, extent, &unit.points);
                let ghost before = next@;
                let ghost src0 = src;
                let mut c: usize = 0;
                while c < local.len()
                    invariant
                        c <= local@.len(),
                        next@.len() == before.len() + c,
                        forall|g: int| 0 <= g < before.len() ==> #[trigger] next@[g] == before[g],
                        forall|g: int|
                            0 <= g < c ==> next@[before.len() + g].0 == (#[trigger] local@[g]).0
                                && next@[before.len() + g].1.points@ == local@[g].1@,
                    decreases local@.len() - c,
                {
                    let mut pts: Vec<Point> = Vec::new();
                    let src = &local[c].1;
                    let mut i: usize = 0;
                    while i < src.len()
                        invariant
                            i <= src@.len(),
                            pts@ == src@.take(i as int),
                        decreases src@.len() - i,
                    {
                        pts.push(src[i]);
                        assert(src@.take(i + 1) == src@.take(i as int).push(src@[i as int]));
                        i += 1;
                    }
                    assert(src@.take(i as int) == src@);
                    next.push((local[c].0, PointCloudUnit { points: pts }));
                    c += 1;
                }
                proof {
                    src = src0 + Seq::new(local@.len(), |c: int| u as int);
                    assert forall|g: int|
                        0 <= g < next@.len() implies 0 <= #[trigger] src[g] < u + 1 && next@[g].1.points@ == with_key(
                        self.box_spec(),
                        next_lod as nat,
                        self.units()[src[g]].1.points@,
                        key_view(next@[g].0),
                    ) by {
                        if g >= before.len() {
                            assert(local@[g - before.len()].0 == next@[g].0);
                        } else {
                            assert(next@[g] == before[g]);
                        }
                    }
                    assert forall|g: int, h: int|
                        0 <= g < next@.len() && 0 <= h < next@.len() && g != h implies key_view(
                        (#[trigger] next@[g]).0,
                    ) != key_view((#[trigger] next@[h]).0) by {
                        if g >= before.len() && h >= before.len() {
                            assert(local@[g - before.len()].0 == next@[g].0);
                            assert(local@[h - before.len()].0 == next@[h].0);
                        } else if g < before.len() && h < before.len() {
                            assert(next@[g] == before[g]);
                            assert(next@[h] == before[h]);
                        } else {
                            let (o, w) = if g < before.len() { (g, h) } else { (h, g) };
                            assert(next@[o] == before[o]);
                            assert(local@[w - before.len()].0 == next@[w].0);
                            if key_view(next@[o].0) == key_view(next@[w].0) {
                                let k = key_view(next@[w].0);
                                lemma_child_of(*self, src[o], k);
                                lemma_child_of(*self, u as int, k);
                            }
                        }
                    }
                }
                proof {
                    assert forall|g: int| 0 <= g < next@.len() implies {
                        let pts = (#[trigger] next@[g]).1.points@;
                        let k = key_view(next@[g].0);
                        &&& pts.len() > 0
                        &&& pts.len() > 0
                        &&& forall|i: int|
                            0 <= i < pts.len() ==> key_of(
                                self.box_spec(),
                                next_lod as nat,
                                (#[trigger] pts[i]).position,
                            ) == k
                        &&& forall|i: int| 0 <= i < pts.len() ==> (#[trigger] pts[i]).in_range()
                        &&& exists|v: int|
                            0 <= v < u + 1 && (#[trigger] self.units()[v]).1.points@.len()
                                > threshold && pts == with_key(
                                self.box_spec(),
                                next_lod as nat,
                                self.units()[v].1.points@,
                                k,
                            )
                    } by {
                        if g >= before.len() {
                            let lg = g - before.len();
                            assert(local@[lg].0 == next@[g].0);
                            assert(self.units()[u as int].1.points@.len() > threshold);
                            let pts = next@[g].1.points@;
                            assert forall|i: int| 0 <= i < pts.len() implies (#[trigger] pts[i]).in_range() by {
                                assert(pts[i] == local@[lg].1@[i]);
                            }
                        } else {
                            assert(next@[g] == before[g]);
                        }
                    }
                    assert forall|v: int, i: int|
                        0 <= v < u + 1 && self.units()[v].1.points@.len() > threshold && 0 <= i
                            < self.units()[v].1.points@.len() implies exists|g: int|
                        0 <= g < next@.len() && key_view((#[trigger] next@[g]).0) == key_of(
                            self.box_spec(),
                            next_lod as nat,
                            (#[trigger] self.units()[v].1.points@[i]).position,
                        ) && next@[g].1.points@ == with_key(
                            self.box_spec(),
                            next_lod as nat,
                            self.units()[v].1.points@,
                            key_view(next@[g].0),
                        ) by {
                        if v == u {
                            let p = self.units()[v].1.points@[i];
                            let c = choose|c: int|
                                0 <= c < local@.len() && key_view((#[trigger] local@[c]).0)
                                    == key_of(self.box_spec(), next_lod as nat, p.position);
                            assert(next@[before.len() + c].0 == local@[c].0);
                        } else {
                            let g = choose|g: int|
                                0 <= g < before.len() && key_view((#[trigger] before[g]).0)
                                    == key_of(
                                    self.box_spec(),
                                    next_lod as nat,
                                    self.units()[v].1.points@[i].position,
                                ) && before[g].1.points@ == with_key(
                                    self.box_spec(),
                                    next_lod as nat,
                                    self.units()[v].1.points@,
                                    key_view(before[g].0),
                                );
                            assert(next@[g] == before[g]);
                        }
                    }
                }
            }
            u += 1;
        }
        PointCloudMap { lod: next_lod, bounds: self.bounds, octree: next }
    }
}

pub proof fn lemma_pow_bound(l: nat)
    requires
        l <= MAX_LOD,
    ensures
        cells_per_axis(l) <= 0x4000_0000,
{
    lemma_cells_monotone(l, MAX_LOD as nat);
    assert(cells_per_axis(30) == 0x4000_0000) by {
        reveal_with_fuel(cells_per_axis, 31);
    }
}

proof fn lemma_cells_monotone(a: nat, b: nat)
    requires
        a <= b,
    ensures
        cells_per_axis(a) <= cells_per_axis(b),
    decreases b,
{
    if a < b {
        lemma_cells_monotone(a, (b - 1) as nat);
        lemma_cells_per_axis_pos((b - 1) as nat);
    }
}

/// The cell index along one axis, for an offset `d` from the minimum.
fn axis_key_exec(d: i64, extent: i64, div: i64) -> (k: i32)
    requires
        -2 * crate::point::COORD_LIMIT <= d <= 2 * crate::point::COORD_LIMIT,
        0 <= extent <= 2 * crate::point::COORD_LIMIT,
        1 <= div <= 0x8000_0000,
    ensures
        k == axis_key(d as int, extent as int, div as int),
{
    if extent <= 0 || d <= 0 {
        0
    } else {
        proof {
            assert(0 <= d * div <= 0x4000_0000_0000_0000 * 0x8000_0000) by (nonlinear_arith)
                requires
                    0 < d <= 0x4000_0000_0000_0000,
                    1 <= div <= 0x8000_0000,
            ;
        }
        let q = (d as i128) * (div as i128) / (extent as i128);
        if q >= div as i128 {
            (div - 1) as i32
        } else {
            q as i32
        }
    }
}

fn same_key(a: &LODKey, b: &LODKey) -> (r: bool)
    ensures
        r == (key_view(*a) == key_view(*b)),
{
    a.0 == b.0 && a.1 == b.1 && a.2 == b.2
}

/// The key of `p` at level `lod`, with `div == 2^lod`.
fn key_exec(b: &BoundingBox, lod: u32, div: i64, extent: i64, p: &Position) -> (k: LODKey)
    requires
        is_proper(*b),
        p.in_range(),
        div == cells_per_axis(lod as nat),
        1 <= div <= 0x8000_0000,
        extent == max_extent(*b),
    ensures
        key_view(k) == key_of(*b, lod as nat, *p),
{
    (
        axis_key_exec(p.x - b.min.x, extent, div),
        axis_key_exec(p.y - b.min.y, extent, div),
        axis_key_exec(p.z - b.min.z, extent, div),
    )
}

/// Relies on rayon's `par_iter().map(..).collect()` over a slice: the closure
/// runs once for each point and the results come back in the points' order.
#[verifier::external_body]
fn keys_of_all(b: &BoundingBox, lod: u32, div: i64, extent: i64, points: &Vec<Point>) -> (keys: Vec<
    LODKey,
>)
    requires
        is_proper(*b),
        div == cells_per_axis(lod as nat),
        1 <= div <= 0x8000_0000,
        extent == max_extent(*b),
        forall|i: int| 0 <= i < points@.len() ==> (#[trigger] points@[i]).in_range(),
    ensures
        keys@.len() == points@.len(),
        forall|i: int|
            0 <= i < points@.len() ==> key_view(#[trigger] keys@[i]) == key_of(
                *b,
                lod as nat,
                points@[i].position,
            ),
{
    points.par_iter().map(|p| key_exec(b, lod, div, extent, &p.position)).collect()
}

/// The points of one unit grouped by their key at level `lod`, keys in order
/// of first appearance.
fn split_unit(
    b: &BoundingBox,
    lod: u32,
    div: i64,
    extent: i64,
    points: &Vec<Point>,
) -> (local: Vec<(LODKey, Vec<Point>)>)
    requires
        is_proper(*b),
        div == cells_per_axis(lod as nat),
        1 <= div <= 0x8000_0000,
        extent == max_extent(*b),
        forall|i: int| 0 <= i < points@.len() ==> (#[trigger] points@[i]).in_range(),
    ensures
        forall|c: int|
            0 <= c < local@.len() ==> {
                let pts = (#[trigger] local@[c]).1@;
                &&& pts.len() > 0
                &&& pts == with_key(*b, lod as nat, points@, key_view(local@[c].0))
                &&& forall|i: int|
                    0 <= i < pts.len() ==> key_of(*b, lod as nat, (#[trigger] pts[i]).position)
                        == key_view(local@[c].0)
                &&& forall|i: int| 0 <= i < pts.len() ==> (#[trigger] pts[i]).in_range()
            },
        forall|i: int|
            0 <= i < points@.len() ==> exists|c: int|
                0 <= c < local@.len() && key_view((#[trigger] local@[c]).0) == key_of(
                    *b,
                    lod as nat,
                    (#[trigger] points@[i]).position,
                ),
        forall|c: int, d: int|
            0 <= c < local@.len() && 0 <= d < local@.len() && c != d ==> key_view(
                (#[trigger] local@[c]).0,
            ) != key_view((#[trigger] local@[d]).0),
{
    let keys = keys_of_all(b, lod, div, extent, points);
    let mut local: Vec<(LODKey, Vec<Point>)> = Vec::new();
    let mut i: usize = 0;
    while i < points.len()
        invariant
            keys@.len() == points@.len(),
            forall|m: int|
                0 <= m < points@.len() ==> key_view(#[trigger] keys@[m]) == key_of(
                    *b,
                    lod as nat,
                    points@[m].position,
                ),
            is_proper(*b),
            div == cells_per_axis(lod as nat),
            1 <= div <= 0x8000_0000,
            extent == max_extent(*b),
            forall|m: int| 0 <= m < points@.len() ==> (#[trigger] points@[m]).in_range(),
            i <= points@.len(),
            forall|c: int|
                0 <= c < local@.len() ==> {
                    let pts = (#[trigger] local@[c]).1@;
                    &&& pts.len() > 0
                    &&& pts == with_key(*b, lod as nat, points@.take(i as int), key_view(local@[c].0))
                },
            forall|c: int, d: int|
                0 <= c < local@.len() && 0 <= d < local@.len() && c != d ==> key_view(
                    (#[trigger] local@[c]).0,
                ) != key_view((#[trigger] local@[d]).0),
            forall|m: int|
                0 <= m < i ==> exists|c: int|
                    0 <= c < local@.len() && key_view((#[trigger] local@[c]).0) == key_of(
                        *b,
                        lod as nat,
                        (#[trigger] points@[m]).position,
                    ),
        decreases points@.len() - i,
    {
        let p = points[i];
        let k = keys[i];
        let ghost kv = key_of(*b, lod as nat, p.position);
        let ghost pred = |q: Point| key_of(*b, lod as nat, q.position) == kv;
        proof {
            assert(points@.take(i + 1) == points@.take(i as int).push(p));
        }
        let mut c: usize = 0;
        while c < local.len() && !same_key(&local[c].0, &k)
            invariant
                c <= local@.len(),
                forall|d: int| 0 <= d < c ==> key_view((#[trigger] local@[d]).0) != kv,
                key_view(k) == kv,
            decreases local@.len() - c,
        {
            c += 1;
        }
        let ghost before = local@;
        if c == local.len() {
            let mut v: Vec<Point> = Vec::new();
            v.push(p);
            local.push((k, v));
            proof {
                // no earlier point has this key
                assert forall|m: int| 0 <= m < i implies !pred(#[trigger] points@.take(i as int)[m]) by {
                    let q = points@.take(i as int)[m];
                    assert(q == points@[m]);
                    let d = choose|d: int|
                        0 <= d < before.len() && key_view((#[trigger] before[d]).0) == key_of(
                            *b,
                            lod as nat,
                            points@[m].position,
                        );
                }
                lemma_filter_none(points@.take(i as int), pred);
                points@.take(i as int).lemma_filter_push(p, pred);
                assert(local@[before.len() as int].1@ == seq![p]);
                assert(seq![p] == Seq::<Point>::empty().push(p));
            }
        } else {
            let mut entry = local.remove(c);
            entry.1.push(p);
            local.insert(c, entry);
            proof {
                points@.take(i as int).lemma_filter_push(p, pred);
            }
        }
        proof {
            assert forall|cc: int| 0 <= cc < local@.len() implies {
                let pts = (#[trigger] local@[cc]).1@;
                &&& pts.len() > 0
                &&& pts == with_key(*b, lod as nat, points@.take(i + 1), key_view(local@[cc].0))
            } by {
                if cc != c {
                    assert(local@[cc] == before[cc]);
                    let kc = key_view(local@[cc].0);
                    let pc = |q: Point| key_of(*b, lod as nat, q.position) == kc;
                    points@.take(i as int).lemma_filter_push(p, pc);
                }
            }
            assert forall|m: int| 0 <= m < i + 1 implies exists|cc: int|
                0 <= cc < local@.len() && key_view((#[trigger] local@[cc]).0) == key_of(
                    *b,
                    lod as nat,
                    (#[trigger] points@[m]).position,
                ) by {
                if m < i {
                    let d = choose|d: int|
                        0 <= d < before.len() && key_view((#[trigger] before[d]).0) == key_of(
                            *b,
                            lod as nat,
                            points@[m].position,
                        );
                    assert(local@[d].0 == before[d].0);
                } else {
                    assert(local@[c as int].0 == k);
                }
            }
        }
        i += 1;
    }
    proof {
        assert(points@.take(i as int) == points@);
        assert forall|c: int| 0 <= c < local@.len() implies {
            let pts = (#[trigger] local@[c]).1@;
            &&& forall|m: int|
                0 <= m < pts.len() ==> key_of(*b, lod as nat, (#[trigger] pts[m]).position)
                    == key_view(local@[c].0)
            &&& forall|m: int| 0 <= m < pts.len() ==> (#[trigger] pts[m]).in_range()
        } by {
            let kc = key_view(local@[c].0);
            let pc = |q: Point| key_of(*b, lod as nat, q.position) == kc;
            let pts = local@[c].1@;
            assert forall|m: int| 0 <= m < pts.len() implies key_of(
                *b,
                lod as nat,
                (#[trigger] pts[m]).position,
            ) == kc by {
                points@.lemma_filter_pred(pc, m);
            }
            assert forall|m: int| 0 <= m < pts.len() implies (#[trigger] pts[m]).in_range() by {
                assert(points@.filter(pc).contains(pts[m]));
                points@.lemma_filter_contains_rev(pc, pts[m]);
            }
        }
    }
    local
}

/// Filtering keeps nothing when no element passes.
proof fn lemma_filter_none<A>(s: Seq<A>, pred: spec_fn(A) -> bool)
    requires
        forall|m: int| 0 <= m < s.len() ==> !pred(#[trigger] s[m]),
    ensures
        s.filter(pred) == Seq::<A>::empty(),
    decreases s.len(),
{
    reveal(Seq::filter);
    if s.len() > 0 {
        lemma_filter_none(s.drop_last(), pred);
    }
}

} // verus!
