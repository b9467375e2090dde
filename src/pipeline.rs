use vstd::prelude::*;

use rayon::iter::{IntoParallelRefIterator, ParallelIterator};

use crate::bounding_box::{
    box_of, contains, is_proper, lemma_box_of_proper, lemma_box_of_tight, max_extent, positions_of,
    BoundingBox,
};
use crate::lattice::MAX_RADIUS;
use crate::meta::Coordinates;
use crate::point::{Point, Position, COORD_LIMIT};
use crate::point_cloud_map::{
    cells_per_axis, divided, key_view, with_key, LODKey, PointCloudMap, PointCloudUnit, MAX_LOD,
};
use crate::poisson_disk_sampling::{covers, fine_lattice, is_sampling, PoissonDiskSampling};

verus! {

/// Most points a cell keeps as it is; a fuller cell is sub-sampled and split.
pub const POINT_COUNT_THRESHOLD: usize = 16384;

/// `sqrt(POINT_COUNT_THRESHOLD)`: points along the side of a cell's tile.
pub const SAMPLES_PER_SIDE: i64 = 128;

/// The points emitted for one cell of one level, with their box and key.
pub struct LODUnit {
    pub lod: u32,
    pub bounding_box: BoundingBox,
    pub points: Vec<Point>,
    pub x: i32,
    pub y: i32,
    pub z: i32,
}

/// The box of the whole cloud (a zero box at the origin when it is empty).
pub open spec fn cloud_box(points: Seq<Point>) -> BoundingBox {
    if points.len() == 0 {
        BoundingBox { min: Position { x: 0, y: 0, z: 0 }, max: Position { x: 0, y: 0, z: 0 } }
    } else {
        box_of(positions_of(points))
    }
}

/// The sampling radius at level `lod`: the cloud's largest extent over
/// `2^lod * sqrt(threshold)`, at least one unit.
pub open spec fn radius_for(extent: int, lod: nat) -> int {
    if extent / (cells_per_axis(lod) * SAMPLES_PER_SIDE) >= 1 {
        extent / (cells_per_axis(lod) * SAMPLES_PER_SIDE)
    } else {
        1
    }
}

/// Some entry from `from` on, at level `lod`, has a box that holds `p`.
pub open spec fn covered(
    entries: Seq<(u32, LODKey, BoundingBox)>,
    from: int,
    lod: nat,
    p: Position,
) -> bool {
    exists|e: int| from <= e < entries.len() && entries[e].0 == lod && contains(#[trigger] entries[e].2, p)
}

/// `unit` is what a level emits for a cell: its points are `src` as they
/// are, or a Poisson-disk sampling of them at `radius`, and its box is the
/// box of those points.
pub open spec fn emitted_as(
    unit: LODUnit,
    lod: u32,
    key: LODKey,
    src: Seq<Point>,
    sampled: bool,
    radius: int,
) -> bool {
    &&& unit.lod == lod
    &&& (unit.x, unit.y, unit.z) == key
    &&& if sampled {
        &&& is_sampling(src, radius, unit.points@)
        &&& fine_lattice(src, radius) ==> covers(src, radius, unit.points@)
    } else {
        unit.points@ == src
    }
    &&& unit.bounding_box == box_of(positions_of(unit.points@))
}

/// Relies on rayon's `par_iter().map(..).collect()` over a slice: the closure
/// runs once for each unit and the results come back in the units' order.
#[verifier::external_body]
fn sample_all(units: &Vec<(LODKey, PointCloudUnit)>, radius: u64) -> (out: Vec<Vec<Point>>)
    requires
        1 <= radius <= MAX_RADIUS,
        forall|g: int, i: int|
            0 <= g < units@.len() && 0 <= i < units@[g].1.points@.len() ==> (
            #[trigger] units@[g].1.points@[i]).in_range(),
    ensures
        out@.len() == units@.len(),
        forall|g: int|
            0 <= g < units@.len() ==> is_sampling(
                units@[g].1.points@,
                radius as int,
                (#[trigger] out@[g])@,
            ),
        forall|g: int|
            0 <= g < units@.len() && fine_lattice(units@[g].1.points@, radius as int) ==> covers(
                units@[g].1.points@,
                radius as int,
                (#[trigger] out@[g])@,
            ),
{
    units.par_iter().map(|u| PoissonDiskSampling::new().sample(&u.1.points, radius)).collect()
}

/// The sampling radius at level `lod` for a cloud of largest extent `extent`.
pub fn sampling_radius(extent: i64, lod: u32) -> (r: u64)
    requires
        0 <= extent <= 2 * COORD_LIMIT,
        lod <= MAX_LOD,
    ensures
        r == radius_for(extent as int, lod as nat),
        1 <= r <= MAX_RADIUS,
{
    let mut div: i64 = 1;
    let mut l: u32 = 0;
    while l < lod
        invariant
            l <= lod <= MAX_LOD,
            div == cells_per_axis(l as nat),
            1 <= div <= 0x4000_0000,
        decreases lod - l,
    {
        proof {
            assert(cells_per_axis((l + 1) as nat) == 2 * cells_per_axis(l as nat));
            crate::point_cloud_map::lemma_pow_bound((l + 1) as nat);
        }
        div = div * 2;
        l += 1;
    }
    let q = extent / (div * SAMPLES_PER_SIDE);
    proof {
        vstd::arithmetic::div_mod::lemma_div_is_ordered_by_denominator(
            extent as int,
            1,
            div * SAMPLES_PER_SIDE,
        );
    }
    if q >= 1 {
        q as u64
    } else {
        1
    }
}

fn copy_points(v: &Vec<Point>) -> (r: Vec<Point>)
    ensures
        r@ == v@,
{
    let mut r: Vec<Point> = Vec::new();
    let mut i: usize = 0;
    while i < v.len()
        invariant
            i <= v@.len(),
            r@ == v@.take(i as int),
        decreases v@.len() - i,
    {
        r.push(v[i]);
        assert(v@.take(i + 1) == v@.take(i as int).push(v@[i as int]));
        i += 1;
    }
    assert(v@.take(i as int) == v@);
    r
}

/// The root of the tree: one cell holding the whole cloud over the cloud's
/// box. It is emitted as it is when it has fewer than `threshold` points, else
/// sub-sampled at the level-0 radius; the box of the emitted points is
/// registered at level 0.
pub fn process_root(points: &Vec<Point>, threshold: usize, coordinates: &mut Coordinates) -> (r: (
    PointCloudMap,
    LODUnit,
))
    requires
        forall|i: int| 0 <= i < points@.len() ==> (#[trigger] points@[i]).in_range(),
        old(coordinates).wf(),
        old(coordinates).view_entries().len() == 0,
    ensures
        r.0.wf(),
        r.0.level() == 0,
        r.0.box_spec() == cloud_box(points@),
        r.0.units().len() == 1,
        r.0.units()[0].0 == (0i32, 0i32, 0i32),
        r.0.units()[0].1.points@ == points@,
        r.1.lod == 0 && r.1.x == 0 && r.1.y == 0 && r.1.z == 0,
        r.1.bounding_box == box_of(positions_of(r.1.points@)),
        points@.len() < threshold ==> r.1.points@ == points@,
        points@.len() >= threshold ==> is_sampling(
            points@,
            radius_for(max_extent(cloud_box(points@)), 0),
            r.1.points@,
        ),
        points@.len() >= threshold && fine_lattice(
            points@,
            radius_for(max_extent(cloud_box(points@)), 0),
        ) ==> covers(points@, radius_for(max_extent(cloud_box(points@)), 0), r.1.points@),
        final(coordinates).wf(),
        final(coordinates).view_entries() == old(coordinates).view_entries().push(
            (0u32, (0i32, 0i32, 0i32), r.1.bounding_box),
        ),
        forall|i: int| 0 <= i < points@.len() ==> contains(cloud_box(points@), #[trigger] points@[i].position),
        points@.len() < threshold ==> forall|i: int|
            0 <= i < points@.len() ==> contains(r.1.bounding_box, #[trigger] points@[i].position),
{
    let bounds = if points.len() == 0 {
        let o = Position { x: 0, y: 0, z: 0 };
        BoundingBox { min: o, max: o }
    } else {
        BoundingBox::from_points(points.as_slice())
    };
    let ghost ps = positions_of(points@);
    proof {
        if points@.len() > 0 {
            assert forall|i: int| 0 <= i < ps.len() implies (#[trigger] ps[i]).in_range() by {
                assert(ps[i] == points@[i].position);
            }
            lemma_box_of_proper(ps);
            lemma_box_of_tight(ps);
            assert forall|i: int| 0 <= i < points@.len() implies contains(
                cloud_box(points@),
                #[trigger] points@[i].position,
            ) by {
                assert(ps[i] == points@[i].position);
            }
        }
    }
    let map = PointCloudMap::root(bounds, points);
    let pts = if points.len() < threshold {
        copy_points(points)
    } else {
        let radius = sampling_radius(bounds.max_size(), 0);
        PoissonDiskSampling::new().sample(points.as_slice(), radius)
    };
    let bbox = BoundingBox::from_points(pts.as_slice());
    coordinates.register(0, (0, 0, 0), bbox);
    let unit = LODUnit { lod: 0, bounding_box: bbox, points: pts, x: 0, y: 0, z: 0 };
    proof {
        if points@.len() < threshold && points@.len() > 0 {
            assert(pts@ == points@);
            assert forall|i: int| 0 <= i < points@.len() implies contains(
                bbox,
                #[trigger] points@[i].position,
            ) by {
                assert(ps[i] == points@[i].position);
            }
        }
    }
    proof {
        assert forall|u: int, i: int|
            0 <= u < map.units().len() && 0 <= i < map.units()[u].1.points@.len() implies (
            #[trigger] map.units()[u].1.points@[i]).in_range() by {
            assert(map.units()[u].1.points@[i] == points@[i]);
        }
    }
    (map, unit)
}

/// One more level: the parent's over-full cells are divided; if any new cell
/// holds more than `threshold` points, every new cell is sub-sampled at the
/// level's radius, else all are emitted as they are (and the descent ends).
/// Each emitted cell's box is registered under the level and its key.
pub fn process_level(parent: &PointCloudMap, threshold: usize, coordinates: &mut Coordinates) -> (r: (
    PointCloudMap,
    Vec<LODUnit>,
    bool,
))
    requires
        parent.wf(),
        parent.level() < MAX_LOD,
        old(coordinates).wf(),
        forall|e: int|
            0 <= e < old(coordinates).view_entries().len() ==> (#[trigger] old(coordinates).view_entries()[e]).0 <= parent.level(),
    ensures
        divided(*parent, threshold, r.0),
        final(coordinates).wf(),
        forall|e: int|
            0 <= e < final(coordinates).view_entries().len() ==> (#[trigger] final(coordinates).view_entries()[e]).0 <= r.0.level(),
        r.2 == exists|g: int|
            0 <= g < r.0.units().len() && (#[trigger] r.0.units()[g]).1.points@.len() > threshold,
        r.1@.len() == r.0.units().len(),
        forall|g: int|
            0 <= g < r.1@.len() ==> emitted_as(
                #[trigger] r.1@[g],
                r.0.level() as u32,
                r.0.units()[g].0,
                r.0.units()[g].1.points@,
                r.2,
                radius_for(max_extent(parent.box_spec()), r.0.level()),
            ),
        final(coordinates).view_entries().len() == old(coordinates).view_entries().len()
            + r.1@.len(),
        forall|e: int|
            0 <= e < old(coordinates).view_entries().len() ==> #[trigger] final(coordinates).view_entries()[e] == old(coordinates).view_entries()[e],
        forall|g: int|
            0 <= g < r.1@.len() ==> #[trigger] final(coordinates).view_entries()[old(coordinates).view_entries().len() + g] == (
                r.0.level() as u32,
                r.0.units()[g].0,
                r.1@[g].bounding_box,
            ),
        !r.2 ==> forall|u: int, i: int|
            0 <= u < parent.units().len() && parent.units()[u].1.points@.len() > threshold && 0
                <= i < parent.units()[u].1.points@.len() ==> covered(
                final(coordinates).view_entries(),
                old(coordinates).view_entries().len() as int,
                r.0.level(),
                (#[trigger] parent.units()[u].1.points@[i]).position,
            ),
{
    let next = parent.divide(threshold);
    let units = next.map();
    let mut over = false;
    let mut g: usize = 0;
    while g < units.len()
        invariant
            units@ == next.units(),
            g <= units@.len(),
            over == exists|h: int| 0 <= h < g && (#[trigger] units@[h]).1.points@.len() > threshold,
        decreases units@.len() - g,
    {
        if units[g].1.points.len() > threshold {
            over = true;
        }
        g += 1;
    }
    let lod = next.lod();
    let radius = sampling_radius(parent.bounds().max_size(), lod);
    let sampled: Vec<Vec<Point>> = if over {
        sample_all(units, radius)
    } else {
        Vec::new()
    };
    let ghost c0 = coordinates.view_entries();
    assert(c0 == old(coordinates).view_entries());
    let mut out: Vec<LODUnit> = Vec::new();
    let mut g: usize = 0;
    while g < units.len()
        invariant
            units@ == next.units(),
            next.wf(),
            g <= units@.len(),
            out@.len() == g,
            lod == next.level(),
            radius == radius_for(max_extent(parent.box_spec()), next.level()),
            over ==> sampled@.len() == units@.len(),
            over ==> forall|h: int|
                0 <= h < units@.len() ==> is_sampling(
                    units@[h].1.points@,
                    radius as int,
                    (#[trigger] sampled@[h])@,
                ),
            over ==> forall|h: int|
                0 <= h < units@.len() && fine_lattice(units@[h].1.points@, radius as int) ==> covers(
                    units@[h].1.points@,
                    radius as int,
                    (#[trigger] sampled@[h])@,
                ),
            forall|h: int|
                0 <= h < g ==> emitted_as(
                    #[trigger] out@[h],
                    lod,
                    units@[h].0,
                    units@[h].1.points@,
                    over,
                    radius as int,
                ),
            coordinates.view_entries().len() == c0.len() + g,
            coordinates.wf(),
            next.level() == parent.level() + 1,
            forall|e: int| 0 <= e < c0.len() ==> (#[trigger] c0[e]).0 <= parent.level(),
            forall|e: int| 0 <= e < c0.len() ==> #[trigger] coordinates.view_entries()[e] == c0[e],
            forall|h: int|
                0 <= h < g ==> #[trigger] coordinates.view_entries()[c0.len() + h] == (
                    lod,
                    units@[h].0,
                    out@[h].bounding_box,
                ),
        decreases units@.len() - g,
    {
        let pts = if over {
            copy_points(&sampled[g])
        } else {
            copy_points(&units[g].1.points)
        };
        let bbox = BoundingBox::from_points(pts.as_slice());
        let key = units[g].0;
        proof {
            if crate::meta::has_cell(coordinates.view_entries(), lod, key) {
                let e = choose|e: int|
                    0 <= e < coordinates.view_entries().len() && (#[trigger] coordinates.view_entries()[e]).0
                        == lod && coordinates.view_entries()[e].1 == key;
                if e >= c0.len() {
                    let h = e - c0.len();
                    assert(coordinates.view_entries()[c0.len() + h] == (lod, units@[h].0, out@[h].bounding_box));
                    assert(key_view(units@[h].0) != key_view(units@[g as int].0));
                } else {
                    assert(c0[e].0 <= parent.level());
                }
            }
        }
        coordinates.register(lod, key, bbox);
        out.push(LODUnit { lod, bounding_box: bbox, points: pts, x: key.0, y: key.1, z: key.2 });
        g += 1;
    }
    proof {
        if over {
            let h = choose|h: int| 0 <= h < units@.len() && (#[trigger] units@[h]).1.points@.len() > threshold;
            assert(next.units()[h].1.points@.len() > threshold);
        } else {
            assert forall|h: int| 0 <= h < next.units().len() implies !((#[trigger] next.units()[h]).1.points@.len() > threshold) by {
                assert(units@[h] == next.units()[h]);
            }
        }
        if !over {
            assert forall|u: int, i: int|
                0 <= u < parent.units().len() && parent.units()[u].1.points@.len() > threshold && 0
                    <= i < parent.units()[u].1.points@.len() implies covered(
                coordinates.view_entries(),
                c0.len() as int,
                next.level(),
                (#[trigger] parent.units()[u].1.points@[i]).position,
            ) by {
                let p = parent.units()[u].1.points@[i];
                let k = crate::point_cloud_map::key_of(parent.box_spec(), next.level(), p.position);
                let h = choose|h: int|
                    0 <= h < next.units().len() && key_view((#[trigger] next.units()[h]).0) == k
                        && next.units()[h].1.points@ == with_key(
                        parent.box_spec(),
                        next.level(),
                        parent.units()[u].1.points@,
                        key_view(next.units()[h].0),
                    );
                let src = parent.units()[u].1.points@;
                let pred = |q: Point|
                    crate::point_cloud_map::key_of(parent.box_spec(), next.level(), q.position)
                        == k;
                src.lemma_filter_contains(pred, i);
                let pts = out@[h].points@;
                assert(pts == next.units()[h].1.points@);
                assert(pts.contains(p));
                let m = choose|m: int| 0 <= m < pts.len() && pts[m] == p;
                let ps = positions_of(pts);
                assert(ps[m] == p.position);
                lemma_box_of_tight(ps);
                assert(contains(box_of(ps), ps[m]));
                assert(emitted_as(out@[h], lod, units@[h].0, units@[h].1.points@, over, radius as int));
                assert(out@[h].bounding_box == box_of(ps));
                let e = c0.len() + h;
                assert(coordinates.view_entries()[e] == (lod, units@[h].0, out@[h].bounding_box));
                assert(contains(coordinates.view_entries()[e].2, p.position));
            }
        }
    }
    proof {
        assert forall|e: int| 0 <= e < coordinates.view_entries().len() implies (
            #[trigger] coordinates.view_entries()[e]).0 <= next.level() by {
            if e < c0.len() {
                assert(c0[e].0 <= parent.level());
            } else {
                let h = e - c0.len();
                assert(coordinates.view_entries()[c0.len() + h] == (lod, units@[h].0, out@[h].bounding_box));
            }
        }
    }
    let res = (next, out, over);
    assert(res.0.units() == next.units());
    assert(res.0.level() == next.level());
    assert(res.2 == over);
    res
}

} // verus!
