use pcd_lod::bounding_box::BoundingBox;
use pcd_lod::encoder::Encoder;
use pcd_lod::meta::Coordinates;
use pcd_lod::parallel_poisson_disk_sampling::{ParallelPoissonDiskSampling, StepError};
use pcd_lod::pipeline::{process_level, process_root, sampling_radius};
use pcd_lod::point::{Point, Position, COORD_SCALE};
use pcd_lod::point_cloud_map::PointCloudMap;
use pcd_lod::poisson_disk_sampling::PoissonDiskSampling;

const S: i64 = COORD_SCALE;

fn pt(x: i64, y: i64, z: i64) -> Point {
    Point { position: Position::new(x, y, z), color: None, intensity: None }
}

fn dist2(a: &Point, b: &Point) -> i128 {
    let dx = (a.position.x - b.position.x) as i128;
    let dy = (a.position.y - b.position.y) as i128;
    let dz = (a.position.z - b.position.z) as i128;
    dx * dx + dy * dy + dz * dz
}

fn cloud(n: usize, seed: u64, extent: i64) -> Vec<Point> {
    let mut state = seed;
    let mut next = || {
        state = state.wrapping_mul(6364136223846793005).wrapping_add(1442695040888963407);
        (((state >> 11) as u128 * (extent as u128 + 1)) >> 53) as i64
    };
    (0..n).map(|_| {
        let x = next();
        let y = next();
        let z = next();
        pt(x, y, z)
    }).collect()
}

fn assert_separated(points: &[Point], radius: u64) {
    let r2 = (radius as i128) * (radius as i128);
    for i in 0..points.len() {
        for j in 0..points.len() {
            if i != j {
                assert!(dist2(&points[i], &points[j]) > r2);
            }
        }
    }
}

#[test]
fn extend_matches_box_of_longer_list() {
    let xs = vec![Position::new(3, -4, 5), Position::new(-7, 8, 0)];
    let p = Position::new(10, 2, -9);
    let mut b = BoundingBox::from_positions(&xs);
    b.extend(&p);
    let mut all = xs.clone();
    all.push(p);
    assert_eq!(b, BoundingBox::from_positions(&all));
    assert_eq!(b.min, Position::new(-7, -4, -9));
    assert_eq!(b.max, Position::new(10, 8, 5));
}

#[test]
fn empty_box_and_box_operations() {
    let e = BoundingBox::from_positions(&[]);
    assert_eq!(e.min, Position::new(i64::MAX, i64::MAX, i64::MAX));
    assert_eq!(e.max, Position::new(i64::MIN, i64::MIN, i64::MIN));
    let b = BoundingBox::new(Position::new(-3, 0, 1), Position::new(4, 10, 2));
    assert_eq!(b.size(), Position::new(7, 10, 1));
    assert_eq!(b.max_size(), 10);
    assert_eq!(b.min_size(), 1);
    assert_eq!(b.ceil(3), (3, 4, 1));
    assert_eq!(b.center(), Position::new(0, 5, 1));
    let n = BoundingBox::new(Position::new(-3, -3, -3), Position::new(0, 0, 0));
    assert_eq!(n.center(), Position::new(-2, -2, -2));
}

#[test]
fn serial_sampler_separates_random_cloud() {
    let input = cloud(3000, 11, S);
    let radius = (S / 10) as u64;
    let out = PoissonDiskSampling::new().sample(&input, radius);
    assert!(!out.is_empty());
    assert_separated(&out, radius);
    for p in &out {
        assert!(input.contains(p));
    }
    let r2 = (radius as i128) * (radius as i128);
    for p in &input {
        assert!(out.iter().any(|q| dist2(p, q) <= r2));
    }
}

#[test]
fn serial_sampler_empty_input() {
    let out = PoissonDiskSampling::new().sample(&[], 5);
    assert!(out.is_empty());
}

#[test]
fn parallel_sampler_separates_after_all_steps() {
    let input = cloud(3000, 23, S);
    let radius = (S / 10) as u64;
    let mut sampler = ParallelPoissonDiskSampling::new(&input, radius);
    assert_eq!(sampler.max_iterations(), 27);
    assert!(sampler.samples().is_empty());
    for _ in 0..sampler.max_iterations() {
        assert!(!sampler.is_completed());
        assert_eq!(sampler.step(), Ok(()));
    }
    assert!(sampler.is_completed());
    assert_eq!(sampler.step(), Err(StepError::NoPartitionLeft));
    let out = sampler.samples();
    assert!(!out.is_empty());
    assert_separated(&out, radius);
    for p in &out {
        assert!(input.contains(p));
    }
    let r2 = (radius as i128) * (radius as i128);
    for p in &input {
        assert!(out.iter().any(|q| dist2(p, q) <= r2));
    }
}

#[test]
fn parallel_sampler_small_lattice_has_fewer_partitions() {
    let input = vec![pt(0, 0, 0), pt(S / 4, 0, 0)];
    let mut sampler = ParallelPoissonDiskSampling::new(&input, S as u64);
    assert_eq!(sampler.max_iterations(), 1);
    assert_eq!(sampler.step(), Ok(()));
    assert!(sampler.is_completed());
    assert_eq!(sampler.samples(), vec![pt(0, 0, 0)]);
}

#[test]
fn sampling_radius_values() {
    assert_eq!(sampling_radius(128_000, 0), 1000);
    assert_eq!(sampling_radius(128_000, 3), 125);
    assert_eq!(sampling_radius(100, 2), 1);
}

#[test]
fn root_emits_small_cloud_unchanged() {
    let points = vec![pt(0, 0, 0), pt(S, 2 * S, 0)];
    let mut coordinates = Coordinates::new();
    let (map, unit) = process_root(&points, 16_384, &mut coordinates);
    assert_eq!(map.lod(), 0);
    assert_eq!(unit.points, points);
    assert_eq!(unit.bounding_box.max, Position::new(S, 2 * S, 0));
    assert_eq!(coordinates.entries().len(), 1);
}

#[test]
fn over_full_level_is_sampled_in_parallel() {
    // a small extent keeps the sampling lattices small
    let points = cloud(400, 5, 60);
    let mut coordinates = Coordinates::new();
    let (root, unit) = process_root(&points, 50, &mut coordinates);
    assert!(unit.points.len() < points.len());
    let radius0 = sampling_radius(BoundingBox::from_points(&points).max_size(), 0);
    assert_separated(&unit.points, radius0);
    let (next, units, over) = process_level(&root, 40, &mut coordinates);
    assert!(over);
    let radius1 = sampling_radius(next.bounds().max_size(), 1);
    assert_eq!(units.len(), next.map().len());
    for (u, (key, cell)) in units.iter().zip(next.map().iter()) {
        assert_eq!((u.x, u.y, u.z), *key);
        assert!(!u.points.is_empty());
        assert_separated(&u.points, radius1);
        for p in &u.points {
            assert!(cell.points().contains(p));
        }
        assert_eq!(u.bounding_box, BoundingBox::from_points(&u.points));
    }
    assert_eq!(coordinates.entries().len(), 1 + units.len());
}

#[test]
fn divide_skips_cells_within_budget() {
    let points = vec![pt(0, 0, 0), pt(S, S, S), pt(S, 0, 0)];
    let root = PointCloudMap::root(BoundingBox::from_points(&points), &points);
    assert!(root.divide(3).map().is_empty());
    let next = root.divide(2);
    assert_eq!(next.map().len(), 3);
    let second = next.divide(2);
    assert!(second.map().is_empty());
}

#[test]
fn quad_image_decodes_to_coordinates() {
    let points = vec![pt(S / 3, S, 0), pt(1, 2 * S / 7, S / 2)];
    let b = BoundingBox::new(Position::new(0, 0, 0), Position::new(S, S, S));
    let img = Encoder::new(&points, Some(b)).encode_8bit_quad(false);
    let w = img.width() as usize;
    assert_eq!(w, 4);
    let side = w / 2;
    let bytes = img.into_bytes();
    for (i, p) in points.iter().enumerate() {
        let (x, y) = (i % side, i / side);
        for (axis, v) in [p.position.x, p.position.y, p.position.z].iter().enumerate() {
            let mut u: u64 = 0;
            for k in 0..4 {
                let px = x + side * (k % 2);
                let py = y + side * (k / 2);
                let byte = bytes[4 * (py * w + px) + axis] as u64;
                u |= byte << (8 * k);
            }
            let expected = ((*v as u128) * 4_294_967_295 / (S as u128)) as u64;
            assert_eq!(u, expected);
        }
        for k in 0..4 {
            let px = x + side * (k % 2);
            let py = y + side * (k / 2);
            assert_eq!(bytes[4 * (py * w + px) + 3], 255);
        }
    }
}

#[test]
fn quad_alpha_carries_color() {
    let mut p = pt(0, 0, 0);
    p.color = Some(pcd_lod::color::Color::new(10, 20, 30));
    let img = Encoder::new(&[p], None).encode_8bit_quad(true);
    assert_eq!(img.width(), 2);
    let bytes = img.into_bytes();
    assert_eq!([bytes[3], bytes[7], bytes[11], bytes[15]], [10, 20, 30, 255]);
}

#[test]
fn image_side_is_ceiling_of_root() {
    for (n, side) in [(0usize, 0u32), (1, 1), (4, 2), (5, 3), (9, 3), (10, 4)] {
        let points: Vec<Point> = (0..n as i64).map(|i| pt(i, 0, 0)).collect();
        let b = BoundingBox::new(Position::new(0, 0, 0), Position::new(100, 100, 100));
        let (position, color) = Encoder::new(&points, Some(b)).encode_8bit();
        assert_eq!(position.width(), side);
        assert_eq!(color.height(), side);
        let bytes = position.into_bytes();
        assert_eq!(bytes.len(), 4 * (side * side) as usize);
        for i in n..(side * side) as usize {
            assert_eq!(&bytes[4 * i..4 * i + 4], &[0, 0, 0, 0]);
        }
    }
}

#[test]
fn closest_point_queries() {
    let cloud = pcd_lod::point_cloud::PointCloud::new(vec![pt(0, 0, 0), pt(10, 0, 0), pt(3, 4, 0), pt(3, 4, 0)]);
    assert_eq!(cloud.len(), 4);
    assert!(!cloud.is_empty());
    assert_eq!(cloud.get_closest_point(0), Some(&pt(3, 4, 0)));
    assert_eq!(cloud.get_closest_distance(0), Some(5));
    assert_eq!(cloud.get_closest_distance(2), Some(0));
    assert_eq!(cloud.get_closest_point(9), None);
    let single = pcd_lod::point_cloud::PointCloud::new(vec![pt(1, 1, 1)]);
    assert_eq!(single.get_closest_point(0), None);
}

#[test]
fn distance_rounds_down() {
    assert_eq!(pt(0, 0, 0).distance(&pt(1, 1, 0)), 1);
    assert_eq!(pt(0, 0, 0).distance_squared(&pt(1, 1, 0)), 2);
    assert_eq!(pt(0, 0, 0).distance(&pt(6, 8, 0)), 10);
}

#[test]
fn quad_image_zero_fills_unused_pixels() {
    let points: Vec<Point> = (0..5i64).map(|i| pt(i * 10, 50, 100)).collect();
    let b = BoundingBox::new(Position::new(0, 0, 0), Position::new(100, 100, 100));
    let img = Encoder::new(&points, Some(b)).encode_8bit_quad(false);
    let w = img.width() as usize;
    assert_eq!(w, 6);
    let side = w / 2;
    let bytes = img.into_bytes();
    for i in points.len()..side * side {
        let (x, y) = (i % side, i / side);
        for k in 0..4 {
            let px = x + side * (k % 2);
            let py = y + side * (k / 2);
            let at = 4 * (py * w + px);
            assert_eq!(&bytes[at..at + 4], &[0, 0, 0, 0]);
        }
    }
}

#[test]
fn sampled_root_registers_box_of_kept_points() {
    let points = vec![pt(0, 0, 0), pt(1, 0, 0)];
    let mut coordinates = Coordinates::new();
    let (map, unit) = process_root(&points, 1, &mut coordinates);
    assert_eq!(map.bounds().max, Position::new(1, 0, 0));
    assert_eq!(unit.points.len(), 1);
    assert_eq!(unit.bounding_box, BoundingBox::from_points(&unit.points));
    assert_eq!(coordinates.entries()[0].2, unit.bounding_box);
    assert_eq!(unit.bounding_box.min, unit.bounding_box.max);
}
