use pcd_lod::bounding_box::BoundingBox;
use pcd_lod::color::Color;
use pcd_lod::encoder::Encoder;
use pcd_lod::meta::Coordinates;
use pcd_lod::pipeline::process_level;
use pcd_lod::point::{Point, PointError, Position, COORD_SCALE};
use pcd_lod::point_cloud_map::PointCloudMap;
use pcd_lod::poisson_disk_sampling::PoissonDiskSampling;
use pcd_lod::tool::{detect_cloudcompare_exists, ToolError};

const S: i64 = COORD_SCALE;

fn pt(x: i64, y: i64, z: i64) -> Point {
    Point { position: Position::new(x, y, z), color: None, intensity: None }
}

fn dist2(a: &Point, b: &Point) -> i128 {
    let dx = (a.position.x - b.position.x) as i128;
    let dy = (a.position.y - b.position.y) as i128;
    let dz = (a.position.z - b.position.z) as i128;
    dx * dx + dy * dy + dz * dz
}

/// Deterministic pseudo-random coordinates in `0 ..= extent`.
fn cloud(n: usize, seed: u64, extent: i64) -> Vec<Point> {
    let mut state = seed;
    let mut next = || {
        state = state.wrapping_mul(6364136223846793005).wrapping_add(1442695040888963407);
        (((state >> 11) as u128 * (extent as u128 + 1)) >> 53) as i64
    };
    (0..n).map(|_| {
        let x = next();
        let y = next();
        let z = next();
        pt(x, y, z)
    }).collect()
}

fn assert_separated(points: &[Point], radius: u64) {
    let r2 = (radius as i128) * (radius as i128);
    for i in 0..points.len() {
        for j in 0..points.len() {
            if i != j {
                assert!(dist2(&points[i], &points[j]) > r2, "points {} and {} too close", i, j);
            }
        }
    }
}

#[test]
fn detect_app_exists() {
    let r = detect_cloudcompare_exists(Vec::new());
    assert!(r.is_ok());
}

#[test]
fn detect_reports_output_text() {
    let r = detect_cloudcompare_exists(b"CloudCompare 2.13".to_vec());
    assert_eq!(r, Ok("CloudCompare 2.13".to_string()));
}

#[test]
fn detect_rejects_invalid_utf8() {
    let r = detect_cloudcompare_exists(vec![0xff, 0xfe]);
    assert_eq!(r, Err(ToolError::OutputNotUtf8));
}

#[test]
fn singleton_scenario() {
    let input = vec![pt(0, 0, 0)];
    let out = PoissonDiskSampling::new().sample(&input, S as u64);
    assert_eq!(out, vec![pt(0, 0, 0)]);
    let b = BoundingBox::from_points(&input);
    assert_eq!(b.min, Position::new(0, 0, 0));
    assert_eq!(b.max, Position::new(0, 0, 0));
    let (position, color) = Encoder::new(&out, Some(b)).encode_8bit();
    assert_eq!((position.width(), position.height()), (1, 1));
    assert_eq!(position.into_bytes(), vec![0, 0, 0, 255]);
    assert_eq!(color.into_bytes(), vec![255, 255, 255, 255]);
}

#[test]
fn separation_scenario() {
    let input = vec![pt(0, 0, 0), pt(S / 2, 0, 0), pt(S, 0, 0)];
    let radius = (S as u64) * 3 / 4;
    let out = PoissonDiskSampling::new().sample(&input, radius);
    assert_eq!(out.len(), 2);
    assert!(out.contains(&pt(0, 0, 0)));
    assert!(out.contains(&pt(S, 0, 0)));
    assert!(!out.contains(&pt(S / 2, 0, 0)));
}

#[test]
fn cube_corners_scenario() {
    let mut input = vec![];
    for z in [0, S] {
        for y in [0, S] {
            for x in [0, S] {
                input.push(pt(x, y, z));
            }
        }
    }
    // sqrt(3) - 1e-6, in position units
    let radius: u64 = 1_732_049_807;
    let out = PoissonDiskSampling::new().sample(&input, radius);
    assert_separated(&out, radius);
    // Only opposite corners are more than the radius apart.
    assert_eq!(out, vec![pt(0, 0, 0), pt(S, S, S)]);
}

#[test]
fn octree_division_scenario() {
    let points = cloud(100_000, 7, S);
    let threshold = 16_384;
    let mut coordinates = Coordinates::new();
    let bounds = BoundingBox::from_points(&points);
    let root = PointCloudMap::root(bounds, &points);
    assert!(root.map()[0].1.points().len() > threshold);
    coordinates.register(0, (0, 0, 0), bounds);
    let (next, units, over) = process_level(&root, threshold, &mut coordinates);
    assert_eq!(next.lod(), 1);
    assert!(!over);
    assert_eq!(units.len(), 8);
    let mut total = 0;
    for u in &units {
        assert!(u.points.len() <= threshold);
        assert!(u.points.len() > 11_000 && u.points.len() < 14_000);
        total += u.points.len();
    }
    assert_eq!(total, 100_000);
    let lods: Vec<u32> = coordinates.entries().iter().map(|e| e.0).collect();
    assert_eq!(lods.iter().filter(|l| **l == 0).count(), 1);
    assert_eq!(lods.iter().filter(|l| **l == 1).count(), 8);
    // every point lies in a box registered at level 1
    for p in &points {
        assert!(coordinates.entries().iter().any(|e| e.0 == 1
            && e.2.min.x <= p.position.x && p.position.x <= e.2.max.x
            && e.2.min.y <= p.position.y && p.position.y <= e.2.max.y
            && e.2.min.z <= p.position.z && p.position.z <= e.2.max.z));
    }
    // keys follow floor((p - min) * 2^L / max_extent), clamped to 2^L - 1
    let e = bounds.max_size() as i128;
    for u in &units {
        for p in &u.points {
            let k = |d: i64| (((d as i128) * 2 / e).min(1)) as i32;
            assert_eq!(
                (u.x, u.y, u.z),
                (k(p.position.x - bounds.min.x), k(p.position.y - bounds.min.y), k(p.position.z - bounds.min.z))
            );
        }
    }
}

#[test]
fn encoder_scenario() {
    let points = vec![pt(0, 0, 0), pt(S, 0, 0), pt(0, S, 0), pt(0, 0, S)];
    let b = BoundingBox::new(Position::new(0, 0, 0), Position::new(S, S, S));
    let (position, _color) = Encoder::new(&points, Some(b)).encode_8bit();
    assert_eq!((position.width(), position.height()), (2, 2));
    assert_eq!(
        position.into_bytes(),
        vec![0, 0, 0, 255, 255, 0, 0, 255, 0, 255, 0, 255, 0, 0, 255, 255]
    );
}

#[test]
fn parser_scenario() {
    let p = Point::try_parse("1 2 3 10 20 30").unwrap();
    assert_eq!(p.position, Position::new(S, 2 * S, 3 * S));
    assert_eq!(p.color, Some(Color::new(10, 20, 30)));
    assert_eq!(p.intensity, None);
    let q = Point::try_parse("1 2 3").unwrap();
    assert_eq!(q.position, Position::new(S, 2 * S, 3 * S));
    assert_eq!(q.color, None);
    assert_eq!(q.intensity, None);
    assert_eq!(Point::try_parse("1 2"), Err(PointError::InvalidPointFormat));
}

#[test]
fn parser_arities_and_decimals() {
    let p = Point::try_parse("  -1.5\t0.25 +3.000000000123 0.75").unwrap();
    assert_eq!(p.position, Position::new(-3 * S / 2, S / 4, 3 * S));
    assert_eq!(p.intensity, Some(3 * S / 4));
    let q = Point::try_parse("1 2 3 255 0 7 .5").unwrap();
    assert_eq!(q.color, Some(Color::new(255, 0, 7)));
    assert_eq!(q.intensity, Some(S / 2));
    assert_eq!(Point::try_parse("1 2 3 4 5"), Err(PointError::InvalidPointFormat));
    assert_eq!(Point::try_parse("1 2 3 4 5 6 7 8"), Err(PointError::InvalidPointFormat));
    assert_eq!(Point::try_parse("1 2 3 256 0 0"), Err(PointError::InvalidPointFormat));
    assert_eq!(Point::try_parse("1 x 3"), Err(PointError::InvalidPointFormat));
    assert_eq!(Point::try_parse("1 . 3"), Err(PointError::InvalidPointFormat));
    assert_eq!(Point::try_parse(""), Err(PointError::InvalidPointFormat));
}

#[test]
fn parser_reads_exponents() {
    let p = Point::try_parse("1e3 2 3").unwrap();
    assert_eq!(p.position, Position::new(1000 * S, 2 * S, 3 * S));
    let q = Point::try_parse("1.5E-2 0 0 4").unwrap();
    assert_eq!(q.position, Position::new(15_000_000, 0, 0));
    assert_eq!(q.intensity, Some(4 * S));
    let r = Point::try_parse("-2.5e+1 1.23456789012e5 7E0").unwrap();
    assert_eq!(r.position, Position::new(-25 * S, 123_456_789_012_000, 7 * S));
    let t = Point::try_parse("1e-12 0.0000000019 1e-9").unwrap();
    assert_eq!(t.position, Position::new(0, 1, 1));
    assert_eq!(Point::try_parse("1e 2 3"), Err(PointError::InvalidPointFormat));
    assert_eq!(Point::try_parse("e3 2 3"), Err(PointError::InvalidPointFormat));
    assert_eq!(Point::try_parse("inf 2 3"), Err(PointError::InvalidPointFormat));
    assert_eq!(Point::try_parse("NaN 2 3"), Err(PointError::InvalidPointFormat));
    assert_eq!(Point::try_parse("1e10 2 3"), Err(PointError::InvalidPointFormat));
    assert_eq!(Point::try_parse("1e999999999999999999999999 2 3"), Err(PointError::InvalidPointFormat));
    assert_eq!(Point::try_parse("0e999999999999999999999999 2 3").unwrap().position.x, 0);
}
