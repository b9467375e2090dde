use vstd::prelude::*;

use vstd::string::StringSliceAdditionalSpecFns;

use crate::color::Color;
use crate::parse::{fixed_of, parse_fixed, parse_u8, token_ranges, tokens, u8_of};

verus! {

/// Number of position units in one unit of the input text: coordinates are
/// held as fixed-point integers with nine decimal digits after the point.
pub const COORD_SCALE: i64 = 1_000_000_000;

/// Largest magnitude of a coordinate (2^60 units); differences and squared
/// distances of in-range positions then fit the machine integers used here.
pub const COORD_LIMIT: i64 = 1_152_921_504_606_846_976;

/// A position (or an extent, when it is a difference of positions) in
/// fixed-point units.
#[derive(Clone, Copy, Debug, PartialEq, Eq, Structural)]
pub struct Position {
    pub x: i64,
    pub y: i64,
    pub z: i64,
}

pub open spec fn coord_in_range(v: int) -> bool {
    -COORD_LIMIT <= v <= COORD_LIMIT
}

impl Position {
    pub open spec fn in_range(&self) -> bool {
        coord_in_range(self.x as int) && coord_in_range(self.y as int) && coord_in_range(
            self.z as int,
        )
    }

    /// The coordinate along `axis` (0, 1 or 2 for x, y and z).
    pub open spec fn at(&self, axis: int) -> int {
        if axis == 0 {
            self.x as int
        } else if axis == 1 {
            self.y as int
        } else {
            self.z as int
        }
    }

    pub fn new(x: i64, y: i64, z: i64) -> (p: Position)
        ensures
            p.x == x && p.y == y && p.z == z,
    {
        Position { x, y, z }
    }
}

/// Squared Euclidean distance of two positions.
pub open spec fn dist2(p: Position, q: Position) -> int {
    (p.x - q.x) * (p.x - q.x) + (p.y - q.y) * (p.y - q.y) + (p.z - q.z) * (p.z - q.z)
}

/// A point of the cloud: a position with an optional color and an optional
/// intensity (fixed-point like the coordinates, passed through untouched).
#[derive(Clone, Copy, Debug, PartialEq, Eq, Structural)]
pub struct Point {
    pub position: Position,
    pub color: Option<Color>,
    pub intensity: Option<i64>,
}

/// A square is non-negative and bounded by the square of a bound on its root.
pub proof fn lemma_square_bound(a: int, b: int)
    requires
        -b <= a <= b,
    ensures
        0 <= a * a <= b * b,
{
    assert(0 <= a * a <= b * b) by (nonlinear_arith)
        requires
            -b <= a <= b,
    ;
}

/// Squared distance of in-range positions, exactly.
pub fn squared_distance(p: &Position, q: &Position) -> (d: u128)
    requires
        p.in_range(),
        q.in_range(),
    ensures
        d == dist2(*p, *q),
        d <= 3 * (0x2000_0000_0000_0000 * 0x2000_0000_0000_0000),
{
    let dx = (p.x as i128) - (q.x as i128);
    let dy = (p.y as i128) - (q.y as i128);
    let dz = (p.z as i128) - (q.z as i128);
    proof {
        lemma_square_bound(dx as int, 0x2000_0000_0000_0000);
        lemma_square_bound(dy as int, 0x2000_0000_0000_0000);
        lemma_square_bound(dz as int, 0x2000_0000_0000_0000);
    }
    (dx * dx + dy * dy + dz * dz) as u128
}

/// Why a line is not a point.
#[derive(Clone, Copy, Debug, PartialEq, Eq, Structural)]
pub enum PointError {
    InvalidPointFormat,
}

/// The point a line of text describes: 3 tokens give a position, 4 a
/// position and an intensity, 6 a position and a color, 7 a position, a color
/// and an intensity. Coordinates and intensity are decimal numbers with an
/// optional sign, point and exponent (`-1.5`, `2e3`, `.5E-2`), stored in units
/// of 10^-9: digits past the ninth after the point are dropped (rounding
/// toward zero). Numbers that the fixed-point form cannot hold are refused:
/// `inf`, `NaN` and magnitudes over `COORD_LIMIT` units (about 1.15e9). Color
/// channels are integers up to 255, with an optional `+`. Any other line
/// describes none.
pub open spec fn point_of_line(b: Seq<u8>) -> Option<Point> {
    let ts = tokens(b);
    let n = ts.len();
    if !(n == 3 || n == 4 || n == 6 || n == 7) {
        None
    } else if fixed_of(ts[0]) is None || fixed_of(ts[1]) is None || fixed_of(ts[2]) is None {
        None
    } else if n >= 6 && (u8_of(ts[3]) is None || u8_of(ts[4]) is None || u8_of(ts[5]) is None) {
        None
    } else if n == 4 && fixed_of(ts[3]) is None {
        None
    } else if n == 7 && fixed_of(ts[6]) is None {
        None
    } else {
        Some(
            Point {
                position: Position {
                    x: fixed_of(ts[0])->0 as i64,
                    y: fixed_of(ts[1])->0 as i64,
                    z: fixed_of(ts[2])->0 as i64,
                },
                color: if n >= 6 {
                    Some(
                        Color {
                            red: u8_of(ts[3])->0,
                            green: u8_of(ts[4])->0,
                            blue: u8_of(ts[5])->0,
                        },
                    )
                } else {
                    None
                },
                intensity: if n == 4 {
                    Some(fixed_of(ts[3])->0 as i64)
                } else if n == 7 {
                    Some(fixed_of(ts[6])->0 as i64)
                } else {
                    None
                },
            },
        )
    }
}

impl Point {
    /// Parses one line of the whitespace-separated text format.
    pub fn try_parse(line: &str) -> (r: Result<Self, PointError>)
        ensures
            match r {
                Ok(p) => point_of_line(line.spec_bytes()) == Some(p) && p.in_range(),
                Err(e) => point_of_line(line.spec_bytes()) is None && e
                    == PointError::InvalidPointFormat,
            },
    {
        let b = line.as_bytes();
        let ranges = token_ranges(b);
        let n = ranges.len();
        if !(n == 3 || n == 4 || n == 6 || n == 7) {
            return Err(PointError::InvalidPointFormat);
        }
        let ghost ts = tokens(b@);
        let x = parse_fixed(b, ranges[0].0, ranges[0].1);
        let y = parse_fixed(b, ranges[1].0, ranges[1].1);
        let z = parse_fixed(b, ranges[2].0, ranges[2].1);
        proof {
            assert(b@.subrange(ranges@[0].0 as int, ranges@[0].1 as int) == ts[0]);
            assert(b@.subrange(ranges@[1].0 as int, ranges@[1].1 as int) == ts[1]);
            assert(b@.subrange(ranges@[2].0 as int, ranges@[2].1 as int) == ts[2]);
        }
        let (x, y, z) = match (x, y, z) {
            (Some(x), Some(y), Some(z)) => (x, y, z),
            _ => {
                return Err(PointError::InvalidPointFormat);
            },
        };
        let color = if n >= 6 {
            let r = parse_u8(b, ranges[3].0, ranges[3].1);
            let g = parse_u8(b, ranges[4].0, ranges[4].1);
            let bl = parse_u8(b, ranges[5].0, ranges[5].1);
            proof {
                assert(b@.subrange(ranges@[3].0 as int, ranges@[3].1 as int) == ts[3]);
                assert(b@.subrange(ranges@[4].0 as int, ranges@[4].1 as int) == ts[4]);
                assert(b@.subrange(ranges@[5].0 as int, ranges@[5].1 as int) == ts[5]);
            }
            match (r, g, bl) {
                (Some(r), Some(g), Some(bl)) => Some(Color::new(r, g, bl)),
                _ => {
                    return Err(PointError::InvalidPointFormat);
                },
            }
        } else {
            None
        };
        let intensity = if n == 4 || n == 7 {
            let k = n - 1;
            let v = parse_fixed(b, ranges[k].0, ranges[k].1);
            proof {
                assert(b@.subrange(ranges@[k as int].0 as int, ranges@[k as int].1 as int) == ts[k as int]);
            }
            match v {
                Some(v) => Some(v),
                None => {
                    return Err(PointError::InvalidPointFormat);
                },
            }
        } else {
            None
        };
        Ok(Point { position: Position { x, y, z }, color, intensity })
    }

    pub open spec fn in_range(&self) -> bool {
        self.position.in_range()
    }

    pub fn distance_squared(&self, other: &Self) -> (d: u128)
        requires
            self.in_range(),
            other.in_range(),
        ensures
            d == dist2(self.position, other.position),
            d <= 3 * (0x2000_0000_0000_0000 * 0x2000_0000_0000_0000),
    {
        squared_distance(&self.position, &other.position)
    }
}

/// `floor(sqrt(d))` for a squared distance of in-range positions.
pub fn isqrt(d: u128) -> (r: u64)
    requires
        d <= 3 * (0x2000_0000_0000_0000 * 0x2000_0000_0000_0000),
    ensures
        r * r <= d < (r + 1) * (r + 1),
{
    let mut lo: u128 = 0;
    let mut hi: u128 = 0x4000_0000_0000_0000;
    proof {
        assert(hi * hi > d) by (nonlinear_arith)
            requires
                hi == 0x4000_0000_0000_0000,
                d <= 3 * (0x2000_0000_0000_0000 * 0x2000_0000_0000_0000),
        ;
    }
    while hi - lo > 1
        invariant
            lo < hi <= 0x4000_0000_0000_0000,
            lo * lo <= d < hi * hi,
        decreases hi - lo,
    {
        let mid = lo + (hi - lo) / 2;
        proof {
            lemma_square_bound(mid as int, 0x4000_0000_0000_0000);
        }
        if mid * mid <= d {
            lo = mid;
        } else {
            hi = mid;
        }
    }
    lo as u64
}

/// Something with a position.
pub trait HasPosition {
    spec fn position_view(&self) -> Position;

    fn position(&self) -> (p: &Position)
        ensures
            *p == self.position_view(),
    ;
}

impl HasPosition for Point {
    open spec fn position_view(&self) -> Position {
        self.position
    }

    fn position(&self) -> (p: &Position) {
        &self.position
    }
}

impl Point {
    /// `floor` of the Euclidean distance.
    pub fn distance(&self, other: &Self) -> (d: u64)
        requires
            self.in_range(),
            other.in_range(),
        ensures
            d * d <= dist2(self.position, other.position) < (d + 1) * (d + 1),
    {
        isqrt(self.distance_squared(other))
    }
}

} // verus!
