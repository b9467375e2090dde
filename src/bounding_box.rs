use vstd::prelude::*;

use crate::point::{coord_in_range, Point, Position};

verus! {

/// An axis-aligned box. The empty box has `min` at `i64::MAX` and `max` at
/// `i64::MIN` on every axis, so that extending it by a position gives the box
/// of that position alone.
#[derive(Clone, Copy, Debug, PartialEq, Eq, Structural)]
pub struct BoundingBox {
    pub min: Position,
    pub max: Position,
}

pub open spec fn min_i64(a: i64, b: i64) -> i64 {
    if a <= b {
        a
    } else {
        b
    }
}

pub open spec fn max_i64(a: i64, b: i64) -> i64 {
    if a >= b {
        a
    } else {
        b
    }
}

pub open spec fn min_int(a: int, b: int) -> int {
    if a <= b {
        a
    } else {
        b
    }
}

pub open spec fn max_int(a: int, b: int) -> int {
    if a >= b {
        a
    } else {
        b
    }
}

pub open spec fn empty_box() -> BoundingBox {
    BoundingBox {
        min: Position { x: i64::MAX, y: i64::MAX, z: i64::MAX },
        max: Position { x: i64::MIN, y: i64::MIN, z: i64::MIN },
    }
}

/// The box grown to hold `p`.
pub open spec fn extended(b: BoundingBox, p: Position) -> BoundingBox {
    BoundingBox {
        min: Position {
            x: min_i64(b.min.x, p.x),
            y: min_i64(b.min.y, p.y),
            z: min_i64(b.min.z, p.z),
        },
        max: Position {
            x: max_i64(b.max.x, p.x),
            y: max_i64(b.max.y, p.y),
            z: max_i64(b.max.z, p.z),
        },
    }
}

/// The box of a sequence of positions: the empty box extended by each in turn.
pub open spec fn box_of(ps: Seq<Position>) -> BoundingBox
    decreases ps.len(),
{
    if ps.len() == 0 {
        empty_box()
    } else {
        extended(box_of(ps.drop_last()), ps.last())
    }
}

pub open spec fn positions_of(pts: Seq<Point>) -> Seq<Position> {
    pts.map_values(|p: Point| p.position)
}

/// `b` holds `p`.
pub open spec fn contains(b: BoundingBox, p: Position) -> bool {
    &&& b.min.x <= p.x <= b.max.x
    &&& b.min.y <= p.y <= b.max.y
    &&& b.min.z <= p.z <= b.max.z
}

/// `min <= max` on every axis, with both corners in range.
pub open spec fn is_proper(b: BoundingBox) -> bool {
    &&& b.min.in_range()
    &&& b.max.in_range()
    &&& b.min.x <= b.max.x
    &&& b.min.y <= b.max.y
    &&& b.min.z <= b.max.z
}

/// The largest extent of a box.
pub open spec fn max_extent(b: BoundingBox) -> int {
    max_int(max_int(b.max.x - b.min.x, b.max.y - b.min.y), b.max.z - b.min.z)
}

/// `a / b` rounded up, for `b > 0`.
pub open spec fn ceil_div(a: int, b: int) -> int {
    if a % b == 0 {
        a / b
    } else {
        a / b + 1
    }
}

/// The box of a non-empty sequence holds each of its positions, and each face
/// of the box touches one of them.
pub proof fn lemma_box_of_tight(ps: Seq<Position>)
    requires
        ps.len() > 0,
    ensures
        forall|i: int| 0 <= i < ps.len() ==> contains(box_of(ps), #[trigger] ps[i]),
        exists|i: int| 0 <= i < ps.len() && box_of(ps).min.x == ps[i].x,
        exists|i: int| 0 <= i < ps.len() && box_of(ps).min.y == ps[i].y,
        exists|i: int| 0 <= i < ps.len() && box_of(ps).min.z == ps[i].z,
        exists|i: int| 0 <= i < ps.len() && box_of(ps).max.x == ps[i].x,
        exists|i: int| 0 <= i < ps.len() && box_of(ps).max.y == ps[i].y,
        exists|i: int| 0 <= i < ps.len() && box_of(ps).max.z == ps[i].z,
    decreases ps.len(),
{
    let n = ps.len();
    if n == 1 {
        assert(ps.drop_last().len() == 0);
        assert(box_of(ps.drop_last()) == empty_box());
        assert(box_of(ps) == extended(empty_box(), ps[0]));
        assert(box_of(ps).min.x == ps[0].x);
        assert(box_of(ps).min.y == ps[0].y);
        assert(box_of(ps).min.z == ps[0].z);
        assert(box_of(ps).max.x == ps[0].x);
        assert(box_of(ps).max.y == ps[0].y);
        assert(box_of(ps).max.z == ps[0].z);
    } else {
        let init = ps.drop_last();
        lemma_box_of_tight(init);
        assert forall|i: int| 0 <= i < n implies contains(box_of(ps), #[trigger] ps[i]) by {
            if i < n - 1 {
                assert(init[i] == ps[i]);
            }
        }
        let b = box_of(init);
        let p = ps.last();
        if p.x <= b.min.x {
            assert(box_of(ps).min.x == ps[n - 1].x);
        } else {
            let i = choose|i: int| 0 <= i < init.len() && b.min.x == init[i].x;
            assert(box_of(ps).min.x == ps[i].x);
        }
        if p.y <= b.min.y {
            assert(box_of(ps).min.y == ps[n - 1].y);
        } else {
            let i = choose|i: int| 0 <= i < init.len() && b.min.y == init[i].y;
            assert(box_of(ps).min.y == ps[i].y);
        }
        if p.z <= b.min.z {
            assert(box_of(ps).min.z == ps[n - 1].z);
        } else {
            let i = choose|i: int| 0 <= i < init.len() && b.min.z == init[i].z;
            assert(box_of(ps).min.z == ps[i].z);
        }
        if p.x >= b.max.x {
            assert(box_of(ps).max.x == ps[n - 1].x);
        } else {
            let i = choose|i: int| 0 <= i < init.len() && b.max.x == init[i].x;
            assert(box_of(ps).max.x == ps[i].x);
        }
        if p.y >= b.max.y {
            assert(box_of(ps).max.y == ps[n - 1].y);
        } else {
            let i = choose|i: int| 0 <= i < init.len() && b.max.y == init[i].y;
            assert(box_of(ps).max.y == ps[i].y);
        }
        if p.z >= b.max.z {
            assert(box_of(ps).max.z == ps[n - 1].z);
        } else {
            let i = choose|i: int| 0 <= i < init.len() && b.max.z == init[i].z;
            assert(box_of(ps).max.z == ps[i].z);
        }
    }
}

/// The box of a non-empty sequence of in-range positions is proper.
pub proof fn lemma_box_of_proper(ps: Seq<Position>)
    requires
        ps.len() > 0,
        forall|i: int| 0 <= i < ps.len() ==> (#[trigger] ps[i]).in_range(),
    ensures
        is_proper(box_of(ps)),
{
    lemma_box_of_tight(ps);
    assert(contains(box_of(ps), ps[0]));
}

/// Extending the box of a non-empty sequence by one more position gives the
/// box of the longer sequence.
pub proof fn lemma_extend_round_trip(xs: Seq<Position>, p: Position)
    requires
        xs.len() > 0,
    ensures
        extended(box_of(xs), p) == box_of(xs.push(p)),
{
    assert(xs.push(p).drop_last() == xs);
}

impl BoundingBox {
    pub fn new(min: Position, max: Position) -> (b: BoundingBox)
        ensures
            b.min == min && b.max == max,
    {
        BoundingBox { min, max }
    }

    /// The empty box, which any position extends.
    pub fn empty() -> (b: BoundingBox)
        ensures
            b == empty_box(),
    {
        BoundingBox {
            min: Position { x: i64::MAX, y: i64::MAX, z: i64::MAX },
            max: Position { x: i64::MIN, y: i64::MIN, z: i64::MIN },
        }
    }

    /// `max - min` on each axis.
    pub fn size(&self) -> (s: Position)
        requires
            is_proper(*self),
        ensures
            s.x == self.max.x - self.min.x,
            s.y == self.max.y - self.min.y,
            s.z == self.max.z - self.min.z,
    {
        Position {
            x: self.max.x - self.min.x,
            y: self.max.y - self.min.y,
            z: self.max.z - self.min.z,
        }
    }

    /// The smallest extent.
    pub fn min_size(&self) -> (m: i64)
        requires
            is_proper(*self),
        ensures
            m == min_int(
                min_int(self.max.x - self.min.x, self.max.y - self.min.y),
                self.max.z - self.min.z,
            ),
    {
        let s = self.size();
        let a = if s.x <= s.y {
            s.x
        } else {
            s.y
        };
        if a <= s.z {
            a
        } else {
            s.z
        }
    }

    /// The largest extent.
    pub fn max_size(&self) -> (m: i64)
        requires
            is_proper(*self),
        ensures
            m == max_extent(*self),
    {
        let s = self.size();
        let a = if s.x >= s.y {
            s.x
        } else {
            s.y
        };
        if a >= s.z {
            a
        } else {
            s.z
        }
    }

    /// The number of cells of side `unit` that cover each extent, saturated
    /// to `i32::MAX`.
    pub fn ceil(&self, unit: i64) -> (c: (i32, i32, i32))
        requires
            is_proper(*self),
            unit > 0,
        ensures
            c.0 == if ceil_div(self.max.x - self.min.x, unit as int) <= i32::MAX {
                ceil_div(self.max.x - self.min.x, unit as int)
            } else {
                i32::MAX as int
            },
            c.1 == if ceil_div(self.max.y - self.min.y, unit as int) <= i32::MAX {
                ceil_div(self.max.y - self.min.y, unit as int)
            } else {
                i32::MAX as int
            },
            c.2 == if ceil_div(self.max.z - self.min.z, unit as int) <= i32::MAX {
                ceil_div(self.max.z - self.min.z, unit as int)
            } else {
                i32::MAX as int
            },
    {
        let s = self.size();
        (ceil_count(s.x, unit), ceil_count(s.y, unit), ceil_count(s.z, unit))
    }

    pub fn min(&self) -> (p: &Position)
        ensures
            *p == self.min,
    {
        &self.min
    }

    pub fn max(&self) -> (p: &Position)
        ensures
            *p == self.max,
    {
        &self.max
    }

    /// The midpoint of the corners, rounded down on each axis.
    pub fn center(&self) -> (c: Position)
        requires
            is_proper(*self),
        ensures
            c.x == (self.min.x + self.max.x) / 2,
            c.y == (self.min.y + self.max.y) / 2,
            c.z == (self.min.z + self.max.z) / 2,
    {
        Position {
            x: half_down(self.min.x + self.max.x),
            y: half_down(self.min.y + self.max.y),
            z: half_down(self.min.z + self.max.z),
        }
    }

    /// Grows the box to hold `p`.
    pub fn extend(&mut self, p: &Position)
        ensures
            *final(self) == extended(*old(self), *p),
    {
        if p.x < self.min.x {
            self.min.x = p.x;
        }
        if p.y < self.min.y {
            self.min.y = p.y;
        }
        if p.z < self.min.z {
            self.min.z = p.z;
        }
        if p.x > self.max.x {
            self.max.x = p.x;
        }
        if p.y > self.max.y {
            self.max.y = p.y;
        }
        if p.z > self.max.z {
            self.max.z = p.z;
        }
    }

    /// The box of a sequence of positions.
    pub fn from_positions(ps: &[Position]) -> (b: BoundingBox)
        ensures
            b == box_of(ps@),
    {
        let mut b = BoundingBox::empty();
        let mut i: usize = 0;
        while i < ps.len()
            invariant
                i <= ps@.len(),
                b == box_of(ps@.take(i as int)),
            decreases ps@.len() - i,
        {
            b.extend(&ps[i]);
            assert(ps@.take(i + 1).drop_last() == ps@.take(i as int));
            i += 1;
        }
        assert(ps@.take(i as int) == ps@);
        b
    }

    /// The box of the positions of a sequence of points.
    pub fn from_points(pts: &[Point]) -> (b: BoundingBox)
        ensures
            b == box_of(positions_of(pts@)),
    {
        let mut b = BoundingBox::empty();
        let mut i: usize = 0;
        while i < pts.len()
            invariant
                i <= pts@.len(),
                b == box_of(positions_of(pts@.take(i as int))),
            decreases pts@.len() - i,
        {
            b.extend(&pts[i].position);
            assert(positions_of(pts@.take(i + 1)).drop_last() == positions_of(
                pts@.take(i as int),
            ));
            i += 1;
        }
        assert(pts@.take(i as int) == pts@);
        b
    }
}

/// `a / 2` rounded toward negative infinity.
fn half_down(a: i64) -> (h: i64)
    requires
        a >= -2 * crate::point::COORD_LIMIT,
    ensures
        h == a / 2,
{
    if a >= 0 {
        a / 2
    } else {
        -((-a + 1) / 2)
    }
}

/// `ceil(a / unit)` for `a >= 0`, saturated to `i32::MAX`.
fn ceil_count(a: i64, unit: i64) -> (c: i32)
    requires
        0 <= a <= 2 * crate::point::COORD_LIMIT,
        unit > 0,
    ensures
        c == if ceil_div(a as int, unit as int) <= i32::MAX {
            ceil_div(a as int, unit as int)
        } else {
            i32::MAX as int
        },
{
    let q = if a % unit == 0 {
        a / unit
    } else {
        a / unit + 1
    };
    if q <= i32::MAX as i64 {
        q as i32
    } else {
        i32::MAX
    }
}

} // verus!
