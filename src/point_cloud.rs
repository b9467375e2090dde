use vstd::prelude::*;

use crate::point::{dist2, isqrt, squared_distance, Point};

verus! {

/// A list of points with nearest-neighbour queries.
#[derive(Clone, Debug)]
pub struct PointCloud {
    points: Vec<Point>,
}

/// Index `j` holds the point nearest to point `index` among the others, the
/// first such in order.
pub open spec fn is_closest(points: Seq<Point>, index: int, j: int) -> bool {
    &&& 0 <= j < points.len()
    &&& j != index
    &&& forall|k: int|
        0 <= k < points.len() && k != index ==> dist2(points[index].position, points[j].position)
            <= dist2(points[index].position, #[trigger] points[k].position)
    &&& forall|k: int|
        0 <= k < j && k != index ==> dist2(points[index].position, points[j].position) < dist2(
            points[index].position,
            #[trigger] points[k].position,
        )
}

impl PointCloud {
    pub closed spec fn view_points(&self) -> Seq<Point> {
        self.points@
    }

    pub open spec fn wf(&self) -> bool {
        forall|i: int| 0 <= i < self.view_points().len() ==> (#[trigger] self.view_points()[i]).in_range()
    }

    pub fn new(points: Vec<Point>) -> (c: Self)
        ensures
            c.view_points() == points@,
    {
        Self { points }
    }

    pub fn len(&self) -> (n: usize)
        ensures
            n == self.view_points().len(),
    {
        self.points.len()
    }

    pub fn is_empty(&self) -> (b: bool)
        ensures
            b == (self.view_points().len() == 0),
    {
        self.points.len() == 0
    }

    pub fn get(&self, idx: usize) -> (p: Option<&Point>)
        ensures
            idx < self.view_points().len() ==> p == Some(&self.view_points()[idx as int]),
            idx >= self.view_points().len() ==> p is None,
    {
        if idx < self.points.len() {
            Some(&self.points[idx])
        } else {
            None
        }
    }

    /// The distance, rounded down, from point `index` to its nearest other
    /// point.
    pub fn get_closest_distance(&self, index: usize) -> (d: Option<u64>)
        requires
            self.wf(),
        ensures
            d is Some <==> index < self.view_points().len() && self.view_points().len() >= 2,
            d matches Some(v) ==> exists|j: int|
                is_closest(self.view_points(), index as int, j) && v * v <= dist2(
                    self.view_points()[index as int].position,
                    #[trigger] self.view_points()[j].position,
                ) < (v + 1) * (v + 1),
    {
        match self.get_closest_point(index) {
            Some(closest) => {
                let p = &self.points[index];
                Some(isqrt(squared_distance(&p.position, &closest.position)))
            },
            None => None,
        }
    }

    /// The nearest other point to point `index`; the first one on a tie.
    pub fn get_closest_point(&self, index: usize) -> (r: Option<&Point>)
        requires
            self.wf(),
        ensures
            r is Some <==> index < self.view_points().len() && self.view_points().len() >= 2,
            r matches Some(q) ==> exists|j: int|
                is_closest(self.view_points(), index as int, j) && *q == #[trigger] self.view_points()[j],
    {
        if index >= self.points.len() {
            return None;
        }
        let p = &self.points[index];
        let mut best: Option<(usize, u128)> = None;
        let mut k: usize = 0;
        while k < self.points.len()
            invariant
                self.wf(),
                index < self.view_points().len(),
                *p == self.view_points()[index as int],
                k <= self.view_points().len(),
                best is None <==> (k == 0 || (k == 1 && index == 0)),
                best matches Some(b) ==> {
                    &&& b.0 < k
                    &&& b.0 != index
                    &&& b.1 == dist2(p.position, self.view_points()[b.0 as int].position)
                    &&& forall|m: int|
                        0 <= m < k && m != index ==> b.1 <= dist2(
                            p.position,
                            #[trigger] self.view_points()[m].position,
                        )
                    &&& forall|m: int|
                        0 <= m < b.0 && m != index ==> b.1 < dist2(
                            p.position,
                            #[trigger] self.view_points()[m].position,
                        )
                },
            decreases self.view_points().len() - k,
        {
            if k != index {
                let d = squared_distance(&p.position, &self.points[k].position);
                match best {
                    Some(b) => {
                        if d < b.1 {
                            best = Some((k, d));
                        }
                    },
                    None => {
                        best = Some((k, d));
                    },
                }
            }
            k += 1;
        }
        match best {
            Some(b) => Some(&self.points[b.0]),
            None => None,
        }
    }
}

} // verus!
