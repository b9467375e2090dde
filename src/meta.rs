use vstd::prelude::*;

use crate::bounding_box::BoundingBox;
use crate::point_cloud_map::LODKey;

verus! {

/// Some entry records cell `key` of level `lod`.
pub open spec fn has_cell(entries: Seq<(u32, LODKey, BoundingBox)>, lod: u32, key: LODKey) -> bool {
    exists|e: int| 0 <= e < entries.len() && (#[trigger] entries[e]).0 == lod && entries[e].1 == key
}

/// The catalog of emitted cells: for each one, its level, its key and the
/// box of the points emitted for it, in order of emission.
pub struct Coordinates {
    entries: Vec<(u32, LODKey, BoundingBox)>,
}

impl Coordinates {
    pub closed spec fn view_entries(&self) -> Seq<(u32, LODKey, BoundingBox)> {
        self.entries@
    }

    /// No cell is recorded twice: (level, key) pairs are distinct.
    pub open spec fn wf(&self) -> bool {
        forall|e: int, f: int|
            0 <= e < self.view_entries().len() && 0 <= f < self.view_entries().len() && e != f
                ==> ((#[trigger] self.view_entries()[e]).0, self.view_entries()[e].1) != (
            (#[trigger] self.view_entries()[f]).0,
            self.view_entries()[f].1,
        )
    }

    pub fn new() -> (c: Self)
        ensures
            c.wf(),
            c.view_entries().len() == 0,
    {
        Coordinates { entries: Vec::new() }
    }

    /// Records the box of cell `key` at level `lod`, which has no box yet.
    pub fn register(&mut self, lod: u32, key: LODKey, bounds: BoundingBox)
        requires
            old(self).wf(),
            !has_cell(old(self).view_entries(), lod, key),
        ensures
            final(self).wf(),
            final(self).view_entries() == old(self).view_entries().push((lod, key, bounds)),
    {
        self.entries.push((lod, key, bounds));
    }

    /// A copy holding the same entries.
    pub fn snapshot(&self) -> (c: Self)
        requires
            self.wf(),
        ensures
            c.wf(),
            c.view_entries() == self.view_entries(),
    {
        let mut entries: Vec<(u32, LODKey, BoundingBox)> = Vec::new();
        let mut i: usize = 0;
        while i < self.entries.len()
            invariant
                i <= self.entries@.len(),
                entries@ == self.entries@.take(i as int),
            decreases self.entries@.len() - i,
        {
            entries.push(self.entries[i]);
            assert(self.entries@.take(i + 1) == self.entries@.take(i as int).push(
                self.entries@[i as int],
            ));
            i += 1;
        }
        assert(self.entries@.take(i as int) == self.entries@);
        let c = Coordinates { entries };
        assert(c.view_entries() == self.view_entries());
        c
    }

    pub fn entries(&self) -> (e: &Vec<(u32, LODKey, BoundingBox)>)
        ensures
            e@ == self.view_entries(),
    {
        &self.entries
    }
}

/// Version of the manifest format.
pub const MANIFEST_VERSION: &'static str = "0.1.0";

/// The manifest of a level-of-detail tree: its version, the number of levels,
/// the bounds of the whole cloud and the catalog of cells.
pub struct Meta {
    version: String,
    pub lod: u32,
    pub bounds: BoundingBox,
    pub coordinates: Coordinates,
}

impl Meta {
    pub fn new(lod: u32, bounds: BoundingBox, coordinates: Coordinates) -> (m: Meta)
        ensures
            m.lod_spec() == lod,
            m.bounds_spec() == bounds,
            m.coordinates_spec() == coordinates,
            m.version_view() == MANIFEST_VERSION@,
    {
        Meta { version: MANIFEST_VERSION.to_owned(), lod, bounds, coordinates }
    }

    pub closed spec fn version_view(&self) -> Seq<char> {
        self.version@
    }

    pub closed spec fn lod_spec(&self) -> u32 {
        self.lod
    }

    pub closed spec fn bounds_spec(&self) -> BoundingBox {
        self.bounds
    }

    pub closed spec fn coordinates_spec(&self) -> Coordinates {
        self.coordinates
    }

    pub fn version(&self) -> (v: &str)
        ensures
            v@ == self.version_view(),
    {
        self.version.as_str()
    }

    pub fn lod(&self) -> (l: u32)
        ensures
            l == self.lod_spec(),
    {
        self.lod
    }

    pub fn bounds(&self) -> (b: &BoundingBox)
        ensures
            *b == self.bounds_spec(),
    {
        &self.bounds
    }

    pub fn coordinates(&self) -> (c: &Coordinates)
        ensures
            *c == self.coordinates_spec(),
    {
        &self.coordinates
    }
}

} // verus!
