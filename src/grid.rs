use vstd::prelude::*;

verus! {

/// One cell of a sampler's lattice: the input points that fall into it
/// (its candidates) and at most one chosen point (its representative).
#[derive(Debug)]
pub struct Grid<'a, P> {
    representative: Option<P>,
    candidates: Vec<&'a P>,
}

impl<'a, P> Default for Grid<'a, P> {
    fn default() -> (g: Self)
        ensures
            g.rep() is None,
            g.cands().len() == 0,
    {
        Self { representative: None, candidates: Vec::new() }
    }
}

impl<'a, P> Grid<'a, P> {
    /// The representative, if one was chosen.
    pub closed spec fn rep(&self) -> Option<P> {
        self.representative
    }

    /// The candidates, in the order they were inserted.
    pub closed spec fn cands(&self) -> Seq<&'a P> {
        self.candidates@
    }

    pub fn new() -> (g: Self)
        ensures
            g.rep() is None,
            g.cands().len() == 0,
    {
        Self::default()
    }

    pub fn set(&mut self, representative: P)
        ensures
            final(self).rep() == Some(representative),
            final(self).cands() == old(self).cands(),
    {
        self.representative = Some(representative);
    }

    pub fn visited(&self) -> (v: bool)
        ensures
            v == self.rep() is Some,
    {
        self.representative.is_some()
    }

    pub fn representative(&self) -> (r: Option<&P>)
        ensures
            r == match self.rep() {
                Some(p) => Some(&p),
                None => None,
            },
    {
        match &self.representative {
            Some(p) => Some(p),
            None => None,
        }
    }

    pub fn insert(&mut self, point: &'a P)
        ensures
            final(self).cands() == old(self).cands().push(point),
            final(self).rep() == old(self).rep(),
    {
        self.candidates.push(point);
    }

    pub fn candidates(&self) -> (c: &Vec<&'a P>)
        ensures
            c@ == self.cands(),
    {
        &self.candidates
    }

    pub fn candidates_mut(&mut self) -> (c: &mut Vec<&'a P>)
        ensures
            c@ == old(self).cands(),
            final(self).cands() == final(c)@,
            final(self).rep() == old(self).rep(),
    {
        &mut self.candidates
    }
}

} // verus!
