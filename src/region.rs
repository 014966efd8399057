use vstd::prelude::*;

verus! {

/// A convex region: the intersection of the positive half-spaces of its boundaries.
/// No boundary at all is the whole space. Boundaries are kept as given, in order,
/// redundant or contradictory ones included.
pub struct Region<H> {
    boundaries: Vec<H>,
}

impl<H> View for Region<H> {
    type V = Seq<H>;

    closed spec fn view(&self) -> Seq<H> {
        self.boundaries@
    }
}

impl<H> Region<H> {
    /// The region bounded by `boundaries`.
    pub fn from(boundaries: Vec<H>) -> (r: Self)
        ensures
            r@ == boundaries@,
    {
        Region { boundaries }
    }

    /// The boundaries, in order.
    pub fn into(self) -> (r: Vec<H>)
        ensures
            r@ == self@,
    {
        self.boundaries
    }

    /// The boundaries, in order, by reference.
    pub fn boundaries(&self) -> (r: &Vec<H>)
        ensures
            r@ == self@,
    {
        &self.boundaries
    }

    /// Add one more half-space.
    pub fn add_boundary(&mut self, h: H)
        ensures
            final(self)@ == old(self)@.push(h),
    {
        self.boundaries.push(h);
    }

    /// The same region seen from another space: each boundary mapped by `pull`, which
    /// composes a boundary functional with a map into this region's space.
    pub fn transform<G, F: Fn(&H) -> G>(&self, pull: F) -> (r: Region<G>)
        requires
            forall|i: int| 0 <= i < self@.len() ==> pull.requires((&self@[i],)),
        ensures
            r@.len() == self@.len(),
            forall|i: int| 0 <= i < self@.len() ==> pull.ensures((&self@[i],), #[trigger] r@[i]),
    {
        let mut out: Vec<G> = Vec::new();
        let mut i: usize = 0;
        while i < self.boundaries.len()
            invariant
                i <= self@.len(),
                out@.len() == i,
                forall|k: int| 0 <= k < self@.len() ==> pull.requires((&self@[k],)),
                forall|k: int| 0 <= k < i ==> pull.ensures((&self@[k],), #[trigger] out@[k]),
            decreases self@.len() - i,
        {
            let g = pull(&self.boundaries[i]);
            out.push(g);
            i = i + 1;
        }
        Region { boundaries: out }
    }
}

} // verus!
