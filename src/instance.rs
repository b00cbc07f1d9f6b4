//! The static puzzle description.
use vstd::prelude::*;
use crate::geometry::{Point, in_box};

verus! {

/// A puzzle instance: a graph on `n` vertices with planar coordinates, the
/// ordered targets, and the sizes of the palette and of the buffer.
#[derive(Clone, Debug)]
pub struct Input {
    pub n: usize,
    pub m: usize,
    pub t_sz: usize,
    pub al: usize,
    pub bl: usize,
    pub edges: Vec<(usize, usize)>,
    pub t: Vec<usize>,
    pub coordinates: Vec<Point>,
}

impl Input {
    /// Counts agree with the lists, and every index and coordinate is in range.
    pub open spec fn wf(&self) -> bool {
        &&& self.edges@.len() == self.m
        &&& self.t@.len() == self.t_sz
        &&& self.coordinates@.len() == self.n
        &&& forall|i: int|
            0 <= i < self.edges@.len() ==> #[trigger] self.edges@[i].0 < self.n
                && self.edges@[i].1 < self.n
        &&& forall|i: int| 0 <= i < self.t@.len() ==> #[trigger] self.t@[i] < self.n
        &&& forall|i: int| 0 <= i < self.coordinates@.len() ==> in_box(#[trigger] self.coordinates@[i])
    }

    /// `u` and `v` are joined by an edge, in either direction.
    pub open spec fn adjacent(&self, u: int, v: int) -> bool {
        exists|j: int|
            0 <= j < self.edges@.len() && ((#[trigger] self.edges@[j].0 == u && self.edges@[j].1
                == v) || (self.edges@[j].0 == v && self.edges@[j].1 == u))
    }

    /// The empty instance.
    pub fn new() -> (r: Self)
        ensures
            r.n == 0 && r.m == 0 && r.t_sz == 0 && r.al == 0 && r.bl == 0,
            r.edges@.len() == 0 && r.t@.len() == 0 && r.coordinates@.len() == 0,
            r.wf(),
    {
        Input {
            n: 0,
            m: 0,
            t_sz: 0,
            al: 0,
            bl: 0,
            edges: Vec::new(),
            t: Vec::new(),
            coordinates: Vec::new(),
        }
    }
}

} // verus!
