//! Triangles and their edges.

use vstd::prelude::*;
use crate::line::{pt, rasterize_spec, Line};

verus! {

/// A triangle given by its three corner points.
#[derive(Clone, Copy)]
pub struct Triangle {
    pub p1: (i32, i32),
    pub p2: (i32, i32),
    pub p3: (i32, i32),
}

/// The pixels of a triangle's three edges, in drawing order.
pub open spec fn triangle_points(
    p1: (int, int),
    p2: (int, int),
    p3: (int, int),
) -> Seq<(int, int)> {
    rasterize_spec(p1, p2) + rasterize_spec(p1, p3) + rasterize_spec(p2, p3)
}

impl Triangle {
    pub fn new(p1: (i32, i32), p2: (i32, i32), p3: (i32, i32)) -> (r: Triangle)
        ensures
            r.p1 == p1,
            r.p2 == p2,
            r.p3 == p3,
    {
        Triangle { p1, p2, p3 }
    }

    /// The three edges of the triangle: all pairwise connections of its
    /// corners.
    pub fn lines(&self) -> (r: Vec<Line>)
        ensures
            r@.len() == 3,
            r@[0] == (Line { start: self.p1, end: self.p2 }),
            r@[1] == (Line { start: self.p1, end: self.p3 }),
            r@[2] == (Line { start: self.p2, end: self.p3 }),
    {
        let mut r: Vec<Line> = Vec::new();
        r.push(Line { start: self.p1, end: self.p2 });
        r.push(Line { start: self.p1, end: self.p3 });
        r.push(Line { start: self.p2, end: self.p3 });
        r
    }
}

} // verus!
