//! The scene: the cube's edge topology and the per-frame drawing step that
//! turns a list of projected vertices into lines on the screen. A vertex that
//! did not project (behind the camera or off screen) carries no coordinate,
//! and every edge touching it is skipped for that frame.
use crate::raster::with_line;
use crate::screen::Screen;
use vstd::prelude::*;

verus! {

/// A projected vertex is drawable when it carries a coordinate, and its
/// coordinate is small enough for the rasterizer's signed arithmetic.
pub open spec fn point_in_range(p: Option<(usize, usize)>) -> bool {
    p matches Some(q) ==> q.0 <= isize::MAX as int / 4 && q.1 <= isize::MAX as int / 4
}

/// `cells` after drawing the first `n` edges: for each edge `(a, b)` whose
/// two vertices both projected, the line between their coordinates; edges
/// with a missing endpoint or an out-of-range vertex index leave the cells
/// unchanged.
pub open spec fn with_edges(
    cells: Seq<bool>,
    w: int,
    h: int,
    points: Seq<Option<(usize, usize)>>,
    edges: Seq<(usize, usize)>,
    n: int,
) -> Seq<bool>
    decreases n,
{
    if n <= 0 {
        cells
    } else {
        let prev = with_edges(cells, w, h, points, edges, n - 1);
        let e = edges[n - 1];
        if e.0 < points.len() && e.1 < points.len() {
            match (points[e.0 as int], points[e.1 as int]) {
                (Some(p0), Some(p1)) => with_line(
                    prev,
                    w,
                    h,
                    p0.0 as int,
                    p0.1 as int,
                    p1.0 as int,
                    p1.1 as int,
                ),
                _ => prev,
            }
        } else {
            prev
        }
    }
}

/// The twelve edges of a cube, as index pairs into a list of its eight
/// vertices ordered bottom face first, each face counter-clockwise.
pub open spec fn cube_edges_spec() -> Seq<(usize, usize)> {
    seq![
        (0usize, 1usize),
        (1usize, 2usize),
        (2usize, 3usize),
        (3usize, 0usize),
        (4usize, 5usize),
        (5usize, 6usize),
        (6usize, 7usize),
        (7usize, 4usize),
        (0usize, 4usize),
        (1usize, 5usize),
        (2usize, 6usize),
        (3usize, 7usize),
    ]
}

/// The cube topology as a vector, for the frame loop to iterate over.
pub fn cube_edges() -> (edges: Vec<(usize, usize)>)
    ensures
        edges@ == cube_edges_spec(),
{
    let mut edges: Vec<(usize, usize)> = Vec::new();
    edges.push((0, 1));
    edges.push((1, 2));
    edges.push((2, 3));
    edges.push((3, 0));
    edges.push((4, 5));
    edges.push((5, 6));
    edges.push((6, 7));
    edges.push((7, 4));
    edges.push((0, 4));
    edges.push((1, 5));
    edges.push((2, 6));
    edges.push((3, 7));
    proof {
        assert(edges@ =~= cube_edges_spec());
    }
    edges
}

impl Screen {
    /// Draws every edge whose two endpoints both projected this frame. An
    /// edge with a missing endpoint, or one whose vertex index lies outside
    /// the point list, is skipped rather than drawn.
    pub fn draw_edges(
        &mut self,
        points: &Vec<Option<(usize, usize)>>,
        edges: &Vec<(usize, usize)>,
    )
        requires
            old(self).wf(),
            forall|i: int| 0 <= i < points@.len() ==> point_in_range(#[trigger] points@[i]),
        ensures
            final(self).wf(),
            final(self).width == old(self).width,
            final(self).height == old(self).height,
            final(self).buffer == old(self).buffer,
            final(self).pixels@ == with_edges(
                old(self).pixels@,
                old(self).width as int,
                old(self).height as int,
                points@,
                edges@,
                edges@.len() as int,
            ),
    {
        let mut n: usize = 0;
        while n < edges.len()
            invariant
                n <= edges@.len(),
                self.wf(),
                self.width == old(self).width,
                self.height == old(self).height,
                self.buffer == old(self).buffer,
                self.pixels@ == with_edges(
                    old(self).pixels@,
                    old(self).width as int,
                    old(self).height as int,
                    points@,
                    edges@,
                    n as int,
                ),
            decreases edges@.len() - n,
        {
            let (a, b) = edges[n];
            if a < points.len() && b < points.len() {
                if let (Some(p0), Some(p1)) = (points[a], points[b]) {
                    self.draw_line(p0, p1);
                }
            }
            n = n + 1;
        }
    }
}

} // verus!
