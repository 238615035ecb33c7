//! Vertex positions and the randomized initial layout.
use vstd::prelude::*;
use rand::rngs::StdRng;
use crate::graph::{Edge, Graph};

verus! {

/// Largest coordinate magnitude a position may take.
pub const COORD_LIMIT: i64 = 0x8000_0000;

/// A position in fixed-point units (a caller picks how many per pixel).
#[derive(Clone, Copy, Debug, PartialEq, Eq, Structural)]
pub struct Point {
    pub x: i64,
    pub y: i64,
}

pub open spec fn within_limit(v: int) -> bool {
    -COORD_LIMIT <= v <= COORD_LIMIT
}

impl Point {
    pub open spec fn bounded(self) -> bool {
        within_limit(self.x as int) && within_limit(self.y as int)
    }
}

/// rand's seedable generator, carried through as an opaque value.
#[verifier::external_type_specification]
#[verifier::external_body]
pub struct ExStdRng(StdRng);

/// Relies on `rand::Rng::gen_range` over `0..bound`: a value in that
/// half-open range, which must not be empty.
#[verifier::external_body]
fn draw_below(rng: &mut StdRng, bound: i64) -> (r: i64)
    requires
        bound > 0,
    ensures
        0 <= r < bound,
{
    rand::Rng::gen_range(rng, 0..bound)
}

/// Places vertex `i` at `(xs[i], ys[i])` and derives the edges of the
/// matrix.
pub fn place_vertices(g: &Graph, xs: &Vec<i64>, ys: &Vec<i64>) -> (r: (Vec<Point>, Vec<Edge>))
    requires
        g.wf(),
        xs@.len() == g.size(),
        ys@.len() == g.size(),
    ensures
        r.0@.len() == g.size(),
        forall|i: int| 0 <= i < r.0@.len() ==> #[trigger] r.0@[i] == (Point { x: xs@[i], y: ys@[i] }),
        r.1@ == g.edge_list(),
{
    let n = g.num_vertices();
    let mut pts: Vec<Point> = Vec::new();
    let mut i: usize = 0;
    while i < n
        invariant
            n == g.size(),
            xs@.len() == n,
            ys@.len() == n,
            i <= n,
            pts@.len() == i,
            forall|k: int| 0 <= k < i ==> #[trigger] pts@[k] == (Point { x: xs@[k], y: ys@[k] }),
        decreases n - i,
    {
        pts.push(Point { x: xs[i], y: ys[i] });
        i += 1;
    }
    (pts, g.edges())
}

/// Places each vertex at an independent random point of
/// `[0, width) x [0, height)` (x drawn before y, vertex by vertex), and
/// derives the edges of the matrix. A graph without vertices draws nothing,
/// whatever the rectangle.
pub fn random_layout(g: &Graph, width: i64, height: i64, rng: &mut StdRng) -> (r: (Vec<Point>, Vec<Edge>))
    requires
        g.wf(),
        g.size() == 0 || (width > 0 && height > 0),
    ensures
        r.0@.len() == g.size(),
        forall|i: int|
            0 <= i < r.0@.len() ==> 0 <= (#[trigger] r.0@[i]).x < width && 0 <= r.0@[i].y < height,
        r.1@ == g.edge_list(),
{
    let n = g.num_vertices();
    let mut xs: Vec<i64> = Vec::new();
    let mut ys: Vec<i64> = Vec::new();
    let mut i: usize = 0;
    while i < n
        invariant
            n == g.size(),
            n > 0 ==> width > 0 && height > 0,
            i <= n,
            xs@.len() == i,
            ys@.len() == i,
            forall|k: int| 0 <= k < i ==> 0 <= #[trigger] xs@[k] < width && 0 <= ys@[k] < height,
        decreases n - i,
    {
        let x = draw_below(rng, width);
        let y = draw_below(rng, height);
        xs.push(x);
        ys.push(y);
        i += 1;
    }
    let r = place_vertices(g, &xs, &ys);
    assert forall|k: int| 0 <= k < r.0@.len() implies 0 <= (#[trigger] r.0@[k]).x < width && 0 <= r.0@[k].y
        < height by {
        assert(r.0@[k] == (Point { x: xs@[k], y: ys@[k] }));
    }
    r
}

} // verus!
