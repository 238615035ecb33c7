//! Force-directed relaxation: Hookean springs along edges, a pause switch,
//! clamping into the viewport, and dragging a vertex with a pointer.
use vstd::prelude::*;
use vstd::arithmetic::div_mod::lemma_div_is_ordered_by_denominator;
use crate::graph::Edge;
use crate::layout::{Point, COORD_LIMIT, within_limit};

verus! {

/// Denominator of the fixed-point spring constant and damping factor: a
/// value `k` stands for `k / PARAM_SCALE`.
pub const PARAM_SCALE: i128 = 1000;

/// Spring parameters; `k` and `damping` are in units of `1 / PARAM_SCALE`,
/// `rest_length` in position units. Ranges are not checked.
#[derive(Clone, Copy, Debug, PartialEq, Eq, Structural)]
pub struct SpringParams {
    pub k: u16,
    pub rest_length: u32,
    pub damping: u16,
}

/// Why a tick was refused.
#[derive(Clone, Copy, Debug, PartialEq, Eq, Structural)]
pub enum SpringError {
    /// A position would leave `[-COORD_LIMIT, COORD_LIMIT]` during the
    /// relaxation pass; the positions were left as they were.
    Overflow,
}

/// `r` is the integer square root of `x`.
pub open spec fn is_isqrt(x: int, r: int) -> bool {
    0 <= r && r * r <= x < (r + 1) * (r + 1)
}

/// The integer square root of `x`: the largest `r` with `r * r <= x`.
pub open spec fn floor_sqrt(x: int) -> int {
    choose|r: int| is_isqrt(x, r)
}

/// Division rounding toward zero.
pub open spec fn trunc_div(a: int, b: int) -> int {
    if a >= 0 {
        a / b
    } else {
        -((-a) / b)
    }
}

/// Length of the segment from `p1` to `p2`, rounded down.
pub open spec fn distance(p1: Point, p2: Point) -> int {
    let dx = p2.x - p1.x;
    let dy = p2.y - p1.y;
    floor_sqrt(dx * dx + dy * dy)
}

/// The damped spring force on the start of an edge from `p1` to `p2`:
/// `k * damping * (|d| - rest_length) * d / |d|`, with `d = p2 - p1`,
/// rounded toward zero per axis, and zero when the endpoints coincide.
pub open spec fn spring_force(p1: Point, p2: Point, prm: SpringParams) -> (int, int) {
    let dx = p2.x - p1.x;
    let dy = p2.y - p1.y;
    let dist = distance(p1, p2);
    if dist == 0 {
        (0, 0)
    } else {
        let g = prm.k * prm.damping * (dist - prm.rest_length);
        let den = dist * PARAM_SCALE * PARAM_SCALE;
        (trunc_div(g * dx, den), trunc_div(g * dy, den))
    }
}

/// Whether vertex `v` feels spring forces: every vertex but the held one.
pub open spec fn moves(held: Option<usize>, v: usize) -> bool {
    held != Some(v)
}

/// One edge of a relaxation pass: the start moves by the force and the end
/// by its opposite, except that the held vertex stays where it is; `None`
/// when a coordinate would leave the limit.
pub open spec fn step_edge(pos: Seq<Point>, e: Edge, prm: SpringParams, held: Option<usize>) -> Option<
    Seq<Point>,
> {
    let p1 = pos[e.start as int];
    let p2 = pos[e.end as int];
    let (fx, fy) = spring_force(p1, p2, prm);
    let ax = if moves(held, e.start) { p1.x + fx } else { p1.x as int };
    let ay = if moves(held, e.start) { p1.y + fy } else { p1.y as int };
    let bx = if moves(held, e.end) { p2.x - fx } else { p2.x as int };
    let by = if moves(held, e.end) { p2.y - fy } else { p2.y as int };
    if within_limit(ax) && within_limit(ay) && within_limit(bx) && within_limit(by) {
        Some(
            pos.update(e.start as int, Point { x: ax as i64, y: ay as i64 }).update(
                e.end as int,
                Point { x: bx as i64, y: by as i64 },
            ),
        )
    } else {
        None
    }
}

/// A relaxation pass over `edges` in order, each edge seeing the positions
/// left by the ones before it; the held vertex, if any, is exempt.
pub open spec fn relax(pos: Seq<Point>, edges: Seq<Edge>, prm: SpringParams, held: Option<usize>) -> Option<
    Seq<Point>,
>
    decreases edges.len(),
{
    if edges.len() == 0 {
        Some(pos)
    } else {
        match relax(pos, edges.drop_last(), prm, held) {
            Some(q) => step_edge(q, edges.last(), prm, held),
            None => None,
        }
    }
}

pub open spec fn clamp(v: int, hi: int) -> int {
    if v < 0 {
        0
    } else if v > hi {
        hi
    } else {
        v
    }
}

pub open spec fn clamp_point(p: Point, w: int, h: int) -> Point {
    Point { x: clamp(p.x as int, w) as i64, y: clamp(p.y as int, h) as i64 }
}

/// Every position clamped into `[0, w] x [0, h]`, each axis on its own.
pub open spec fn clamp_all(pos: Seq<Point>, w: int, h: int) -> Seq<Point> {
    Seq::new(pos.len(), |i: int| clamp_point(pos[i], w, h))
}

/// `p` lies strictly within `radius` of `q`.
pub open spec fn near(p: Point, q: Point, radius: int) -> bool {
    let dx = p.x - q.x;
    let dy = p.y - q.y;
    dx * dx + dy * dy < radius * radius
}

/// The sum of the positions of the two endpoints of an edge is the same
/// after the edge's spring acts: the force on one endpoint is the exact
/// opposite of the force on the other.
pub proof fn lemma_edge_step_balanced(pos: Seq<Point>, e: Edge, prm: SpringParams, held: Option<usize>)
    requires
        e.start < pos.len(),
        e.end < pos.len(),
        e.start != e.end,
        moves(held, e.start),
        moves(held, e.end),
        step_edge(pos, e, prm, held) is Some,
    ensures
        ({
            let q = step_edge(pos, e, prm, held)->Some_0;
            &&& q[e.start as int].x + q[e.end as int].x == pos[e.start as int].x + pos[e.end as int].x
            &&& q[e.start as int].y + q[e.end as int].y == pos[e.start as int].y + pos[e.end as int].y
            &&& q[e.start as int].x - pos[e.start as int].x == spring_force(
                pos[e.start as int],
                pos[e.end as int],
                prm,
            ).0
            &&& q[e.start as int].y - pos[e.start as int].y == spring_force(
                pos[e.start as int],
                pos[e.end as int],
                prm,
            ).1
            &&& forall|v: int|
                0 <= v < pos.len() && v != e.start && v != e.end ==> #[trigger] q[v] == pos[v]
        }),
{
}

/// Sum of the x coordinates of the first `k` positions.
pub open spec fn sum_x(pos: Seq<Point>, k: int) -> int
    decreases k,
{
    if k <= 0 {
        0
    } else {
        sum_x(pos, k - 1) + pos[k - 1].x
    }
}

/// Sum of the y coordinates of the first `k` positions.
pub open spec fn sum_y(pos: Seq<Point>, k: int) -> int
    decreases k,
{
    if k <= 0 {
        0
    } else {
        sum_y(pos, k - 1) + pos[k - 1].y
    }
}

proof fn lemma_sum_update(pos: Seq<Point>, i: int, p: Point, k: int)
    requires
        0 <= i < pos.len(),
        0 <= k <= pos.len(),
    ensures
        sum_x(pos.update(i, p), k) == sum_x(pos, k) + (if i < k {
            p.x - pos[i].x
        } else {
            0
        }),
        sum_y(pos.update(i, p), k) == sum_y(pos, k) + (if i < k {
            p.y - pos[i].y
        } else {
            0
        }),
    decreases k,
{
    if k > 0 {
        lemma_sum_update(pos, i, p, k - 1);
    }
}

/// A spring between coincident points exerts no force.
pub proof fn lemma_no_force_when_coincident(p: Point, prm: SpringParams)
    ensures
        spring_force(p, p, prm) == (0int, 0int),
{
    assert(is_isqrt(0, 0));
    lemma_isqrt_unique(0, 0, floor_sqrt(0));
}

/// The sum of all positions is the same after a relaxation pass: every edge
/// adds to one endpoint exactly what it takes from the other, so forces
/// cancel over the whole pass (clamping comes after the pass). This is
/// stated with no vertex held, since a held vertex does not take its share.
pub proof fn lemma_relax_conserves_sum(pos: Seq<Point>, edges: Seq<Edge>, prm: SpringParams)
    requires
        forall|i: int|
            0 <= i < edges.len() ==> (#[trigger] edges[i]).start < pos.len() && edges[i].end < pos.len(),
        relax(pos, edges, prm, None) is Some,
    ensures
        ({
            let q = relax(pos, edges, prm, None)->Some_0;
            &&& q.len() == pos.len()
            &&& sum_x(q, q.len() as int) == sum_x(pos, pos.len() as int)
            &&& sum_y(q, q.len() as int) == sum_y(pos, pos.len() as int)
        }),
    decreases edges.len(),
{
    if edges.len() > 0 {
        let init = edges.drop_last();
        assert forall|i: int| 0 <= i < init.len() implies (#[trigger] init[i]).start < pos.len()
            && init[i].end < pos.len() by {
            assert(init[i] == edges[i]);
        }
        lemma_relax_conserves_sum(pos, init, prm);
        let q = relax(pos, init, prm, None)->Some_0;
        let e = edges.last();
        assert(e == edges[edges.len() - 1]);
        let n = q.len() as int;
        let p1 = q[e.start as int];
        let p2 = q[e.end as int];
        let f = spring_force(p1, p2, prm);
        let a = Point { x: (p1.x + f.0) as i64, y: (p1.y + f.1) as i64 };
        let b = Point { x: (p2.x - f.0) as i64, y: (p2.y - f.1) as i64 };
        let q1 = q.update(e.start as int, a);
        lemma_sum_update(q, e.start as int, a, n);
        lemma_sum_update(q1, e.end as int, b, n);
        if e.start == e.end {
            lemma_no_force_when_coincident(p1, prm);
        }
    }
}

/// Clamping changes nothing for positions already inside the viewport.
pub proof fn lemma_clamp_inside(pos: Seq<Point>, w: int, h: int)
    requires
        forall|i: int|
            0 <= i < pos.len() ==> 0 <= (#[trigger] pos[i]).x <= w && 0 <= pos[i].y <= h,
    ensures
        clamp_all(pos, w, h) == pos,
{
    assert(clamp_all(pos, w, h) =~= pos);
}

/// A running tick with nothing held keeps the sum of all positions when its
/// relaxation pass stays inside the viewport, so that clamping has nothing
/// to do: the spring forces of the tick cancel.
pub proof fn lemma_tick_conserves_sum(
    pos: Seq<Point>,
    edges: Seq<Edge>,
    prm: SpringParams,
    w: int,
    h: int,
)
    requires
        forall|i: int|
            0 <= i < edges.len() ==> (#[trigger] edges[i]).start < pos.len() && edges[i].end < pos.len(),
        relax(pos, edges, prm, None) is Some,
        forall|i: int|
            0 <= i < relax(pos, edges, prm, None)->Some_0.len() ==> 0 <= (#[trigger] relax(
                pos,
                edges,
                prm,
                None,
            )->Some_0[i]).x <= w && 0 <= relax(pos, edges, prm, None)->Some_0[i].y <= h,
    ensures
        ({
            let t = clamp_all(relax(pos, edges, prm, None)->Some_0, w, h);
            &&& t.len() == pos.len()
            &&& sum_x(t, t.len() as int) == sum_x(pos, pos.len() as int)
            &&& sum_y(t, t.len() as int) == sum_y(pos, pos.len() as int)
        }),
{
    lemma_relax_conserves_sum(pos, edges, prm);
    lemma_clamp_inside(relax(pos, edges, prm, None)->Some_0, w, h);
}

proof fn lemma_mul_abs_bound(a: int, ba: int, b: int, bb: int)
    requires
        -ba <= a <= ba,
        -bb <= b <= bb,
    ensures
        -(ba * bb) <= a * b <= ba * bb,
{
    assert(-(ba * bb) <= a * b <= ba * bb) by (nonlinear_arith)
        requires
            -ba <= a <= ba,
            -bb <= b <= bb,
    ;
}

proof fn lemma_isqrt_unique(x: int, r1: int, r2: int)
    requires
        is_isqrt(x, r1),
        is_isqrt(x, r2),
    ensures
        r1 == r2,
{
    if r1 < r2 {
        assert((r1 + 1) * (r1 + 1) <= r2 * r2) by (nonlinear_arith)
            requires
                0 <= r1 < r2,
        ;
    } else if r2 < r1 {
        assert((r2 + 1) * (r2 + 1) <= r1 * r1) by (nonlinear_arith)
            requires
                0 <= r2 < r1,
        ;
    }
}

/// Bound on a force component for positions within the coordinate limit.
pub const FORCE_BOUND: i128 = 0x10_0000_0000_0000_0000_0000_0000;

fn trunc_div_exec(a: i128, b: i128) -> (r: i128)
    requires
        -FORCE_BOUND <= a <= FORCE_BOUND,
        b >= 1,
    ensures
        r == trunc_div(a as int, b as int),
        -FORCE_BOUND <= r <= FORCE_BOUND,
{
    if a >= 0 {
        proof {
            lemma_div_is_ordered_by_denominator(a as int, 1, b as int);
        }
        a / b
    } else {
        proof {
            lemma_div_is_ordered_by_denominator(-a as int, 1, b as int);
        }
        -((-a) / b)
    }
}

fn fits(v: i128) -> (r: bool)
    ensures
        r == within_limit(v as int),
{
    -(COORD_LIMIT as i128) <= v && v <= COORD_LIMIT as i128
}

/// Integer square root by bisection.
fn isqrt(x: u128) -> (r: u64)
    requires
        x < 0x4_0000_0000_0000_0000,
    ensures
        r == floor_sqrt(x as int),
        r <= 0x2_0000_0000,
{
    let mut lo: u128 = 0;
    let mut hi: u128 = 0x2_0000_0001;
    assert(0x2_0000_0001 * 0x2_0000_0001 > 0x4_0000_0000_0000_0000int);
    while hi - lo > 1
        invariant
            lo < hi <= 0x2_0000_0001,
            lo * lo <= x,
            x < hi * hi,
        decreases hi - lo,
    {
        let mid = lo + (hi - lo) / 2;
        proof {
            lemma_mul_abs_bound(mid as int, 0x2_0000_0001, mid as int, 0x2_0000_0001);
        }
        if mid * mid <= x {
            lo = mid;
        } else {
            hi = mid;
        }
    }
    proof {
        assert(hi == lo + 1);
        assert(is_isqrt(x as int, lo as int));
        let c = choose|r: int| is_isqrt(x as int, r);
        lemma_isqrt_unique(x as int, lo as int, c);
    }
    lo as u64
}

fn force_of(p1: Point, p2: Point, prm: SpringParams) -> (r: (i128, i128))
    requires
        p1.bounded(),
        p2.bounded(),
    ensures
        r.0 == spring_force(p1, p2, prm).0,
        r.1 == spring_force(p1, p2, prm).1,
        -FORCE_BOUND <= r.0 <= FORCE_BOUND,
        -FORCE_BOUND <= r.1 <= FORCE_BOUND,
{
    let dx: i128 = p2.x as i128 - p1.x as i128;
    let dy: i128 = p2.y as i128 - p1.y as i128;
    proof {
        assert(dx * dx <= 0x1_0000_0000 * 0x1_0000_0000) by (nonlinear_arith)
            requires
                -0x1_0000_0000 <= dx <= 0x1_0000_0000,
        ;
        assert(dy * dy <= 0x1_0000_0000 * 0x1_0000_0000) by (nonlinear_arith)
            requires
                -0x1_0000_0000 <= dy <= 0x1_0000_0000,
        ;
        assert(dx * dx >= 0) by (nonlinear_arith);
        assert(dy * dy >= 0) by (nonlinear_arith);
    }
    let sq: u128 = (dx * dx + dy * dy) as u128;
    let dist = isqrt(sq);
    if dist == 0 {
        return (0, 0);
    }
    let stretch: i128 = dist as i128 - prm.rest_length as i128;
    let den: i128 = dist as i128 * PARAM_SCALE * PARAM_SCALE;
    proof {
        assert(prm.k as int * prm.damping as int <= 0x1_0000_0000) by (nonlinear_arith)
            requires
                prm.k <= 0xFFFF,
                prm.damping <= 0xFFFF,
        ;
        assert(prm.k as int * prm.damping as int >= 0) by (nonlinear_arith)
            requires
                prm.k >= 0,
                prm.damping >= 0,
        ;
    }
    let kd: i128 = prm.k as i128 * prm.damping as i128;
    proof {
        lemma_mul_abs_bound(kd as int, 0x1_0000_0000, stretch as int, 0x2_0000_0000);
    }
    let g: i128 = kd * stretch;
    proof {
        lemma_mul_abs_bound(g as int, 0x2_0000_0000_0000_0000, dx as int, 0x1_0000_0000);
        lemma_mul_abs_bound(g as int, 0x2_0000_0000_0000_0000, dy as int, 0x1_0000_0000);
    }
    let ax: i128 = g * dx;
    let ay: i128 = g * dy;
    let fx = trunc_div_exec(ax, den);
    let fy = trunc_div_exec(ay, den);
    (fx, fy)
}

/// The live state of the relaxation: positions, edges, parameters, the
/// pause switch, the held vertex and the viewport `[0, width] x [0, height]`.
pub struct Simulator {
    pub positions: Vec<Point>,
    pub edges: Vec<Edge>,
    pub params: SpringParams,
    pub paused: bool,
    pub held: Option<usize>,
    pub width: i64,
    pub height: i64,
    pub grab_radius: i64,
}

impl Simulator {
    pub open spec fn wf(&self) -> bool {
        &&& 0 < self.width <= COORD_LIMIT
        &&& 0 < self.height <= COORD_LIMIT
        &&& 0 <= self.grab_radius <= COORD_LIMIT
        &&& forall|i: int| 0 <= i < self.positions@.len() ==> (#[trigger] self.positions@[i]).bounded()
        &&& forall|i: int|
            0 <= i < self.edges@.len() ==> (#[trigger] self.edges@[i]).start < self.positions@.len()
                && self.edges@[i].end < self.positions@.len()
        &&& self.held matches Some(h) ==> h < self.positions@.len()
    }

    /// A running simulator over the given positions and edges, with nothing
    /// held.
    pub fn new(
        positions: Vec<Point>,
        edges: Vec<Edge>,
        params: SpringParams,
        width: i64,
        height: i64,
        grab_radius: i64,
    ) -> (r: Simulator)
        requires
            0 < width <= COORD_LIMIT,
            0 < height <= COORD_LIMIT,
            0 <= grab_radius <= COORD_LIMIT,
            forall|i: int| 0 <= i < positions@.len() ==> (#[trigger] positions@[i]).bounded(),
            forall|i: int|
                0 <= i < edges@.len() ==> (#[trigger] edges@[i]).start < positions@.len() && edges@[i].end
                    < positions@.len(),
        ensures
            r.wf(),
            r.positions@ == positions@,
            r.edges@ == edges@,
            r.params == params,
            !r.paused,
            r.held.is_none(),
            r.width == width,
            r.height == height,
            r.grab_radius == grab_radius,
    {
        Simulator { positions, edges, params, paused: false, held: None, width, height, grab_radius }
    }

    /// Flips the pause switch.
    pub fn toggle_pause(&mut self)
        ensures
            final(self).paused == !old(self).paused,
            final(self).positions == old(self).positions,
            final(self).edges == old(self).edges,
            final(self).params == old(self).params,
            final(self).held == old(self).held,
            final(self).width == old(self).width,
            final(self).height == old(self).height,
            final(self).grab_radius == old(self).grab_radius,
    {
        self.paused = !self.paused;
    }

    /// One relaxation pass over every edge in order, each seeing the
    /// positions left by the ones before it; the held vertex is exempt from
    /// spring forces. Nothing is clamped. If a coordinate would leave
    /// `[-COORD_LIMIT, COORD_LIMIT]`, the positions are kept and `Overflow`
    /// is returned. The pause switch is not consulted.
    pub fn relax_pass(&mut self) -> (r: Result<(), SpringError>)
        requires
            old(self).wf(),
        ensures
            final(self).wf(),
            final(self).edges == old(self).edges,
            final(self).params == old(self).params,
            final(self).paused == old(self).paused,
            final(self).held == old(self).held,
            final(self).width == old(self).width,
            final(self).height == old(self).height,
            final(self).grab_radius == old(self).grab_radius,
            match relax(old(self).positions@, old(self).edges@, old(self).params, old(self).held) {
                Some(q) => r is Ok && final(self).positions@ == q,
                None => r == Err::<(), SpringError>(SpringError::Overflow) && final(self).positions@
                    == old(self).positions@,
            },
    {
        let n = self.positions.len();
        let held = self.held;
        let mut pos = self.positions.clone();
        assert(pos@ =~= self.positions@);
        let mut i: usize = 0;
        while i < self.edges.len()
            invariant
                self.wf(),
                *self == *old(self),
                held == self.held,
                n == self.positions@.len(),
                pos@.len() == n,
                i <= self.edges@.len(),
                forall|v: int| 0 <= v < n ==> (#[trigger] pos@[v]).bounded(),
                relax(self.positions@, self.edges@.subrange(0, i as int), self.params, held) == Some(pos@),
            decreases self.edges@.len() - i,
        {
            let e = self.edges[i];
            proof {
                assert(self.edges@.subrange(0, i + 1).drop_last() =~= self.edges@.subrange(0, i as int));
                assert(self.edges@.subrange(0, i + 1).last() == e);
            }
            let p1 = pos[e.start];
            let p2 = pos[e.end];
            let (fx, fy) = force_of(p1, p2, self.params);
            let start_moves = !(held == Some(e.start));
            let end_moves = !(held == Some(e.end));
            let ax: i128 = if start_moves { p1.x as i128 + fx } else { p1.x as i128 };
            let ay: i128 = if start_moves { p1.y as i128 + fy } else { p1.y as i128 };
            let bx: i128 = if end_moves { p2.x as i128 - fx } else { p2.x as i128 };
            let by: i128 = if end_moves { p2.y as i128 - fy } else { p2.y as i128 };
            if !(fits(ax) && fits(ay) && fits(bx) && fits(by)) {
                proof {
                    lemma_relax_none_stays(self.positions@, self.edges@, self.params, held, i as int + 1);
                    assert(self.edges@.subrange(0, self.edges@.len() as int) =~= self.edges@);
                }
                return Err(SpringError::Overflow);
            }
            pos.set(e.start, Point { x: ax as i64, y: ay as i64 });
            pos.set(e.end, Point { x: bx as i64, y: by as i64 });
            i += 1;
        }
        proof {
            assert(self.edges@.subrange(0, self.edges@.len() as int) =~= self.edges@);
        }
        self.positions = pos;
        Ok(())
    }

    /// Clamps every position into the viewport, each axis on its own.
    pub fn clamp_to_viewport(&mut self)
        requires
            old(self).wf(),
        ensures
            final(self).wf(),
            final(self).edges == old(self).edges,
            final(self).params == old(self).params,
            final(self).paused == old(self).paused,
            final(self).held == old(self).held,
            final(self).width == old(self).width,
            final(self).height == old(self).height,
            final(self).grab_radius == old(self).grab_radius,
            final(self).positions@ == clamp_all(
                old(self).positions@,
                old(self).width as int,
                old(self).height as int,
            ),
    {
        let n = self.positions.len();
        let w = self.width;
        let h = self.height;
        let ghost start = self.positions@;
        let mut j: usize = 0;
        while j < n
            invariant
                w == self.width,
                h == self.height,
                self.edges == old(self).edges,
                self.params == old(self).params,
                self.paused == old(self).paused,
                self.held == old(self).held,
                self.width == old(self).width,
                self.height == old(self).height,
                self.grab_radius == old(self).grab_radius,
                old(self).wf(),
                start == old(self).positions@,
                j <= n,
                self.positions@.len() == n,
                start.len() == n,
                forall|v: int| j <= v < n ==> #[trigger] self.positions@[v] == start[v],
                forall|v: int|
                    0 <= v < j ==> #[trigger] self.positions@[v] == clamp_point(start[v], w as int, h as int),
            decreases n - j,
        {
            let p = self.positions[j];
            let x = if p.x < 0 {
                0
            } else if p.x > w {
                w
            } else {
                p.x
            };
            let y = if p.y < 0 {
                0
            } else if p.y > h {
                h
            } else {
                p.y
            };
            self.positions.set(j, Point { x, y });
            j += 1;
        }
        assert(self.positions@ =~= clamp_all(start, w as int, h as int));
    }

    /// One step of the simulation. Paused, nothing changes. Running, one
    /// relaxation pass (`relax_pass`), then every position is clamped into
    /// the viewport; if the pass overflows, the positions are kept and
    /// `Overflow` is returned.
    pub fn tick(&mut self) -> (r: Result<(), SpringError>)
        requires
            old(self).wf(),
        ensures
            final(self).wf(),
            final(self).edges == old(self).edges,
            final(self).params == old(self).params,
            final(self).paused == old(self).paused,
            final(self).held == old(self).held,
            final(self).width == old(self).width,
            final(self).height == old(self).height,
            final(self).grab_radius == old(self).grab_radius,
            old(self).paused ==> r is Ok && final(self).positions@ == old(self).positions@,
            !old(self).paused ==> match relax(
                old(self).positions@,
                old(self).edges@,
                old(self).params,
                old(self).held,
            ) {
                Some(q) => r is Ok && final(self).positions@ == clamp_all(
                    q,
                    old(self).width as int,
                    old(self).height as int,
                ),
                None => r == Err::<(), SpringError>(SpringError::Overflow) && final(self).positions@
                    == old(self).positions@,
            },
    {
        if self.paused {
            return Ok(());
        }
        match self.relax_pass() {
            Ok(()) => {
                self.clamp_to_viewport();
                Ok(())
            },
            Err(e) => Err(e),
        }
    }

    /// Applies one pointer sample. Released: nothing is held any more. Pressed
    /// over the viewport: the held vertex, or else the first vertex (by index)
    /// strictly within `grab_radius` of the pointer, which becomes held, moves
    /// to the pointer clamped into the viewport. Pressed with no pointer
    /// position: nothing changes. Works whether or not the simulation is paused.
    /// Called after each tick, it puts the held vertex back under the pointer,
    /// whatever the springs did to it.
    pub fn pointer(&mut self, at: Option<Point>, pressed: bool)
        requires
            old(self).wf(),
            at matches Some(p) ==> p.bounded(),
        ensures
            final(self).wf(),
            final(self).edges == old(self).edges,
            final(self).params == old(self).params,
            final(self).paused == old(self).paused,
            final(self).width == old(self).width,
            final(self).height == old(self).height,
            final(self).grab_radius == old(self).grab_radius,
            !pressed ==> final(self).held.is_none() && final(self).positions@ == old(self).positions@,
            pressed && at.is_none() ==> final(self).held == old(self).held && final(self).positions@
                == old(self).positions@,
            pressed && at.is_some() ==> ({
                let m = at->Some_0;
                let c = clamp_point(m, old(self).width as int, old(self).height as int);
                match old(self).held {
                    Some(h) => final(self).held == Some(h) && final(self).positions@ == old(
                        self,
                    ).positions@.update(h as int, c),
                    None => match final(self).held {
                        Some(i) => {
                            &&& i < old(self).positions@.len()
                            &&& near(old(self).positions@[i as int], m, old(self).grab_radius as int)
                            &&& forall|j: int|
                                0 <= j < i ==> !near(
                                    #[trigger] old(self).positions@[j],
                                    m,
                                    old(self).grab_radius as int,
                                )
                            &&& final(self).positions@ == old(self).positions@.update(i as int, c)
                        },
                        None => {
                            &&& forall|j: int|
                                0 <= j < old(self).positions@.len() ==> !near(
                                    #[trigger] old(self).positions@[j],
                                    m,
                                    old(self).grab_radius as int,
                                )
                            &&& final(self).positions@ == old(self).positions@
                        },
                    },
                }
            }),
    {
        if !pressed {
            self.held = None;
            return;
        }
        let m = match at {
            Some(m) => m,
            None => {
                return;
            },
        };
        let w = self.width;
        let h = self.height;
        let c = Point {
            x: if m.x < 0 {
                0
            } else if m.x > w {
                w
            } else {
                m.x
            },
            y: if m.y < 0 {
                0
            } else if m.y > h {
                h
            } else {
                m.y
            },
        };
        match self.held {
            Some(i) => {
                self.positions.set(i, c);
            },
            None => {
                let n = self.positions.len();
                let r = self.grab_radius as i128;
                let mut i: usize = 0;
                while i < n
                    invariant
                        *self == *old(self),
                        pressed,
                        at == Some(m),
                        c.bounded(),
                        c == clamp_point(m, self.width as int, self.height as int),
                        self.wf(),
                        self.held.is_none(),
                        n == self.positions@.len(),
                        m.bounded(),
                        r == self.grab_radius,
                        i <= n,
                        forall|j: int|
                            0 <= j < i ==> !near(#[trigger] self.positions@[j], m, self.grab_radius as int),
                    decreases n - i,
                {
                    let p = self.positions[i];
                    let dx: i128 = p.x as i128 - m.x as i128;
                    let dy: i128 = p.y as i128 - m.y as i128;
                    proof {
                        lemma_mul_abs_bound(dx as int, 0x1_0000_0000, dx as int, 0x1_0000_0000);
                        lemma_mul_abs_bound(dy as int, 0x1_0000_0000, dy as int, 0x1_0000_0000);
                        lemma_mul_abs_bound(r as int, 0x8000_0000, r as int, 0x8000_0000);
                    }
                    if dx * dx + dy * dy < r * r {
                        self.held = Some(i);
                        self.positions.set(i, c);
                        return;
                    }
                    i += 1;
                }
            },
        }
    }
}

proof fn lemma_relax_none_stays(
    pos: Seq<Point>,
    edges: Seq<Edge>,
    prm: SpringParams,
    held: Option<usize>,
    i: int,
)
    requires
        0 <= i <= edges.len(),
        relax(pos, edges.subrange(0, i), prm, held) is None,
    ensures
        relax(pos, edges, prm, held) is None,
    decreases edges.len() - i,
{
    if i < edges.len() {
        assert(edges.subrange(0, i + 1).drop_last() =~= edges.subrange(0, i));
        lemma_relax_none_stays(pos, edges, prm, held, i + 1);
    } else {
        assert(edges.subrange(0, i) =~= edges);
    }
}

} // verus!
