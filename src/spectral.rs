//! Spectral bisection: the normalized Laplacian, the choice of the Fiedler
//! eigenvector among a solver's output, and the split by sign.
//!
//! The eigen-solver works on real numbers; its eigenvalues and eigenvector
//! entries come back here as IEEE-754 binary32 bit patterns, whose order and
//! sign are defined exactly on the bits.
use vstd::prelude::*;
use crate::graph::{Graph, lemma_row_sum_bound};

verus! {

/// Why a partition could not be computed.
#[derive(Clone, Copy, Debug, PartialEq, Eq, Structural)]
pub enum SpectralError {
    /// Vertex `i` has degree zero, so its row of `D^{-1/2}` is undefined.
    DegenerateVertex(usize),
    /// The solver did not produce a usable decomposition: it failed to
    /// converge, or one of its eigenvalues is not a number.
    Eigendecomposition,
    /// Fewer than two eigenvalues: there is no second-smallest one.
    TooFewVertices,
}

/// One entry of the normalized Laplacian, held exactly as
/// `num / sqrt(den)`.
#[derive(Clone, Copy, Debug, PartialEq, Eq, Structural)]
pub struct LaplacianEntry {
    pub num: i128,
    pub den: u128,
}

/// Which side of the bisection a vertex falls on.
#[derive(Clone, Copy, Debug, PartialEq, Eq, Structural)]
pub enum Side {
    /// Fiedler entry strictly below zero.
    First,
    /// Fiedler entry zero or above (ties at zero land here).
    Second,
}

/// The bit pattern of a binary32 NaN.
pub open spec fn is_nan_bits(b: u32) -> bool {
    b % 0x8000_0000 > 0x7F80_0000
}

/// Position of a non-NaN binary32 value on the number line: the magnitude
/// bits grow with the absolute value, and both zeros map to 0.
pub open spec fn f32_rank(b: u32) -> int {
    if b >= 0x8000_0000 {
        -(b - 0x8000_0000)
    } else {
        b as int
    }
}

/// `b < 0.0` under IEEE-754 comparison (false for NaN and for `-0.0`).
pub open spec fn is_negative_bits(b: u32) -> bool {
    !is_nan_bits(b) && f32_rank(b) < 0
}

/// Eigenvalue `a` comes before eigenvalue `b` in the stable ascending sort:
/// smaller value first, equal values by index.
pub open spec fn sorts_before(vals: Seq<u32>, a: int, b: int) -> bool {
    f32_rank(vals[a]) < f32_rank(vals[b]) || (f32_rank(vals[a]) == f32_rank(vals[b]) && a < b)
}

/// `m` is the first index of the stable ascending sort.
pub open spec fn sorted_first(vals: Seq<u32>, m: int) -> bool {
    &&& 0 <= m < vals.len()
    &&& forall|i: int| 0 <= i < vals.len() && i != m ==> sorts_before(vals, m, i)
}

/// `k` is at position 1 of the stable ascending sort: exactly one index
/// precedes it.
pub open spec fn sorted_second(vals: Seq<u32>, k: int) -> bool {
    &&& 0 <= k < vals.len()
    &&& exists|m: int|
        #![trigger sorted_first(vals, m)]
        sorted_first(vals, m) && m != k && forall|i: int|
            0 <= i < vals.len() && i != m && i != k ==> sorts_before(vals, k, i)
}

pub open spec fn side_of(b: u32) -> Side {
    if is_negative_bits(b) {
        Side::First
    } else {
        Side::Second
    }
}

/// The exact value of entry `(i, j)` of `D^{-1/2} (D - A) D^{-1/2}`.
pub open spec fn laplacian_entry(g: Graph, i: int, j: int) -> LaplacianEntry {
    LaplacianEntry {
        num: ((if i == j {
            g.degree_of(i)
        } else {
            0
        }) - g.entry(i, j)) as i128,
        den: (g.degree_of(i) * g.degree_of(j)) as u128,
    }
}

/// The entry equals exactly 1.
pub open spec fn is_one(e: LaplacianEntry) -> bool {
    e.num > 0 && e.num * e.num == e.den
}

/// The entry equals exactly `-w / d`.
pub open spec fn is_neg_ratio(e: LaplacianEntry, w: int, d: int) -> bool {
    e.num == -w && e.den == d * d
}

/// Number of the first `k` entries of `s` that equal `side`.
pub open spec fn count_side(s: Seq<Side>, side: Side, k: int) -> int
    decreases k,
{
    if k <= 0 {
        0
    } else {
        count_side(s, side, k - 1) + (if s[k - 1] == side {
            1int
        } else {
            0int
        })
    }
}

/// Where a vertex goes when each side is laid out on its own circle.
#[derive(Clone, Copy, Debug, PartialEq, Eq, Structural)]
pub struct Slot {
    pub side: Side,
    /// Position of the vertex among the vertices of its side, by index.
    pub rank: usize,
    /// Number of vertices on that side.
    pub count: usize,
}

/// For a graph whose vertices all have the same degree `d > 0` and whose
/// diagonal is zero, every diagonal entry of the normalized Laplacian is
/// exactly `1 - 0 = 1`, and entry `(i, j)` off the diagonal is `-A[i][j] / d`.
pub proof fn lemma_regular_laplacian(g: Graph, d: int)
    requires
        g.wf(),
        d > 0,
        forall|i: int| 0 <= i < g.size() ==> g.entry(i, i) == 0,
        forall|i: int| 0 <= i < g.size() ==> g.degree_of(i) == d,
    ensures
        forall|i: int| 0 <= i < g.size() ==> is_one(#[trigger] laplacian_entry(g, i, i)),
        forall|i: int, j: int|
            0 <= i < g.size() && 0 <= j < g.size() && i != j ==> is_neg_ratio(
                #[trigger] laplacian_entry(g, i, j),
                g.entry(i, j) as int,
                d,
            ),
{
    if g.size() > 0 {
        assert(g.adj@[0]@.len() == g.size());
        lemma_row_sum_bound(g.adj@[0]@, g.size() as int);
        assert(g.degree_of(0) == d);
        lemma_degree_square_fits(d, g.size() as int);
    }
}

proof fn lemma_degree_square_fits(d: int, n: int)
    requires
        0 <= d <= n * (u32::MAX as int),
        0 <= n <= u32::MAX,
    ensures
        d <= u64::MAX,
        d * d <= u128::MAX,
{
    assert(n * (u32::MAX as int) <= (u32::MAX as int) * (u32::MAX as int)) by (nonlinear_arith)
        requires
            0 <= n <= u32::MAX,
    ;
    assert(d * d <= (u64::MAX as int) * (u64::MAX as int)) by (nonlinear_arith)
        requires
            0 <= d <= u64::MAX,
    ;
}

/// Builds the normalized Laplacian `D^{-1/2} (D - A) D^{-1/2}` entry by entry,
/// exactly. Fails on the first vertex of degree zero.
pub fn normalized_laplacian(g: &Graph) -> (r: Result<Vec<Vec<LaplacianEntry>>, SpectralError>)
    requires
        g.wf(),
    ensures
        r.is_ok() <==> forall|i: int| 0 <= i < g.size() ==> #[trigger] g.degree_of(i) > 0,
        r matches Err(e) ==> exists|i: int|
            0 <= i < g.size() && e == SpectralError::DegenerateVertex(i as usize) && g.degree_of(i) == 0
                && forall|k: int| 0 <= k < i ==> #[trigger] g.degree_of(k) > 0,
        r matches Ok(m) ==> m@.len() == g.size() && forall|i: int|
            0 <= i < g.size() ==> (#[trigger] m@[i])@.len() == g.size() && forall|j: int|
                0 <= j < g.size() ==> #[trigger] m@[i]@[j] == laplacian_entry(*g, i, j),
{
    let n = g.num_vertices();
    let mut deg: Vec<u64> = Vec::new();
    let mut i: usize = 0;
    while i < n
        invariant
            g.wf(),
            n == g.size(),
            i <= n,
            deg@.len() == i,
            forall|k: int| 0 <= k < i ==> deg@[k] == #[trigger] g.degree_of(k) && deg@[k] > 0,
        decreases n - i,
    {
        let d = g.degree(i);
        if d == 0 {
            return Err(SpectralError::DegenerateVertex(i));
        }
        let ghost old_deg = deg@;
        deg.push(d);
        proof {
            assert forall|k: int| 0 <= k < i + 1 implies deg@[k] == #[trigger] g.degree_of(k) && deg@[k]
                > 0 by {
                if k < i {
                    assert(deg@[k] == old_deg[k]);
                }
            }
        }
        i += 1;
    }
    let mut m: Vec<Vec<LaplacianEntry>> = Vec::new();
    let mut i: usize = 0;
    while i < n
        invariant
            g.wf(),
            n == g.size(),
            i <= n,
            deg@.len() == n,
            forall|k: int| 0 <= k < n ==> deg@[k] == #[trigger] g.degree_of(k) && deg@[k] > 0,
            m@.len() == i,
            forall|a: int|
                0 <= a < i ==> (#[trigger] m@[a])@.len() == n && forall|j: int|
                    0 <= j < n ==> #[trigger] m@[a]@[j] == laplacian_entry(*g, a, j),
        decreases n - i,
    {
        let mut row: Vec<LaplacianEntry> = Vec::new();
        let mut j: usize = 0;
        while j < n
            invariant
                g.wf(),
                n == g.size(),
                i < n,
                j <= n,
                deg@.len() == n,
                forall|k: int| 0 <= k < n ==> deg@[k] == #[trigger] g.degree_of(k) && deg@[k] > 0,
                row@.len() == j,
                forall|c: int| 0 <= c < j ==> #[trigger] row@[c] == laplacian_entry(*g, i as int, c),
            decreases n - j,
        {
            let di = deg[i];
            let dj = deg[j];
            let w = g.adj[i][j];
            proof {
                assert(di as int * dj as int <= u128::MAX) by (nonlinear_arith)
                    requires
                        di <= u64::MAX,
                        dj <= u64::MAX,
                ;
            }
            let num: i128 = if i == j {
                di as i128 - w as i128
            } else {
                0 - w as i128
            };
            row.push(LaplacianEntry { num, den: di as u128 * dj as u128 });
            j += 1;
        }
        m.push(row);
        i += 1;
    }
    Ok(m)
}

/// Whether the binary32 value with bits `b` is below zero.
pub fn is_negative(b: u32) -> (r: bool)
    ensures
        r == is_negative_bits(b),
{
    b > 0x8000_0000 && b - 0x8000_0000 <= 0x7F80_0000
}

fn rank_of(b: u32) -> (r: i64)
    ensures
        r == f32_rank(b),
{
    if b >= 0x8000_0000 {
        -((b - 0x8000_0000) as i64)
    } else {
        b as i64
    }
}

fn before(vals: &Vec<u32>, a: usize, b: usize) -> (r: bool)
    requires
        a < vals@.len(),
        b < vals@.len(),
    ensures
        r == sorts_before(vals@, a as int, b as int),
{
    let ra = rank_of(vals[a]);
    let rb = rank_of(vals[b]);
    ra < rb || (ra == rb && a < b)
}

/// Splits vertices by the sign of their Fiedler entries: strictly negative
/// entries go to the first side, all others (zero included) to the second.
pub fn bisect(fiedler: &Vec<u32>) -> (r: Vec<Side>)
    ensures
        r@.len() == fiedler@.len(),
        forall|i: int| 0 <= i < r@.len() ==> r@[i] == side_of(#[trigger] fiedler@[i]),
{
    let mut out: Vec<Side> = Vec::new();
    let mut i: usize = 0;
    while i < fiedler.len()
        invariant
            i <= fiedler@.len(),
            out@.len() == i,
            forall|k: int| 0 <= k < i ==> out@[k] == side_of(#[trigger] fiedler@[k]),
        decreases fiedler@.len() - i,
    {
        if is_negative(fiedler[i]) {
            out.push(Side::First);
        } else {
            out.push(Side::Second);
        }
        i += 1;
    }
    out
}

/// Index of the eigenvalue at position 1 of the stable ascending sort of the
/// eigenvalues: the column of the Fiedler vector. Fails when there are fewer
/// than two eigenvalues or one of them is NaN.
pub fn fiedler_column(eigenvalues: &Vec<u32>) -> (r: Result<usize, SpectralError>)
    ensures
        eigenvalues@.len() < 2 ==> r == Err::<usize, SpectralError>(SpectralError::TooFewVertices),
        eigenvalues@.len() >= 2 ==> (r == Err::<usize, SpectralError>(SpectralError::Eigendecomposition)
            <==> exists|i: int| 0 <= i < eigenvalues@.len() && is_nan_bits(#[trigger] eigenvalues@[i])),
        r.is_ok() <==> eigenvalues@.len() >= 2 && forall|i: int|
            0 <= i < eigenvalues@.len() ==> !is_nan_bits(#[trigger] eigenvalues@[i]),
        r matches Ok(k) ==> sorted_second(eigenvalues@, k as int),
{
    let n = eigenvalues.len();
    if n < 2 {
        return Err(SpectralError::TooFewVertices);
    }
    let mut i: usize = 0;
    while i < n
        invariant
            n == eigenvalues@.len(),
            n >= 2,
            i <= n,
            forall|k: int| 0 <= k < i ==> !is_nan_bits(#[trigger] eigenvalues@[k]),
        decreases n - i,
    {
        let b = eigenvalues[i];
        if b % 0x8000_0000 > 0x7F80_0000 {
            return Err(SpectralError::Eigendecomposition);
        }
        i += 1;
    }
    let mut first: usize = 0;
    let mut j: usize = 1;
    while j < n
        invariant
            n == eigenvalues@.len(),
            1 <= j <= n,
            first < j,
            forall|k: int| 0 <= k < j && k != first ==> sorts_before(eigenvalues@, first as int, k),
        decreases n - j,
    {
        if before(eigenvalues, j, first) {
            proof {
                assert forall|k: int| 0 <= k < j && k != j implies sorts_before(eigenvalues@, j as int, k) by {
                    if k != first {
                        assert(sorts_before(eigenvalues@, first as int, k));
                    }
                }
            }
            first = j;
        }
        j += 1;
    }
    let mut second: usize = if first == 0 {
        1
    } else {
        0
    };
    let mut j: usize = 0;
    while j < n
        invariant
            n == eigenvalues@.len(),
            sorted_first(eigenvalues@, first as int),
            j <= n,
            second < n,
            second != first,
            forall|k: int|
                0 <= k < j && k != first && k != second ==> sorts_before(eigenvalues@, second as int, k),
        decreases n - j,
    {
        if j != first && before(eigenvalues, j, second) {
            proof {
                assert forall|k: int| 0 <= k < j && k != first && k != j implies sorts_before(
                    eigenvalues@,
                    j as int,
                    k,
                ) by {
                    if k != second {
                        assert(sorts_before(eigenvalues@, second as int, k));
                    }
                }
            }
            second = j;
        }
        j += 1;
    }
    assert(sorted_first(eigenvalues@, first as int));
    Ok(second)
}

/// Bisects by the Fiedler vector chosen from a solver's output:
/// `eigenvectors[c]` is the eigenvector of `eigenvalues[c]`. The column at
/// position 1 of the stable ascending sort of the eigenvalues is split by
/// sign. Fails as `fiedler_column` does.
pub fn partition_from_eigen(eigenvalues: &Vec<u32>, eigenvectors: &Vec<Vec<u32>>) -> (r: Result<
    Vec<Side>,
    SpectralError,
>)
    requires
        eigenvectors@.len() == eigenvalues@.len(),
    ensures
        eigenvalues@.len() < 2 ==> r == Err::<Vec<Side>, SpectralError>(SpectralError::TooFewVertices),
        eigenvalues@.len() >= 2 ==> (r == Err::<Vec<Side>, SpectralError>(
            SpectralError::Eigendecomposition,
        ) <==> exists|i: int| 0 <= i < eigenvalues@.len() && is_nan_bits(#[trigger] eigenvalues@[i])),
        r.is_ok() <==> eigenvalues@.len() >= 2 && forall|i: int|
            0 <= i < eigenvalues@.len() ==> !is_nan_bits(#[trigger] eigenvalues@[i]),
        r matches Ok(sides) ==> exists|k: int|
            #![trigger sorted_second(eigenvalues@, k)]
            sorted_second(eigenvalues@, k) && sides@.len() == eigenvectors@[k]@.len() && forall|v: int|
                0 <= v < sides@.len() ==> #[trigger] sides@[v] == side_of(eigenvectors@[k]@[v]),
{
    match fiedler_column(eigenvalues) {
        Ok(k) => {
            let sides = bisect(&eigenvectors[k]);
            assert(sorted_second(eigenvalues@, k as int));
            Ok(sides)
        },
        Err(e) => Err(e),
    }
}

/// Places each vertex on the circle of its side: its rank among the
/// vertices of that side, by index, and the number of them.
pub fn partition_slots(sides: &Vec<Side>) -> (r: Vec<Slot>)
    ensures
        r@.len() == sides@.len(),
        forall|v: int|
            0 <= v < r@.len() ==> (#[trigger] r@[v]).side == sides@[v] && r@[v].rank == count_side(
                sides@,
                sides@[v],
                v,
            ) && r@[v].count == count_side(sides@, sides@[v], sides@.len() as int),
{
    let n = sides.len();
    let mut firsts: usize = 0;
    let mut i: usize = 0;
    while i < n
        invariant
            n == sides@.len(),
            i <= n,
            firsts == count_side(sides@, Side::First, i as int),
            count_side(sides@, Side::First, i as int) + count_side(sides@, Side::Second, i as int) == i,
        decreases n - i,
    {
        proof {
            lemma_count_side_bounds(sides@, Side::First, i as int);
            lemma_count_side_bounds(sides@, Side::Second, i as int);
        }
        if sides[i] == Side::First {
            firsts += 1;
        }
        i += 1;
    }
    proof {
        lemma_count_side_bounds(sides@, Side::Second, n as int);
    }
    let seconds = n - firsts;
    let mut out: Vec<Slot> = Vec::new();
    let mut seen_first: usize = 0;
    let mut seen_second: usize = 0;
    let mut i: usize = 0;
    while i < n
        invariant
            n == sides@.len(),
            i <= n,
            out@.len() == i,
            firsts == count_side(sides@, Side::First, n as int),
            seconds == count_side(sides@, Side::Second, n as int),
            seen_first == count_side(sides@, Side::First, i as int),
            seen_second == count_side(sides@, Side::Second, i as int),
            seen_first + seen_second == i,
            forall|v: int|
                0 <= v < i ==> (#[trigger] out@[v]).side == sides@[v] && out@[v].rank == count_side(
                    sides@,
                    sides@[v],
                    v,
                ) && out@[v].count == count_side(sides@, sides@[v], n as int),
        decreases n - i,
    {
        proof {
            lemma_count_side_mono(sides@, Side::First, i as int, n as int);
            lemma_count_side_mono(sides@, Side::Second, i as int, n as int);
            lemma_count_side_mono(sides@, Side::First, i + 1, n as int);
            lemma_count_side_mono(sides@, Side::Second, i + 1, n as int);
        }
        if sides[i] == Side::First {
            out.push(Slot { side: Side::First, rank: seen_first, count: firsts });
            seen_first += 1;
        } else {
            out.push(Slot { side: Side::Second, rank: seen_second, count: seconds });
            seen_second += 1;
        }
        i += 1;
    }
    out
}

proof fn lemma_count_side_bounds(s: Seq<Side>, side: Side, k: int)
    requires
        0 <= k,
    ensures
        0 <= count_side(s, side, k) <= k,
    decreases k,
{
    if k > 0 {
        lemma_count_side_bounds(s, side, k - 1);
    }
}

proof fn lemma_count_side_mono(s: Seq<Side>, side: Side, a: int, b: int)
    requires
        0 <= a <= b,
    ensures
        0 <= count_side(s, side, a) <= count_side(s, side, b),
    decreases b,
{
    lemma_count_side_bounds(s, side, a);
    if b > a {
        lemma_count_side_mono(s, side, a, b - 1);
    }
}

} // verus!
