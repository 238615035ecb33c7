//! Adjacency-matrix graph model and edge derivation.
use vstd::prelude::*;

verus! {

/// An edge between two vertex indices.
#[derive(Clone, Copy, Debug, PartialEq, Eq, Structural)]
pub struct Edge {
    pub start: usize,
    pub end: usize,
}

/// Why a graph could not be built.
#[derive(Clone, Copy, Debug, PartialEq, Eq, Structural)]
pub enum GraphError {
    /// A row's length differs from the number of rows.
    RaggedRow(usize),
    /// An adjacency list names a vertex that does not exist.
    IndexOutOfRange(usize),
    /// Vertex `i` lists `j` but `j` does not list `i`.
    Asymmetric(usize, usize),
}

/// A graph given by its square matrix of nonnegative integer weights.
/// Row `i`, column `j` holds the weight of the connection from `i` to `j`;
/// zero means no connection.
pub struct Graph {
    pub adj: Vec<Vec<u32>>,
}

/// Sum of the first `j` entries of a row.
pub open spec fn row_sum(row: Seq<u32>, j: int) -> int
    decreases j,
{
    if j <= 0 {
        0
    } else {
        row_sum(row, j - 1) + row[j - 1]
    }
}

/// Edges of row `i` among its first `j` columns: nonzero off-diagonal entries,
/// in column order.
pub open spec fn row_edges(row: Seq<u32>, i: int, j: int) -> Seq<Edge>
    decreases j,
{
    if j <= 0 {
        seq![]
    } else if row[j - 1] != 0 && i != j - 1 {
        row_edges(row, i, j - 1).push(Edge { start: i as usize, end: (j - 1) as usize })
    } else {
        row_edges(row, i, j - 1)
    }
}

/// Edges of the first `i` rows of a matrix, scanned row-major.
pub open spec fn edges_through(m: Seq<Seq<u32>>, i: int) -> Seq<Edge>
    decreases i,
{
    if i <= 0 {
        seq![]
    } else {
        edges_through(m, i - 1) + row_edges(m[i - 1], i - 1, m[i - 1].len() as int)
    }
}

/// A row sum lies between zero and `j` times the largest weight.
pub proof fn lemma_row_sum_bound(row: Seq<u32>, j: int)
    requires
        0 <= j <= row.len(),
    ensures
        0 <= row_sum(row, j) <= j * (u32::MAX as int),
    decreases j,
{
    if j > 0 {
        lemma_row_sum_bound(row, j - 1);
    }
}

impl Graph {
    /// The matrix as a sequence of rows.
    pub open spec fn matrix(&self) -> Seq<Seq<u32>> {
        self.adj@.map_values(|r: Vec<u32>| r@)
    }

    pub open spec fn size(&self) -> nat {
        self.adj@.len()
    }

    pub open spec fn entry(&self, i: int, j: int) -> u32 {
        self.adj@[i]@[j]
    }

    /// The matrix is square, and small enough that a degree fits in `u64`.
    pub open spec fn wf(&self) -> bool {
        &&& self.size() <= u32::MAX
        &&& forall|i: int| 0 <= i < self.size() ==> (#[trigger] self.adj@[i])@.len() == self.size()
    }

    pub open spec fn symmetric(&self) -> bool {
        forall|i: int, j: int|
            0 <= i < self.size() && 0 <= j < self.size() ==> self.entry(i, j) == self.entry(j, i)
    }

    /// Degree of vertex `i`: the sum of its row.
    pub open spec fn degree_of(&self, i: int) -> int {
        row_sum(self.adj@[i]@, self.size() as int)
    }

    /// Every edge of the graph, in row-major order: one record per nonzero
    /// off-diagonal entry, so a symmetric matrix yields each edge in both
    /// directions.
    pub open spec fn edge_list(&self) -> Seq<Edge> {
        edges_through(self.matrix(), self.size() as int)
    }

    /// Builds a graph from its rows; fails on the first row whose length
    /// differs from the number of rows. Symmetry is not required here.
    pub fn from_matrix(adj: Vec<Vec<u32>>) -> (r: Result<Graph, GraphError>)
        requires
            adj@.len() <= u32::MAX,
        ensures
            match r {
                Ok(g) => g.adj@ == adj@ && g.wf(),
                Err(e) => exists|i: int|
                    0 <= i < adj@.len() && adj@[i]@.len() != adj@.len() && e == GraphError::RaggedRow(
                        i as usize,
                    ),
            },
            r.is_ok() <==> forall|i: int| 0 <= i < adj@.len() ==> (#[trigger] adj@[i])@.len() == adj@.len(),
    {
        let n = adj.len();
        let mut i: usize = 0;
        while i < n
            invariant
                n == adj@.len(),
                i <= n,
                forall|k: int| 0 <= k < i ==> (#[trigger] adj@[k])@.len() == n,
            decreases n - i,
        {
            if adj[i].len() != n {
                return Err(GraphError::RaggedRow(i));
            }
            i += 1;
        }
        Ok(Graph { adj })
    }

    /// Builds the 0/1 matrix of adjacency lists: entry `(i, j)` is 1 exactly
    /// when list `i` names `j`. Fails on an index out of range, then on a pair
    /// named in one direction only.
    pub fn from_adjacency_list(lists: &Vec<Vec<usize>>) -> (r: Result<Graph, GraphError>)
        requires
            lists@.len() <= u32::MAX,
        ensures
            r.is_err() <==> (exists|i: int, k: int|
                0 <= i < lists@.len() && 0 <= k < lists@[i]@.len() && lists@[i]@[k] >= lists@.len())
                || (exists|i: int, j: int|
                0 <= i < lists@.len() && 0 <= j < lists@.len() && lists@[i]@.contains(j as usize)
                    && !lists@[j]@.contains(i as usize)),
            r matches Err(GraphError::Asymmetric(_, _)) ==> forall|i: int, k: int|
                0 <= i < lists@.len() && 0 <= k < lists@[i]@.len() ==> lists@[i]@[k] < lists@.len(),
            r matches Err(GraphError::IndexOutOfRange(j)) ==> j >= lists@.len() && exists|i: int|
                0 <= i < lists@.len() && lists@[i]@.contains(j),
            match r {
                Ok(g) => {
                    &&& g.wf()
                    &&& g.size() == lists@.len()
                    &&& g.symmetric()
                    &&& forall|i: int, j: int|
                        0 <= i < g.size() && 0 <= j < g.size() ==> g.entry(i, j) == (if lists@[i]@.contains(
                            j as usize,
                        ) {
                            1u32
                        } else {
                            0u32
                        })
                },
                Err(GraphError::Asymmetric(i, j)) => {
                    &&& i < lists@.len() && j < lists@.len()
                    &&& lists@[i as int]@.contains(j)
                    &&& !lists@[j as int]@.contains(i)
                },
                Err(GraphError::IndexOutOfRange(_)) => true,
                Err(GraphError::RaggedRow(_)) => false,
            },
    {
        let n = lists.len();
        let mut adj: Vec<Vec<u32>> = Vec::new();
        let mut i: usize = 0;
        while i < n
            invariant
                n == lists@.len(),
                i <= n,
                adj@.len() == i,
                forall|a: int, k: int|
                    0 <= a < i && 0 <= k < lists@[a]@.len() ==> lists@[a]@[k] < n,
                forall|a: int| 0 <= a < i ==> (#[trigger] adj@[a])@.len() == n,
                forall|a: int, j: int|
                    0 <= a < i && 0 <= j < n ==> adj@[a]@[j] == (if lists@[a]@.contains(j as usize) {
                        1u32
                    } else {
                        0u32
                    }),
            decreases n - i,
        {
            let list = &lists[i];
            let mut row: Vec<u32> = Vec::new();
            let mut j: usize = 0;
            while j < n
                invariant
                    j <= n,
                    row@.len() == j,
                    forall|c: int| 0 <= c < j ==> row@[c] == 0u32,
                decreases n - j,
            {
                row.push(0);
                j += 1;
            }
            let mut k: usize = 0;
            while k < list.len()
                invariant
                    n == lists@.len(),
                    i < n,
                    list@ == lists@[i as int]@,
                    k <= list@.len(),
                    row@.len() == n,
                    forall|c: int| 0 <= c < k ==> list@[c] < n,
                    forall|j: int|
                        0 <= j < n ==> row@[j] == (if list@.subrange(0, k as int).contains(j as usize) {
                            1u32
                        } else {
                            0u32
                        }),
                decreases list@.len() - k,
            {
                let j = list[k];
                if j >= n {
                    proof {
                        assert(lists@[i as int]@[k as int] >= lists@.len());
                    }
                    return Err(GraphError::IndexOutOfRange(j));
                }
                row.set(j, 1);
                proof {
                    let s = list@.subrange(0, k as int);
                    let t = list@.subrange(0, k + 1);
                    assert(t == s.push(j));
                    assert forall|c: int| 0 <= c < n implies row@[c] == (if t.contains(c as usize) {
                        1u32
                    } else {
                        0u32
                    }) by {
                        if c == j {
                            assert(t[k as int] == j);
                        } else if s.contains(c as usize) {
                            let w = choose|w: int| 0 <= w < s.len() && s[w] == c as usize;
                            assert(t[w] == c as usize);
                        } else {
                            assert forall|w: int| 0 <= w < t.len() implies t[w] != c as usize by {
                                if w < k {
                                    assert(t[w] == s[w]);
                                }
                            }
                        }
                    }
                }
                k += 1;
            }
            proof {
                assert(list@.subrange(0, list@.len() as int) == list@);
            }
            adj.push(row);
            i += 1;
        }
        let g = Graph { adj };
        match g.find_asymmetry() {
            None => {
                proof {
                    assert forall|a: int, b: int|
                        0 <= a < n && 0 <= b < n && lists@[a]@.contains(b as usize) implies lists@[b]@.contains(
                        a as usize,
                    ) by {
                        assert(g.entry(a, b) == g.entry(b, a));
                    }
                }
                Ok(g)
            },
            Some((a, b)) => {
                if g.adj[a][b] == 1 {
                    Err(GraphError::Asymmetric(a, b))
                } else {
                    Err(GraphError::Asymmetric(b, a))
                }
            },
        }
    }

    /// The first pair `(a, b)`, row-major, whose entry differs from its
    /// transpose, or `None` when the matrix is symmetric.
    pub fn find_asymmetry(&self) -> (r: Option<(usize, usize)>)
        requires
            self.wf(),
        ensures
            r.is_none() == self.symmetric(),
            r matches Some((a, b)) ==> a < self.size() && b < self.size() && self.entry(a as int, b as int)
                != self.entry(b as int, a as int),
    {
        let n = self.adj.len();
        let mut i: usize = 0;
        while i < n
            invariant
                self.wf(),
                n == self.size(),
                i <= n,
                forall|a: int, b: int| 0 <= a < i && 0 <= b < n ==> self.entry(a, b) == self.entry(b, a),
            decreases n - i,
        {
            let mut j: usize = 0;
            while j < n
                invariant
                    self.wf(),
                    n == self.size(),
                    i < n,
                    j <= n,
                    forall|a: int, b: int| 0 <= a < i && 0 <= b < n ==> self.entry(a, b) == self.entry(b, a),
                    forall|b: int| 0 <= b < j ==> self.entry(i as int, b) == self.entry(b, i as int),
                decreases n - j,
            {
                if self.adj[i][j] != self.adj[j][i] {
                    assert(self.entry(i as int, j as int) != self.entry(j as int, i as int));
                    return Some((i, j));
                }
                j += 1;
            }
            i += 1;
        }
        None
    }

    /// Whether the matrix equals its transpose.
    pub fn is_symmetric(&self) -> (r: bool)
        requires
            self.wf(),
        ensures
            r == self.symmetric(),
    {
        self.find_asymmetry().is_none()
    }

    pub fn num_vertices(&self) -> (r: usize)
        ensures
            r == self.size(),
    {
        self.adj.len()
    }

    /// Degree of vertex `i`: the sum of row `i`.
    pub fn degree(&self, i: usize) -> (r: u64)
        requires
            self.wf(),
            i < self.size(),
        ensures
            r == self.degree_of(i as int),
    {
        let row = &self.adj[i];
        let n = row.len();
        let mut sum: u64 = 0;
        let mut j: usize = 0;
        while j < n
            invariant
                self.wf(),
                row@ == self.adj@[i as int]@,
                n == row@.len(),
                n == self.size(),
                j <= n,
                sum == row_sum(row@, j as int),
            decreases n - j,
        {
            proof {
                lemma_row_sum_bound(row@, j as int);
                assert(j * (u32::MAX as int) <= (u32::MAX as int) * (u32::MAX as int)) by (nonlinear_arith)
                    requires
                        j < u32::MAX,
                ;
            }
            sum = sum + row[j] as u64;
            j += 1;
        }
        sum
    }

    /// Derives the edge records of the matrix: one per nonzero off-diagonal
    /// entry, scanned row by row, column by column.
    pub fn edges(&self) -> (r: Vec<Edge>)
        requires
            self.wf(),
        ensures
            r@ == self.edge_list(),
    {
        let n = self.adj.len();
        let mut out: Vec<Edge> = Vec::new();
        let mut i: usize = 0;
        while i < n
            invariant
                self.wf(),
                n == self.size(),
                i <= n,
                out@ == edges_through(self.matrix(), i as int),
            decreases n - i,
        {
            let row = &self.adj[i];
            let mut j: usize = 0;
            while j < n
                invariant
                    self.wf(),
                    n == self.size(),
                    i < n,
                    row@ == self.adj@[i as int]@,
                    row@.len() == n,
                    j <= n,
                    out@ == edges_through(self.matrix(), i as int) + row_edges(row@, i as int, j as int),
                decreases n - j,
            {
                if row[j] != 0 && i != j {
                    out.push(Edge { start: i, end: j });
                }
                proof {
                    let prev = edges_through(self.matrix(), i as int);
                    assert(prev + row_edges(row@, i as int, j + 1) =~= out@);
                }
                j += 1;
            }
            proof {
                assert(self.matrix()[i as int] == row@);
            }
            i += 1;
        }
        out
    }
}

} // verus!
