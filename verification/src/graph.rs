//! An adjacency-matrix graph with depth-first and breadth-first traversal.
//!
//! A `Matrix` stores signed edge weights in row-major order; a `Graph` is a
//! square matrix whose nonzero entries are directed edges.

use vstd::prelude::*;
use vstd::set_lib::lemma_int_range;
use vstd::set_lib::lemma_len_subset;
use vstd::set_lib::set_int_range;

verus! {

/// Error returned by matrix and graph accessors.
#[derive(Clone, Copy, Debug, PartialEq, Eq, Structural)]
pub enum GraphError {
    /// A row, column or vertex index lay outside the matrix.
    OutOfBounds,
}

/// Builds a vector of `n` copies of `x`.
fn filled<T: Copy>(x: T, n: usize) -> (v: Vec<T>)
    ensures
        v@.len() == n,
        forall|j: int| 0 <= j < n ==> v@[j] == x,
{
    let mut v: Vec<T> = Vec::new();
    let mut i: usize = 0;
    while i < n
        invariant
            i <= n,
            v@.len() == i,
            forall|j: int| 0 <= j < i ==> v@[j] == x,
        decreases n - i,
    {
        v.push(x);
        i += 1;
    }
    v
}

/// A sequence of distinct values below `n` has at most `n` elements.
proof fn lemma_distinct_bounded_len(s: Seq<usize>, n: int)
    requires
        s.no_duplicates(),
        forall|j: int| 0 <= j < s.len() ==> (#[trigger] s[j] as int) < n,
        0 <= n,
    ensures
        s.len() <= n,
{
    let f = |v: usize| v as int;
    assert(vstd::relations::injective(f)) by {
        assert(forall|x: usize, y: usize| #[trigger] f(x) == #[trigger] f(y) ==> x == y);
    }
    s.lemma_no_duplicates_injective(f);
    let t = s.map_values(f);
    t.unique_seq_to_set();
    assert(t.to_set().subset_of(set_int_range(0, n))) by {
        assert(forall|y: int| #[trigger] t.to_set().contains(y) ==> t.contains(y));
        assert(forall|j: int| 0 <= j < t.len() ==> 0 <= #[trigger] t[j] < n);
    }
    lemma_int_range(0, n);
    lemma_len_subset(t.to_set(), set_int_range(0, n));
}

/// Membership in a pushed sequence.
proof fn lemma_push_contains<A>(s: Seq<A>, x: A, y: A)
    ensures
        s.push(x).contains(y) <==> (s.contains(y) || y == x),
{
    if s.contains(y) {
        let i = choose|i: int| 0 <= i < s.len() && s[i] == y;
        assert(s.push(x)[i] == y);
    }
    if y == x {
        assert(s.push(x)[s.len() as int] == y);
    }
    if s.push(x).contains(y) {
        let i = choose|i: int| 0 <= i < s.push(x).len() && s.push(x)[i] == y;
        if i < s.len() {
            assert(s[i] == y);
        }
    }
}

/// A row-major position lies within the matrix.
proof fn lemma_row_major(r: int, c: int, h: int, w: int)
    by (nonlinear_arith)
    requires
        0 <= r < h,
        0 <= c < w,
    ensures
        0 <= r * w + c < h * w,
{
}

/// Distinct rows or columns give distinct row-major positions.
proof fn lemma_row_major_inj(r1: int, c1: int, r2: int, c2: int, w: int)
    by (nonlinear_arith)
    requires
        0 <= r1,
        0 <= c1 < w,
        0 <= r2,
        0 <= c2 < w,
        r1 * w + c1 == r2 * w + c2,
    ensures
        r1 == r2 && c1 == c2,
{
}

/// A rectangular store of signed values, addressed by row and column.
pub trait Matrix: Sized {
    /// The stored values are consistent with the stated dimensions.
    spec fn m_wf(&self) -> bool;

    /// Number of rows.
    spec fn rows(&self) -> int;

    /// Number of columns.
    spec fn cols(&self) -> int;

    /// The value at row `r`, column `c`.
    spec fn entry(&self, r: int, c: int) -> i64;

    /// A matrix of the given dimensions with every entry zero.
    fn zero(row: usize, col: usize) -> (m: Self)
        requires
            row * col <= usize::MAX,
        ensures
            m.m_wf(),
            m.rows() == row,
            m.cols() == col,
            forall|r: int, c: int| 0 <= r < row && 0 <= c < col ==> m.entry(r, c) == 0,
    ;

    /// The number of rows.
    fn height(&self) -> (h: usize)
        requires
            self.m_wf(),
        ensures
            h as int == self.rows(),
    ;

    /// The number of columns.
    fn width(&self) -> (w: usize)
        requires
            self.m_wf(),
        ensures
            w as int == self.cols(),
    ;

    /// The entry at `(row, col)`, or `OutOfBounds` when either index is too
    /// large.
    fn at(&self, row: usize, col: usize) -> (r: Result<i64, GraphError>)
        requires
            self.m_wf(),
        ensures
            (row as int) < self.rows() && (col as int) < self.cols() ==> r == Ok::<
                i64,
                GraphError,
            >(self.entry(row as int, col as int)),
            !((row as int) < self.rows() && (col as int) < self.cols()) ==> r == Err::<
                i64,
                GraphError,
            >(GraphError::OutOfBounds),
    ;

    /// Writes `val` at `(row, col)` and returns it, or `OutOfBounds` without
    /// changing anything when either index is too large.
    fn set(&mut self, row: usize, col: usize, val: i64) -> (r: Result<i64, GraphError>)
        requires
            old(self).m_wf(),
        ensures
            final(self).m_wf(),
            final(self).rows() == old(self).rows(),
            final(self).cols() == old(self).cols(),
            (row as int) < old(self).rows() && (col as int) < old(self).cols() ==> {
                &&& r == Ok::<i64, GraphError>(val)
                &&& final(self).entry(row as int, col as int) == val
                &&& forall|r2: int, c2: int|
                    0 <= r2 < old(self).rows() && 0 <= c2 < old(self).cols() && !(r2 == row && c2
                        == col) ==> final(self).entry(r2, c2) == old(self).entry(r2, c2)
            },
            !((row as int) < old(self).rows() && (col as int) < old(self).cols()) ==> r == Err::<
                i64,
                GraphError,
            >(GraphError::OutOfBounds) && *final(self) == *old(self),
    ;
}

/// A directed graph over vertices `0 .. order`, with edges carrying signed
/// values; a zero value means no edge.
pub trait Graph: Sized {
    /// The representation is consistent and square.
    spec fn g_wf(&self) -> bool;

    /// The number of vertices.
    spec fn order(&self) -> int;

    /// The value of the edge from `x` to `y`; zero means absent.
    spec fn edge(&self, x: int, y: int) -> i64;

    /// A graph with `vertices` vertices and no edges.
    fn new(vertices: usize) -> (g: Self)
        requires
            vertices * vertices <= usize::MAX,
        ensures
            g.g_wf(),
            g.order() == vertices,
            forall|x: int, y: int| 0 <= x < vertices && 0 <= y < vertices ==> g.edge(x, y) == 0,
    ;

    /// Whether an edge from `x` to `y` is present.
    fn adjacent(&self, x: usize, y: usize) -> (r: Result<bool, GraphError>)
        requires
            self.g_wf(),
        ensures
            (x as int) < self.order() && (y as int) < self.order() ==> r == Ok::<
                bool,
                GraphError,
            >(self.edge(x as int, y as int) != 0),
            !((x as int) < self.order() && (y as int) < self.order()) ==> r == Err::<
                bool,
                GraphError,
            >(GraphError::OutOfBounds),
    ;

    /// The vertices that `x` has an edge to, in increasing order.
    fn neighbors(&self, x: usize) -> (r: Vec<usize>)
        requires
            self.g_wf(),
            (x as int) < self.order(),
        ensures
            r@.len() <= self.order(),
            forall|j: int|
                0 <= j < r@.len() ==> (#[trigger] r@[j] as int) < self.order() && self.edge(
                    x as int,
                    r@[j] as int,
                ) != 0,
            forall|y: int|
                0 <= y < self.order() && #[trigger] self.edge(x as int, y) != 0 ==> exists|j: int|
                    0 <= j < r@.len() && #[trigger] r@[j] as int == y,
            forall|j1: int, j2: int| 0 <= j1 < j2 < r@.len() ==> r@[j1] < r@[j2],
    ;

    /// Adds an edge from `x` to `y` carrying `val`.
    fn add(&mut self, x: usize, y: usize, val: i64) -> (r: Result<i64, GraphError>)
        requires
            old(self).g_wf(),
        ensures
            final(self).g_wf(),
            final(self).order() == old(self).order(),
            (x as int) < old(self).order() && (y as int) < old(self).order() ==> {
                &&& r == Ok::<i64, GraphError>(val)
                &&& final(self).edge(x as int, y as int) == val
                &&& forall|x2: int, y2: int|
                    0 <= x2 < old(self).order() && 0 <= y2 < old(self).order() && !(x2 == x && y2
                        == y) ==> final(self).edge(x2, y2) == old(self).edge(x2, y2)
            },
            !((x as int) < old(self).order() && (y as int) < old(self).order()) ==> r == Err::<
                i64,
                GraphError,
            >(GraphError::OutOfBounds) && *final(self) == *old(self),
    ;

    /// Removes the edge from `x` to `y`.
    fn delete(&mut self, x: usize, y: usize) -> (r: Result<i64, GraphError>)
        requires
            old(self).g_wf(),
        ensures
            final(self).g_wf(),
            final(self).order() == old(self).order(),
            (x as int) < old(self).order() && (y as int) < old(self).order() ==> {
                &&& r == Ok::<i64, GraphError>(0)
                &&& final(self).edge(x as int, y as int) == 0
                &&& forall|x2: int, y2: int|
                    0 <= x2 < old(self).order() && 0 <= y2 < old(self).order() && !(x2 == x && y2
                        == y) ==> final(self).edge(x2, y2) == old(self).edge(x2, y2)
            },
            !((x as int) < old(self).order() && (y as int) < old(self).order()) ==> r == Err::<
                i64,
                GraphError,
            >(GraphError::OutOfBounds) && *final(self) == *old(self),
    ;

    /// The value on the edge from `x` to `y`.
    fn get_edge_value(&self, x: usize, y: usize) -> (r: Result<i64, GraphError>)
        requires
            self.g_wf(),
        ensures
            (x as int) < self.order() && (y as int) < self.order() ==> r == Ok::<
                i64,
                GraphError,
            >(self.edge(x as int, y as int)),
            !((x as int) < self.order() && (y as int) < self.order()) ==> r == Err::<
                i64,
                GraphError,
            >(GraphError::OutOfBounds),
    ;

    /// Writes `val` on the edge from `x` to `y`.
    fn set_edge_value(&mut self, x: usize, y: usize, val: i64) -> (r: Result<i64, GraphError>)
        requires
            old(self).g_wf(),
        ensures
            final(self).g_wf(),
            final(self).order() == old(self).order(),
            (x as int) < old(self).order() && (y as int) < old(self).order() ==> {
                &&& r == Ok::<i64, GraphError>(val)
                &&& final(self).edge(x as int, y as int) == val
                &&& forall|x2: int, y2: int|
                    0 <= x2 < old(self).order() && 0 <= y2 < old(self).order() && !(x2 == x && y2
                        == y) ==> final(self).edge(x2, y2) == old(self).edge(x2, y2)
            },
            !((x as int) < old(self).order() && (y as int) < old(self).order()) ==> r == Err::<
                i64,
                GraphError,
            >(GraphError::OutOfBounds) && *final(self) == *old(self),
    ;

    /// The vertices reachable by the depth-first walk from `start`, in visit
    /// order: the visited set is closed under edges and every visited vertex
    /// other than `start` has an edge from an earlier visited one.
    fn depth_first_search(&self, start: usize) -> (r: Vec<usize>)
        requires
            self.g_wf(),
            (start as int) < self.order(),
        ensures
            r@.no_duplicates(),
            r@.len() >= 1 && r@[0] == start,
            forall|j: int| 0 <= j < r@.len() ==> (#[trigger] r@[j] as int) < self.order(),
            forall|j: int|
                #![trigger r@[j]]
                1 <= j < r@.len() ==> exists|i: int|
                    #![trigger r@[i]]
                    0 <= i < j && self.edge(r@[i] as int, r@[j] as int) != 0,
            forall|i: int, y: int|
                0 <= i < r@.len() && 0 <= y < self.order() && #[trigger] self.edge(r@[i] as int, y)
                    != 0 ==> r@.contains(y as usize),
    ;

    /// The vertices reachable by the breadth-first walk from `start`, in visit
    /// order: the visited set is closed under edges and every visited vertex
    /// other than `start` has an edge from an earlier visited one.
    fn breadth_first_search(&self, start: usize) -> (r: Vec<usize>)
        requires
            self.g_wf(),
            (start as int) < self.order(),
        ensures
            r@.no_duplicates(),
            r@.len() >= 1 && r@[0] == start,
            forall|j: int| 0 <= j < r@.len() ==> (#[trigger] r@[j] as int) < self.order(),
            forall|j: int|
                #![trigger r@[j]]
                1 <= j < r@.len() ==> exists|i: int|
                    #![trigger r@[i]]
                    0 <= i < j && self.edge(r@[i] as int, r@[j] as int) != 0,
            forall|i: int, y: int|
                0 <= i < r@.len() && 0 <= y < self.order() && #[trigger] self.edge(r@[i] as int, y)
                    != 0 ==> r@.contains(y as usize),
    ;
}

/// A matrix held as one vector in row-major order.
pub struct VectorMatrix {
    elements: Vec<i64>,
    height: usize,
    width: usize,
}

impl Matrix for VectorMatrix {
    closed spec fn m_wf(&self) -> bool {
        self.elements@.len() == self.height * self.width
    }

    closed spec fn rows(&self) -> int {
        self.height as int
    }

    closed spec fn cols(&self) -> int {
        self.width as int
    }

    closed spec fn entry(&self, r: int, c: int) -> i64 {
        self.elements@[r * self.width + c]
    }

    fn zero(row: usize, col: usize) -> (m: Self) {
        let elem: Vec<i64> = filled(0i64, row * col);
        let m = VectorMatrix { elements: elem, height: row, width: col };
        proof {
            assert forall|r: int, c: int| 0 <= r < row && 0 <= c < col implies m.entry(r, c)
                == 0 by {
                lemma_row_major(r, c, row as int, col as int);
            }
        }
        m
    }

    fn height(&self) -> (h: usize) {
        self.height
    }

    fn width(&self) -> (w: usize) {
        self.width
    }

    fn at(&self, row: usize, col: usize) -> (r: Result<i64, GraphError>) {
        if row >= self.height || col >= self.width {
            Err(GraphError::OutOfBounds)
        } else {
            proof {
                lemma_row_major(row as int, col as int, self.height as int, self.width as int);
            }
            let _total = self.elements.len();
            Ok(self.elements[row * self.width + col])
        }
    }

    fn set(&mut self, row: usize, col: usize, val: i64) -> (r: Result<i64, GraphError>) {
        if row >= self.height || col >= self.width {
            Err(GraphError::OutOfBounds)
        } else {
            proof {
                lemma_row_major(row as int, col as int, self.height as int, self.width as int);
            }
            let _total = self.elements.len();
            let idx = row * self.width + col;
            self.elements[idx] = val;
            proof {
                let w = self.width as int;
                assert forall|r2: int, c2: int|
                    0 <= r2 < old(self).rows() && 0 <= c2 < old(self).cols() && !(r2 == row && c2
                        == col) implies self.entry(r2, c2) == old(self).entry(r2, c2) by {
                    lemma_row_major(r2, c2, self.height as int, w);
                    if r2 * w + c2 == row * w + col {
                        lemma_row_major_inj(r2, c2, row as int, col as int, w);
                    }
                }
            }
            Ok(val)
        }
    }
}

impl Graph for VectorMatrix {
    open spec fn g_wf(&self) -> bool {
        self.m_wf() && self.rows() == self.cols()
    }

    open spec fn order(&self) -> int {
        self.cols()
    }

    open spec fn edge(&self, x: int, y: int) -> i64 {
        self.entry(x, y)
    }

    fn new(vertices: usize) -> (g: Self) {
        Matrix::zero(vertices, vertices)
    }

    fn adjacent(&self, x: usize, y: usize) -> (r: Result<bool, GraphError>) {
        match self.at(x, y) {
            Ok(n) => Ok(n != 0),
            Err(e) => Err(e),
        }
    }

    fn neighbors(&self, x: usize) -> (r: Vec<usize>) {
        let w = self.width;
        let mut adj: Vec<usize> = Vec::new();
        let mut c: usize = 0;
        while c < w
            invariant
                self.g_wf(),
                c <= w,
                w as int == self.order(),
                (x as int) < self.order(),
                adj@.len() <= c,
                forall|j: int|
                    #![trigger adj@[j]]
                    0 <= j < adj@.len() ==> (adj@[j] as int) < c && self.edge(
                        x as int,
                        adj@[j] as int,
                    ) != 0,
                forall|y: int|
                    0 <= y < c && #[trigger] self.edge(x as int, y) != 0 ==> exists|j: int|
                        #![trigger adj@[j]]
                        0 <= j < adj@.len() && adj@[j] as int == y,
                forall|j1: int, j2: int| 0 <= j1 < j2 < adj@.len() ==> adj@[j1] < adj@[j2],
            decreases w - c,
        {
            proof {
                lemma_row_major(x as int, c as int, self.height as int, self.width as int);
            }
            let total = self.elements.len();
            let v = self.elements[x * w + c];
            let ghost prev = adj@;
            if v != 0 {
                adj.push(c);
            }
            proof {
                assert forall|y: int|
                    0 <= y < c + 1 && #[trigger] self.edge(x as int, y) != 0 implies exists|j: int|
                    #![trigger adj@[j]]
                    0 <= j < adj@.len() && adj@[j] as int == y by {
                    if y == c {
                        assert(adj@[adj@.len() - 1] as int == y);
                    } else {
                        let j = choose|j: int| 0 <= j < prev.len() && prev[j] as int == y;
                        assert(adj@[j] as int == y);
                    }
                }
            }
            c += 1;
        }
        adj
    }

    fn add(&mut self, x: usize, y: usize, val: i64) -> (r: Result<i64, GraphError>) {
        self.set(x, y, val)
    }

    fn delete(&mut self, x: usize, y: usize) -> (r: Result<i64, GraphError>) {
        self.set(x, y, 0)
    }

    fn get_edge_value(&self, x: usize, y: usize) -> (r: Result<i64, GraphError>) {
        self.at(x, y)
    }

    fn set_edge_value(&mut self, x: usize, y: usize, val: i64) -> (r: Result<i64, GraphError>) {
        self.set(x, y, val)
    }
    fn depth_first_search(&self, start: usize) -> (r: Vec<usize>) {
        let n = self.width();
        let mut visited: Vec<bool> = filled(false, n);
        let mut order_v: Vec<usize> = Vec::new();
        let mut stack: Vec<usize> = Vec::new();
        stack.push(start);
        proof {
            assert(stack@ =~= seq![start]);
        }
        while stack.len() != 0
            invariant
                self.g_wf(),
                n as int == self.order(),
                self.search_inv(n, start, visited@, order_v@, stack@),
            decreases n - order_v@.len(), stack@.len(),
        {
            self.dfs_step(n, start, &mut visited, &mut order_v, &mut stack);
        }
        proof {
            self.lemma_search_done(n, start, visited@, order_v@, stack@);
        }
        order_v
    }

    fn breadth_first_search(&self, start: usize) -> (r: Vec<usize>) {
        let n = self.width();
        let mut visited: Vec<bool> = filled(false, n);
        let mut order_v: Vec<usize> = Vec::new();
        let mut queue: Vec<usize> = Vec::new();
        queue.push(start);
        proof {
            assert(queue@ =~= seq![start]);
        }
        while queue.len() != 0
            invariant
                self.g_wf(),
                n as int == self.order(),
                self.search_inv(n, start, visited@, order_v@, queue@),
            decreases n - order_v@.len(), queue@.len(),
        {
            self.bfs_step(n, start, &mut visited, &mut order_v, &mut queue);
        }
        proof {
            self.lemma_search_done(n, start, visited@, order_v@, queue@);
        }
        order_v
    }
}

impl VectorMatrix {
    /// Invariant of the graph traversals: `visited` marks exactly the vertices
    /// in `order_v`, every visited vertex other than `start` has an edge from
    /// an earlier visited one, and every edge out of a visited vertex leads to
    /// a visited vertex or to one still on the work list.
    spec fn search_inv(
        &self,
        n: usize,
        start: usize,
        visited: Seq<bool>,
        order_v: Seq<usize>,
        work: Seq<usize>,
    ) -> bool {
        &&& visited.len() == n
        &&& (start as int) < n
        &&& forall|j: int| #![trigger work[j]] 0 <= j < work.len() ==> (work[j] as int) < n
        &&& forall|j: int|
            #![trigger order_v[j]]
            0 <= j < order_v.len() ==> (order_v[j] as int) < n
        &&& order_v.no_duplicates()
        &&& order_v.len() <= n
        &&& forall|v: usize|
            #![trigger order_v.contains(v)]
            (v as int) < n ==> (visited[v as int] <==> order_v.contains(v))
        &&& (order_v.len() == 0 ==> work == seq![start])
        &&& (order_v.len() > 0 ==> order_v[0] == start)
        &&& forall|j: int|
            #![trigger order_v[j]]
            1 <= j < order_v.len() ==> exists|i: int|
                #![trigger order_v[i]]
                0 <= i < j && self.edge(order_v[i] as int, order_v[j] as int) != 0
        &&& forall|j: int|
            #![trigger work[j]]
            0 <= j < work.len() ==> (work[j] == start || exists|i: int|
                #![trigger order_v[i]]
                0 <= i < order_v.len() && self.edge(order_v[i] as int, work[j] as int) != 0)
        &&& forall|i: int, y: int|
            0 <= i < order_v.len() && 0 <= y < n && #[trigger] self.edge(order_v[i] as int, y) != 0
                ==> visited[y] || work.contains(y as usize)
    }

    /// The traversal invariant right after a vertex has been taken off the
    /// work list but before it has been visited.
    spec fn search_inv_mid(
        &self,
        n: usize,
        start: usize,
        current: usize,
        visited: Seq<bool>,
        order_v: Seq<usize>,
        work: Seq<usize>,
    ) -> bool {
        &&& visited.len() == n
        &&& (start as int) < n
        &&& (current as int) < n
        &&& forall|j: int| #![trigger work[j]] 0 <= j < work.len() ==> (work[j] as int) < n
        &&& forall|j: int|
            #![trigger order_v[j]]
            0 <= j < order_v.len() ==> (order_v[j] as int) < n
        &&& order_v.no_duplicates()
        &&& order_v.len() <= n
        &&& forall|v: usize|
            #![trigger order_v.contains(v)]
            (v as int) < n ==> (visited[v as int] <==> order_v.contains(v))
        &&& (order_v.len() == 0 ==> current == start && work.len() == 0)
        &&& (order_v.len() > 0 ==> order_v[0] == start)
        &&& (current == start || exists|i: int|
            #![trigger order_v[i]]
            0 <= i < order_v.len() && self.edge(order_v[i] as int, current as int) != 0)
        &&& forall|j: int|
            #![trigger order_v[j]]
            1 <= j < order_v.len() ==> exists|i: int|
                #![trigger order_v[i]]
                0 <= i < j && self.edge(order_v[i] as int, order_v[j] as int) != 0
        &&& forall|j: int|
            #![trigger work[j]]
            0 <= j < work.len() ==> (work[j] == start || exists|i: int|
                #![trigger order_v[i]]
                0 <= i < order_v.len() && self.edge(order_v[i] as int, work[j] as int) != 0)
        &&& forall|i: int, y: int|
            0 <= i < order_v.len() && 0 <= y < n && #[trigger] self.edge(order_v[i] as int, y) != 0
                ==> visited[y] || work.contains(y as usize) || y == current as int
    }

    /// When the work list is empty the visited set is closed under edges.
    proof fn lemma_search_done(
        &self,
        n: usize,
        start: usize,
        visited: Seq<bool>,
        order_v: Seq<usize>,
        work: Seq<usize>,
    )
        requires
            self.g_wf(),
            n as int == self.order(),
            work.len() == 0,
            self.search_inv(n, start, visited, order_v, work),
        ensures
            order_v.no_duplicates(),
            order_v.len() >= 1 && order_v[0] == start,
            forall|j: int| #![trigger order_v[j]] 0 <= j < order_v.len() ==> (order_v[j] as int) < n,
            forall|j: int|
                #![trigger order_v[j]]
                1 <= j < order_v.len() ==> exists|i: int|
                    #![trigger order_v[i]]
                    0 <= i < j && self.edge(order_v[i] as int, order_v[j] as int) != 0,
            forall|i: int, y: int|
                0 <= i < order_v.len() && 0 <= y < n && #[trigger] self.edge(order_v[i] as int, y)
                    != 0 ==> order_v.contains(y as usize),
    {
        assert(order_v.len() >= 1) by {
            if order_v.len() == 0 {
                assert(work == seq![start]);
                assert(work.len() == 1);
            }
        }
        assert forall|i: int, y: int|
            0 <= i < order_v.len() && 0 <= y < n && #[trigger] self.edge(order_v[i] as int, y)
                != 0 implies order_v.contains(y as usize) by {
            assert(visited[y] || work.contains(y as usize));
            assert(!work.contains(y as usize));
            assert(visited[y as usize as int]);
        }
    }

    /// The traversal invariant once `current` has been visited but before its
    /// neighbors have been put on the work list.
    spec fn search_inv_marked(
        &self,
        n: usize,
        start: usize,
        current: usize,
        visited: Seq<bool>,
        order_v: Seq<usize>,
        work: Seq<usize>,
    ) -> bool {
        &&& visited.len() == n
        &&& (start as int) < n
        &&& (current as int) < n
        &&& forall|j: int| #![trigger work[j]] 0 <= j < work.len() ==> (work[j] as int) < n
        &&& forall|j: int|
            #![trigger order_v[j]]
            0 <= j < order_v.len() ==> (order_v[j] as int) < n
        &&& order_v.no_duplicates()
        &&& order_v.len() <= n
        &&& forall|v: usize|
            #![trigger order_v.contains(v)]
            (v as int) < n ==> (visited[v as int] <==> order_v.contains(v))
        &&& order_v.len() >= 1
        &&& order_v[order_v.len() - 1] == current
        &&& order_v[0] == start
        &&& visited[current as int]
        &&& forall|j: int|
            #![trigger order_v[j]]
            1 <= j < order_v.len() ==> exists|i: int|
                #![trigger order_v[i]]
                0 <= i < j && self.edge(order_v[i] as int, order_v[j] as int) != 0
        &&& forall|j: int|
            #![trigger work[j]]
            0 <= j < work.len() ==> (work[j] == start || exists|i: int|
                #![trigger order_v[i]]
                0 <= i < order_v.len() && self.edge(order_v[i] as int, work[j] as int) != 0)
        &&& forall|i: int, y: int|
            0 <= i < order_v.len() - 1 && 0 <= y < n && #[trigger] self.edge(order_v[i] as int, y)
                != 0 ==> visited[y] || work.contains(y as usize)
    }

    /// Visits `current`: appends it to the visit order and marks it.
    fn search_mark(
        &self,
        n: usize,
        start: usize,
        current: usize,
        visited: &mut Vec<bool>,
        order_v: &mut Vec<usize>,
        work: &Vec<usize>,
    )
        requires
            self.g_wf(),
            n as int == self.order(),
            !old(visited)@[current as int],
            self.search_inv_mid(n, start, current, old(visited)@, old(order_v)@, work@),
        ensures
            self.search_inv_marked(n, start, current, final(visited)@, final(order_v)@, work@),
            final(order_v)@ == old(order_v)@.push(current),
    {
        let ghost old_order = order_v@;
        order_v.push(current);
        visited[current] = true;
        proof {
            assert(!old_order.contains(current));
            assert(order_v@.no_duplicates()) by {
                assert forall|i: int, j: int|
                    0 <= i < j < order_v@.len() implies order_v@[i] != order_v@[j] by {
                    if j == order_v@.len() - 1 {
                        assert(old_order.contains(old_order[i]));
                    }
                }
            }
            lemma_distinct_bounded_len(order_v@, n as int);
            assert forall|v: usize| (v as int) < n implies (visited@[v as int] <==> order_v@.contains(
                v,
            )) by {
                lemma_push_contains(old_order, current, v);
            }
            assert forall|j: int|
                #![trigger order_v@[j]]
                1 <= j < order_v@.len() implies exists|i: int|
                #![trigger order_v@[i]]
                0 <= i < j && self.edge(order_v@[i] as int, order_v@[j] as int) != 0 by {
                if j == order_v@.len() - 1 {
                    assert(current != start);
                    let i = choose|i: int|
                        0 <= i < old_order.len() && self.edge(
                            #[trigger] old_order[i] as int,
                            current as int,
                        ) != 0;
                    assert(order_v@[i] == old_order[i]);
                } else {
                    let i = choose|i: int|
                        0 <= i < j && self.edge(
                            #[trigger] old_order[i] as int,
                            old_order[j] as int,
                        ) != 0;
                    assert(order_v@[i] == old_order[i]);
                }
            }
            assert forall|j: int|
                #![trigger work@[j]]
                0 <= j < work@.len() implies (work@[j] == start || exists|i: int|
                #![trigger order_v@[i]]
                0 <= i < order_v@.len() && self.edge(order_v@[i] as int, work@[j] as int)
                    != 0) by {
                if work@[j] != start {
                    let i = choose|i: int|
                        0 <= i < old_order.len() && self.edge(
                            #[trigger] old_order[i] as int,
                            work@[j] as int,
                        ) != 0;
                    assert(order_v@[i] == old_order[i]);
                }
            }
            assert forall|i: int, y: int|
                0 <= i < order_v@.len() - 1 && 0 <= y < n && #[trigger] self.edge(
                    order_v@[i] as int,
                    y,
                ) != 0 implies visited@[y] || work@.contains(y as usize) by {
                assert(order_v@[i] == old_order[i]);
                if y == current as int {
                    assert(visited@[y]);
                }
            }
        }
    }

    /// Puts the neighbors of the freshly visited `current` on the back of the
    /// work list, restoring the traversal invariant.
    fn search_push_neighbors(
        &self,
        n: usize,
        start: usize,
        current: usize,
        visited: &Vec<bool>,
        order_v: &Vec<usize>,
        work: &mut Vec<usize>,
    )
        requires
            self.g_wf(),
            n as int == self.order(),
            self.search_inv_marked(n, start, current, visited@, order_v@, old(work)@),
        ensures
            self.search_inv(n, start, visited@, order_v@, final(work)@),
    {
        let neigh = self.neighbors(current);
        let mut k: usize = 0;
        while k < neigh.len()
            invariant
                self.g_wf(),
                n as int == self.order(),
                (start as int) < n as int,
                visited@.len() == n,
                (current as int) < n as int,
                order_v@.len() >= 1,
                order_v@[order_v@.len() - 1] == current,
                visited@[current as int],
                k <= neigh@.len(),
                neigh@.len() <= n as int,
                forall|j: int|
                    #![trigger neigh@[j]]
                    0 <= j < neigh@.len() ==> (neigh@[j] as int) < n && self.edge(
                        current as int,
                        neigh@[j] as int,
                    ) != 0,
                forall|j: int| #![trigger work@[j]] 0 <= j < work@.len() ==> (work@[j] as int) < n,
                forall|j: int|
                    #![trigger order_v@[j]]
                    0 <= j < order_v@.len() ==> (order_v@[j] as int) < n,
                order_v@.no_duplicates(),
                order_v@.len() <= n,
                forall|v: usize|
                    #![trigger order_v@.contains(v)]
                    (v as int) < n ==> (visited@[v as int] <==> order_v@.contains(v)),
                order_v@[0] == start,
                forall|j: int|
                    #![trigger order_v@[j]]
                    1 <= j < order_v@.len() ==> exists|i: int|
                        #![trigger order_v@[i]]
                        0 <= i < j && self.edge(order_v@[i] as int, order_v@[j] as int) != 0,
                forall|j: int|
                    #![trigger work@[j]]
                    0 <= j < work@.len() ==> (work@[j] == start || exists|i: int|
                        #![trigger order_v@[i]]
                        0 <= i < order_v@.len() && self.edge(order_v@[i] as int, work@[j] as int)
                            != 0),
                forall|i: int, y: int|
                    0 <= i < order_v@.len() && 0 <= y < n && #[trigger] self.edge(
                        order_v@[i] as int,
                        y,
                    ) != 0 ==> visited@[y] || work@.contains(y as usize) || (i == order_v@.len() - 1
                        && exists|j: int|
                    #![trigger neigh@[j]]
                    k <= j < neigh@.len() && neigh@[j] as int == y),
            decreases neigh@.len() - k,
        {
            let ghost prev_work = work@;
            work.push(neigh[k]);
            proof {
                assert forall|i: int, y: int|
                    0 <= i < order_v@.len() && 0 <= y < n && #[trigger] self.edge(
                        order_v@[i] as int,
                        y,
                    ) != 0 implies visited@[y] || work@.contains(y as usize) || (i == order_v@.len()
                    - 1 && exists|j: int|
                    #![trigger neigh@[j]]
                    k + 1 <= j < neigh@.len() && neigh@[j] as int == y) by {
                    lemma_push_contains(prev_work, neigh@[k as int], y as usize);
                }
            }
            k += 1;
        }
    }

    /// One step of the depth-first walk: pop the top of the stack and, if
    /// unvisited, visit it.
    fn dfs_step(
        &self,
        n: usize,
        start: usize,
        visited: &mut Vec<bool>,
        order_v: &mut Vec<usize>,
        stack: &mut Vec<usize>,
    )
        requires
            self.g_wf(),
            n as int == self.order(),
            old(stack)@.len() > 0,
            self.search_inv(n, start, old(visited)@, old(order_v)@, old(stack)@),
        ensures
            self.search_inv(n, start, final(visited)@, final(order_v)@, final(stack)@),
            final(order_v)@.len() > old(order_v)@.len() || (final(order_v)@ == old(order_v)@
                && final(stack)@.len() < old(stack)@.len()),
    {
        let ghost old_stack = stack@;
        let ghost old_order = order_v@;
        let current = stack.pop().unwrap();
        if !visited[current] {
            proof {
                if old_order.len() == 0 {
                    assert(old_stack == seq![start]);
                    assert(current == old_stack[0]);
                    assert(stack@ =~= Seq::<usize>::empty());
                }
                assert forall|i: int, y: int|
                    0 <= i < order_v@.len() && 0 <= y < n && #[trigger] self.edge(
                        order_v@[i] as int,
                        y,
                    ) != 0 implies visited@[y] || stack@.contains(y as usize) || y
                    == current as int by {
                    if !visited@[y] {
                        let idx = choose|idx: int|
                            0 <= idx < old_stack.len() && old_stack[idx] == y as usize;
                        if idx == old_stack.len() - 1 {
                            assert(y as usize == current);
                        } else {
                            assert(stack@[idx] == y as usize);
                        }
                    }
                }
            }
            self.search_mark(n, start, current, visited, order_v, stack);
            self.search_push_neighbors(n, start, current, visited, order_v, stack);
        } else {
            proof {
                assert(order_v@.contains(current));
                assert(order_v@.len() > 0);
                assert forall|i: int, y: int|
                    0 <= i < order_v@.len() && 0 <= y < n && #[trigger] self.edge(
                        order_v@[i] as int,
                        y,
                    ) != 0 implies visited@[y] || stack@.contains(y as usize) by {
                    if !visited@[y] {
                        let idx = choose|idx: int|
                            0 <= idx < old_stack.len() && old_stack[idx] == y as usize;
                        if idx == old_stack.len() - 1 {
                            assert(y as usize == current);
                        } else {
                            assert(stack@[idx] == y as usize);
                        }
                    }
                }
            }
        }
    }

    /// One step of the breadth-first walk: take the front of the queue and, if
    /// unvisited, visit it.
    fn bfs_step(
        &self,
        n: usize,
        start: usize,
        visited: &mut Vec<bool>,
        order_v: &mut Vec<usize>,
        queue: &mut Vec<usize>,
    )
        requires
            self.g_wf(),
            n as int == self.order(),
            old(queue)@.len() > 0,
            self.search_inv(n, start, old(visited)@, old(order_v)@, old(queue)@),
        ensures
            self.search_inv(n, start, final(visited)@, final(order_v)@, final(queue)@),
            final(order_v)@.len() > old(order_v)@.len() || (final(order_v)@ == old(order_v)@
                && final(queue)@.len() < old(queue)@.len()),
    {
        let ghost old_queue = queue@;
        let ghost old_order = order_v@;
        let current = queue.remove(0);
        proof {
            assert(current == old_queue[0]);
            assert(queue@ =~= old_queue.subrange(1, old_queue.len() as int));
        }
        if !visited[current] {
            proof {
                if old_order.len() == 0 {
                    assert(old_queue == seq![start]);
                    assert(current == old_queue[0]);
                    assert(queue@ =~= Seq::<usize>::empty());
                }
                assert forall|i: int, y: int|
                    0 <= i < order_v@.len() && 0 <= y < n && #[trigger] self.edge(
                        order_v@[i] as int,
                        y,
                    ) != 0 implies visited@[y] || queue@.contains(y as usize) || y
                    == current as int by {
                    if !visited@[y] {
                        let idx = choose|idx: int|
                            0 <= idx < old_queue.len() && old_queue[idx] == y as usize;
                        if idx == 0 {
                            assert(y as usize == current);
                        } else {
                            assert(queue@[idx - 1] == y as usize);
                        }
                    }
                }
            }
            self.search_mark(n, start, current, visited, order_v, queue);
            self.search_push_neighbors(n, start, current, visited, order_v, queue);
        } else {
            proof {
                assert(order_v@.contains(current));
                assert(order_v@.len() > 0);
                assert forall|i: int, y: int|
                    0 <= i < order_v@.len() && 0 <= y < n && #[trigger] self.edge(
                        order_v@[i] as int,
                        y,
                    ) != 0 implies visited@[y] || queue@.contains(y as usize) by {
                    if !visited@[y] {
                        let idx = choose|idx: int|
                            0 <= idx < old_queue.len() && old_queue[idx] == y as usize;
                        if idx == 0 {
                            assert(y as usize == current);
                        } else {
                            assert(queue@[idx - 1] == y as usize);
                        }
                    }
                }
            }
        }
    }
}

} // verus!
