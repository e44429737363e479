//! A growable, dense-matrix weighted graph over an arbitrary node payload.
//!
//! Nodes are append-only; a node's id is its insertion index. Edges live in a
//! flattened row-major matrix of optional weights that is kept at exactly
//! `n * n` entries for `n` nodes. On every append the matrix is grown in
//! place: the buffer is extended by `n*n - (n-1)*(n-1)` empty cells and the
//! old cells are re-placed from the highest index down, which opens a
//! one-cell gap at the end of each old row without a second full-size buffer.

use vstd::arithmetic::div_mod::lemma_div_is_ordered;
use vstd::arithmetic::div_mod::lemma_fundamental_div_mod;
use vstd::arithmetic::div_mod::lemma_fundamental_div_mod_converse;
use vstd::prelude::*;

verus! {

/// Error raised by every graph operation that is handed a node id at or
/// beyond the current node count.
#[derive(Clone, Copy, Debug, PartialEq, Eq, Structural)]
pub enum GraphError {
    IndexOutOfRange,
}

/// A stored node: the caller's payload plus a persistent visited marker.
///
/// The marker is not consulted by the search over the graph, which keeps its
/// own visited record; it is merely settable state a caller may use.
pub struct Node<T> {
    /// The payload this node was appended with.
    pub element: T,
    /// The visited marker; starts unset on every appended node.
    pub visited: bool,
}

impl<T> Node<T> {
    /// Sets the visited marker; the payload is untouched.
    pub fn set_visited(&mut self)
        ensures
            final(self).visited,
            final(self).element == old(self).element,
    {
        self.visited = true;
    }
}

/// In a row-major matrix with `n` columns, a cell index below `n * n`
/// determines its row and column.
pub(crate) proof fn lemma_flat_index_injective(n: int, u: int, v: int, f: int, t: int)
    requires
        n > 0,
        0 <= u,
        0 <= f,
        0 <= v < n,
        0 <= t < n,
        u * n + v == f * n + t,
    ensures
        u == f,
        v == t,
{
    lemma_fundamental_div_mod_converse(u * n + v, n, u, v);
    lemma_fundamental_div_mod_converse(f * n + t, n, f, t);
}

/// A row-major cell index lies inside the matrix.
proof fn lemma_flat_index_bound(n: int, u: int, v: int)
    requires
        0 <= u < n,
        0 <= v < n,
    ensures
        0 <= u * n + v < n * n,
{
    assert(0 <= u * n + v < n * n) by (nonlinear_arith)
        requires
            0 <= u < n,
            0 <= v < n,
    ;
}

/// The new flat index of the old cell at flat index `i`, once the matrix of
/// `m` columns has been re-laid with `m + 1` columns: one gap per completed
/// old row shifts the cell by its old row number.
spec fn moved_to(m: int, i: int) -> int {
    i + i / m
}

/// The destination of a move stays inside the extended buffer, at or past
/// its source.
proof fn lemma_moved_to_bounds(m: int, i: int)
    requires
        m >= 1,
        0 <= i < m * m,
    ensures
        0 <= i / m < m,
        i <= moved_to(m, i) < (m + 1) * (m + 1),
{
    lemma_fundamental_div_mod(i, m);
    assert(0 <= i / m < m) by (nonlinear_arith)
        requires
            m >= 1,
            0 <= i < m * m,
            i == m * (i / m) + (i % m),
            0 <= i % m < m,
    ;
    assert(i + i / m < (m + 1) * (m + 1)) by (nonlinear_arith)
        requires
            i < m * m,
            0 <= i / m < m,
            m >= 1,
    ;
}

/// Moving is strictly monotone in the source index, so distinct sources get
/// distinct destinations and later sources land strictly further right.
proof fn lemma_moved_to_mono(m: int, i: int, j: int)
    requires
        m >= 1,
        0 <= i < j,
    ensures
        moved_to(m, i) < moved_to(m, j),
{
    lemma_div_is_ordered(i, j, m);
}

/// The matrix mid-states of the in-place growth, counted down: `regrown(base,
/// m, k)` is the buffer after every old cell with flat index `k` or above has
/// been moved from its old place `i` (in the `m`-column layout) to its new
/// place `moved_to(m, i)` (in the `m+1`-column layout), the vacated places
/// cleared. `base` is the buffer right after the extension by empty cells;
/// `k == 0` is the finished growth.
spec fn regrown(base: Seq<Option<isize>>, m: int, k: int) -> Seq<Option<isize>>
    decreases m * m - k,
{
    if k < 0 || k >= m * m {
        base
    } else {
        let s = regrown(base, m, k + 1);
        let q = k / m;
        let s2 = s.update(k + q, s[k]);
        if q > 0 {
            s2.update(k, None)
        } else {
            s2
        }
    }
}

/// What each mid-state of the growth holds: cells not yet moved are still in
/// their old places, moved cells sit at their new places, and every other
/// place is empty.
proof fn lemma_regrown_char(base: Seq<Option<isize>>, m: int, k: int)
    requires
        m >= 1,
        base.len() == (m + 1) * (m + 1),
        0 <= k <= m * m,
        forall|p: int| m * m <= p < base.len() ==> base[p] is None,
    ensures
        regrown(base, m, k).len() == base.len(),
        forall|i: int| k <= i < m * m ==> #[trigger] regrown(base, m, k)[moved_to(m, i)] == base[i],
        forall|p: int| 0 <= p < k ==> #[trigger] regrown(base, m, k)[p] == base[p],
        forall|p: int|
            k <= p < base.len() && !(exists|i: int| k <= i < m * m && p == #[trigger] moved_to(m, i))
                ==> #[trigger] regrown(base, m, k)[p] is None,
    decreases m * m - k,
{
    assert(m * m < (m + 1) * (m + 1)) by (nonlinear_arith)
        requires
            m >= 1,
    ;
    if k == m * m {
        // Nothing moved yet: the buffer is the extended base itself, whose
        // tail beyond the old cells is empty by assumption.
        assert(regrown(base, m, k) == base);
    } else {
        lemma_regrown_char(base, m, k + 1);
        lemma_moved_to_bounds(m, k);
        let s = regrown(base, m, k + 1);
        let cur = regrown(base, m, k);
        let q = k / m;
        assert(moved_to(m, k) == k + q);
        assert(s[k] == base[k]);
        assert forall|i: int| k <= i < m * m implies #[trigger] cur[moved_to(m, i)] == base[i] by {
            lemma_moved_to_bounds(m, i);
            if i == k {
                assert(cur[k + q] == s[k]);
            } else {
                lemma_moved_to_mono(m, k, i);
                assert(s[moved_to(m, i)] == base[i]);
                assert(moved_to(m, i) > k + q);
                assert(cur[moved_to(m, i)] == s[moved_to(m, i)]);
            }
        }
        assert forall|p: int| 0 <= p < k implies #[trigger] cur[p] == base[p] by {
            assert(s[p] == base[p]);
        }
        assert forall|p: int|
            k <= p < base.len() && !(exists|i: int| k <= i < m * m && p == #[trigger] moved_to(m, i))
                implies #[trigger] cur[p] is None by {
            assert(p != moved_to(m, k));
            if p == k {
                // Were the quotient zero, `k` would be its own destination,
                // i.e. it would have a preimage; so here it was cleared.
                assert(q > 0);
                assert(cur[p] is None);
            } else {
                assert(p >= k + 1);
                assert(!(exists|i: int|
                    k + 1 <= i < m * m && p == #[trigger] moved_to(m, i)));
                assert(s[p] is None);
                assert(cur[p] == s[p]);
            }
        }
    }
}

/// The finished growth, read as matrix cells: every old cell keeps its value
/// at its new place, and the new last row and last column are empty.
proof fn lemma_regrown_final(base: Seq<Option<isize>>, m: int)
    requires
        m >= 1,
        base.len() == (m + 1) * (m + 1),
        forall|p: int| m * m <= p < base.len() ==> base[p] is None,
    ensures
        regrown(base, m, 0).len() == base.len(),
        forall|u: int, v: int|
            0 <= u < m && 0 <= v < m
                ==> #[trigger] regrown(base, m, 0)[u * (m + 1) + v] == base[u * m + v],
        forall|u: int, v: int|
            0 <= u < m + 1 && 0 <= v < m + 1 && (u == m || v == m)
                ==> #[trigger] regrown(base, m, 0)[u * (m + 1) + v] is None,
{
    lemma_regrown_char(base, m, 0);
    assert forall|u: int, v: int| 0 <= u < m && 0 <= v < m implies #[trigger] regrown(
        base,
        m,
        0,
    )[u * (m + 1) + v] == base[u * m + v] by {
        let i = u * m + v;
        lemma_flat_index_bound(m, u, v);
        lemma_fundamental_div_mod_converse(i, m, u, v);
        assert(moved_to(m, i) == u * (m + 1) + v) by (nonlinear_arith)
            requires
                moved_to(m, i) == i + i / m,
                i == u * m + v,
                i / m == u,
        ;
        assert(regrown(base, m, 0)[moved_to(m, i)] == base[i]);
    }
    assert forall|u: int, v: int|
        0 <= u < m + 1 && 0 <= v < m + 1 && (u == m || v == m) implies #[trigger] regrown(
        base,
        m,
        0,
    )[u * (m + 1) + v] is None by {
        let p = u * (m + 1) + v;
        lemma_flat_index_bound(m + 1, u, v);
        assert(!(exists|i: int| 0 <= i < m * m && p == #[trigger] moved_to(m, i))) by {
            if exists|i: int| 0 <= i < m * m && p == #[trigger] moved_to(m, i) {
                let i = choose|i: int| 0 <= i < m * m && p == #[trigger] moved_to(m, i);
                lemma_fundamental_div_mod(i, m);
                lemma_moved_to_bounds(m, i);
                let q = i / m;
                let rr = i % m;
                assert(p == q * (m + 1) + rr) by (nonlinear_arith)
                    requires
                        p == i + q,
                        i == m * q + rr,
                ;
                lemma_flat_index_injective(m + 1, u, v, q, rr);
            }
        }
    }
}

/// A generic, index-addressed, dense weighted graph.
pub struct Graph<T> {
    nodes: Vec<Node<T>>,
    edges: Vec<Option<isize>>,
}

impl<T> Graph<T> {
    /// The number of nodes, as seen by specifications.
    pub closed spec fn node_count(&self) -> int {
        self.nodes@.len() as int
    }

    /// The node stored under id `i`.
    pub closed spec fn node_at(&self, i: int) -> Node<T> {
        self.nodes@[i]
    }

    /// The matrix cell for the ordered pair `(from, to)`: `Some(weight)` when
    /// the edge is present, `None` when it is absent.
    pub closed spec fn edge_at(&self, from: int, to: int) -> Option<isize> {
        self.edges@[from * self.node_count() + to]
    }

    /// Structural invariant: the flattened matrix holds exactly one cell per
    /// ordered pair of node ids.
    pub closed spec fn wf(&self) -> bool {
        self.edges@.len() == self.node_count() * self.node_count()
    }

    /// How many of the first `upto` cells of row `u` hold an edge.
    pub open spec fn row_present_count(&self, u: int, upto: int) -> int
        decreases upto,
    {
        if upto <= 0 {
            0
        } else {
            self.row_present_count(u, upto - 1) + if self.edge_at(u, upto - 1).is_some() {
                1int
            } else {
                0int
            }
        }
    }

    /// How many cells of the first `rows` full rows hold an edge.
    pub open spec fn present_count_upto(&self, rows: int) -> int
        decreases rows,
    {
        if rows <= 0 {
            0
        } else {
            self.present_count_upto(rows - 1) + self.row_present_count(
                rows - 1,
                self.node_count(),
            )
        }
    }

    /// The number of present entries in the whole matrix.
    pub open spec fn edge_count(&self) -> int {
        self.present_count_upto(self.node_count())
    }

    /// The ids `to < upto` with an edge from `from`, in ascending order.
    pub open spec fn neighbors_upto(&self, from: int, upto: int) -> Seq<usize>
        decreases upto,
    {
        if upto <= 0 {
            Seq::empty()
        } else {
            let rest = self.neighbors_upto(from, upto - 1);
            if self.edge_at(from, upto - 1).is_some() {
                rest.push((upto - 1) as usize)
            } else {
                rest
            }
        }
    }

    /// An empty graph: zero nodes and an empty matrix.
    pub fn new() -> (g: Graph<T>)
        ensures
            g.wf(),
            g.node_count() == 0,
    {
        Graph { nodes: Vec::new(), edges: Vec::new() }
    }

    /// An empty graph, with room reserved for roughly `buf_len` nodes.
    ///
    /// The hint only pre-allocates; the matrix itself always holds exactly
    /// `n * n` cells, so the result is indistinguishable from `new`.
    pub fn new_pre_length(buf_len: usize) -> (g: Graph<T>)
        ensures
            g.wf(),
            g.node_count() == 0,
    {
        Graph { nodes: Vec::with_capacity(buf_len), edges: Vec::new() }
    }

    /// The number of nodes.
    pub fn get_node_amount(&self) -> (n: usize)
        ensures
            n == self.node_count(),
    {
        self.nodes.len()
    }

    /// The node stored under `index`, or `IndexOutOfRange` when no such node
    /// exists.
    pub fn get_node(&self, index: usize) -> (r: Result<&Node<T>, GraphError>)
        ensures
            index < self.node_count() ==> (match r {
                Ok(node) => *node == self.node_at(index as int),
                Err(_) => false,
            }),
            index >= self.node_count() ==> r == Err::<&Node<T>, GraphError>(
                GraphError::IndexOutOfRange,
            ),
    {
        if index < self.nodes.len() {
            Ok(&self.nodes[index])
        } else {
            Err(GraphError::IndexOutOfRange)
        }
    }


    /// The flat matrix index of the ordered pair `(from, to)`.
    fn edge_index(&self, from: usize, to: usize) -> (idx: usize)
        requires
            self.wf(),
            from < self.node_count(),
            to < self.node_count(),
        ensures
            idx == from as int * self.node_count() + to as int,
            idx < self.edges@.len(),
            self.edges@.len() <= usize::MAX,
    {
        let n = self.nodes.len();
        let total = self.edges.len();
        proof {
            lemma_flat_index_bound(n as int, from as int, to as int);
            assert(total as int == n as int * n as int);
        }
        from * n + to
    }

    /// Appends a node and grows the matrix in place from `(n-1) * (n-1)` to
    /// `n * n` cells: every edge between nodes that existed before keeps its
    /// value, and every cell involving the new node starts absent. Returns
    /// the new node's id, its insertion index.
    pub fn add_node(&mut self, element: T) -> (id: usize)
        requires
            old(self).wf(),
            (old(self).node_count() + 1) * (old(self).node_count() + 1) <= usize::MAX,
        ensures
            final(self).wf(),
            id == old(self).node_count(),
            final(self).node_count() == old(self).node_count() + 1,
            forall|i: int|
                0 <= i < old(self).node_count() ==> final(self).node_at(i) == old(self).node_at(i),
            final(self).node_at(old(self).node_count()).element == element,
            !final(self).node_at(old(self).node_count()).visited,
            forall|u: int, v: int|
                0 <= u < old(self).node_count() && 0 <= v < old(self).node_count()
                    ==> final(self).edge_at(u, v) == old(self).edge_at(u, v),
            forall|u: int, v: int|
                0 <= u < final(self).node_count() && 0 <= v < final(self).node_count() && (u == old(
                    self,
                ).node_count() || v == old(self).node_count()) ==> final(self).edge_at(u, v) is None,
    {
        let m = self.nodes.len();
        let ghost mi = m as int;
        let ghost old_edges = self.edges@;
        proof {
            assert(mi + 1 <= (mi + 1) * (mi + 1) && mi * mi < (mi + 1) * (mi + 1))
                by (nonlinear_arith)
                requires
                    mi >= 0,
            ;
        }
        let n = m + 1;
        let ghost ni = n as int;
        self.nodes.push(Node { element, visited: false });
        let ghost new_nodes = self.nodes@;
        let new_len = n * n;
        // Extend the buffer by exactly n*n - m*m empty cells.
        while self.edges.len() < new_len
            invariant
                self.nodes@ == new_nodes,
                mi * mi <= self.edges@.len() <= ni * ni,
                forall|p: int| 0 <= p < mi * mi ==> self.edges@[p] == old_edges[p],
                forall|p: int| mi * mi <= p < self.edges@.len() ==> self.edges@[p] is None,
            decreases ni * ni - self.edges@.len(),
        {
            self.edges.push(None);
        }
        let ghost base = self.edges@;
        // Re-place the old cells from the highest index down; the cell at old
        // flat index r*m + c moves to r*(m+1) + c, a shift of one cell per
        // completed old row, so higher cells are moved before any lower
        // cell's move could overwrite them.
        if m > 0 {
            let mut r = m;
            while r > 0
                invariant
                    self.nodes@ == new_nodes,
                    r <= m,
                    self.edges@ == regrown(base, mi, r as int * mi),
                decreases r,
            {
                r -= 1;
                let mut c = m;
                proof {
                    assert(r as int * mi + mi == (r as int + 1) * mi) by (nonlinear_arith);
                }
                while c > 0
                    invariant
                        self.nodes@ == new_nodes,
                        r < m,
                        c <= m,
                        self.edges@ == regrown(base, mi, r as int * mi + c as int),
                    decreases c,
                {
                    c -= 1;
                    proof {
                        lemma_flat_index_bound(mi, r as int, c as int);
                        lemma_moved_to_bounds(mi, r as int * mi + c as int);
                        assert(r as int * ni + c as int == r as int * mi + c as int + r as int)
                            by (nonlinear_arith)
                            requires
                                ni == mi + 1,
                        ;
                        lemma_fundamental_div_mod_converse(
                            r as int * mi + c as int,
                            mi,
                            r as int,
                            c as int,
                        );
                        lemma_regrown_char(base, mi, r as int * mi + c as int + 1);
                    }
                    let src = r * m + c;
                    let dst = r * n + c;
                    let ghost pre = self.edges@;
                    let v = self.edges[src];
                    self.edges[dst] = v;
                    if r > 0 {
                        self.edges[src] = None;
                    }
                    proof {
                        let k = src as int;
                        assert(pre == regrown(base, mi, k + 1));
                        assert(k / mi == r as int);
                        assert(dst as int == k + k / mi);
                        if r > 0 {
                            assert(self.edges@ == pre.update(k + k / mi, pre[k]).update(k, None));
                        } else {
                            assert(self.edges@ == pre.update(k + k / mi, pre[k]));
                        }
                        assert(self.edges@ == regrown(base, mi, k));
                    }
                }
            }
            proof {
                lemma_regrown_final(base, mi);
            }
        }
        proof {
            if mi == 0 {
                assert(self.edges@ == base);
            }
            assert forall|u: int, v: int|
                0 <= u < ni && 0 <= v < ni && (u == mi || v == mi) implies self.edge_at(
                u,
                v,
            ) is None by {
                lemma_flat_index_bound(ni, u, v);
                assert(self.node_count() == mi + 1);
                if mi == 0 {
                    assert(u == 0 && v == 0);
                    assert(self.edges@[0] is None);
                    assert(self.edge_at(u, v) == self.edges@[0]);
                } else {
                    assert(self.edges@ == regrown(base, mi, 0 * mi));
                    assert(u * ni + v == u * (mi + 1) + v);
                    assert(regrown(base, mi, 0)[u * (mi + 1) + v] is None);
                    assert(self.edge_at(u, v) == self.edges@[u * (mi + 1) + v]);
                    assert(self.edges@[u * (mi + 1) + v] == regrown(base, mi, 0)[u * (mi + 1) + v]);
                }
            }
            assert forall|u: int, v: int|
                0 <= u < mi && 0 <= v < mi implies self.edge_at(u, v) == old(self).edge_at(
                u,
                v,
            ) by {
                lemma_flat_index_bound(mi, u, v);
                assert(self.node_count() == mi + 1);
                assert(self.edges@ == regrown(base, mi, 0 * mi));
                assert(u * ni + v == u * (mi + 1) + v);
                assert(regrown(base, mi, 0)[u * (mi + 1) + v] == base[u * mi + v]);
                assert(base[u * mi + v] == old_edges[u * mi + v]);
                assert(self.edge_at(u, v) == self.edges@[u * (mi + 1) + v]);
                assert(old(self).edge_at(u, v) == old_edges[u * mi + v]);
            }
        }
        m
    }

    /// The ids of the nodes reachable from `from` by a present edge, in
    /// ascending order, or `IndexOutOfRange` when `from` is no node.
    pub fn get_neighbors(&self, from: usize) -> (r: Result<Vec<usize>, GraphError>)
        requires
            self.wf(),
        ensures
            from < self.node_count() ==> (match r {
                Ok(v) => v@ == self.neighbors_upto(from as int, self.node_count()),
                Err(_) => false,
            }),
            from >= self.node_count() ==> r == Err::<Vec<usize>, GraphError>(
                GraphError::IndexOutOfRange,
            ),
    {
        let n = self.nodes.len();
        if from >= n {
            return Err(GraphError::IndexOutOfRange);
        }
        let mut found: Vec<usize> = Vec::new();
        let mut to: usize = 0;
        while to < n
            invariant
                to <= n,
                found@ == self.neighbors_upto(from as int, to as int),
            decreases n - to,
        {
            let idx = self.edge_index(from, to);
            if self.edges[idx].is_some() {
                found.push(to);
            }
            to += 1;
        }
        Ok(found)
    }

    /// The edge from `from` to `to`: `Some(weight)` when present, `None` when
    /// absent, or `IndexOutOfRange` when either id is no node.
    pub fn get_edge(&self, from: usize, to: usize) -> (r: Result<Option<isize>, GraphError>)
        requires
            self.wf(),
        ensures
            from < self.node_count() && to < self.node_count() ==> r == Ok::<
                Option<isize>,
                GraphError,
            >(self.edge_at(from as int, to as int)),
            !(from < self.node_count() && to < self.node_count()) ==> r == Err::<
                Option<isize>,
                GraphError,
            >(GraphError::IndexOutOfRange),
    {
        let n = self.nodes.len();
        if from < n && to < n {
            let idx = self.edge_index(from, to);
            Ok(self.edges[idx])
        } else {
            Err(GraphError::IndexOutOfRange)
        }
    }

    /// Sets exactly the directed edge `(from, to)` to `weight`; the opposite
    /// direction and every other cell are untouched. Fails with
    /// `IndexOutOfRange`, changing nothing, when either id is no node.
    pub fn set_mono_edge(&mut self, from: usize, to: usize, weight: isize) -> (r: Result<
        (),
        GraphError,
    >)
        requires
            old(self).wf(),
        ensures
            final(self).wf(),
            final(self).node_count() == old(self).node_count(),
            forall|i: int|
                0 <= i < old(self).node_count() ==> final(self).node_at(i) == old(self).node_at(i),
            from < old(self).node_count() && to < old(self).node_count() ==> {
                &&& r == Ok::<(), GraphError>(())
                &&& final(self).edge_at(from as int, to as int) == Some(weight)
                &&& forall|u: int, v: int|
                    0 <= u < old(self).node_count() && 0 <= v < old(self).node_count() && !(u
                        == from as int && v == to as int) ==> final(self).edge_at(u, v) == old(
                        self,
                    ).edge_at(u, v)
            },
            !(from < old(self).node_count() && to < old(self).node_count()) ==> {
                &&& r == Err::<(), GraphError>(GraphError::IndexOutOfRange)
                &&& *final(self) == *old(self)
            },
    {
        let n = self.nodes.len();
        if from < n && to < n {
            let idx = self.edge_index(from, to);
            proof {
                lemma_flat_index_bound(n as int, from as int, to as int);
            }
            self.edges[idx] = Some(weight);
            proof {
                assert forall|u: int, v: int|
                    0 <= u < n && 0 <= v < n && !(u == from as int && v == to as int)
                        implies final(self).edge_at(u, v) == old(self).edge_at(u, v) by {
                    lemma_flat_index_bound(n as int, u, v);
                    if u * n + v == idx as int {
                        lemma_flat_index_injective(n as int, u, v, from as int, to as int);
                    }
                }
            }
            Ok(())
        } else {
            Err(GraphError::IndexOutOfRange)
        }
    }

    /// Sets both directed edges between `from` and `to` to `weight`; every
    /// other cell is untouched. Fails with `IndexOutOfRange`, changing
    /// nothing, when either id is no node.
    pub fn set_bi_edge(&mut self, from: usize, to: usize, weight: isize) -> (r: Result<
        (),
        GraphError,
    >)
        requires
            old(self).wf(),
        ensures
            final(self).wf(),
            final(self).node_count() == old(self).node_count(),
            forall|i: int|
                0 <= i < old(self).node_count() ==> final(self).node_at(i) == old(self).node_at(i),
            from < old(self).node_count() && to < old(self).node_count() ==> {
                &&& r == Ok::<(), GraphError>(())
                &&& final(self).edge_at(from as int, to as int) == Some(weight)
                &&& final(self).edge_at(to as int, from as int) == Some(weight)
                &&& forall|u: int, v: int|
                    0 <= u < old(self).node_count() && 0 <= v < old(self).node_count() && !(u
                        == from as int && v == to as int) && !(u == to as int && v == from as int)
                        ==> final(self).edge_at(u, v) == old(self).edge_at(u, v)
            },
            !(from < old(self).node_count() && to < old(self).node_count()) ==> {
                &&& r == Err::<(), GraphError>(GraphError::IndexOutOfRange)
                &&& *final(self) == *old(self)
            },
    {
        let r1 = self.set_mono_edge(to, from, weight);
        match r1 {
            Ok(()) => self.set_mono_edge(from, to, weight),
            Err(e) => Err(e),
        }
    }

    /// The number of present entries in the matrix, counting each direction
    /// of a two-way edge separately.
    pub fn get_edge_amount(&self) -> (count: usize)
        requires
            self.wf(),
        ensures
            count == self.edge_count(),
    {
        let n = self.nodes.len();
        let mut count: usize = 0;
        let mut u: usize = 0;
        while u < n
            invariant
                u <= n,
                count == self.present_count_upto(u as int),
                count <= u as int * n as int,
            decreases n - u,
        {
            let mut v: usize = 0;
            while v < n
                invariant
                    u < n,
                    v <= n,
                    count == self.present_count_upto(u as int) + self.row_present_count(
                        u as int,
                        v as int,
                    ),
                    count <= u as int * n as int + v as int,
                decreases n - v,
            {
                let idx = self.edge_index(u, v);
                if self.edges[idx].is_some() {
                    count += 1;
                }
                v += 1;
            }
            proof {
                assert(u as int * n as int + n as int == (u as int + 1) * n as int)
                    by (nonlinear_arith);
            }
            u += 1;
        }
        count
    }
}

/// Every id listed by `neighbors_upto` lies below its bound, and the listing
/// is strictly ascending, so no id is listed twice.
pub proof fn lemma_neighbors_upto_bounds<T>(g: &Graph<T>, from: int, upto: int)
    requires
        0 <= upto <= usize::MAX,
    ensures
        forall|j: int|
            0 <= j < g.neighbors_upto(from, upto).len() ==> #[trigger] g.neighbors_upto(
                from,
                upto,
            )[j] < upto,
        forall|j1: int, j2: int|
            0 <= j1 < j2 < g.neighbors_upto(from, upto).len() ==> #[trigger] g.neighbors_upto(
                from,
                upto,
            )[j1] < #[trigger] g.neighbors_upto(from, upto)[j2],
    decreases upto,
{
    if upto > 0 {
        lemma_neighbors_upto_bounds(g, from, upto - 1);
        let rest = g.neighbors_upto(from, upto - 1);
        let cur = g.neighbors_upto(from, upto);
        if g.edge_at(from, upto - 1).is_some() {
            assert(cur == rest.push((upto - 1) as usize));
            assert forall|j: int| 0 <= j < cur.len() implies #[trigger] cur[j] < upto by {
                if j < rest.len() {
                    assert(cur[j] == rest[j]);
                }
            }
        }
    }
}

} // verus!
