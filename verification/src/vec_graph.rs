//! An in-memory graph held as one sorted successor list per node: the
//! reference form that the codec, the transpose and the clustering pass are
//! specified against.

use vstd::prelude::*;

verus! {

use crate::utils::GraphError;

/// A successor row is strictly increasing and every successor is a node.
pub open spec fn row_ok(row: Seq<usize>, n: nat) -> bool {
    &&& forall|a: int, b: int|
        #![trigger row[a], row[b]]
        0 <= a < b < row.len() ==> row[a] < row[b]
    &&& forall|a: int| 0 <= a < row.len() ==> (#[trigger] row[a] as nat) < n
}

/// Every row of the graph is a valid successor row.
pub open spec fn succs_wf(g: Seq<Seq<usize>>) -> bool {
    forall|u: int| 0 <= u < g.len() ==> row_ok(#[trigger] g[u], g.len())
}

/// The graph has an arc from `u` to `v`.
pub open spec fn has_arc(g: Seq<Seq<usize>>, u: usize, v: usize) -> bool {
    u < g.len() && g[u as int].contains(v)
}

/// One past the largest endpoint of an arc list: the node count the list
/// spans.
pub open spec fn arc_list_nodes(arcs: Seq<(usize, usize)>) -> nat
    decreases arcs.len(),
{
    if arcs.len() == 0 {
        0
    } else {
        let rest = arc_list_nodes(arcs.drop_last());
        let a = (arcs.last().0 + 1) as nat;
        let b = (arcs.last().1 + 1) as nat;
        if a >= rest && a >= b {
            a
        } else if b >= rest {
            b
        } else {
            rest
        }
    }
}

/// Two strictly increasing rows with the same members are the same row.
pub proof fn lemma_sorted_row_unique(a: Seq<usize>, b: Seq<usize>)
    requires
        forall|i: int, j: int| #![trigger a[i], a[j]] 0 <= i < j < a.len() ==> a[i] < a[j],
        forall|i: int, j: int| #![trigger b[i], b[j]] 0 <= i < j < b.len() ==> b[i] < b[j],
        forall|x: usize| a.contains(x) <==> b.contains(x),
    ensures
        a == b,
    decreases a.len(),
{
    if a.len() == 0 {
        if b.len() > 0 {
            assert(b.contains(b[0]));
            assert(false);
        }
        assert(a =~= b);
    } else {
        assert(a.contains(a[0]));
        assert(b.contains(a[0]));
        if b.len() == 0 {
            assert(false);
        }
        assert(b.contains(b[0]));
        assert(a.contains(b[0]));
        let ia = choose|i: int| 0 <= i < a.len() && a[i] == b[0];
        let ib = choose|i: int| 0 <= i < b.len() && b[i] == a[0];
        assert(a[0] <= a[ia] && b[0] <= b[ib]);
        assert(a[0] == b[0]);
        let a1 = a.drop_first();
        let b1 = b.drop_first();
        assert forall|x: usize| a1.contains(x) <==> b1.contains(x) by {
            if a1.contains(x) {
                let i = choose|i: int| 0 <= i < a1.len() && a1[i] == x;
                assert(a[i + 1] == x);
                assert(a.contains(x));
                assert(a[0] < x);
                assert(b.contains(x));
                let j = choose|j: int| 0 <= j < b.len() && b[j] == x;
                assert(j != 0);
                assert(b1[j - 1] == x);
                assert(b1.contains(x));
            }
            if b1.contains(x) {
                let i = choose|i: int| 0 <= i < b1.len() && b1[i] == x;
                assert(b[i + 1] == x);
                assert(b.contains(x));
                assert(b[0] < x);
                assert(a.contains(x));
                let j = choose|j: int| 0 <= j < a.len() && a[j] == x;
                assert(j != 0);
                assert(a1[j - 1] == x);
                assert(a1.contains(x));
            }
        }
        lemma_sorted_row_unique(a1, b1);
        assert forall|i: int| 0 <= i < a.len() implies a[i] == b[i] by {
            if i > 0 {
                assert(a1[i - 1] == b1[i - 1]);
                assert(a[i] == a1[i - 1]);
                assert(b[i] == b1[i - 1]);
            }
        }
        assert(a =~= b);
    }
}

/// Two well-formed graphs with the same arcs are the same graph.
pub proof fn lemma_graph_arc_unique(g: Seq<Seq<usize>>, h: Seq<Seq<usize>>)
    requires
        succs_wf(g),
        succs_wf(h),
        g.len() == h.len(),
        g.len() <= usize::MAX,
        forall|u: usize, v: usize| has_arc(g, u, v) <==> has_arc(h, u, v),
    ensures
        g == h,
{
    assert forall|u: int| 0 <= u < g.len() implies g[u] == h[u] by {
        assert(row_ok(g[u], g.len()));
        assert(row_ok(h[u], h.len()));
        assert forall|x: usize| g[u].contains(x) <==> h[u].contains(x) by {
            let uu = u as usize;
            assert(uu as int == u);
            assert(has_arc(g, uu, x) <==> has_arc(h, uu, x));
        }
        lemma_sorted_row_unique(g[u], h[u]);
    }
    assert(g =~= h);
}

/// A directed graph as one sorted successor list per node.
#[derive(PartialEq, Eq, Debug, Clone)]
pub struct VecGraph {
    /// The successor list of each node.
    succs: Vec<Vec<usize>>,
}

impl VecGraph {
    /// The successor rows of the graph.
    pub closed spec fn rows(&self) -> Seq<Seq<usize>> {
        self.succs@.map_values(|r: Vec<usize>| r@)
    }

    /// All rows are sorted and in range.
    pub open spec fn wf(&self) -> bool {
        succs_wf(self.rows())
    }

    /// A graph of `n` nodes with no arcs.
    pub fn empty(num_nodes: usize) -> (r: Self)
        ensures
            r.wf(),
            r.rows().len() == num_nodes,
            forall|u: int| 0 <= u < num_nodes ==> (#[trigger] r.rows()[u]).len() == 0,
    {
        let mut succs: Vec<Vec<usize>> = Vec::new();
        let mut i: usize = 0;
        while i < num_nodes
            invariant
                i <= num_nodes,
                succs@.len() == i,
                forall|u: int| 0 <= u < i ==> (#[trigger] succs@[u])@.len() == 0,
            decreases num_nodes - i,
        {
            succs.push(Vec::new());
            i = i + 1;
        }
        VecGraph { succs }
    }

    /// Build a graph directly from successor rows, refusing rows that are
    /// not strictly increasing or point outside the graph.
    #[verifier::loop_isolation(false)]
    pub fn from_sorted_rows(rows: Vec<Vec<usize>>) -> (r: Result<Self, GraphError>)
        ensures
            match r {
                Ok(g) => g.wf() && g.rows() == rows@.map_values(|v: Vec<usize>| v@),
                Err(e) => e == GraphError::BadArgument,
            },
            succs_wf(rows@.map_values(|v: Vec<usize>| v@)) ==> r is Ok,
    {
        let ghost m = rows@.map_values(|v: Vec<usize>| v@);
        let n = rows.len();
        let mut u: usize = 0;
        while u < n
            invariant
                u <= n,
                n == rows@.len(),
                forall|q: int| 0 <= q < u ==> row_ok((#[trigger] rows@[q])@, n as nat),
            decreases n - u,
        {
            let row = &rows[u];
            let mut j: usize = 0;
            while j < row.len()
                invariant
                    j <= row@.len(),
                    u < n == rows@.len(),
                    row == &rows[u as int],
                    forall|a: int, b: int|
                        #![trigger row@[a], row@[b]]
                        0 <= a < b < j ==> row@[a] < row@[b],
                    forall|a: int| 0 <= a < j ==> (#[trigger] row@[a] as nat) < n,
                decreases row@.len() - j,
            {
                if row[j] >= n {
                    proof {
                        if succs_wf(m) {
                            assert(row_ok(m[u as int], n as nat));
                            assert(m[u as int][j as int] == row@[j as int]);
                            assert(false);
                        }
                    }
                    return Err(GraphError::BadArgument);
                }
                if j > 0 && row[j - 1] >= row[j] {
                    proof {
                        if succs_wf(m) {
                            assert(row_ok(m[u as int], n as nat));
                            assert(m[u as int][j as int] == row@[j as int]);
                            assert(m[u as int][j - 1] == row@[j - 1]);
                            assert(false);
                        }
                    }
                    return Err(GraphError::BadArgument);
                }
                proof {
                    assert forall|a: int, b: int|
                        #![trigger row@[a], row@[b]]
                        0 <= a < b < j + 1 implies row@[a] < row@[b] by {
                        if b == j && a < j - 1 {
                            assert(row@[a] < row@[j - 1]);
                        }
                    }
                }
                j = j + 1;
            }
            u = u + 1;
        }
        proof {
            let m = rows@.map_values(|v: Vec<usize>| v@);
            assert forall|q: int| 0 <= q < m.len() implies row_ok(#[trigger] m[q], n as nat) by {
                assert(m[q] == rows@[q]@);
            }
        }
        Ok(VecGraph { succs: rows })
    }

    /// Insert `v` into the sorted successor row of `u`, keeping the row
    /// strictly increasing; inserting an arc twice changes nothing.
    fn add_arc(&mut self, u: usize, v: usize)
        requires
            old(self).wf(),
            u < old(self).rows().len(),
            v < old(self).rows().len(),
        ensures
            final(self).wf(),
            final(self).rows().len() == old(self).rows().len(),
            forall|a: usize, b: usize|
                has_arc(final(self).rows(), a, b) <==> (has_arc(old(self).rows(), a, b) || (a == u
                    && b == v)),
    {
        let ghost pre = self.rows();
        let mut row = self.succs.remove(u);
        let ghost prow = row@;
        let mut j: usize = 0;
        while j < row.len() && row[j] < v
            invariant
                j <= row@.len(),
                row@ == prow,
                forall|a: int| 0 <= a < j ==> (#[trigger] prow[a]) < v,
            decreases row@.len() - j,
        {
            j = j + 1;
        }
        let dup = j < row.len() && row[j] == v;
        if !dup {
            row.insert(j, v);
        }
        self.succs.insert(u, row);
        proof {
            assert(row_ok(pre[u as int], pre.len()));
            assert(self.rows().len() == pre.len());
            assert(forall|q: int|
                0 <= q < pre.len() && q != u ==> #[trigger] self.rows()[q] == pre[q]);
            if dup {
                assert(self.rows()[u as int] =~= prow);
                assert(prow.contains(v));
            } else {
                assert(self.rows()[u as int] =~= prow.insert(j as int, v));
                let nrow = self.rows()[u as int];
                assert forall|a: int, b: int|
                    #![trigger nrow[a], nrow[b]]
                    0 <= a < b < nrow.len() implies nrow[a] < nrow[b] by {
                    assert(j < prow.len() ==> v < prow[j as int]);
                    if a < j && b == j {
                    } else if a == j && b > j {
                        assert(nrow[b] == prow[b - 1]);
                        assert(j <= b - 1 < prow.len());
                        assert(prow[j as int] <= prow[b - 1]);
                    } else if a < j && b > j {
                        assert(nrow[a] == prow[a] && nrow[b] == prow[b - 1]);
                    } else if a > j && b > j {
                        assert(nrow[a] == prow[a - 1] && nrow[b] == prow[b - 1]);
                    }
                }
                assert forall|x: usize| nrow.contains(x) <==> (prow.contains(x) || x == v) by {
                    if nrow.contains(x) {
                        let ii = choose|ii: int| 0 <= ii < nrow.len() && nrow[ii] == x;
                        if ii < j {
                            assert(prow[ii] == x);
                            assert(prow.contains(x));
                        } else if ii == j {
                        } else {
                            assert(prow[ii - 1] == x);
                            assert(prow.contains(x));
                        }
                    }
                    if prow.contains(x) {
                        let ii = choose|ii: int| 0 <= ii < prow.len() && prow[ii] == x;
                        if ii < j {
                            assert(nrow[ii] == x);
                        } else {
                            assert(nrow[ii + 1] == x);
                        }
                        assert(nrow.contains(x));
                    }
                    if x == v {
                        assert(nrow[j as int] == v);
                        assert(nrow.contains(v));
                    }
                }
            }
            assert forall|a: usize, b: usize|
                has_arc(self.rows(), a, b) <==> (has_arc(pre, a, b) || (a == u && b == v)) by {
                if a != u && a < pre.len() {
                    assert(self.rows()[a as int] == pre[a as int]);
                }
            }
            assert forall|q: int| 0 <= q < self.rows().len() implies row_ok(
                #[trigger] self.rows()[q],
                self.rows().len() as nat,
            ) by {
                if q != u {
                    assert(self.rows()[q] == pre[q]);
                    assert(row_ok(pre[q], pre.len()));
                } else {
                    assert forall|a: int|
                        0 <= a < self.rows()[q].len() implies (#[trigger] self.rows()[q][a] as nat)
                        < self.rows().len() by {
                        assert(self.rows()[q].contains(self.rows()[q][a]));
                        let x = self.rows()[q][a];
                        assert(prow.contains(x) || x == v);
                        if prow.contains(x) {
                            let ii = choose|ii: int| 0 <= ii < prow.len() && prow[ii] == x;
                        }
                    }
                }
            }
        }
    }

    /// Build a graph from a list of arcs: the node count is one past the
    /// largest endpoint, rows come out sorted, and duplicate arcs collapse.
    pub fn from_arc_list(arcs: &Vec<(usize, usize)>) -> (r: Result<Self, GraphError>)
        ensures
            r matches Ok(g) && {
                &&& g.wf()
                &&& g.rows().len() == arc_list_nodes(arcs@)
                &&& forall|a: usize, b: usize|
                    has_arc(g.rows(), a, b) <==> arcs@.contains((a, b))
            } || (r == Err::<Self, GraphError>(GraphError::BadArgument) && exists|i: int|
                0 <= i < arcs@.len() && ((#[trigger] arcs@[i]).0 == usize::MAX || arcs@[i].1
                    == usize::MAX)),
    {
        let mut n: usize = 0;
        let mut i: usize = 0;
        proof {
            assert(arcs@.subrange(0, 0) =~= Seq::<(usize, usize)>::empty());
        }
        while i < arcs.len()
            invariant
                i <= arcs@.len(),
                n == arc_list_nodes(arcs@.subrange(0, i as int)),
                forall|q: int|
                    0 <= q < i ==> ((#[trigger] arcs@[q]).0 < n && arcs@[q].1 < n),
            decreases arcs@.len() - i,
        {
            let (x, y) = arcs[i];
            if x == usize::MAX || y == usize::MAX {
                return Err(GraphError::BadArgument);
            }
            if x >= n {
                n = x + 1;
            }
            if y >= n {
                n = y + 1;
            }
            proof {
                assert forall|q: int| 0 <= q < i + 1 implies ((#[trigger] arcs@[q]).0 < n
                    && arcs@[q].1 < n) by {}
                assert(arcs@.subrange(0, i + 1).drop_last() =~= arcs@.subrange(0, i as int));
                assert(arcs@.subrange(0, i + 1).last() == arcs@[i as int]);
            }
            i = i + 1;
        }
        proof {
            assert(arcs@.subrange(0, arcs@.len() as int) =~= arcs@);
        }
        let mut g = Self::empty(n);
        let mut i2: usize = 0;
        while i2 < arcs.len()
            invariant
                i2 <= arcs@.len(),
                g.wf(),
                g.rows().len() == n,
                forall|q: int|
                    0 <= q < arcs@.len() ==> ((#[trigger] arcs@[q]).0 < n && arcs@[q].1 < n),
                forall|a: usize, b: usize|
                    has_arc(g.rows(), a, b) <==> arcs@.subrange(0, i2 as int).contains((a, b)),
            decreases arcs@.len() - i2,
        {
            let (x, y) = arcs[i2];
            let ghost pre = g.rows();
            g.add_arc(x, y);
            proof {
                assert forall|a: usize, b: usize|
                    has_arc(g.rows(), a, b) <==> arcs@.subrange(0, i2 + 1).contains((a, b)) by {
                    let sub1 = arcs@.subrange(0, i2 + 1);
                    let sub0 = arcs@.subrange(0, i2 as int);
                    if has_arc(g.rows(), a, b) {
                        if a == x && b == y {
                            assert(sub1[i2 as int] == (x, y));
                            assert(sub1.contains((a, b)));
                        } else {
                            assert(sub0.contains((a, b)));
                            let q = choose|q: int| 0 <= q < sub0.len() && sub0[q] == (a, b);
                            assert(sub1[q] == (a, b));
                            assert(sub1.contains((a, b)));
                        }
                    }
                    if sub1.contains((a, b)) {
                        let q = choose|q: int| 0 <= q < sub1.len() && sub1[q] == (a, b);
                        if q < i2 {
                            assert(sub0[q] == (a, b));
                            assert(sub0.contains((a, b)));
                        }
                    }
                }
            }
            i2 = i2 + 1;
        }
        proof {
            assert(arcs@.subrange(0, arcs@.len() as int) =~= arcs@);
        }
        Ok(g)
    }

    /// The number of nodes.
    pub fn num_nodes(&self) -> (r: usize)
        ensures
            r == self.rows().len(),
    {
        self.succs.len()
    }

    /// The number of successors of `node`, or an error for a node outside
    /// the graph.
    pub fn outdegree(&self, node: usize) -> (r: Result<usize, GraphError>)
        ensures
            node < self.rows().len() ==> r == Ok::<usize, GraphError>(
                self.rows()[node as int].len() as usize,
            ),
            node >= self.rows().len() ==> r == Err::<usize, GraphError>(GraphError::BadArgument),
    {
        if node >= self.succs.len() {
            return Err(GraphError::BadArgument);
        }
        Ok(self.succs[node].len())
    }

    /// The successors of `node` as a fresh vector, or an error for a node
    /// outside the graph.
    pub fn successors(&self, node: usize) -> (r: Result<Vec<usize>, GraphError>)
        ensures
            node < self.rows().len() ==> (r matches Ok(row) && row@ == self.rows()[node as int]),
            node >= self.rows().len() ==> r == Err::<Vec<usize>, GraphError>(
                GraphError::BadArgument,
            ),
    {
        if node >= self.succs.len() {
            return Err(GraphError::BadArgument);
        }
        let row = &self.succs[node];
        let mut out: Vec<usize> = Vec::new();
        let mut j: usize = 0;
        while j < row.len()
            invariant
                j <= row@.len(),
                out@ == row@.subrange(0, j as int),
                row == &self.succs[node as int],
                node < self.succs@.len(),
            decreases row@.len() - j,
        {
            out.push(row[j]);
            proof {
                assert(row@.subrange(0, j as int).push(row@[j as int]) =~= row@.subrange(
                    0,
                    j + 1,
                ));
            }
            j = j + 1;
        }
        proof {
            assert(row@.subrange(0, row@.len() as int) =~= row@);
        }
        Ok(out)
    }

    /// Whether the graph has an arc from `u` to `v`.
    pub fn has_arc_from_to(&self, u: usize, v: usize) -> (r: bool)
        ensures
            r == has_arc(self.rows(), u, v),
    {
        if u >= self.succs.len() {
            return false;
        }
        let row = &self.succs[u];
        let mut j: usize = 0;
        while j < row.len()
            invariant
                j <= row@.len(),
                row == &self.succs[u as int],
                u < self.succs@.len(),
                forall|a: int| 0 <= a < j ==> (#[trigger] row@[a]) != v,
            decreases row@.len() - j,
        {
            if row[j] == v {
                proof {
                    assert(self.rows()[u as int].contains(v));
                }
                return true;
            }
            j = j + 1;
        }
        proof {
            if self.rows()[u as int].contains(v) {
                let i = choose|i: int|
                    0 <= i < self.rows()[u as int].len() && self.rows()[u as int][i] == v;
                assert(row@[i] == v);
                assert(false);
            }
        }
        false
    }

    /// The total number of arcs: the sum of all outdegrees, which is also
    /// the number of successors yielded when every row is walked.
    pub fn num_arcs(&self) -> (r: Result<usize, GraphError>)
        ensures
            match r {
                Ok(c) => c == arcs_count(self.rows()),
                Err(e) => e == GraphError::Inconsistency && arcs_count(self.rows()) > usize::MAX,
            },
    {
        let mut total: usize = 0;
        let mut u: usize = 0;
        proof {
            lemma_arcs_count_prefix_step(self.rows(), 0);
        }
        while u < self.succs.len()
            invariant
                u <= self.rows().len(),
                total == arcs_count_prefix(self.rows(), u as int),
            decreases self.rows().len() - u,
        {
            let d = self.succs[u].len();
            proof {
                lemma_arcs_count_prefix_step(self.rows(), u as int + 1);
            }
            if total > usize::MAX - d {
                proof {
                    lemma_arcs_count_prefix_mono(self.rows(), u as int + 1);
                }
                return Err(GraphError::Inconsistency);
            }
            total = total + d;
            u = u + 1;
        }
        Ok(total)
    }
}

/// The number of arcs among the first `k` rows.
pub open spec fn arcs_count_prefix(g: Seq<Seq<usize>>, k: int) -> nat
    decreases k,
{
    if k <= 0 {
        0
    } else {
        arcs_count_prefix(g, k - 1) + g[k - 1].len()
    }
}

/// The total number of arcs of the graph: the sum over nodes of the
/// outdegree.
pub open spec fn arcs_count(g: Seq<Seq<usize>>) -> nat {
    arcs_count_prefix(g, g.len() as int)
}

/// Unfolding one step of the prefix arc count.
proof fn lemma_arcs_count_prefix_step(g: Seq<Seq<usize>>, k: int)
    ensures
        k > 0 ==> arcs_count_prefix(g, k) == arcs_count_prefix(g, k - 1) + g[k - 1].len(),
        k <= 0 ==> arcs_count_prefix(g, k) == 0,
{
}

/// The prefix arc count only grows with the prefix.
proof fn lemma_arcs_count_prefix_mono(g: Seq<Seq<usize>>, k: int)
    requires
        0 <= k <= g.len(),
    ensures
        arcs_count_prefix(g, k) <= arcs_count(g),
    decreases g.len() - k,
{
    if k < g.len() {
        lemma_arcs_count_prefix_mono(g, k + 1);
    }
}

} // verus!
