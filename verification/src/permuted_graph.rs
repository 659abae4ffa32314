//! A view of a graph under a node permutation, and a sorter-backed builder
//! that turns a stream of arcs into a graph.

use vstd::prelude::*;

verus! {

use crate::sort_pairs::SortPairs;
use crate::sort_pairs::node_bound;
use crate::transpose::group_arcs;
use crate::utils::GraphError;
use crate::vec_graph::VecGraph;
use crate::vec_graph::arcs_count;
use crate::vec_graph::has_arc;
use crate::vec_graph::row_ok;

/// A graph seen through a permutation of its node ids: node `v` of the
/// underlying graph appears as `perm[v]`.
pub struct PermutedGraph<'a> {
    /// The underlying graph.
    pub graph: &'a VecGraph,
    /// The permutation applied to every node id.
    pub perm: &'a Vec<usize>,
}

/// A row seen through a permutation.
pub open spec fn perm_row(row: Seq<usize>, perm: Seq<usize>) -> Seq<usize> {
    row.map_values(|x: usize| perm[x as int])
}

impl<'a> PermutedGraph<'a> {
    /// The view is usable: the permutation covers every node.
    pub open spec fn wf(&self) -> bool {
        &&& self.graph.wf()
        &&& self.perm@.len() == self.graph.rows().len()
    }

    /// The number of nodes.
    pub fn num_nodes(&self) -> (r: usize)
        ensures
            r == self.graph.rows().len(),
    {
        self.graph.num_nodes()
    }

    /// The number of arcs, which a permutation does not change.
    pub fn num_arcs_hint(&self) -> (r: Option<usize>)
        ensures
            r matches Some(c) ==> c == arcs_count(self.graph.rows()),
            r is None ==> arcs_count(self.graph.rows()) > usize::MAX,
    {
        match self.graph.num_arcs() {
            Ok(c) => Some(c),
            Err(_) => None,
        }
    }

    /// Walk the nodes of the underlying graph, handing out permuted rows.
    pub fn iter_nodes(&self) -> (r: NodePermutedIterator<'a>)
        requires
            self.wf(),
        ensures
            r.wf(),
            r.graph == self.graph,
            r.perm == self.perm,
            r.node == 0,
    {
        NodePermutedIterator { graph: self.graph, perm: self.perm, node: 0 }
    }
}

/// A cursor over the nodes of a permuted graph.
pub struct NodePermutedIterator<'a> {
    /// The underlying graph.
    pub graph: &'a VecGraph,
    /// The permutation applied to every node id.
    pub perm: &'a Vec<usize>,
    /// The next underlying node to visit.
    pub node: usize,
}

impl<'a> NodePermutedIterator<'a> {
    /// The cursor is inside the graph and the permutation covers it.
    pub open spec fn wf(&self) -> bool {
        &&& self.graph.wf()
        &&& self.perm@.len() == self.graph.rows().len()
        &&& self.node <= self.graph.rows().len()
    }

    /// Yield the next node as `(perm[node], permuted successors)`.
    pub fn next(&mut self) -> (r: Option<(usize, SequentialPermutedIterator)>)
        requires
            old(self).wf(),
        ensures
            final(self).wf(),
            final(self).graph == old(self).graph,
            final(self).perm == old(self).perm,
            old(self).node == old(self).graph.rows().len() ==> r == None::<
                (usize, SequentialPermutedIterator),
            > && final(self).node == old(self).node,
            old(self).node < old(self).graph.rows().len() ==> (r matches Some((v, it)) && {
                &&& v == old(self).perm@[old(self).node as int]
                &&& it.items@ == perm_row(
                    old(self).graph.rows()[old(self).node as int],
                    old(self).perm@,
                )
                &&& it.idx == 0
                &&& final(self).node == old(self).node + 1
            }),
    {
        if self.node == self.graph.num_nodes() {
            return None;
        }
        let v = self.node;
        let row = match self.graph.successors(v) {
            Ok(row) => row,
            Err(_) => {
                proof {
                    assert(false);
                }
                return None;
            },
        };
        let mut mapped: Vec<usize> = Vec::new();
        let mut j: usize = 0;
        proof {
            assert(row_ok(self.graph.rows()[v as int], self.graph.rows().len()));
        }
        while j < row.len()
            invariant
                j <= row@.len(),
                row@ == self.graph.rows()[v as int],
                v < self.graph.rows().len(),
                self.wf(),
                mapped@ == perm_row(row@.subrange(0, j as int), self.perm@),
                row_ok(row@, self.graph.rows().len()),
            decreases row@.len() - j,
        {
            let x = row[j];
            mapped.push(self.perm[x]);
            proof {
                assert(perm_row(row@.subrange(0, j as int), self.perm@).push(
                    self.perm@[x as int],
                ) =~= perm_row(row@.subrange(0, j + 1), self.perm@));
            }
            j = j + 1;
        }
        proof {
            assert(row@.subrange(0, row@.len() as int) =~= row@);
        }
        self.node = v + 1;
        Some((self.perm[v], SequentialPermutedIterator { items: mapped, idx: 0 }))
    }
}

/// A cursor over the already-permuted successors of one node.
pub struct SequentialPermutedIterator {
    /// The permuted successors.
    pub items: Vec<usize>,
    /// The next successor to hand out.
    pub idx: usize,
}

impl SequentialPermutedIterator {
    /// Yield the next permuted successor.
    pub fn next(&mut self) -> (r: Option<usize>)
        requires
            old(self).idx <= old(self).items@.len(),
        ensures
            final(self).items == old(self).items,
            old(self).idx == old(self).items@.len() ==> r == None::<usize> && final(self).idx
                == old(self).idx,
            old(self).idx < old(self).items@.len() ==> r == Some(
                old(self).items@[old(self).idx as int],
            ) && final(self).idx == old(self).idx + 1,
    {
        if self.idx == self.items.len() {
            return None;
        }
        let x = self.items[self.idx];
        self.idx = self.idx + 1;
        Some(x)
    }

    /// How many successors are left.
    pub fn len(&self) -> (r: usize)
        requires
            self.idx <= self.items@.len(),
        ensures
            r == self.items@.len() - self.idx,
    {
        self.items.len() - self.idx
    }
}

/// Whether the arc `(a, b)` has been pushed once the rows before `u`, and
/// the first `j` entries of row `u`, have been walked.
pub open spec fn arc_seen(g: Seq<Seq<usize>>, a: usize, b: usize, u: int, j: int) -> bool {
    ||| (a < u && 0 <= a && g[a as int].contains(b))
    ||| (a == u && exists|idx: int| 0 <= idx < j && g[u][idx] == b)
}

/// A builder that gathers arcs through the external sorter and hands back
/// the graph they form.
pub struct Sorted {
    /// The number of nodes of the graph being built.
    num_nodes: usize,
    /// The sorter the arcs go through.
    sort_pairs: SortPairs<()>,
}

impl Sorted {
    /// The builder accepts more arcs.
    pub closed spec fn inv(&self) -> bool {
        &&& self.sort_pairs.inv()
        &&& (self.num_nodes as nat) < node_bound()
    }

    /// The arcs pushed so far, each counted once.
    pub closed spec fn pushed(&self) -> vstd::multiset::Multiset<(usize, usize, ())> {
        self.sort_pairs.pushed()
    }

    /// The number of nodes of the graph being built.
    pub closed spec fn nodes(&self) -> usize {
        self.num_nodes
    }

    /// Create a builder for a graph of `num_nodes` nodes.
    pub fn new(num_nodes: usize, batch_size: usize) -> (r: Result<Self, GraphError>)
        requires
            1 <= batch_size <= usize::MAX / 1600,
            (num_nodes as nat) < node_bound(),
        ensures
            r matches Ok(s) && s.inv() && s.pushed() == vstd::multiset::Multiset::<
                (usize, usize, ()),
            >::empty() && s.nodes() == num_nodes,
    {
        Ok(Sorted { num_nodes, sort_pairs: SortPairs::new(batch_size) })
    }

    /// Record the arc `(x, y)`.
    pub fn push(&mut self, x: usize, y: usize) -> (r: Result<(), GraphError>)
        requires
            old(self).inv(),
            (x as nat) < node_bound(),
            (y as nat) < node_bound(),
        ensures
            final(self).inv(),
            final(self).nodes() == old(self).nodes(),
            r == Ok::<(), GraphError>(()),
            final(self).pushed() == old(self).pushed().insert((x, y, ())),
    {
        self.sort_pairs.push(x, y, ())
    }

    /// Flush any partially gathered batch.
    pub fn finish(&mut self) -> (r: Result<(), GraphError>)
        requires
            old(self).inv(),
        ensures
            final(self).inv(),
            final(self).nodes() == old(self).nodes(),
            r == Ok::<(), GraphError>(()),
            final(self).pushed() == old(self).pushed(),
    {
        self.sort_pairs.finish()
    }

    /// Record every arc of a graph.
    pub fn extend(&mut self, graph: &VecGraph) -> (r: Result<(), GraphError>)
        requires
            old(self).inv(),
            graph.wf(),
            (graph.rows().len() as nat) < node_bound(),
            old(self).pushed() == vstd::multiset::Multiset::<(usize, usize, ())>::empty(),
        ensures
            final(self).inv(),
            final(self).nodes() == old(self).nodes(),
            r == Ok::<(), GraphError>(()),
            forall|a: usize, b: usize|
                final(self).pushed().count((a, b, ())) == (if has_arc(graph.rows(), a, b) {
                    1int
                } else {
                    0int
                }),
    {
        let ghost g = graph.rows();
        let n = graph.num_nodes();
        let mut u: usize = 0;
        while u < n
            invariant
                self.inv(),
                self.nodes() == old(self).nodes(),
                u <= n,
                n == g.len(),
                graph.wf(),
                g == graph.rows(),
                (g.len() as nat) < node_bound(),
                forall|a: usize, b: usize|
                    self.pushed().count((a, b, ())) == (if arc_seen(g, a, b, u as int, 0) {
                        1int
                    } else {
                        0int
                    }),
            decreases n - u,
        {
            let row = match graph.successors(u) {
                Ok(v) => v,
                Err(_) => {
                    proof {
                        assert(false);
                    }
                    return Err(GraphError::BadArgument);
                },
            };
            let mut j: usize = 0;
            while j < row.len()
                invariant
                    self.inv(),
                    self.nodes() == old(self).nodes(),
                    u < n,
                    n == g.len(),
                    graph.wf(),
                    g == graph.rows(),
                    (g.len() as nat) < node_bound(),
                    j <= row@.len(),
                    row@ == g[u as int],
                    forall|a: usize, b: usize|
                        self.pushed().count((a, b, ())) == (if arc_seen(
                            g,
                            a,
                            b,
                            u as int,
                            j as int,
                        ) {
                            1int
                        } else {
                            0int
                        }),
                decreases row@.len() - j,
            {
                let dst = row[j];
                proof {
                    assert(row_ok(g[u as int], g.len()));
                    assert(!arc_seen(g, u, dst, u as int, j as int)) by {
                        if exists|idx: int| 0 <= idx < j && g[u as int][idx] == dst {
                            let idx = choose|idx: int| 0 <= idx < j && g[u as int][idx] == dst;
                            assert(g[u as int][idx] < g[u as int][j as int]);
                        }
                    }
                }
                let rr = self.push(u, dst);
                proof {
                    assert forall|a: usize, b: usize|
                        self.pushed().count((a, b, ())) == (if arc_seen(g, a, b, u as int, j + 1) {
                            1int
                        } else {
                            0int
                        }) by {
                        if a == u && b == dst {
                            assert(g[u as int][j as int] == dst);
                        } else {
                            assert(arc_seen(g, a, b, u as int, j + 1) == arc_seen(
                                g,
                                a,
                                b,
                                u as int,
                                j as int,
                            )) by {
                                if arc_seen(g, a, b, u as int, j + 1) && a == u {
                                    let idx = choose|idx: int|
                                        0 <= idx < j + 1 && g[u as int][idx] == b;
                                    assert(idx < j || b == dst);
                                }
                            }
                        }
                    }
                }
                j = j + 1;
            }
            proof {
                assert forall|a: usize, b: usize|
                    self.pushed().count((a, b, ())) == (if arc_seen(g, a, b, u + 1, 0) {
                        1int
                    } else {
                        0int
                    }) by {
                    assert(arc_seen(g, a, b, u + 1, 0) == arc_seen(
                        g,
                        a,
                        b,
                        u as int,
                        row@.len() as int,
                    ));
                }
            }
            u = u + 1;
        }
        proof {
            assert forall|a: usize, b: usize|
                self.pushed().count((a, b, ())) == (if has_arc(g, a, b) {
                    1int
                } else {
                    0int
                }) by {
                assert(arc_seen(g, a, b, n as int, 0) == has_arc(g, a, b));
            }
        }
        Ok(())
    }

    /// Hand over the gathered arcs as a mergeable graph.
    pub fn build(self) -> (r: MergedGraph)
        requires
            self.inv(),
        ensures
            r.inv(),
            r.nodes() == self.nodes(),
            r.pushed() == self.pushed(),
    {
        MergedGraph { num_nodes: self.num_nodes, sorted_pairs: self.sort_pairs }
    }
}

/// The arcs gathered by a [`Sorted`] builder, ready to be merged into a
/// graph.
pub struct MergedGraph {
    /// The number of nodes of the graph being built.
    num_nodes: usize,
    /// The sorter holding the arcs.
    sorted_pairs: SortPairs<()>,
}

impl MergedGraph {
    /// The gathered arcs are intact.
    pub closed spec fn inv(&self) -> bool {
        &&& self.sorted_pairs.inv()
        &&& (self.num_nodes as nat) < node_bound()
    }

    /// The arcs gathered.
    pub closed spec fn pushed(&self) -> vstd::multiset::Multiset<(usize, usize, ())> {
        self.sorted_pairs.pushed()
    }

    /// The number of nodes of the graph being built.
    pub closed spec fn nodes(&self) -> usize {
        self.num_nodes
    }

    /// The number of nodes.
    pub fn num_nodes(&self) -> (r: usize)
        ensures
            r == self.nodes(),
    {
        self.num_nodes
    }

    /// Merge the gathered arcs into a graph with one sorted row per node.
    pub fn to_graph(&mut self) -> (r: Result<VecGraph, GraphError>)
        requires
            old(self).inv(),
            forall|a: usize, b: usize|
                #[trigger] old(self).pushed().count((a, b, ())) > 0 ==> a < old(self).nodes() && b
                    < old(self).nodes(),
        ensures
            final(self).inv(),
            final(self).nodes() == old(self).nodes(),
            r matches Ok(t) && {
                &&& t.wf()
                &&& t.rows().len() == old(self).nodes()
                &&& forall|a: usize, b: usize|
                    #![trigger t.rows()[a as int].contains(b)]
                    a < old(self).nodes() ==> (t.rows()[a as int].contains(b) <==> old(
                        self,
                    ).pushed().count((a, b, ())) >= 1)
            },
    {
        let merge = match self.sorted_pairs.iter() {
            Ok(m) => m,
            Err(_) => {
                proof {
                    assert(false);
                }
                return Err(GraphError::BadArgument);
            },
        };
        proof {
            assert forall|a: usize, b: usize|
                #[trigger] merge.remaining().count((a, b, ())) > 0 implies a < self.num_nodes && b
                < self.num_nodes by {
                assert(old(self).pushed().count((a, b, ())) > 0);
            }
        }
        match group_arcs(merge, self.num_nodes) {
            Ok(t) => Ok(t),
            Err(_) => {
                proof {
                    assert(false);
                }
                Err(GraphError::BadArgument)
            },
        }
    }
}

} // verus!
