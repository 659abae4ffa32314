//! A sequential graph view over a list of arcs sorted by source: a cursor
//! walks the nodes in order and hands each one the run of destinations its
//! arcs carry, emitting empty rows for absent sources.

use vstd::prelude::*;

verus! {

use crate::utils::GraphError;

/// The arc list is non-decreasing by source.
pub open spec fn arcs_by_src(arcs: Seq<(usize, usize)>) -> bool {
    forall|i: int, j: int|
        #![trigger arcs[i], arcs[j]]
        0 <= i < j < arcs.len() ==> arcs[i].0 <= arcs[j].0
}

/// The destinations of the arcs of `u` that sit consecutively at `pos`.
pub open spec fn dsts_from(arcs: Seq<(usize, usize)>, pos: int, u: usize) -> Seq<usize>
    decreases arcs.len() - pos,
{
    if pos < 0 || pos >= arcs.len() {
        Seq::empty()
    } else if arcs[pos].0 == u {
        seq![arcs[pos].1] + dsts_from(arcs, pos + 1, u)
    } else {
        Seq::empty()
    }
}

/// A sequential graph built on a list of arcs sorted by source.
pub struct COOIterToGraph {
    /// The number of nodes of the graph.
    num_nodes: usize,
    /// The arcs, sorted by source.
    arcs: Vec<(usize, usize)>,
}

impl COOIterToGraph {
    /// The arc list, as a sequence.
    pub closed spec fn arcs_view(&self) -> Seq<(usize, usize)> {
        self.arcs@
    }

    /// The number of nodes.
    pub closed spec fn nodes(&self) -> usize {
        self.num_nodes
    }

    /// The arcs are sorted by source.
    pub closed spec fn wf(&self) -> bool {
        arcs_by_src(self.arcs@)
    }

    /// Create a graph view over arcs sorted by source; an unsorted list is
    /// refused.
    pub fn new(num_nodes: usize, arcs: Vec<(usize, usize)>) -> (r: Result<Self, GraphError>)
        ensures
            arcs_by_src(arcs@) ==> (r matches Ok(g) && g.wf() && g.arcs_view() == arcs@
                && g.nodes() == num_nodes),
            !arcs_by_src(arcs@) ==> r == Err::<Self, GraphError>(GraphError::BadArgument),
    {
        let mut i: usize = 1;
        while i < arcs.len()
            invariant
                1 <= i,
                i <= arcs@.len() || arcs@.len() == 0,
                forall|a: int, b: int|
                    #![trigger arcs@[a], arcs@[b]]
                    0 <= a < b < i ==> arcs@[a].0 <= arcs@[b].0,
            decreases arcs@.len() - i,
        {
            if arcs[i - 1].0 > arcs[i].0 {
                return Err(GraphError::BadArgument);
            }
            proof {
                assert forall|a: int, b: int|
                    #![trigger arcs@[a], arcs@[b]]
                    0 <= a < b < i + 1 implies arcs@[a].0 <= arcs@[b].0 by {
                    if b == i && a < i - 1 {
                        assert(arcs@[a].0 <= arcs@[i - 1].0);
                    }
                }
            }
            i = i + 1;
        }
        Ok(COOIterToGraph { num_nodes, arcs })
    }

    /// The number of nodes.
    pub fn num_nodes(&self) -> (r: usize)
        ensures
            r == self.nodes(),
    {
        self.num_nodes
    }

    /// The number of arcs is not known without a walk.
    pub fn num_arcs_hint(&self) -> (r: Option<usize>)
        ensures
            r == None::<usize>,
    {
        None
    }

    /// Walk the nodes in order, handing each its run of destinations.
    pub fn iter_nodes(&self) -> (r: SortedNodePermutedIterator)
        requires
            self.wf(),
        ensures
            r.wf(),
            r.arcs@ == self.arcs_view(),
            r.num_nodes == self.nodes(),
            r.curr_node == 0,
            r.pos == 0,
    {
        let arcs = copy_arcs(&self.arcs);
        SortedNodePermutedIterator { num_nodes: self.num_nodes, curr_node: 0, pos: 0, arcs }
    }
}

/// Copy an arc list.
fn copy_arcs(v: &Vec<(usize, usize)>) -> (r: Vec<(usize, usize)>)
    ensures
        r@ == v@,
{
    let mut r: Vec<(usize, usize)> = Vec::new();
    let mut i: usize = 0;
    while i < v.len()
        invariant
            i <= v@.len(),
            r@ == v@.subrange(0, i as int),
        decreases v@.len() - i,
    {
        r.push(v[i]);
        proof {
            assert(v@.subrange(0, i as int).push(v@[i as int]) =~= v@.subrange(0, i + 1));
        }
        i = i + 1;
    }
    proof {
        assert(v@.subrange(0, v@.len() as int) =~= v@);
    }
    r
}

/// A cursor over the nodes of an arc list sorted by source.
pub struct SortedNodePermutedIterator {
    /// The number of nodes to walk.
    pub num_nodes: usize,
    /// The next node to hand out.
    pub curr_node: usize,
    /// The first arc not yet consumed.
    pub pos: usize,
    /// The arcs, sorted by source.
    pub arcs: Vec<(usize, usize)>,
}

impl SortedNodePermutedIterator {
    /// The cursor is inside the list and every remaining arc belongs to the
    /// current node or a later one.
    pub open spec fn wf(&self) -> bool {
        &&& arcs_by_src(self.arcs@)
        &&& self.pos <= self.arcs@.len()
        &&& self.curr_node <= self.num_nodes
        &&& forall|q: int|
            self.pos <= q < self.arcs@.len() ==> (#[trigger] self.arcs@[q]).0 >= self.curr_node
    }

    /// Yield the next node with the destinations of its arcs, or nothing
    /// once every node was walked.
    #[verifier::loop_isolation(false)]
    pub fn next(&mut self) -> (r: Option<(usize, SortedSequentialPermutedIterator)>)
        requires
            old(self).wf(),
        ensures
            final(self).wf(),
            final(self).arcs@ == old(self).arcs@,
            final(self).num_nodes == old(self).num_nodes,
            old(self).curr_node == old(self).num_nodes ==> r == None::<
                (usize, SortedSequentialPermutedIterator),
            > && *final(self) == *old(self),
            old(self).curr_node < old(self).num_nodes ==> (r matches Some((v, it)) && {
                &&& v == old(self).curr_node
                &&& it.items@ == dsts_from(old(self).arcs@, old(self).pos as int, v)
                &&& it.idx == 0
                &&& final(self).curr_node == old(self).curr_node + 1
                &&& final(self).pos == old(self).pos + it.items@.len()
            }),
    {
        if self.curr_node == self.num_nodes {
            return None;
        }
        let u = self.curr_node;
        let mut row: Vec<usize> = Vec::new();
        while self.pos < self.arcs.len() && self.arcs[self.pos].0 == u
            invariant
                old(self).pos <= self.pos <= self.arcs@.len(),
                self.arcs@ == old(self).arcs@,
                self.curr_node == old(self).curr_node,
                self.num_nodes == old(self).num_nodes,
                u == old(self).curr_node,
                self.pos == old(self).pos + row@.len(),
                dsts_from(self.arcs@, old(self).pos as int, u) =~= row@ + dsts_from(
                    self.arcs@,
                    self.pos as int,
                    u,
                ),
                forall|q: int|
                    old(self).pos <= q < self.pos ==> (#[trigger] self.arcs@[q]).0 == u,
            decreases self.arcs@.len() - self.pos,
        {
            row.push(self.arcs[self.pos].1);
            self.pos = self.pos + 1;
        }
        proof {
            assert(dsts_from(self.arcs@, self.pos as int, u) =~= Seq::<usize>::empty());
            assert(row@ + Seq::<usize>::empty() =~= row@);
            assert forall|q: int|
                self.pos <= q < self.arcs@.len() implies (#[trigger] self.arcs@[q]).0 >= u + 1 by {
                if q == self.pos {
                } else {
                    assert(self.arcs@[self.pos as int].0 <= self.arcs@[q].0);
                }
            }
        }
        self.curr_node = u + 1;
        Some((u, SortedSequentialPermutedIterator { items: row, idx: 0 }))
    }
}

/// A cursor over the destinations handed to one node.
pub struct SortedSequentialPermutedIterator {
    /// The destinations of the node's arcs.
    pub items: Vec<usize>,
    /// The next destination to hand out.
    pub idx: usize,
}

impl SortedSequentialPermutedIterator {
    /// Yield the next destination.
    pub fn next(&mut self) -> (r: Option<usize>)
        requires
            old(self).idx <= old(self).items@.len(),
        ensures
            final(self).items == old(self).items,
            old(self).idx == old(self).items@.len() ==> r == None::<usize> && final(self).idx
                == old(self).idx,
            old(self).idx < old(self).items@.len() ==> r == Some(
                old(self).items@[old(self).idx as int],
            ) && final(self).idx == old(self).idx + 1,
    {
        if self.idx == self.items.len() {
            return None;
        }
        let x = self.items[self.idx];
        self.idx = self.idx + 1;
        Some(x)
    }
}

} // verus!
