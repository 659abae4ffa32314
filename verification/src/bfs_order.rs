//! A breadth-first walk over all nodes of a graph: nodes reachable from 0
//! come out in BFS order, and whenever the frontier empties the walk
//! restarts from the next unvisited node, so every node comes out exactly
//! once.

use vstd::prelude::*;

verus! {

use crate::vec_graph::VecGraph;
use crate::vec_graph::row_ok;
use std::collections::VecDeque;

/// A cursor that yields every node of the graph exactly once, in BFS order
/// from node 0, restarting at the next orphan when the frontier runs dry.
pub struct BfsOrder<'a> {
    /// The graph being walked.
    graph: &'a VecGraph,
    /// Whether a node has been seen (emitted or queued).
    visited: Vec<bool>,
    /// The BFS frontier: seen but not yet emitted.
    queue: VecDeque<usize>,
    /// If the queue is empty, resume the walk from this node on: all nodes
    /// before it have been seen.
    start: usize,
    /// The nodes already handed out.
    emitted: Ghost<Set<usize>>,
}

/// Walk a successor row left to right, enqueueing each not-yet-seen node
/// and marking it seen: the discovery step of one BFS visit. Returns the
/// nodes enqueued, in row order, and the updated seen flags.
pub open spec fn fresh_succs(row: Seq<usize>, seen: Seq<bool>) -> (Seq<usize>, Seq<bool>)
    decreases row.len(),
{
    if row.len() == 0 {
        (Seq::empty(), seen)
    } else {
        let v = row[0];
        if v < seen.len() && !seen[v as int] {
            let rest = fresh_succs(row.drop_first(), seen.update(v as int, true));
            (seq![v] + rest.0, rest.1)
        } else {
            fresh_succs(row.drop_first(), seen)
        }
    }
}

impl<'a> BfsOrder<'a> {
    /// The nodes already handed out.
    pub closed spec fn emitted(&self) -> Set<usize> {
        self.emitted@
    }

    /// The BFS frontier: seen nodes not yet handed out, oldest first.
    pub closed spec fn frontier(&self) -> Seq<usize> {
        self.queue@
    }

    /// Which nodes have been seen (handed out or on the frontier).
    pub closed spec fn seen_seq(&self) -> Seq<bool> {
        self.visited@
    }

    /// The graph being walked.
    pub closed spec fn graph_of(&self) -> &'a VecGraph {
        self.graph
    }

    /// Seen nodes are exactly the emitted ones plus the frontier, the
    /// frontier holds no duplicates, and everything below `start` was seen.
    pub closed spec fn wf(&self) -> bool {
        let n = self.graph.rows().len();
        &&& self.graph.wf()
        &&& self.visited@.len() == n
        &&& self.start <= n
        &&& self.emitted@.finite()
        &&& forall|i: int|
            0 <= i < self.queue@.len() ==> (#[trigger] self.queue@[i]) < n
                && self.visited@[self.queue@[i] as int] && !self.emitted@.contains(self.queue@[i])
        &&& forall|i: int, j: int|
            #![trigger self.queue@[i], self.queue@[j]]
            0 <= i < j < self.queue@.len() ==> self.queue@[i] != self.queue@[j]
        &&& forall|v: usize|
            self.emitted@.contains(v) ==> v < n && self.visited@[v as int]
        &&& forall|v: usize|
            v < n ==> (self.visited@[v as int] <==> (self.emitted@.contains(v)
                || self.queue@.contains(v)))
        &&& forall|u: int| 0 <= u < self.start ==> self.visited@[u]
    }

    /// Start a walk over the graph, with nothing seen yet.
    pub fn new(graph: &'a VecGraph) -> (r: Self)
        requires
            graph.wf(),
        ensures
            r.wf(),
            r.graph_of() == graph,
            r.emitted() == Set::<usize>::empty(),
            r.frontier() == Seq::<usize>::empty(),
            r.seen_seq() == Seq::new(graph.rows().len(), |i: int| false),
    {
        let num_nodes = graph.num_nodes();
        let mut visited: Vec<bool> = Vec::new();
        let mut i: usize = 0;
        while i < num_nodes
            invariant
                i <= num_nodes,
                visited@.len() == i,
                forall|u: int| 0 <= u < i ==> !(#[trigger] visited@[u]),
            decreases num_nodes - i,
        {
            visited.push(false);
            i = i + 1;
        }
        let r = BfsOrder {
            graph,
            visited,
            queue: VecDeque::new(),
            start: 0,
            emitted: Ghost(Set::empty()),
        };
        proof {
            assert(r.seen_seq() =~= Seq::new(graph.rows().len(), |i: int| false));
        }
        r
    }

    /// How many nodes the whole walk yields.
    pub fn len(&self) -> (r: usize)
        ensures
            r == self.graph_of().rows().len(),
    {
        self.graph.num_nodes()
    }

    /// Yield the next node and discover its successors: the front of the
    /// frontier when one is waiting, else the smallest-id unseen node as a
    /// fresh root; its unseen successors join the frontier in row order.
    /// Nothing comes once every node of the graph has been handed out.
    #[verifier::loop_isolation(false)]
    pub fn next(&mut self) -> (r: Option<usize>)
        requires
            old(self).wf(),
        ensures
            final(self).wf(),
            final(self).graph_of() == old(self).graph_of(),
            match r {
                Some(v) => {
                    &&& v < old(self).graph_of().rows().len()
                    &&& !old(self).emitted().contains(v)
                    &&& final(self).emitted() == old(self).emitted().insert(v)
                    &&& (old(self).frontier().len() > 0 ==> v == old(self).frontier()[0])
                    &&& (old(self).frontier().len() == 0 ==> !old(self).seen_seq()[v as int]
                        && (forall|u: int| 0 <= u < v ==> old(self).seen_seq()[u]))
                    &&& ({
                        let base = if old(self).frontier().len() > 0 {
                            old(self).frontier().drop_first()
                        } else {
                            old(self).frontier()
                        };
                        let disc = fresh_succs(
                            old(self).graph_of().rows()[v as int],
                            old(self).seen_seq().update(v as int, true),
                        );
                        final(self).frontier() == base + disc.0 && final(self).seen_seq()
                            == disc.1
                    })
                },
                None => {
                    &&& final(self).emitted() == old(self).emitted()
                    &&& old(self).frontier().len() == 0
                    &&& final(self).frontier() == old(self).frontier()
                    &&& final(self).seen_seq() == old(self).seen_seq()
                    &&& forall|v: usize|
                        v < old(self).graph_of().rows().len() ==> old(self).emitted().contains(v)
                },
            },
    {
        let ghost n = self.graph.rows().len();
        let current_node: usize;
        match self.queue.pop_front() {
            None => {
                loop
                    invariant
                        self.wf(),
                        self.queue@.len() == 0,
                        self.emitted@ == old(self).emitted@,
                        self.visited == old(self).visited,
                        self.graph == old(self).graph,
                    decreases n - self.start,
                {
                    if self.start >= self.graph.num_nodes() {
                        proof {
                            assert forall|v: usize| v < n implies self.emitted@.contains(v) by {
                                assert(self.visited@[v as int]);
                                assert(!self.queue@.contains(v));
                            }
                        }
                        return None;
                    }
                    if !self.visited[self.start] {
                        break ;
                    }
                    self.start = self.start + 1;
                }
                self.visited.set(self.start, true);
                current_node = self.start;
                proof {
                    assert(!self.emitted@.contains(current_node));
                    assert forall|v: usize|
                        v < n implies (self.visited@[v as int] <==> (self.emitted@.contains(v)
                            || self.queue@.contains(v) || v == current_node)) by {
                        if v != current_node {
                            assert(self.visited@[v as int] == old(self).visited@[v as int]);
                        }
                    }
                }
            },
            Some(node) => {
                current_node = node;
                proof {
                    assert(old(self).queue@[0] == node);
                    assert forall|i: int|
                        0 <= i < self.queue@.len() implies (#[trigger] self.queue@[i]) < n
                        && self.visited@[self.queue@[i] as int] && !self.emitted@.contains(
                        self.queue@[i],
                    ) by {
                        assert(self.queue@[i] == old(self).queue@[i + 1]);
                    }
                    assert(!self.queue@.contains(current_node)) by {
                        if self.queue@.contains(current_node) {
                            let i = choose|i: int|
                                0 <= i < self.queue@.len() && self.queue@[i] == current_node;
                            assert(old(self).queue@[i + 1] == old(self).queue@[0]);
                        }
                    }
                    assert forall|v: usize|
                        v < n implies (self.visited@[v as int] <==> (self.emitted@.contains(v)
                            || self.queue@.contains(v) || v == current_node)) by {
                        if self.visited@[v as int] && !self.emitted@.contains(v) && v
                            != current_node {
                            assert(old(self).queue@.contains(v));
                            let i = choose|i: int|
                                0 <= i < old(self).queue@.len() && old(self).queue@[i] == v;
                            assert(i != 0);
                            assert(self.queue@[i - 1] == v);
                            assert(self.queue@.contains(v));
                        }
                        if self.queue@.contains(v) {
                            let i = choose|i: int|
                                0 <= i < self.queue@.len() && self.queue@[i] == v;
                            assert(old(self).queue@[i + 1] == v);
                            assert(old(self).queue@.contains(v));
                        }
                    }
                }
            },
        }
        let ghost pre = *self;
        let ghost seen0 = old(self).visited@.update(current_node as int, true);
        let ghost base = pre.queue@;
        let ghost base_len = pre.queue@.len() as int;
        let row = match self.graph.successors(current_node) {
            Ok(x) => x,
            Err(_) => {
                proof {
                    assert(false);
                }
                return None;
            },
        };
        proof {
            assert(row_ok(self.graph.rows()[current_node as int], n));
            assert(pre.visited@ =~= seen0);
            assert(row@.subrange(0, row@.len() as int) =~= row@);
            assert(self.queue@.subrange(base_len, self.queue@.len() as int)
                =~= Seq::<usize>::empty());
            assert(Seq::<usize>::empty() + fresh_succs(row@, self.visited@).0 =~= fresh_succs(
                row@,
                self.visited@,
            ).0);
        }
        let mut j: usize = 0;
        while j < row.len()
            invariant
                j <= row@.len(),
                row@ == self.graph.rows()[current_node as int],
                row_ok(row@, n),
                self.graph == pre.graph,
                self.emitted@ == pre.emitted@,
                self.start == pre.start,
                self.visited@.len() == n,
                current_node < n,
                self.visited@[current_node as int],
                !self.emitted@.contains(current_node),
                !self.queue@.contains(current_node),
                forall|i: int|
                    0 <= i < self.queue@.len() ==> (#[trigger] self.queue@[i]) < n
                        && self.visited@[self.queue@[i] as int] && !self.emitted@.contains(
                        self.queue@[i],
                    ) && self.queue@[i] != current_node,
                forall|i: int, q: int|
                    #![trigger self.queue@[i], self.queue@[q]]
                    0 <= i < q < self.queue@.len() ==> self.queue@[i] != self.queue@[q],
                forall|v: usize| self.emitted@.contains(v) ==> v < n && self.visited@[v as int],
                forall|v: usize|
                    v < n ==> (self.visited@[v as int] <==> (self.emitted@.contains(v)
                        || self.queue@.contains(v) || v == current_node)),
                forall|u: int| 0 <= u < self.start ==> self.visited@[u],
                base_len <= self.queue@.len(),
                self.queue@.subrange(0, base_len) =~= base,
                fresh_succs(row@, seen0).0 =~= self.queue@.subrange(
                    base_len,
                    self.queue@.len() as int,
                ) + fresh_succs(row@.subrange(j as int, row@.len() as int), self.visited@).0,
                fresh_succs(row@, seen0).1 =~= fresh_succs(
                    row@.subrange(j as int, row@.len() as int),
                    self.visited@,
                ).1,
            decreases row@.len() - j,
        {
            let ghost sfx = row@.subrange(j as int, row@.len() as int);
            let ghost pre_vis = self.visited@;
            let ghost pre_q = self.queue@;
            proof {
                assert(sfx[0] == row@[j as int]);
                assert(sfx.drop_first() =~= row@.subrange(j + 1, row@.len() as int));
            }
            let succ = row[j];
            if !self.visited[succ] {
                let ghost pq = self.queue@;
                self.queue.push_back(succ);
                self.visited.set(succ, true);
                proof {
                    assert forall|i: int|
                        0 <= i < self.queue@.len() implies (#[trigger] self.queue@[i]) < n
                        && self.visited@[self.queue@[i] as int] && !self.emitted@.contains(
                        self.queue@[i],
                    ) && self.queue@[i] != current_node by {
                        if i < pq.len() {
                            assert(self.queue@[i] == pq[i]);
                        }
                    }
                    assert forall|v: usize|
                        v < n implies (self.visited@[v as int] <==> (self.emitted@.contains(v)
                            || self.queue@.contains(v) || v == current_node)) by {
                        if self.queue@.contains(v) {
                            let i = choose|i: int|
                                0 <= i < self.queue@.len() && self.queue@[i] == v;
                            if i < pq.len() {
                                assert(pq.contains(v));
                            }
                        }
                        if pq.contains(v) {
                            let i = choose|i: int| 0 <= i < pq.len() && pq[i] == v;
                            assert(self.queue@[i] == v);
                            assert(self.queue@.contains(v));
                        }
                        if v == succ {
                            assert(self.queue@[self.queue@.len() - 1] == succ);
                            assert(self.queue@.contains(v));
                        }
                    }
                    assert(self.queue@.subrange(0, base_len) =~= base);
                    assert(fresh_succs(sfx, pre_vis).0 =~= seq![succ] + fresh_succs(
                        sfx.drop_first(),
                        self.visited@,
                    ).0);
                    assert(self.queue@.subrange(base_len, self.queue@.len() as int) =~= pre_q
                        .subrange(base_len, pre_q.len() as int) + seq![succ]);
                    assert(pre_q.subrange(base_len, pre_q.len() as int) + (seq![succ]
                        + fresh_succs(sfx.drop_first(), self.visited@).0) =~= (pre_q.subrange(
                        base_len,
                        pre_q.len() as int,
                    ) + seq![succ]) + fresh_succs(sfx.drop_first(), self.visited@).0);
                }
            } else {
                proof {
                    assert(fresh_succs(sfx, self.visited@).0 =~= fresh_succs(
                        sfx.drop_first(),
                        self.visited@,
                    ).0);
                    assert(fresh_succs(sfx, self.visited@).1 =~= fresh_succs(
                        sfx.drop_first(),
                        self.visited@,
                    ).1);
                }
            }
            j = j + 1;
        }
        proof {
            self.emitted@ = self.emitted@.insert(current_node);
            assert forall|v: usize|
                v < n implies (self.visited@[v as int] <==> (self.emitted@.contains(v)
                    || self.queue@.contains(v))) by {}
            assert(row@.subrange(row@.len() as int, row@.len() as int) =~= Seq::<usize>::empty());
            assert(fresh_succs(Seq::<usize>::empty(), self.visited@).0 =~= Seq::<usize>::empty());
            assert(fresh_succs(row@, seen0).0 =~= self.queue@.subrange(
                base_len,
                self.queue@.len() as int,
            ));
            assert(fresh_succs(row@, seen0).1 =~= self.visited@);
            assert(self.queue@ =~= base + fresh_succs(row@, seen0).0);
        }
        Some(current_node)
    }
}

} // verus!
