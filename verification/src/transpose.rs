//! Transposition of a graph through the external pair sorter: every arc is
//! pushed flipped, the merge hands the flipped arcs back ordered by their
//! new source, and a grouping pass rebuilds one sorted row per node.

use vstd::prelude::*;

verus! {

use crate::sort_pairs::KMergeIters;
use crate::sort_pairs::SortPairs;
use crate::sort_pairs::node_bound;
use crate::sort_pairs::pair_le;
use crate::utils::GraphError;
use crate::vec_graph::VecGraph;
use crate::vec_graph::has_arc;
use crate::vec_graph::row_ok;
use crate::vec_graph::succs_wf;

/// Whether the flipped arc `(a, b)` (an original arc from `b` to `a`) has
/// been pushed once the rows before `u`, and the first `j` entries of row
/// `u`, have been walked.
pub open spec fn flip_seen(g: Seq<Seq<usize>>, a: usize, b: usize, u: int, j: int) -> bool {
    ||| (b < u && 0 <= b && g[b as int].contains(a))
    ||| (b == u && exists|idx: int| 0 <= idx < j && g[u][idx] == a)
}

/// Transpose the graph: the result has an arc `u -> v` exactly where the
/// graph has `v -> u`.
#[verifier::rlimit(100)]
#[verifier::loop_isolation(false)]
pub fn transpose(graph: &VecGraph, batch_size: usize) -> (r: Result<VecGraph, GraphError>)
    requires
        graph.wf(),
        1 <= batch_size <= usize::MAX / 1600,
        (graph.rows().len() as nat) < node_bound(),
    ensures
        r matches Ok(t) && {
            &&& t.wf()
            &&& t.rows().len() == graph.rows().len()
            &&& forall|u: usize, v: usize|
                has_arc(t.rows(), u, v) <==> has_arc(graph.rows(), v, u)
        },
{
    let ghost g = graph.rows();
    let n = graph.num_nodes();
    let mut sorted = SortPairs::<()>::new(batch_size);
    let mut u: usize = 0;
    while u < n
        invariant
            sorted.inv(),
            u <= n,
            forall|a: usize, b: usize|
                sorted.pushed().count((a, b, ())) == (if flip_seen(g, a, b, u as int, 0) {
                    1int
                } else {
                    0int
                }),
        decreases n - u,
    {
        let row = match graph.successors(u) {
            Ok(v) => v,
            Err(_) => {
                proof {
                    assert(false);
                }
                return Err(GraphError::BadArgument);
            },
        };
        let mut j: usize = 0;
        while j < row.len()
            invariant
                sorted.inv(),
                u < n,
                j <= row@.len(),
                row@ == g[u as int],
                forall|a: usize, b: usize|
                    sorted.pushed().count((a, b, ())) == (if flip_seen(g, a, b, u as int, j as int) {
                        1int
                    } else {
                        0int
                    }),
            decreases row@.len() - j,
        {
            let dst = row[j];
            let ghost before = sorted.pushed();
            proof {
                assert(row_ok(g[u as int], g.len()));
                assert(!flip_seen(g, dst, u, u as int, j as int)) by {
                    if exists|idx: int| 0 <= idx < j && g[u as int][idx] == dst {
                        let idx = choose|idx: int| 0 <= idx < j && g[u as int][idx] == dst;
                        assert(g[u as int][idx] < g[u as int][j as int]);
                    }
                }
            }
            let rr = sorted.push(dst, u, ());
            proof {
                assert forall|a: usize, b: usize|
                    sorted.pushed().count((a, b, ())) == (if flip_seen(
                        g,
                        a,
                        b,
                        u as int,
                        j + 1,
                    ) {
                        1int
                    } else {
                        0int
                    }) by {
                    if a == dst && b == u {
                        assert(g[u as int][j as int] == dst);
                    } else {
                        assert(flip_seen(g, a, b, u as int, j + 1) == flip_seen(
                            g,
                            a,
                            b,
                            u as int,
                            j as int,
                        )) by {
                            if flip_seen(g, a, b, u as int, j + 1) && b == u {
                                let idx = choose|idx: int|
                                    0 <= idx < j + 1 && g[u as int][idx] == a;
                                assert(idx < j || a == dst);
                            }
                        }
                    }
                }
            }
            j = j + 1;
        }
        proof {
            assert forall|a: usize, b: usize|
                sorted.pushed().count((a, b, ())) == (if flip_seen(g, a, b, u + 1, 0) {
                    1int
                } else {
                    0int
                }) by {
                assert(flip_seen(g, a, b, u + 1, 0) == flip_seen(g, a, b, u as int, row@.len() as int));
            }
        }
        u = u + 1;
    }
    let ghost pushed0 = sorted.pushed();
    proof {
        assert forall|a: usize, b: usize|
            pushed0.count((a, b, ())) == (if has_arc(g, b, a) {
                1int
            } else {
                0int
            }) by {
            assert(flip_seen(g, a, b, n as int, 0) == has_arc(g, b, a));
        }
    }
    let mut merge = match sorted.iter() {
        Ok(m) => m,
        Err(_) => {
            proof {
                assert(false);
            }
            return Err(GraphError::BadArgument);
        },
    };
    let ghost m0 = merge.remaining();
    proof {
        assert forall|a: usize, b: usize| #![all_triggers] true implies m0.count((a, b, ())) <= 1
            && (m0.count((a, b, ())) > 0 ==> a < n && b < n) by {
            if has_arc(g, b, a) {
                assert(row_ok(g[b as int], g.len()));
                if m0.count((a, b, ())) > 0 {
                    let ii = choose|ii: int| 0 <= ii < g[b as int].len() && g[b as int][ii] == a;
                    assert((g[b as int][ii] as nat) < g.len());
                }
            }
        }
    }
    let t = match group_arcs(merge, n) {
        Ok(t) => t,
        Err(_) => {
            proof {
                assert(false);
            }
            return Err(GraphError::BadArgument);
        },
    };
    proof {
        assert forall|uu: usize, vv: usize| has_arc(t.rows(), uu, vv) <==> has_arc(
            g,
            vv,
            uu,
        ) by {
            if uu < n {
                assert(t.rows()[uu as int].contains(vv) <==> m0.count((uu, vv, ())) >= 1);
            }
        }
    }
    Ok(t)
}

/// Group a merged, duplicate-free stream of arcs into one sorted row per
/// node: the resulting graph has an arc `s -> d` exactly where the stream
/// holds the pair.
#[verifier::rlimit(100)]
#[verifier::loop_isolation(false)]
pub fn group_arcs(merge: KMergeIters<()>, n: usize) -> (r: Result<VecGraph, GraphError>)
    requires
        merge.wf(),
        forall|a: usize, b: usize|
            #[trigger] merge.remaining().count((a, b, ())) > 0 ==> a < n && b < n,
    ensures
        r matches Ok(t) && {
            &&& t.wf()
            &&& t.rows().len() == n
            &&& forall|s: usize, d: usize|
                #![trigger t.rows()[s as int].contains(d)]
                s < n ==> (t.rows()[s as int].contains(d) <==> merge.remaining().count(
                    (s, d, ()),
                ) >= 1)
        },
{
    let ghost m0 = merge.remaining();
    let mut merge = merge;
    let mut out: Vec<Vec<usize>> = Vec::new();
    let mut i: usize = 0;
    while i < n
        invariant
            i <= n,
            out@.len() == i,
            forall|q: int| 0 <= q < i ==> (#[trigger] out@[q])@.len() == 0,
        decreases n - i,
    {
        out.push(Vec::new());
        i = i + 1;
    }
    let ghost mut last: (usize, usize) = (0usize, 0usize);
    loop
        invariant
            merge.wf(),
            out@.len() == n,
            forall|s: usize, d: usize|
                #[trigger] merge.remaining().count((s, d, ())) <= m0.count((s, d, ())),
            forall|s: usize, d: usize|
                #[trigger] m0.count((s, d, ())) > 0 ==> s < n && d < n,
            forall|s: usize, d: usize|
                #![trigger out@[s as int]@.contains(d)]
                s < n ==> (out@[s as int]@.contains(d) <==> merge.remaining().count((s, d, ()))
                    < m0.count((s, d, ()))),
            forall|s: int|
                0 <= s < n ==> (forall|x: int, y: int|
                    #![trigger out@[s][x], out@[s][y]]
                    0 <= x < y < (#[trigger] out@[s])@.len() ==> out@[s]@[x] < out@[s]@[y]),
            forall|s: usize, d: usize|
                #![trigger out@[s as int]@.contains(d)]
                s < n && out@[s as int]@.contains(d) ==> pair_le((s, d), last),
            forall|x: (usize, usize, ())|
                merge.remaining().count(x) > 0 ==> pair_le(last, (x.0, x.1)),
        decreases merge.remaining().len(),
    {
        let ghost pre_rem = merge.remaining();
        let nxt = merge.next();
        match nxt {
            None => {
                break ;
            },
            Some(t) => {
                let s = t.0;
                let d = t.1;
                proof {
                    assert(pre_rem.count((s, d, ())) > 0);
                    assert(m0.count((s, d, ())) >= 1);
                    assert(s < n && d < n);
                }
                let ghost pre_out = out@;
                let ghost pre_last = last;
                let mut rowv = out.remove(s);
                proof {
                    assert forall|x: int| 0 <= x < rowv@.len() implies rowv@[x] <= d by {
                        assert(pre_out[s as int]@.contains(rowv@[x]));
                        assert(pair_le((s, rowv@[x]), pre_last));
                        assert(pair_le(pre_last, (s, d)));
                    }
                    if pre_out[s as int]@.contains(d) {
                        let xi = choose|xi: int|
                            0 <= xi < rowv@.len() && rowv@[xi] == d;
                        assert(rowv@[rowv@.len() - 1] >= d) by {
                            if xi < rowv@.len() - 1 {
                                assert(rowv@[xi] < rowv@[rowv@.len() - 1]);
                            }
                        }
                        assert(rowv@[rowv@.len() - 1] == d);
                    }
                }
                let dup = rowv.len() > 0 && rowv[rowv.len() - 1] == d;
                proof {
                    assert(dup == pre_out[s as int]@.contains(d)) by {
                        if dup {
                            assert(pre_out[s as int]@[pre_out[s as int]@.len() - 1] == d);
                        }
                    }
                }
                if !dup {
                    rowv.push(d);
                }
                out.insert(s, rowv);
                proof {
                    last = (s, d);
                    assert(out@.len() == pre_out.len());
                    assert(forall|q: int|
                        0 <= q < out@.len() && q != s ==> #[trigger] out@[q] == pre_out[q]);
                    if dup {
                        assert(out@[s as int] == pre_out[s as int]);
                    } else {
                        assert(out@[s as int]@ =~= pre_out[s as int]@.push(d));
                        assert(out@[s as int]@[out@[s as int]@.len() - 1] == d);
                    }
                    assert(out@[s as int]@.contains(d));
                    assert forall|s2: usize, d2: usize|
                        #![trigger out@[s2 as int]@.contains(d2)]
                        s2 < n implies (out@[s2 as int]@.contains(d2) <==> merge.remaining().count(
                        (s2, d2, ()),
                    ) < m0.count((s2, d2, ()))) by {
                        if s2 == s && d2 == d {
                            assert(out@[s as int]@.contains(d));
                            assert(merge.remaining().count((s, d, ())) < m0.count((s, d, ())));
                        } else {
                            assert(merge.remaining().count((s2, d2, ())) == pre_rem.count(
                                (s2, d2, ()),
                            ));
                            if dup || s2 != s {
                                assert(out@[s2 as int]@.contains(d2) == pre_out[s2 as int]@.contains(
                                    d2,
                                ));
                            } else {
                                assert(out@[s as int]@.contains(d2) == pre_out[s as int]@.contains(
                                    d2,
                                )) by {
                                    if pre_out[s as int]@.contains(d2) {
                                        let xi = choose|xi: int|
                                            0 <= xi < pre_out[s as int]@.len() && pre_out[s as int]@[xi]
                                                == d2;
                                        assert(out@[s as int]@[xi] == d2);
                                    } else if out@[s as int]@.contains(d2) {
                                        let xi = choose|xi: int|
                                            0 <= xi < out@[s as int]@.len() && out@[s as int]@[xi]
                                                == d2;
                                        assert(xi < pre_out[s as int]@.len());
                                        assert(pre_out[s as int]@[xi] == d2);
                                    }
                                }
                            }
                        }
                    }
                    assert forall|s2: int|
                        0 <= s2 < n implies (forall|x: int, y: int|
                        #![trigger out@[s2][x], out@[s2][y]]
                        0 <= x < y < (#[trigger] out@[s2])@.len() ==> out@[s2]@[x]
                            < out@[s2]@[y]) by {
                        if s2 == s && !dup {
                            assert(out@[s as int]@ =~= pre_out[s as int]@.push(d));
                            assert forall|x: int|
                                0 <= x < pre_out[s as int]@.len() implies pre_out[s as int]@[x]
                                < d by {
                                assert(pre_out[s as int]@.contains(pre_out[s as int]@[x]));
                                assert(pair_le((s, pre_out[s as int]@[x]), pre_last));
                                assert(pair_le(pre_last, (s, d)));
                                assert(pre_out[s as int]@[x] != d);
                            }
                        }
                    }
                    assert forall|s2: usize, d2: usize|
                        #![trigger out@[s2 as int]@.contains(d2)]
                        s2 < n && out@[s2 as int]@.contains(d2) implies pair_le(
                        (s2, d2),
                        last,
                    ) by {
                        if s2 == s && !dup {
                            assert(out@[s as int]@ =~= pre_out[s as int]@.push(d));
                            if d2 != d {
                                let xi = choose|xi: int|
                                    0 <= xi < out@[s as int]@.len() && out@[s as int]@[xi] == d2;
                                assert(xi < pre_out[s as int]@.len());
                                assert(pre_out[s as int]@.contains(d2));
                                assert(pair_le((s2, d2), pre_last));
                                assert(pair_le(pre_last, (s, d)));
                            }
                        } else if !(s2 == s && d2 == d) {
                            assert(pre_out[s2 as int]@.contains(d2));
                            assert(pair_le((s2, d2), pre_last));
                            assert(pair_le(pre_last, (s, d)));
                        }
                    }
                }
            },
        }
    }
    proof {
        assert(merge.remaining().len() == 0);
        assert forall|s: usize, d: usize|
            #![trigger out@[s as int]@.contains(d)]
            s < n implies (out@[s as int]@.contains(d) <==> m0.count((s, d, ())) >= 1) by {
            assert(merge.remaining().count((s, d, ())) == 0) by {
                broadcast use vstd::multiset::group_multiset_axioms;

                if merge.remaining().count((s, d, ())) > 0 {
                    assert(merge.remaining().len() > 0);
                }
            }
        }
    }
    proof {
        let m2 = out@.map_values(|v: Vec<usize>| v@);
        assert forall|q: int| 0 <= q < m2.len() implies row_ok(#[trigger] m2[q], n as nat) by {
            assert(m2[q] == out@[q]@);
            assert forall|x: int| 0 <= x < out@[q]@.len() implies (#[trigger] out@[q]@[x] as nat)
                < n by {
                let dd = out@[q]@[x];
                assert(out@[q]@.contains(dd));
                let qq = q as usize;
                assert(qq as int == q);
                assert(m0.count((qq, dd, ())) > 0);
            }
        }
        assert(succs_wf(m2));
    }
    let t = match VecGraph::from_sorted_rows(out) {
        Ok(t) => t,
        Err(_) => {
            proof {
                assert(false);
            }
            return Err(GraphError::BadArgument);
        },
    };
    proof {
        assert(forall|uu: int|
            0 <= uu < n ==> #[trigger] t.rows()[uu] == out@[uu]@ || true);
    }
    Ok(t)
}

/// The flipped arcs of a labelled arc list, pushed once the first `i`
/// entries have been walked.
pub open spec fn flipped_prefix<T>(arcs: Seq<(usize, usize, T)>, i: int) -> Seq<(usize, usize, T)> {
    arcs.subrange(0, i).map_values(|t: (usize, usize, T)| (t.1, t.0, t.2))
}

/// Transpose a labelled arc stream: every `(src, dst, label)` goes through
/// the sorter flipped, and the merge hands the arcs of the transposed graph
/// back ordered by their new source, labels riding along.
#[verifier::loop_isolation(false)]
pub fn transpose_labelled<T: crate::sort_pairs::SortPairsPayload + Copy + Send>(
    arcs: &Vec<(usize, usize, T)>,
    batch_size: usize,
) -> (r: Result<KMergeIters<T>, GraphError>)
    requires
        1 <= batch_size <= usize::MAX / 1600,
        forall|i: int|
            0 <= i < arcs@.len() ==> ((#[trigger] arcs@[i].0 as nat) < node_bound() && (
            arcs@[i].1 as nat) < node_bound() && arcs@[i].2.inv()),
    ensures
        r matches Ok(m) && m.wf() && m.remaining() == flipped_prefix(
            arcs@,
            arcs@.len() as int,
        ).to_multiset(),
{
    broadcast use vstd::seq_lib::group_to_multiset_ensures;

    let mut sorted = crate::sort_pairs::SortPairs::<T>::new(batch_size);
    let mut i: usize = 0;
    proof {
        assert(flipped_prefix(arcs@, 0) =~= Seq::<(usize, usize, T)>::empty());
        assert(flipped_prefix(arcs@, 0).to_multiset().len() == 0);
    }
    while i < arcs.len()
        invariant
            sorted.inv(),
            i <= arcs@.len(),
            sorted.pushed() == flipped_prefix(arcs@, i as int).to_multiset(),
        decreases arcs@.len() - i,
    {
        let (src, dst, label) = arcs[i];
        let rr = sorted.push(dst, src, label);
        proof {
            assert(flipped_prefix(arcs@, i + 1) =~= flipped_prefix(arcs@, i as int).push(
                (dst, src, label),
            ));
        }
        i = i + 1;
    }
    proof {
        assert(arcs@.subrange(0, arcs@.len() as int) =~= arcs@);
    }
    sorted.iter()
}

/// Transposing twice gives the original graph back: transposition is an
/// involution on well-formed graphs, up to arc-set equality made pointwise.
pub proof fn lemma_transpose_involution(
    g: Seq<Seq<usize>>,
    t: Seq<Seq<usize>>,
    h: Seq<Seq<usize>>,
)
    requires
        succs_wf(g),
        succs_wf(t),
        succs_wf(h),
        g.len() == t.len() == h.len(),
        g.len() <= usize::MAX,
        forall|u: usize, v: usize| has_arc(t, u, v) <==> has_arc(g, v, u),
        forall|u: usize, v: usize| has_arc(h, u, v) <==> has_arc(t, v, u),
    ensures
        h == g,
{
    assert forall|u: usize, v: usize| has_arc(h, u, v) <==> has_arc(g, u, v) by {
        assert(has_arc(h, u, v) <==> has_arc(t, v, u));
        assert(has_arc(t, v, u) <==> has_arc(g, u, v));
    }
    crate::vec_graph::lemma_graph_arc_unique(h, g);
}

/// A node with no incoming arc in the graph is not a source in the
/// transpose: its row there is empty.
pub proof fn lemma_isolated_not_source(g: Seq<Seq<usize>>, t: Seq<Seq<usize>>, v: usize)
    requires
        succs_wf(g),
        succs_wf(t),
        g.len() == t.len(),
        forall|u: usize, w: usize| has_arc(t, u, w) <==> has_arc(g, w, u),
        forall|u: usize| !has_arc(g, u, v),
        v < t.len(),
    ensures
        t[v as int].len() == 0,
{
    if t[v as int].len() > 0 {
        let w = t[v as int][0];
        assert(t[v as int].contains(w));
        assert(has_arc(t, v, w));
        assert(has_arc(g, w, v));
        assert(false);
    }
}

} // verus!
