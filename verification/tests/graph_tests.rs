//! Tests of the graph views, the transpose, and the clustering pass.

use webgraph::coo_to_graph::COOIterToGraph;
use webgraph::permuted_graph::Sorted;
use webgraph::sort_pairs::DeltaPayload;
use webgraph::llp::layered_label_propagation;
use webgraph::permuted_graph::PermutedGraph;
use webgraph::transpose::transpose;
use webgraph::utils::GraphError;
use webgraph::vec_graph::VecGraph;

#[test]
fn test_permuted_graph() {
    let g = VecGraph::from_arc_list(&vec![(0, 1), (1, 2), (2, 0), (2, 1)]).unwrap();
    let perm = vec![2, 0, 1];
    let p = PermutedGraph {
        graph: &g,
        perm: &perm,
    };
    assert_eq!(p.num_nodes(), 3);
    assert_eq!(p.num_arcs_hint(), Some(4));
    let mut arcs = Vec::new();
    let mut it = p.iter_nodes();
    while let Some((u, mut s)) = it.next() {
        while let Some(w) = s.next() {
            arcs.push((u, w));
        }
    }
    let v = VecGraph::from_arc_list(&arcs).unwrap();

    assert_eq!(v.num_nodes(), 3);
    assert_eq!(v.outdegree(0).unwrap(), 1);
    assert_eq!(v.outdegree(1).unwrap(), 2);
    assert_eq!(v.outdegree(2).unwrap(), 1);
    assert_eq!(v.successors(0).unwrap(), vec![1]);
    assert_eq!(v.successors(1).unwrap(), vec![0, 2]);
    assert_eq!(v.successors(2).unwrap(), vec![0]);
}

#[test]
fn test_coo_iter() {
    let arcs = vec![(0, 1), (0, 2), (1, 2), (1, 3), (2, 4), (3, 4)];
    let g = VecGraph::from_arc_list(&arcs).unwrap();
    let coo = COOIterToGraph::new(g.num_nodes(), arcs.clone()).unwrap();
    let mut rows = Vec::new();
    let mut it = coo.iter_nodes();
    while let Some((u, mut s)) = it.next() {
        let mut row = Vec::new();
        while let Some(w) = s.next() {
            row.push(w);
        }
        assert_eq!(u, rows.len());
        rows.push(row);
    }
    let g2 = VecGraph::from_sorted_rows(rows).unwrap();
    assert_eq!(g, g2);
}

#[test]
fn test_coo_rejects_unsorted() {
    let arcs = vec![(1, 0), (0, 1)];
    assert_eq!(
        COOIterToGraph::new(2, arcs).err(),
        Some(GraphError::BadArgument)
    );
}

#[test]
fn test_transposition() {
    let arcs = vec![(0, 1), (0, 2), (1, 2), (1, 3), (2, 4), (3, 4)];
    let g = VecGraph::from_arc_list(&arcs).unwrap();

    let g2 = transpose(&g, 3).unwrap();
    let g3 = transpose(&g2, 3).unwrap();

    assert_eq!(g, g3);
}

#[test]
fn test_transpose_arcs() {
    // transposing these arcs must flip each one, grouped by the new source
    let arcs = vec![(0, 1), (0, 2), (1, 2), (1, 3), (2, 4), (3, 4)];
    let g = VecGraph::from_arc_list(&arcs).unwrap();
    let t = transpose(&g, 3).unwrap();
    assert_eq!(t.num_nodes(), 5);
    assert_eq!(t.successors(0).unwrap(), Vec::<usize>::new());
    assert_eq!(t.successors(1).unwrap(), vec![0]);
    assert_eq!(t.successors(2).unwrap(), vec![0, 1]);
    assert_eq!(t.successors(3).unwrap(), vec![1]);
    assert_eq!(t.successors(4).unwrap(), vec![2, 3]);
}

#[test]
fn test_transpose_isolated_node() {
    // node 2 has no arcs at all: it is not a source in the transpose
    let arcs = vec![(0, 1), (1, 0), (3, 4), (4, 3)];
    let g = VecGraph::from_arc_list(&arcs).unwrap();
    let t = transpose(&g, 2).unwrap();
    assert_eq!(t.outdegree(2).unwrap(), 0);
}

#[test]
fn test_graph_num_arcs() {
    let arcs = vec![(0, 1), (0, 2), (1, 2), (1, 3), (2, 4), (3, 4)];
    let g = VecGraph::from_arc_list(&arcs).unwrap();
    // the sum of outdegrees equals the arc count
    let mut total = 0;
    for v in 0..g.num_nodes() {
        total += g.outdegree(v).unwrap();
    }
    assert_eq!(g.num_arcs().unwrap(), total);
    assert_eq!(g.num_arcs().unwrap(), 6);
}

#[test]
fn test_outdegree_out_of_range() {
    let g = VecGraph::from_arc_list(&vec![(0, 1)]).unwrap();
    assert_eq!(g.outdegree(7).err(), Some(GraphError::BadArgument));
    assert!(g.successors(7).is_err());
}

#[test]
fn test_bfs_order() {
    let g = VecGraph::from_arc_list(&vec![(0, 1), (1, 2), (0, 3), (5, 4)]).unwrap();
    let mut bfs = webgraph::bfs_order::BfsOrder::new(&g);
    assert_eq!(bfs.len(), 6);
    let mut seen = Vec::new();
    while let Some(v) = bfs.next() {
        seen.push(v);
    }
    assert_eq!(seen.len(), 6);
    // every node comes out exactly once
    let mut sorted = seen.clone();
    sorted.sort();
    assert_eq!(sorted, vec![0, 1, 2, 3, 4, 5]);
    // nodes reachable from 0 come out in breadth-first order
    assert_eq!(&seen[0..3], &[0, 1, 3]);
    assert_eq!(seen[3], 2);
}

#[test]
fn test_llp_two_cliques() {
    // a disjoint union of two 5-cliques converges to two labels and the
    // permutation groups each clique into one contiguous run
    let mut arcs = Vec::new();
    for a in 0..5usize {
        for b in 0..5usize {
            if a != b {
                arcs.push((a, b));
                arcs.push((a + 5, b + 5));
            }
        }
    }
    let g = VecGraph::from_arc_list(&arcs).unwrap();
    let mut perm = vec![0usize; 10];
    let labels = layered_label_propagation(&g, &mut perm, 1, 10, 20, 100, 100, 0).unwrap();
    assert_eq!(labels.len(), 10);
    assert_eq!(perm.len(), 10);
    // the two cliques end up with exactly two distinct labels
    let mut distinct = labels.clone();
    distinct.sort();
    distinct.dedup();
    assert_eq!(distinct.len(), 2);
    // each clique is uniformly labelled
    for v in 1..5 {
        assert_eq!(labels[v], labels[0]);
        assert_eq!(labels[v + 5], labels[5]);
    }
    assert_ne!(labels[0], labels[5]);
    // the permutation holds each clique contiguously
    let first: Vec<usize> = perm[0..5].to_vec();
    let second: Vec<usize> = perm[5..10].to_vec();
    let same_side =
        |side: &Vec<usize>| side.iter().all(|&v| v < 5) || side.iter().all(|&v| v >= 5);
    assert!(same_side(&first));
    assert!(same_side(&second));
}

#[test]
fn test_llp_wrong_perm_length() {
    let g = VecGraph::from_arc_list(&vec![(0, 1)]).unwrap();
    let mut perm = vec![0usize; 5];
    assert_eq!(
        layered_label_propagation(&g, &mut perm, 1, 10, 5, 8, 8, 0).err(),
        Some(GraphError::BadArgument)
    );
}

#[test]
fn test_transposition_labelled() {
    let arcs = vec![
        (0usize, 1usize, DeltaPayload(10)),
        (0, 2, DeltaPayload(20)),
        (1, 2, DeltaPayload(30)),
        (3, 0, DeltaPayload(40)),
    ];
    let mut m = webgraph::transpose::transpose_labelled(&arcs, 2).unwrap();
    let mut out = Vec::new();
    while let Some(t) = m.next() {
        out.push((t.0, t.1, t.2 .0));
    }
    // every arc comes back flipped, sorted by the new (src, dst), labels intact
    assert_eq!(out, vec![(0, 3, 40), (1, 0, 10), (2, 0, 20), (2, 1, 30)]);
}

#[test]
fn test_sorted_builder() {
    // gather the arcs of a graph through the sorter and build it back
    let arcs = vec![(0, 1), (0, 2), (1, 2), (1, 3), (2, 4), (3, 4)];
    let g = VecGraph::from_arc_list(&arcs).unwrap();
    let mut sorted = Sorted::new(g.num_nodes(), 2).unwrap();
    sorted.extend(&g).unwrap();
    sorted.finish().unwrap();
    let mut merged = sorted.build();
    assert_eq!(merged.num_nodes(), 5);
    let rebuilt = merged.to_graph().unwrap();
    assert_eq!(g, rebuilt);
}

#[test]
fn test_sorted_push_single_arcs() {
    let mut sorted = Sorted::new(3, 2).unwrap();
    sorted.push(2, 0).unwrap();
    sorted.push(0, 2).unwrap();
    sorted.push(1, 1).unwrap();
    sorted.finish().unwrap();
    let mut merged = sorted.build();
    let g = merged.to_graph().unwrap();
    assert_eq!(g.successors(0).unwrap(), vec![2]);
    assert_eq!(g.successors(1).unwrap(), vec![1]);
    assert_eq!(g.successors(2).unwrap(), vec![0]);
}

#[test]
fn test_sorted_duplicate_arcs_collapse() {
    // pushing the same arc twice yields it once in the built graph
    let mut sorted = Sorted::new(3, 2).unwrap();
    sorted.push(1, 2).unwrap();
    sorted.push(1, 2).unwrap();
    sorted.push(0, 2).unwrap();
    sorted.push(1, 2).unwrap();
    sorted.finish().unwrap();
    let mut merged = sorted.build();
    let g = merged.to_graph().unwrap();
    assert_eq!(g.successors(0).unwrap(), vec![2]);
    assert_eq!(g.successors(1).unwrap(), vec![2]);
    assert_eq!(g.successors(2).unwrap(), Vec::<usize>::new());
}
