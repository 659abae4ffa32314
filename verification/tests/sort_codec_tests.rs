//! Tests of the external pair sorter and of the adjacency codec, including
//! chunked compression against the sequential stream.

use webgraph::bvcomp::{compress_graph, compress_graph_chunked, decode_graph};
use webgraph::bits::BitOrder;
use webgraph::comp_flags::{Code, CompFlags};
use webgraph::sort_pairs::{DeltaPayload, SortPairs};
use webgraph::properties::{parse_properties, write_properties};
use webgraph::utils::GraphError;
use webgraph::vec_graph::VecGraph;

#[test]
fn test_push() {
    let mut sp: SortPairs<DeltaPayload> = SortPairs::new(10);
    let n = 25;
    for i in 0..n {
        sp.push(i, i + 1, DeltaPayload((i + 2) as u64)).unwrap();
    }
    let mut iter = sp.iter().unwrap();
    let mut cloned = iter.clone();

    for _ in 0..n {
        let (x, y, p) = iter.next().unwrap();
        println!("{} {} {}", x, y, p.0);
        assert_eq!(x + 1, y);
        assert_eq!(x + 2, p.0 as usize);
    }

    for _ in 0..n {
        let (x, y, p) = cloned.next().unwrap();
        println!("{} {} {}", x, y, p.0);
        assert_eq!(x + 1, y);
        assert_eq!(x + 2, p.0 as usize);
    }
}

#[test]
fn test_sort_pairs_order_and_count() {
    // pushed triples come back sorted by (src, dst) and none is lost
    let mut sp: SortPairs<()> = SortPairs::new(4);
    let input = vec![(5, 1), (0, 9), (5, 0), (2, 2), (0, 3), (7, 7), (2, 1), (0, 1), (9, 0)];
    for &(x, y) in input.iter() {
        sp.push(x, y, ()).unwrap();
    }
    let mut iter = sp.iter().unwrap();
    let mut out = Vec::new();
    while let Some((x, y, ())) = iter.next() {
        out.push((x, y));
    }
    assert_eq!(out.len(), input.len());
    let mut expected = input.clone();
    expected.sort();
    assert_eq!(out, expected);
}

fn window_free_flags() -> CompFlags {
    CompFlags {
        outdegrees: Code::Gamma,
        references: Code::Unary,
        blocks: Code::Gamma,
        intervals: Code::Gamma,
        residuals: Code::Zeta { k: 3 },
        compression_window: 0,
        max_ref_count: 0,
        min_interval_length: 4,
    }
}

fn sample_graph() -> VecGraph {
    let arcs = vec![
        (0, 1),
        (0, 2),
        (0, 3),
        (0, 4),
        (0, 5),
        (1, 7),
        (2, 2),
        (2, 3),
        (2, 9),
        (4, 0),
        (4, 1),
        (4, 2),
        (4, 3),
        (4, 4),
        (4, 5),
        (4, 6),
        (4, 7),
        (4, 8),
        (4, 9),
        (7, 0),
        (8, 3),
        (9, 0),
        (9, 9),
    ];
    VecGraph::from_arc_list(&arcs).unwrap()
}

#[test]
fn test_compress_decode_round_trip() {
    let g = sample_graph();
    let flags = window_free_flags();
    for order in [BitOrder::M2L, BitOrder::L2M] {
        let (words, bits, arcs) = compress_graph(&g, &flags, order).unwrap();
        assert_eq!(arcs, g.num_arcs().unwrap());
        assert!(bits <= words.len() * 32);
        let g2 = decode_graph(words, order, &flags, g.num_nodes()).unwrap();
        assert_eq!(g, g2);
    }
}

#[test]
fn test_parallel_equals_sequential() {
    // the chunked compressor produces the very same stream, whatever the
    // chunk count, and it decodes back to the original graph
    let g = sample_graph();
    let flags = window_free_flags();
    let (w1, b1, a1) = compress_graph(&g, &flags, BitOrder::M2L).unwrap();
    for chunks in [1usize, 2, 3, 5, 7, 9] {
        let (w2, b2, a2) =
            webgraph::bvcomp::parallel_compress_sequential_iter(&g, &flags, BitOrder::M2L, chunks)
                .unwrap();
        assert_eq!(w1, w2);
        assert_eq!(b1, b2);
        assert_eq!(a1, a2);
        let g2 = decode_graph(w2, BitOrder::M2L, &flags, g.num_nodes()).unwrap();
        assert_eq!(g, g2);
    }
}

#[test]
fn test_compress_empty_graph() {
    // an empty graph takes zero record bits and holds zero arcs
    let g = VecGraph::empty(0);
    let flags = window_free_flags();
    let (words, bits, arcs) = compress_graph(&g, &flags, BitOrder::M2L).unwrap();
    assert_eq!(bits, 0);
    assert_eq!(arcs, 0);
    assert_eq!(words.len(), 0);
    let g2 = decode_graph(words, BitOrder::M2L, &flags, 0).unwrap();
    assert_eq!(g, g2);
}

#[test]
fn test_full_outdegree_intervals_or_residuals() {
    // a node with outdegree N-1: with a low threshold its run becomes an
    // interval; with a threshold past N-1 no interval qualifies and the
    // record is residuals only, decoding identically either way
    let mut arcs = Vec::new();
    for b in 1..8usize {
        arcs.push((0, b));
    }
    let g = VecGraph::from_arc_list(&arcs).unwrap();
    let mut flags = window_free_flags();
    let (wa, _, _) = compress_graph(&g, &flags, BitOrder::M2L).unwrap();
    assert_eq!(decode_graph(wa, BitOrder::M2L, &flags, 8).unwrap(), g);
    flags.min_interval_length = 100;
    let (wb, _, _) = compress_graph(&g, &flags, BitOrder::M2L).unwrap();
    assert_eq!(decode_graph(wb, BitOrder::M2L, &flags, 8).unwrap(), g);
}

#[test]
fn test_decode_rejects_garbage() {
    let flags = window_free_flags();
    // all-zero words never hold a γ outdegree: the unary part runs off the
    // stream
    let r = decode_graph(vec![0u32; 2], BitOrder::M2L, &flags, 3);
    assert!(r.is_err());
}

#[test]
fn test_reader_rejects_bad_zeta() {
    let flags = CompFlags {
        residuals: Code::Zeta { k: 0 },
        ..window_free_flags()
    };
    let words: Vec<u32> = vec![0; 1];
    let rd = webgraph::bit_reader::BufferedBitStreamRead::new(BitOrder::M2L, words);
    let r = webgraph::code_readers::ConstCodesReader::new(rd, &flags);
    assert_eq!(r.err(), Some(GraphError::PropertyMismatch));
}

#[test]
fn test_mock_writer_lengths() {
    // the mock writer reports exactly the lengths the real writer emits
    let flags = window_free_flags();
    let w = webgraph::bit_writer::BufferedBitStreamWrite::new(BitOrder::M2L);
    let mut cw = webgraph::code_readers::ConstCodesWriter::new(w, &flags).unwrap();
    let mock = cw.mock();
    let mut total = 0usize;
    for v in [0u64, 1, 5, 100, 4000] {
        total += cw.write_outdegree(v).unwrap();
        assert_eq!(mock.write_outdegree(v).unwrap(), webgraph::codes::len_gamma(v));
        total += cw.write_residual(v).unwrap();
        assert_eq!(mock.write_residual(v).unwrap(), webgraph::codes::len_zeta(v, 3));
    }
    let words = cw.flush();
    assert!(total <= words.len() * 32);
    assert!(words.len() * 32 < total + 32);
}

#[test]
fn test_properties_round_trip() {
    let flags = window_free_flags();
    for order in [BitOrder::M2L, BitOrder::L2M] {
        let bytes = write_properties(12345, 67890, &flags, order);
        let (n, a, f, o) = parse_properties(&bytes).unwrap();
        assert_eq!(n, 12345);
        assert_eq!(a, 67890);
        assert_eq!(f, flags);
        assert_eq!(o, order);
        // and the parse result serializes back to the same bytes
        assert_eq!(write_properties(n, a, &f, o), bytes);
    }
    // a corrupted count is refused
    let bad = String::from_utf8(write_properties(1, 1, &flags, BitOrder::M2L))
        .unwrap()
        .replace("nodes=1", "nodes=x1");
    assert_eq!(
        parse_properties(&bad.into_bytes()).err(),
        Some(GraphError::PropertyMismatch)
    );
}

#[test]
fn test_properties_records_codes() {
    let flags = window_free_flags();
    let text = String::from_utf8(write_properties(7, 9, &flags, BitOrder::M2L)).unwrap();
    assert!(text.contains(
        "compressionflags=OUTDEGREES_GAMMA,REFERENCES_UNARY,BLOCKS_GAMMA,INTERVALS_GAMMA,RESIDUALS_ZETA\n"
    ));
    assert!(text.contains("zetak=3\n"));
    assert!(text.contains("nodes=7\n"));
    assert!(text.contains("arcs=9\n"));
    assert!(text.contains("endianness=big\n"));
}

#[test]
fn test_properties_zetak_only_for_zeta_residuals() {
    // with δ residuals no zetak line is written, and the text still parses
    let mut flags = window_free_flags();
    flags.residuals = Code::Delta;
    let bytes = write_properties(3, 4, &flags, BitOrder::L2M);
    let text = String::from_utf8(bytes.clone()).unwrap();
    assert!(!text.contains("zetak"));
    assert!(text.contains("RESIDUALS_DELTA"));
    let (n, a, f, o) = parse_properties(&bytes).unwrap();
    assert_eq!((n, a), (3, 4));
    assert_eq!(f, flags);
    assert_eq!(o, BitOrder::L2M);
}

#[test]
fn test_properties_parse_canonical_text() {
    let text = "nodes=5\narcs=11\ncompressionflags=OUTDEGREES_DELTA,REFERENCES_UNARY,\
BLOCKS_GAMMA,INTERVALS_GAMMA,RESIDUALS_ZETA\nwindowsize=0\nmaxrefcount=0\n\
minintervallength=4\nzetak=2\nendianness=little\n";
    let (n, a, f, o) = parse_properties(&text.as_bytes().to_vec()).unwrap();
    assert_eq!(n, 5);
    assert_eq!(a, 11);
    assert_eq!(f.outdegrees, Code::Delta);
    assert_eq!(f.residuals, Code::Zeta { k: 2 });
    assert_eq!(f.min_interval_length, 4);
    assert_eq!(o, BitOrder::L2M);
    // a mismatched code name is refused
    let bad = text.replace("DELTA", "THETA");
    assert!(parse_properties(&bad.as_bytes().to_vec()).is_err());
}

#[test]
fn test_merge_duplicate_independent() {
    // a duplicated merge yields the same triples; advancing one does not
    // move the other
    let mut sp: SortPairs<DeltaPayload> = SortPairs::new(10);
    let n = 25;
    for i in 0..n {
        sp.push(i, i + 1, DeltaPayload((i + 2) as u64)).unwrap();
    }
    let mut iter = sp.iter().unwrap();
    let mut dup = iter.duplicate();
    let mut first = Vec::new();
    while let Some(t) = iter.next() {
        first.push((t.0, t.1, t.2 .0));
    }
    let mut second = Vec::new();
    while let Some(t) = dup.next() {
        second.push((t.0, t.1, t.2 .0));
    }
    assert_eq!(first.len(), n);
    assert_eq!(first, second);
}

#[test]
fn test_properties_lenient_grammar() {
    // keys in any order, comments, blank lines, CRLF endings, and a
    // trailing line without its newline are all accepted
    let text = "# created by some other tool\r\n!another remark\n\narcs=11\n\
minintervallength=4\nnodes=5\r\ncompressionflags=RESIDUALS_ZETA,OUTDEGREES_DELTA\n\
windowsize=0\nzetak=2\nmaxrefcount=0\nendianness=little";
    let (n, a, f, o) = parse_properties(&text.as_bytes().to_vec()).unwrap();
    assert_eq!((n, a), (5, 11));
    assert_eq!(f.outdegrees, Code::Delta);
    // fields the flags value does not name keep their defaults
    assert_eq!(f.references, Code::Unary);
    assert_eq!(f.blocks, Code::Gamma);
    assert_eq!(f.intervals, Code::Gamma);
    assert_eq!(f.residuals, Code::Zeta { k: 2 });
    assert_eq!(f.compression_window, 0);
    assert_eq!(f.min_interval_length, 4);
    assert_eq!(o, BitOrder::L2M);
}

#[test]
fn test_properties_defaults_and_last_wins() {
    // a minimal text: only the two required keys; everything else defaults,
    // the endianness to big
    let text = "nodes=3\narcs=0\n";
    let (n, a, f, o) = parse_properties(&text.as_bytes().to_vec()).unwrap();
    assert_eq!((n, a), (3, 0));
    assert_eq!(o, BitOrder::M2L);
    assert_eq!(f.compression_window, 7);
    assert_eq!(f.max_ref_count, 3);
    assert_eq!(f.min_interval_length, 4);
    assert_eq!(f.residuals, Code::Zeta { k: 3 });
    // a later line for the same key wins
    let text2 = "nodes=3\narcs=0\nnodes=9\n";
    let (n2, _, _, _) = parse_properties(&text2.as_bytes().to_vec()).unwrap();
    assert_eq!(n2, 9);
    // a required key missing is refused
    let text3 = "arcs=0\n";
    assert_eq!(
        parse_properties(&text3.as_bytes().to_vec()).err(),
        Some(GraphError::PropertyMismatch)
    );
}
