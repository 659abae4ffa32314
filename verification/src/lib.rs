//! A compressed web-graph engine: bit-level integer codes over buffered word
//! streams, the BVGraph adjacency codec, an external-memory pair sorter used
//! to transpose graphs, a chunked compressor, and a label-propagation
//! clustering pass that improves compressibility.

pub mod bfs_order;
pub mod bit_reader;
pub mod bit_stream;
pub mod bit_writer;
pub mod bits;
pub mod bvcomp;
pub mod code_readers;
pub mod codes;
pub mod comp_flags;
pub mod coo_to_graph;
pub mod llp;
pub mod permuted_graph;
pub mod properties;
pub mod sort_pairs;
pub mod stats;
pub mod transpose;
pub mod utils;
pub mod vec_graph;
