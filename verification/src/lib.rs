//! Data structures and graph algorithms for competitive programming,
//! with machine-checked contracts.

pub mod algebra;
pub mod binary_indexed_tree;
pub mod binary_trie;
pub mod bit_vector;
pub mod coordinate_compression;
pub mod cumulative_sum;
pub mod cycle_detection;
pub mod dijkstra;
pub mod doubling;
pub mod dynamic_binary_indexed_tree;
pub mod fastset;
pub mod graph;
pub mod integer_traits;
pub mod level_order;
pub mod lowlink;
pub mod min_heap;
pub mod modint;
pub mod ordered;
pub mod prime_factorize;
pub mod rolling_hash;
pub mod scc;
pub mod segtree;
pub mod sparse_table;
pub mod tree_diameter;
pub mod tsp;
pub mod unionfind;
pub mod wavelet_matrix;
pub mod weight;
