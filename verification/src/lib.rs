//! All-pairs shortest paths of undirected, unweighted graphs, by
//! Floyd–Warshall relaxation and by repeated min-plus squaring with a naive
//! and a tiled kernel: the staging of the seed matrix, the sizing of grids
//! and buffers, the schedule of dispatches, and each dispatch on the host.
pub mod buffer;
pub mod convergence;
pub mod dispatch;
pub mod distance;
pub mod graph;
pub mod kernel;
pub mod matrix;
pub mod params;
pub mod theorems;
pub mod tropical_matmul;
pub mod tropical_matmul_block;
pub mod warshall_floyd;
