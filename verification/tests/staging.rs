use apsp::buffer::{
    check_capacity, filled, first_out_of_range, stage_adjacency_matrix, unpad, Error, CELL_BYTES,
};
use apsp::distance::Distance;
use apsp::tropical_matmul::{BlockedTropicalMatmulKernel, NaiveTropicalMatmulKernel, TropicalMatmul};
use apsp::tropical_matmul_block;
use apsp::warshall_floyd;

const INF: Distance = Distance::Infinite;
const ZERO: Distance = Distance::Finite(0);
const ONE: Distance = Distance::Finite(1);

#[test]
fn seed_without_padding() {
    let staged = stage_adjacency_matrix(&[(0, 1), (2, 1)], 3, 3, 36).unwrap();
    assert_eq!(staged, vec![ZERO, ONE, INF, ONE, ZERO, ONE, INF, ONE, ZERO]);
}

#[test]
fn seed_with_padded_rows() {
    let staged = stage_adjacency_matrix(&[(0, 1)], 2, 4, 32).unwrap();
    assert_eq!(staged, vec![ZERO, ONE, INF, INF, ONE, ZERO, INF, INF]);
}

#[test]
fn seed_with_both_axes_padded() {
    let staged = stage_adjacency_matrix(&[(1, 0)], 2, 3, 36).unwrap();
    assert_eq!(staged, vec![ZERO, ONE, INF, ONE, ZERO, INF, INF, INF, INF]);
}

#[test]
fn seed_of_the_empty_graph() {
    assert_eq!(stage_adjacency_matrix(&[], 0, 0, 0), Ok(vec![]));
    assert_eq!(stage_adjacency_matrix(&[], 2, 2, 16), Ok(vec![ZERO, INF, INF, ZERO]));
}

#[test]
fn repeated_and_reversed_edges_count_once() {
    let staged = stage_adjacency_matrix(&[(0, 1), (1, 0), (0, 1)], 2, 2, 16).unwrap();
    assert_eq!(staged, vec![ZERO, ONE, ONE, ZERO]);
}

#[test]
fn a_loop_is_entered_on_the_diagonal() {
    let staged = stage_adjacency_matrix(&[(1, 1), (0, 1)], 2, 2, 16).unwrap();
    assert_eq!(staged, vec![ZERO, ONE, ONE, ONE]);
}

#[test]
fn vertex_out_of_range_is_refused_with_its_position() {
    assert_eq!(
        stage_adjacency_matrix(&[(0, 1), (1, 3), (5, 0)], 3, 3, 36),
        Err(Error::VertexOutOfRange { index: 1 })
    );
    assert_eq!(
        stage_adjacency_matrix(&[(0, 1), (1, 2), (3, 0)], 3, 3, 36),
        Err(Error::VertexOutOfRange { index: 2 })
    );
    assert_eq!(
        stage_adjacency_matrix(&[(0, 0)], 0, 0, 0),
        Err(Error::VertexOutOfRange { index: 0 })
    );
}

#[test]
fn vertex_out_of_range_is_found_before_the_capacity_is_looked_at() {
    assert_eq!(
        stage_adjacency_matrix(&[(0, 3)], 3, 3, 35),
        Err(Error::VertexOutOfRange { index: 0 })
    );
}

#[test]
fn capacity_mismatch_is_refused() {
    let edges = [(0usize, 1usize)];
    assert_eq!(stage_adjacency_matrix(&edges, 3, 3, 35), Err(Error::CapacityMismatch));
    assert_eq!(stage_adjacency_matrix(&edges, 3, 3, 40), Err(Error::CapacityMismatch));
    assert_eq!(stage_adjacency_matrix(&edges, 3, 2, 24), Err(Error::CapacityMismatch));
    assert_eq!(stage_adjacency_matrix(&edges, 3, 4, 36), Err(Error::CapacityMismatch));
    assert_eq!(stage_adjacency_matrix(&edges, 2, 4, 4 * 4 * 3), Err(Error::CapacityMismatch));
    assert!(stage_adjacency_matrix(&edges, 3, 4, 48).is_ok());
    assert!(stage_adjacency_matrix(&edges, 3, 4, 64).is_ok());
}

#[test]
fn capacity_check() {
    assert_eq!(CELL_BYTES, 4);
    assert!(check_capacity(100, 112, 112 * 100 * 4));
    assert!(check_capacity(100, 112, 112 * 112 * 4));
    assert!(!check_capacity(100, 112, 100 * 100 * 4));
    assert!(!check_capacity(100, 99, 99 * 100 * 4));
    assert!(check_capacity(0, 0, 0));
    assert!(check_capacity(0, 16, 0));
    assert!(check_capacity(0, 16, 16 * 16 * 4));
    assert!(!check_capacity(usize::MAX, usize::MAX, 0));
    assert!(!check_capacity(1 << (usize::BITS / 2), 1 << (usize::BITS / 2), 0));
}

#[test]
fn first_edge_out_of_range() {
    assert_eq!(first_out_of_range(&[], 0), None);
    assert_eq!(first_out_of_range(&[(0, 1), (1, 2)], 3), None);
    assert_eq!(first_out_of_range(&[(0, 1), (1, 2)], 2), Some(1));
    assert_eq!(first_out_of_range(&[(2, 0), (1, 2)], 2), Some(0));
}

#[test]
fn filled_buffers() {
    assert_eq!(filled(Distance::Finite(3), 0), vec![]);
    assert_eq!(filled(INF, 3), vec![INF, INF, INF]);
}

#[test]
fn engines_stage_in_their_own_layout() {
    let edges = [(0usize, 1usize), (1, 2)];
    let n = 3;
    let naive = TropicalMatmul::new(NaiveTropicalMatmulKernel::new())
        .stage_adjacency_matrix(&edges, n)
        .unwrap();
    assert_eq!(naive, vec![ZERO, ONE, INF, ONE, ZERO, ONE, INF, ONE, ZERO]);
    let blocked = TropicalMatmul::new(BlockedTropicalMatmulKernel::new())
        .stage_adjacency_matrix(&edges, n)
        .unwrap();
    assert_eq!(blocked.len(), 16 * 16);
    let rows_only = tropical_matmul_block::stage_adjacency_matrix(&edges, n).unwrap();
    assert_eq!(rows_only.len(), 16 * 3);
    let relaxing = warshall_floyd::stage_adjacency_matrix(&edges, n).unwrap();
    assert_eq!(relaxing, rows_only);
    for p in 0..16 * 16 {
        let (r, c) = (p / 16, p % 16);
        let expected = if r < n && c < n { naive[r * n + c] } else { INF };
        assert_eq!(blocked[p], expected);
        if r < n {
            assert_eq!(rows_only[p], expected);
        }
    }
    assert_eq!(unpad(&blocked, n, 16).unwrap(), naive);
    assert_eq!(unpad(&rows_only, n, 16).unwrap(), naive);
}

#[test]
fn engines_refuse_what_staging_refuses() {
    let tm = TropicalMatmul::new(BlockedTropicalMatmulKernel::new());
    assert_eq!(
        tm.stage_adjacency_matrix(&[(0, 1), (2, 7)], 7),
        Err(Error::VertexOutOfRange { index: 1 })
    );
    assert_eq!(
        tropical_matmul_block::stage_adjacency_matrix(&[(9, 1)], 9),
        Err(Error::VertexOutOfRange { index: 0 })
    );
    assert_eq!(
        warshall_floyd::stage_adjacency_matrix(&[(0, 1), (1, 2), (2, 3)], 3),
        Err(Error::VertexOutOfRange { index: 2 })
    );
}

#[test]
fn fresh_buffers_are_zero() {
    let tm = TropicalMatmul::new(BlockedTropicalMatmulKernel::new());
    let (in_buffer, out_buffer) = tm.create_buffer(17);
    assert_eq!(in_buffer, vec![ZERO; 32 * 32]);
    assert_eq!(out_buffer, vec![ZERO; 32 * 32]);
    let tm = TropicalMatmul::new(NaiveTropicalMatmulKernel::new());
    let (in_buffer, out_buffer) = tm.create_buffer(3);
    assert_eq!(in_buffer, vec![ZERO; 9]);
    assert_eq!(out_buffer, vec![ZERO; 9]);
    assert_eq!(tm.create_buffer(0), (vec![], vec![]));
}

#[test]
fn unpad_reads_by_the_stride() {
    let f = Distance::Finite;
    let buffer = vec![f(0), f(1), f(9), f(9), f(2), f(3), f(9), f(9), f(9), f(9), f(9), f(9)];
    assert_eq!(unpad(&buffer, 2, 4), Ok(vec![f(0), f(1), f(2), f(3)]));
    assert_eq!(unpad(&buffer, 2, 2), Ok(vec![f(0), f(1), f(9), f(9)]));
    assert_eq!(unpad(&buffer, 3, 4), Ok(vec![f(0), f(1), f(9), f(2), f(3), f(9), f(9), f(9), f(9)]));
    assert_eq!(unpad(&buffer, 0, 4), Ok(vec![]));
    assert_eq!(unpad(&buffer, 0, 0), Ok(vec![]));
}

#[test]
fn unpad_refuses_a_buffer_without_room() {
    let buffer = vec![ZERO; 12];
    assert_eq!(unpad(&buffer, 4, 4), Err(Error::CapacityMismatch));
    assert_eq!(unpad(&buffer, 3, 2), Err(Error::CapacityMismatch));
    assert_eq!(unpad(&buffer, 2, 7), Err(Error::CapacityMismatch));
    assert_eq!(unpad(&buffer, usize::MAX, usize::MAX), Err(Error::CapacityMismatch));
    assert_eq!(unpad(&buffer, 2, 6), Ok(vec![ZERO; 4]));
}
