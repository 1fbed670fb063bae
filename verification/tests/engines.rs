use apsp::buffer::{unpad, Error};
use apsp::distance::Distance;
use apsp::tropical_matmul::{
    round_count, BlockedTropicalMatmulKernel, NaiveTropicalMatmulKernel, TropicalMatmul,
    TropicalMatmulKernel,
};
use apsp::kernel::Kernel;
use apsp::tropical_matmul_block;
use apsp::warshall_floyd;
use apsp::warshall_floyd::{WarshallFloyd, WarshallFloydKernel};

fn path_graph(n: usize) -> Vec<(usize, usize)> {
    (1..n).map(|i| (i - 1, i)).collect::<Vec<_>>()
}

fn hops(i: usize, j: usize) -> Distance {
    Distance::Finite(if i < j { j - i } else { i - j } as u64)
}

fn run_generic<K: TropicalMatmulKernel>(kernel: K, edges: &[(usize, usize)], n: usize) -> Vec<Distance> {
    let tm = TropicalMatmul::new(kernel);
    let (_, mut out_buffer) = tm.create_buffer(n);
    let mut in_buffer = tm.stage_adjacency_matrix(edges, n).unwrap();
    tm.run(&mut in_buffer, &mut out_buffer, n).unwrap();
    out_buffer
}

fn check_path<K: TropicalMatmulKernel>(kernel: K) {
    let n = 100usize;
    let result = run_generic(kernel, &path_graph(n), n);
    for i in 0..n {
        for j in 0..n {
            assert_eq!(result[i * K::num_threads_x(n) + j], hops(i, j));
        }
    }
}

#[test]
fn test_tropical_matmul_naive() {
    check_path(NaiveTropicalMatmulKernel::new());
}

#[test]
fn tropical_matmul_test_tropical_matmul_block() {
    check_path(BlockedTropicalMatmulKernel::new());
}

#[test]
fn tropical_matmul_block_test_tropical_matmul_block() {
    let n = 512usize;
    let size = tropical_matmul_block::TropicalMatmulKernel::buffer_size(n);
    let mut out_buffer = vec![Distance::Finite(0); size / 4];
    let edges = path_graph(n);
    let mut in_buffer = tropical_matmul_block::stage_adjacency_matrix(&edges, n).unwrap();
    assert_eq!(in_buffer.len(), size / 4);
    tropical_matmul_block::TropicalMatmul::new()
        .run(&mut in_buffer, &mut out_buffer, n)
        .unwrap();
    for i in 0..n {
        for j in 0..n {
            assert_eq!(
                out_buffer[i * tropical_matmul_block::TropicalMatmulKernel::stride_x(n) + j],
                hops(i, j)
            );
        }
    }
}

#[test]
fn path_graph_endpoints_and_neighbours() {
    let n = 100usize;
    let result = run_generic(BlockedTropicalMatmulKernel::new(), &path_graph(n), n);
    let stride = 112;
    assert_eq!(result[0 * stride + 99], Distance::Finite(99));
    assert_eq!(result[50 * stride + 51], Distance::Finite(1));
    assert_eq!(result[99 * stride + 0], Distance::Finite(99));
}

#[test]
fn warshall_floyd_path_graph() {
    let n = 100usize;
    let edges = path_graph(n);
    let in_buffer = warshall_floyd::stage_adjacency_matrix(&edges, n).unwrap();
    let mut out_buffer = vec![Distance::Finite(0); in_buffer.len()];
    WarshallFloyd::new().run(&in_buffer, &mut out_buffer, n).unwrap();
    let stride = WarshallFloydKernel::num_threads_x(n);
    assert_eq!(stride, 112);
    for i in 0..n {
        for j in 0..n {
            assert_eq!(out_buffer[i * stride + j], hops(i, j));
        }
    }
}

// Two triangles joined by a bridge, a pendant path, and two vertices
// apart from everything: 0-1-2-0, 2-3, 3-4-5-3, 5-6-7, 8 alone, 9 alone.
fn sample_graph() -> (Vec<(usize, usize)>, usize) {
    (
        vec![(0, 1), (1, 2), (2, 0), (2, 3), (3, 4), (4, 5), (5, 3), (5, 6), (7, 6), (6, 5)],
        10,
    )
}

fn all_engines(edges: &[(usize, usize)], n: usize) -> Vec<Vec<Distance>> {
    let naive = run_generic(NaiveTropicalMatmulKernel::new(), edges, n);
    let naive = unpad(&naive, n, NaiveTropicalMatmulKernel::num_threads_x(n)).unwrap();
    let blocked = run_generic(BlockedTropicalMatmulKernel::new(), edges, n);
    let blocked = unpad(&blocked, n, BlockedTropicalMatmulKernel::num_threads_x(n)).unwrap();
    let mut in_buffer = tropical_matmul_block::stage_adjacency_matrix(edges, n).unwrap();
    let mut out_buffer = vec![Distance::Infinite; in_buffer.len()];
    tropical_matmul_block::TropicalMatmul::new()
        .run(&mut in_buffer, &mut out_buffer, n)
        .unwrap();
    let rows_only =
        unpad(&out_buffer, n, tropical_matmul_block::TropicalMatmulKernel::stride_x(n)).unwrap();
    let staged = warshall_floyd::stage_adjacency_matrix(edges, n).unwrap();
    let mut relaxed = vec![Distance::Infinite; staged.len()];
    WarshallFloyd::new().run(&staged, &mut relaxed, n).unwrap();
    let relaxed = unpad(&relaxed, n, WarshallFloydKernel::num_threads_x(n)).unwrap();
    vec![naive, blocked, rows_only, relaxed]
}

#[test]
fn engines_agree_on_sample_graph() {
    let (edges, n) = sample_graph();
    let results = all_engines(&edges, n);
    for result in results.iter() {
        assert_eq!(result.len(), n * n);
        assert_eq!(result, &results[0]);
    }
    let d = &results[0];
    assert_eq!(d[0 * n + 7], Distance::Finite(5));
    assert_eq!(d[1 * n + 4], Distance::Finite(3));
    assert_eq!(d[4 * n + 6], Distance::Finite(2));
    assert_eq!(d[0 * n + 2], Distance::Finite(1));
    assert_eq!(d[3 * n + 7], Distance::Finite(3));
}

#[test]
fn diagonal_is_zero_in_every_engine() {
    let (edges, n) = sample_graph();
    for result in all_engines(&edges, n).iter() {
        for i in 0..n {
            assert_eq!(result[i * n + i], Distance::Finite(0));
        }
    }
}

#[test]
fn result_is_symmetric_in_every_engine() {
    let (edges, n) = sample_graph();
    for result in all_engines(&edges, n).iter() {
        for i in 0..n {
            for j in 0..n {
                assert_eq!(result[i * n + j], result[j * n + i]);
            }
        }
    }
}

#[test]
fn isolated_vertices_are_unreached_in_every_engine() {
    let (edges, n) = sample_graph();
    for result in all_engines(&edges, n).iter() {
        for v in [8usize, 9usize] {
            for j in 0..n {
                if j != v {
                    assert_eq!(result[v * n + j], Distance::Infinite);
                    assert_eq!(result[j * n + v], Distance::Infinite);
                }
            }
        }
    }
}

#[test]
fn a_loop_sets_the_engines_apart() {
    let edges = vec![(0usize, 0usize), (0, 1)];
    let n = 2;
    let results = all_engines(&edges, n);
    let two = Distance::Finite(2);
    let one = Distance::Finite(1);
    let zero = Distance::Finite(0);
    assert_eq!(results[0], vec![two, one, one, zero]);
    assert_eq!(results[1], results[0]);
    assert_eq!(results[2], results[0]);
    assert_eq!(results[3], vec![one, one, one, zero]);
}

#[test]
fn padding_does_not_change_the_result() {
    let n = 37usize;
    let edges = path_graph(n);
    let padded = run_generic(BlockedTropicalMatmulKernel::new(), &edges, n);
    let plain = run_generic(NaiveTropicalMatmulKernel::new(), &edges, n);
    assert_eq!(padded.len(), 48 * 48);
    assert_eq!(plain.len(), 37 * 37);
    assert_eq!(unpad(&padded, n, 48).unwrap(), plain);
    assert_eq!(unpad(&plain, n, 37).unwrap(), plain);
}

#[test]
fn padding_of_the_output_is_never_written() {
    let n = 5usize;
    let tm = TropicalMatmul::new(BlockedTropicalMatmulKernel::new());
    let mut in_buffer = tm.stage_adjacency_matrix(&path_graph(n), n).unwrap();
    let mut out_buffer = vec![Distance::Finite(77); 16 * 16];
    tm.run(&mut in_buffer, &mut out_buffer, n).unwrap();
    for p in 0..16 * 16 {
        let (r, c) = (p / 16, p % 16);
        if r < n && c < n {
            assert_eq!(out_buffer[p], hops(r, c));
        } else {
            assert_eq!(out_buffer[p], Distance::Finite(77));
            assert_eq!(in_buffer[p], Distance::Finite(77));
        }
    }
}

#[test]
fn path_graph_of_100_converges_in_seven_rounds() {
    let n = 100usize;
    assert_eq!(round_count(n), 7);
    let kernel = NaiveTropicalMatmulKernel::new();
    let tm = TropicalMatmul::new(NaiveTropicalMatmulKernel::new());
    let mut operand = tm.stage_adjacency_matrix(&path_graph(n), n).unwrap();
    let mut result = vec![Distance::Infinite; n * n];
    for round in 1..=7u32 {
        kernel.run(&operand, &mut result, n);
        let reach = 1usize << round;
        for i in 0..n {
            for j in 0..n {
                let expected = if i.abs_diff(j) <= reach { hops(i, j) } else { Distance::Infinite };
                assert_eq!(result[i * n + j], expected);
            }
        }
        let converged = (0..n).all(|i| (0..n).all(|j| result[i * n + j] == hops(i, j)));
        assert_eq!(converged, round >= 7);
        operand = result.clone();
    }
}

#[test]
fn round_counts() {
    assert_eq!(round_count(0), 0);
    assert_eq!(round_count(1), 0);
    assert_eq!(round_count(2), 1);
    assert_eq!(round_count(3), 2);
    assert_eq!(round_count(4), 2);
    assert_eq!(round_count(5), 3);
    assert_eq!(round_count(64), 6);
    assert_eq!(round_count(65), 7);
    assert_eq!(round_count(128), 7);
    assert_eq!(round_count(129), 8);
    assert_eq!(round_count(512), 9);
    assert_eq!(round_count(usize::MAX), usize::BITS as usize);
}

#[test]
fn run_refuses_buffers_of_the_wrong_capacity() {
    let n = 20usize;
    let tm = TropicalMatmul::new(BlockedTropicalMatmulKernel::new());
    let mut staged = tm.stage_adjacency_matrix(&path_graph(n), n).unwrap();
    let before = staged.clone();
    let mut short = vec![Distance::Finite(5); 32 * 20];
    assert_eq!(tm.run(&mut staged, &mut short, n), Err(Error::CapacityMismatch));
    assert_eq!(staged, before);
    assert_eq!(short, vec![Distance::Finite(5); 32 * 20]);
    let mut rows_only = tropical_matmul_block::stage_adjacency_matrix(&path_graph(n), n).unwrap();
    let mut square = vec![Distance::Finite(5); 32 * 32];
    assert_eq!(
        tropical_matmul_block::TropicalMatmul::new().run(&mut rows_only, &mut square, n),
        Err(Error::CapacityMismatch)
    );
    let staged = warshall_floyd::stage_adjacency_matrix(&path_graph(n), n).unwrap();
    assert_eq!(
        WarshallFloyd::new().run(&staged, &mut square, n),
        Err(Error::CapacityMismatch)
    );
    assert_eq!(square, vec![Distance::Finite(5); 32 * 32]);
}

#[test]
fn run_on_a_single_vertex_dispatches_nothing() {
    let tm = TropicalMatmul::new(NaiveTropicalMatmulKernel::new());
    let (_, mut out_buffer) = tm.create_buffer(1);
    let mut in_buffer = tm.stage_adjacency_matrix(&[], 1).unwrap();
    assert_eq!(tm.run(&mut in_buffer, &mut out_buffer, 1), Ok(()));
    assert_eq!(in_buffer, vec![Distance::Finite(0)]);
    assert_eq!(out_buffer, vec![Distance::Finite(0)]);
    let mut marked = vec![Distance::Finite(9)];
    assert_eq!(tm.run(&mut in_buffer, &mut marked, 1), Ok(()));
    assert_eq!(marked, vec![Distance::Finite(9)]);
    let mut none: Vec<Distance> = Vec::new();
    let mut nothing: Vec<Distance> = Vec::new();
    assert_eq!(tm.run(&mut none, &mut nothing, 0), Ok(()));
}

#[test]
fn run_leaves_the_last_operand_in_the_input() {
    let n = 4usize;
    let tm = TropicalMatmul::new(NaiveTropicalMatmulKernel::new());
    let mut in_buffer = tm.stage_adjacency_matrix(&path_graph(n), n).unwrap();
    let (_, mut out_buffer) = tm.create_buffer(n);
    tm.run(&mut in_buffer, &mut out_buffer, n).unwrap();
    let inf = Distance::Infinite;
    let f = Distance::Finite;
    assert_eq!(
        in_buffer,
        vec![
            f(0), f(1), f(2), inf, f(1), f(0), f(1), f(2), f(2), f(1), f(0), f(1), inf, f(2),
            f(1), f(0)
        ]
    );
    assert_eq!(
        out_buffer,
        vec![
            f(0), f(1), f(2), f(3), f(1), f(0), f(1), f(2), f(2), f(1), f(0), f(1), f(3), f(2),
            f(1), f(0)
        ]
    );
}

#[test]
fn two_vertices_keep_the_staged_input() {
    let tm = TropicalMatmul::new(NaiveTropicalMatmulKernel::new());
    let mut in_buffer = tm.stage_adjacency_matrix(&[(1, 0)], 2).unwrap();
    let staged = in_buffer.clone();
    let (_, mut out_buffer) = tm.create_buffer(2);
    tm.run(&mut in_buffer, &mut out_buffer, 2).unwrap();
    assert_eq!(in_buffer, staged);
    assert_eq!(out_buffer, staged);
}
