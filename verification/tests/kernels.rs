use apsp::dispatch::{
    accumulate_tile, copy_buffer, load_tile, relax, store_tile, tropical_product,
    tropical_product_tiled,
};
use apsp::distance::Distance;
use apsp::tropical_matmul::{
    BlockedTropicalMatmulKernel, NaiveTropicalMatmulKernel, TropicalMatmulKernel,
};
use apsp::tropical_matmul_block;
use apsp::warshall_floyd::WarshallFloydKernel;

const INF: Distance = Distance::Infinite;

fn f(d: u64) -> Distance {
    Distance::Finite(d)
}

#[test]
fn distances_add_and_compare() {
    assert_eq!(f(3).plus(f(4)), f(7));
    assert_eq!(f(0).plus(f(0)), f(0));
    assert_eq!(f(3).plus(INF), INF);
    assert_eq!(INF.plus(f(3)), INF);
    assert_eq!(INF.plus(INF), INF);
    assert_eq!(f(u64::MAX).plus(f(0)), f(u64::MAX));
    assert_eq!(f(u64::MAX - 1).plus(f(1)), f(u64::MAX));
    assert_eq!(f(u64::MAX).plus(f(1)), INF);
    assert_eq!(f(u64::MAX).plus(f(u64::MAX)), INF);
    assert_eq!(f(3).min(f(4)), f(3));
    assert_eq!(f(4).min(f(3)), f(3));
    assert_eq!(f(4).min(INF), f(4));
    assert_eq!(INF.min(f(4)), f(4));
    assert_eq!(INF.min(INF), INF);
    assert!(f(3).less_than(f(4)));
    assert!(!f(4).less_than(f(4)));
    assert!(!f(5).less_than(f(4)));
    assert!(f(u64::MAX).less_than(INF));
    assert!(!INF.less_than(f(0)));
    assert!(!INF.less_than(INF));
    assert!(f(0).is_finite());
    assert!(!INF.is_finite());
    assert_eq!(f(12).hops(), Some(12));
    assert_eq!(INF.hops(), None);
}

#[test]
fn naive_product_of_a_weighted_matrix() {
    let input = vec![f(0), f(5), INF, f(2), f(0), f(1), INF, f(7), f(0)];
    let mut output = vec![f(99); 9];
    tropical_product(&input, &mut output, 3, 3);
    assert_eq!(output, vec![f(0), f(5), f(6), f(2), f(0), f(1), f(9), f(7), f(0)]);
}

#[test]
fn product_without_a_zero_diagonal() {
    let input = vec![f(1), f(2), f(3), f(4)];
    let mut output = vec![INF; 4];
    tropical_product(&input, &mut output, 2, 2);
    assert_eq!(output, vec![f(2), f(3), f(4), f(5)]);
    let mut tiled = vec![INF; 4];
    tropical_product_tiled(&input, &mut tiled, 2, 2, 2);
    assert_eq!(tiled, output);
    let mut single = vec![INF; 4];
    tropical_product_tiled(&input, &mut single, 2, 2, 1);
    assert_eq!(single, output);
}

#[test]
fn product_of_all_infinite_is_infinite() {
    let input = vec![INF; 4];
    let mut output = vec![f(0); 4];
    tropical_product(&input, &mut output, 2, 2);
    assert_eq!(output, vec![INF; 4]);
}

#[test]
fn products_skip_the_padding() {
    let input = vec![f(0), f(5), f(1), f(1), f(2), f(0), f(1), f(1)];
    let mut output = vec![f(99); 8];
    tropical_product(&input, &mut output, 2, 4);
    assert_eq!(output, vec![f(0), f(5), f(99), f(99), f(2), f(0), f(99), f(99)]);
    let mut tiled = vec![f(99); 8];
    tropical_product_tiled(&input, &mut tiled, 2, 4, 4);
    assert_eq!(tiled, output);
    let mut halves = vec![f(99); 8];
    tropical_product_tiled(&input, &mut halves, 2, 4, 2);
    assert_eq!(halves, output);
}

fn scrambled(n: usize, stride: usize) -> Vec<Distance> {
    let mut state = 12345u64;
    (0..n * stride)
        .map(|_| {
            state = state.wrapping_mul(6364136223846793005).wrapping_add(1442695040888963407);
            let draw = (state >> 33) % 23;
            if draw < 4 { INF } else { f(draw) }
        })
        .collect()
}

#[test]
fn tiled_product_is_the_naive_product() {
    for (n, stride, tile) in [(37usize, 48usize, 16usize), (16, 16, 16), (17, 32, 16), (5, 6, 3), (9, 12, 4)] {
        let input = scrambled(n, stride);
        let mut naive = vec![f(7); n * stride];
        let mut tiled = vec![f(7); n * stride];
        tropical_product(&input, &mut naive, n, stride);
        tropical_product_tiled(&input, &mut tiled, n, stride, tile);
        assert_eq!(naive, tiled);
        for i in 0..n {
            for j in 0..n {
                let mut least = INF;
                for m in 0..n {
                    least = least.min(input[i * stride + m].plus(input[m * stride + j]));
                }
                assert_eq!(naive[i * stride + j], least);
            }
        }
    }
}

#[test]
fn kernels_dispatch_their_product() {
    let n = 20;
    let input = scrambled(32, 32);
    let mut blocked = vec![INF; 32 * 32];
    BlockedTropicalMatmulKernel::new().run(&input, &mut blocked, n);
    let mut expected = vec![INF; 32 * 32];
    tropical_product(&input, &mut expected, n, 32);
    assert_eq!(blocked, expected);
    let mut rows_only = vec![INF; 32 * 20];
    let rows: Vec<Distance> = input[..32 * 20].to_vec();
    tropical_matmul_block::TropicalMatmulKernel::new().run(&rows, &mut rows_only, n);
    assert_eq!(rows_only, expected[..32 * 20].to_vec());
    let plain = scrambled(n, n);
    let mut naive = vec![INF; n * n];
    NaiveTropicalMatmulKernel::new().run(&plain, &mut naive, n);
    let mut wanted = vec![INF; n * n];
    tropical_product(&plain, &mut wanted, n, n);
    assert_eq!(naive, wanted);
}

#[test]
fn relaxation_through_one_vertex() {
    let mut buffer = vec![f(0), f(1), INF, f(1), f(0), f(1), INF, f(1), f(0)];
    relax(&mut buffer, 3, 3, 0);
    assert_eq!(buffer, vec![f(0), f(1), INF, f(1), f(0), f(1), INF, f(1), f(0)]);
    relax(&mut buffer, 3, 3, 1);
    assert_eq!(buffer, vec![f(0), f(1), f(2), f(1), f(0), f(1), f(2), f(1), f(0)]);
}

#[test]
fn relaxation_reads_the_row_and_column_as_they_stood() {
    let mut buffer = vec![f(5), f(1), f(9), f(1), f(3), f(2), f(9), f(2), f(4)];
    relax(&mut buffer, 3, 3, 1);
    assert_eq!(buffer, vec![f(2), f(1), f(3), f(1), f(3), f(2), f(3), f(2), f(4)]);
}

#[test]
fn relaxation_skips_the_padding() {
    let mut buffer = vec![f(0), f(1), f(8), f(1), f(0), f(8)];
    relax(&mut buffer, 2, 3, 0);
    assert_eq!(buffer, vec![f(0), f(1), f(8), f(1), f(0), f(8)]);
    let mut wide = vec![INF; 16 * 3];
    for (i, j, d) in [(0usize, 0usize, 0u64), (1, 1, 0), (2, 2, 0), (0, 1, 4), (1, 0, 4), (1, 2, 6), (2, 1, 6)] {
        wide[i * 16 + j] = f(d);
    }
    let before = wide.clone();
    WarshallFloydKernel::new().run(&mut wide, 3, 1);
    for p in 0..16 * 3 {
        let (r, c) = (p / 16, p % 16);
        if (r, c) == (0, 2) || (r, c) == (2, 0) {
            assert_eq!(wide[p], f(10));
        } else {
            assert_eq!(wide[p], before[p]);
        }
    }
}

#[test]
fn copies_take_every_entry() {
    let source = vec![f(1), INF, f(3)];
    let mut target = vec![f(0); 3];
    copy_buffer(&source, &mut target);
    assert_eq!(target, source);
}

#[test]
fn tiles_are_infinite_past_the_matrix() {
    let input = vec![f(1), f(2), f(3), f(77), f(4), f(5), f(6), f(77), f(7), f(8), f(9), f(77)];
    assert_eq!(load_tile(&input, 3, 4, 0, 0, 2), vec![f(1), f(2), f(4), f(5)]);
    assert_eq!(load_tile(&input, 3, 4, 2, 2, 2), vec![f(9), INF, INF, INF]);
    assert_eq!(load_tile(&input, 3, 4, 0, 2, 2), vec![f(3), INF, f(6), INF]);
    assert_eq!(load_tile(&input, 3, 4, 4, 4, 2), vec![INF; 4]);
}

#[test]
fn accumulators_keep_the_least() {
    let left = vec![f(1), f(2), f(3), f(4)];
    let right = vec![f(10), f(20), f(30), f(40)];
    let mut totals = vec![INF, f(5), f(100), INF];
    accumulate_tile(&mut totals, &left, &right, 2);
    assert_eq!(totals, vec![f(11), f(5), f(13), f(23)]);
}

#[test]
fn tiles_are_stored_inside_the_matrix_only() {
    let totals = vec![f(1), f(2), f(3), f(4)];
    let mut output = vec![f(0); 12];
    store_tile(&mut output, &totals, 3, 4, 2, 2, 2);
    let mut expected = vec![f(0); 12];
    expected[2 * 4 + 2] = f(1);
    assert_eq!(output, expected);
    store_tile(&mut output, &totals, 3, 4, 0, 1, 2);
    expected[0 * 4 + 1] = f(1);
    expected[0 * 4 + 2] = f(2);
    expected[1 * 4 + 1] = f(3);
    expected[1 * 4 + 2] = f(4);
    assert_eq!(output, expected);
}
