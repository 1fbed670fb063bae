use apsp::kernel::{ceil_div, checked_padded, Kernel};
use apsp::params::KernelParams;
use apsp::tropical_matmul::{
    checked_cells, next_round, BlockedTropicalMatmulKernel, NaiveTropicalMatmulKernel, Round,
    TropicalMatmul, TropicalMatmulKernel,
};
use apsp::tropical_matmul_block;
use apsp::warshall_floyd;
use apsp::warshall_floyd::WarshallFloydKernel;

#[test]
fn workgroup_shapes() {
    assert_eq!(NaiveTropicalMatmulKernel::WORKGROUP_SIZE_X, 1);
    assert_eq!(NaiveTropicalMatmulKernel::WORKGROUP_SIZE_Y, 1);
    assert_eq!(NaiveTropicalMatmulKernel::WORKGROUP_SIZE_Z, 1);
    assert_eq!(BlockedTropicalMatmulKernel::WORKGROUP_SIZE_X, 16);
    assert_eq!(BlockedTropicalMatmulKernel::WORKGROUP_SIZE_Y, 16);
    assert_eq!(BlockedTropicalMatmulKernel::WORKGROUP_SIZE_Z, 1);
    assert_eq!(WarshallFloydKernel::WORKGROUP_SIZE_X, 16);
    assert_eq!(WarshallFloydKernel::WORKGROUP_SIZE_Y, 16);
    assert_eq!(WarshallFloydKernel::WORKGROUP_SIZE_Z, 1);
    assert_eq!(tropical_matmul_block::WORKGROUP_SIZE, 16);
}

#[test]
fn workgroups_round_up() {
    assert_eq!(ceil_div(0, 16), 0);
    assert_eq!(ceil_div(1, 16), 1);
    assert_eq!(ceil_div(16, 16), 1);
    assert_eq!(ceil_div(17, 16), 2);
    assert_eq!(ceil_div(100, 16), 7);
    assert_eq!(ceil_div(100, 1), 100);
    assert_eq!(ceil_div(usize::MAX, 1), usize::MAX);
    assert_eq!(ceil_div(usize::MAX, 2), usize::MAX / 2 + 1);
    assert_eq!(ceil_div(usize::MAX, usize::MAX), 1);
}

#[test]
fn naive_grid_is_the_matrix() {
    for n in [0usize, 1, 2, 15, 16, 17, 100, 512] {
        assert_eq!(NaiveTropicalMatmulKernel::num_workgroups_x(n), n);
        assert_eq!(NaiveTropicalMatmulKernel::num_workgroups_y(n), n);
        assert_eq!(NaiveTropicalMatmulKernel::num_workgroups_z(n), n);
        assert_eq!(NaiveTropicalMatmulKernel::num_threads_x(n), n);
        assert_eq!(NaiveTropicalMatmulKernel::num_threads_y(n), n);
        assert_eq!(NaiveTropicalMatmulKernel::num_threads_z(n), n);
        assert_eq!(NaiveTropicalMatmulKernel::buffer_size(n), n * n * 4);
    }
}

#[test]
fn blocked_grid_pads_to_sixteen() {
    let cases = [(0usize, 0usize), (1, 1), (15, 1), (16, 1), (17, 2), (100, 7), (512, 32), (513, 33)];
    for (n, groups) in cases {
        assert_eq!(BlockedTropicalMatmulKernel::num_workgroups_x(n), groups);
        assert_eq!(BlockedTropicalMatmulKernel::num_workgroups_y(n), groups);
        assert_eq!(BlockedTropicalMatmulKernel::num_workgroups_z(n), n);
        assert_eq!(BlockedTropicalMatmulKernel::num_threads_x(n), groups * 16);
        assert_eq!(BlockedTropicalMatmulKernel::num_threads_y(n), groups * 16);
        assert_eq!(BlockedTropicalMatmulKernel::num_threads_z(n), n);
        assert_eq!(BlockedTropicalMatmulKernel::buffer_size(n), groups * 16 * groups * 16 * 4);
        assert_eq!(tropical_matmul_block::TropicalMatmulKernel::num_workgroups_x(n), groups);
        assert_eq!(tropical_matmul_block::TropicalMatmulKernel::num_workgroups_y(n), groups);
        assert_eq!(tropical_matmul_block::TropicalMatmulKernel::stride_x(n), groups * 16);
        assert_eq!(tropical_matmul_block::TropicalMatmulKernel::stride_y(n), groups * 16);
        assert_eq!(tropical_matmul_block::TropicalMatmulKernel::buffer_size(n), groups * 16 * n * 4);
        assert_eq!(WarshallFloydKernel::buffer_size(n), groups * 16 * n * 4);
    }
    assert_eq!(BlockedTropicalMatmulKernel::buffer_size(100), 50176);
    assert_eq!(tropical_matmul_block::TropicalMatmulKernel::buffer_size(100), 44800);
    assert_eq!(NaiveTropicalMatmulKernel::buffer_size(100), 40000);
}

#[test]
fn padded_extent_or_none() {
    assert_eq!(checked_padded(100, 16), Some(112));
    assert_eq!(checked_padded(112, 16), Some(112));
    assert_eq!(checked_padded(0, 16), Some(0));
    assert_eq!(checked_padded(usize::MAX, 1), Some(usize::MAX));
    assert_eq!(checked_padded(usize::MAX, 16), None);
    assert_eq!(checked_padded(usize::MAX - 15, 16), Some(usize::MAX - 15));
    assert_eq!(checked_padded(usize::MAX - 14, 16), None);
}

#[test]
fn cells_or_none() {
    assert_eq!(checked_cells::<NaiveTropicalMatmulKernel>(100), Some(10000));
    assert_eq!(checked_cells::<BlockedTropicalMatmulKernel>(100), Some(12544));
    assert_eq!(checked_cells::<BlockedTropicalMatmulKernel>(0), Some(0));
    assert_eq!(checked_cells::<NaiveTropicalMatmulKernel>(usize::MAX), None);
    assert_eq!(checked_cells::<BlockedTropicalMatmulKernel>(usize::MAX), None);
    assert_eq!(checked_cells::<NaiveTropicalMatmulKernel>(1 << (usize::BITS / 2)), None);
    assert_eq!(tropical_matmul_block::checked_cells(100), Some(11200));
    assert_eq!(tropical_matmul_block::checked_cells(0), Some(0));
    assert_eq!(tropical_matmul_block::checked_cells(usize::MAX), None);
    assert_eq!(warshall_floyd::checked_cells(100), Some(11200));
    assert_eq!(warshall_floyd::checked_cells(usize::MAX - 20), None);
}

#[test]
fn dispatch_grid() {
    assert_eq!(NaiveTropicalMatmulKernel::dispatch_size(100), Some((100, 100, 1)));
    assert_eq!(BlockedTropicalMatmulKernel::dispatch_size(100), Some((7, 7, 1)));
    assert_eq!(BlockedTropicalMatmulKernel::dispatch_size(0), Some((0, 0, 1)));
    assert_eq!(
        NaiveTropicalMatmulKernel::dispatch_size(u32::MAX as usize),
        Some((u32::MAX, u32::MAX, 1))
    );
    if usize::BITS > 32 {
        let beyond = u32::MAX as usize + 1;
        assert_eq!(NaiveTropicalMatmulKernel::dispatch_size(beyond), None);
        assert_eq!(
            BlockedTropicalMatmulKernel::dispatch_size(beyond),
            Some((1 << 28, 1 << 28, 1))
        );
    }
}

#[test]
fn rounds_double_the_reach_and_copy_back_after_the_first() {
    let n = 100;
    let mut reach = 1;
    let mut seen = Vec::new();
    while let Some(round) = next_round(reach, n) {
        seen.push(round);
        reach = round.reach;
    }
    assert_eq!(
        seen,
        vec![
            Round { copy_back: false, reach: 2 },
            Round { copy_back: true, reach: 4 },
            Round { copy_back: true, reach: 8 },
            Round { copy_back: true, reach: 16 },
            Round { copy_back: true, reach: 32 },
            Round { copy_back: true, reach: 64 },
            Round { copy_back: true, reach: 128 },
        ]
    );
    assert_eq!(next_round(1, 0), None);
    assert_eq!(next_round(1, 1), None);
    assert_eq!(next_round(1, 2), Some(Round { copy_back: false, reach: 2 }));
    assert_eq!(next_round(100, 100), None);
    assert_eq!(next_round(99, 100), Some(Round { copy_back: true, reach: 198 }));
    assert_eq!(
        next_round(usize::MAX - 1, usize::MAX),
        Some(Round { copy_back: true, reach: usize::MAX })
    );
}

#[test]
fn params_hold_the_count_and_the_stride() {
    assert_eq!(KernelParams::new(100, 112), Some(KernelParams { n: 100, stride: 112 }));
    assert_eq!(KernelParams::new(0, 0), Some(KernelParams { n: 0, stride: 0 }));
    assert_eq!(
        KernelParams::new(u32::MAX as usize, u32::MAX as usize),
        Some(KernelParams { n: u32::MAX, stride: u32::MAX })
    );
    if usize::BITS > 32 {
        assert_eq!(KernelParams::new(u32::MAX as usize + 1, 0), None);
        assert_eq!(KernelParams::new(0, u32::MAX as usize + 1), None);
    }
    let blocked = TropicalMatmul::new(BlockedTropicalMatmulKernel::new());
    assert_eq!(blocked.params(100), Some(KernelParams { n: 100, stride: 112 }));
    let naive = TropicalMatmul::new(NaiveTropicalMatmulKernel::new());
    assert_eq!(naive.params(100), Some(KernelParams { n: 100, stride: 100 }));
    assert_eq!(
        blocked.params(u32::MAX as usize - 15),
        Some(KernelParams { n: u32::MAX - 15, stride: u32::MAX - 15 })
    );
    assert_eq!(blocked.params(u32::MAX as usize - 14), None);
    assert_eq!(blocked.params(usize::MAX), None);
}

#[test]
fn params_are_written_in_the_byte_order_of_the_machine() {
    let params = KernelParams { n: 0x0102_0304, stride: 0xA0B0_C0D0 };
    let bytes = params.to_bytes();
    let mut expected = Vec::new();
    expected.extend_from_slice(&0x0102_0304u32.to_ne_bytes());
    expected.extend_from_slice(&0xA0B0_C0D0u32.to_ne_bytes());
    assert_eq!(bytes, expected);
    let little = vec![0x04, 0x03, 0x02, 0x01, 0xD0, 0xC0, 0xB0, 0xA0];
    let big = vec![0x01, 0x02, 0x03, 0x04, 0xA0, 0xB0, 0xC0, 0xD0];
    assert!(bytes == little || bytes == big);
    assert_eq!(KernelParams { n: 100, stride: 112 }.to_bytes().len(), 8);
}
