//! The tiled engine on buffers that are padded along the rows only: `n`
//! rows of `stride_x(n)` cells.
use vstd::prelude::*;
use crate::buffer::{in_range_among, stage_adjacency_matrix as stage, staged, Error, CELL_BYTES};
use crate::dispatch::tropical_product_tiled;
use crate::distance::Distance;
use crate::graph::{in_range, seed};
use crate::kernel::{ceil_div, lemma_padded_bounds, padded, workgroups, Kernel};
use crate::matrix::{logical, product, same_padding};
use crate::tropical_matmul::{after_rounds, run_rounds, BlockedTropicalMatmulKernel};

verus! {

/// Extent of the kernel's workgroups along x and along y.
pub const WORKGROUP_SIZE: usize = 16;

/// Row stride of the buffers for `n` vertices.
pub open spec fn stride_of(n: nat) -> nat {
    padded(n, WORKGROUP_SIZE as nat)
}

/// Number of cells in each buffer for `n` vertices.
pub open spec fn cells_of(n: nat) -> nat {
    stride_of(n) * n
}

/// Number of bytes in each buffer for `n` vertices.
pub open spec fn bytes_of(n: nat) -> nat {
    cells_of(n) * (CELL_BYTES as nat)
}

/// A buffer never has fewer cells than one row, nor a stride below `n`.
pub proof fn lemma_layout(n: nat)
    ensures
        n <= stride_of(n),
        stride_of(n) <= cells_of(n) || n == 0,
        cells_of(n) <= bytes_of(n),
        n == 0 ==> stride_of(n) == 0,
{
    lemma_padded_bounds(n, WORKGROUP_SIZE as nat);
    let stride = stride_of(n);
    if n > 0 {
        assert(stride <= stride * n) by (nonlinear_arith)
            requires
                1 <= n,
        ;
    }
}

/// The tiled min-plus matmul kernel.
pub struct TropicalMatmulKernel {}

impl TropicalMatmulKernel {
    /// The tiled kernel.
    pub fn new() -> (kernel: TropicalMatmulKernel)
        ensures
            kernel == (TropicalMatmulKernel {  }),
    {
        TropicalMatmulKernel {  }
    }

    /// One dispatch: the logical matrix of `out_buffer` becomes the min-plus
    /// product of the logical matrix of `in_buffer` with itself. Padding is
    /// not written.
    pub fn run(&self, in_buffer: &Vec<Distance>, out_buffer: &mut Vec<Distance>, n: usize)
        requires
            n * stride_of(n as nat) <= in_buffer.len(),
            in_buffer.len() == old(out_buffer).len(),
        ensures
            logical(final(out_buffer)@, n as nat, stride_of(n as nat)) == product(
                logical(in_buffer@, n as nat, stride_of(n as nat)),
                logical(in_buffer@, n as nat, stride_of(n as nat)),
            ),
            same_padding(final(out_buffer)@, old(out_buffer)@, n as nat, stride_of(n as nat)),
    {
        proof {
            lemma_layout(n as nat);
            if n > 0 {
                assert(stride_of(n as nat) <= n * stride_of(n as nat)) by (nonlinear_arith)
                    requires
                        1 <= n,
                ;
            }
        }
        tropical_product_tiled(in_buffer, out_buffer, n, Self::stride_x(n), WORKGROUP_SIZE);
    }

    /// Workgroups of one dispatch along x.
    pub fn num_workgroups_x(n: usize) -> (count: usize)
        ensures
            count == workgroups(n as nat, WORKGROUP_SIZE as nat),
    {
        ceil_div(n, WORKGROUP_SIZE)
    }

    /// Workgroups of one dispatch along y.
    pub fn num_workgroups_y(n: usize) -> (count: usize)
        ensures
            count == workgroups(n as nat, WORKGROUP_SIZE as nat),
    {
        ceil_div(n, WORKGROUP_SIZE)
    }

    /// Row stride of the buffers: `n` padded to whole workgroups along x.
    pub fn stride_x(n: usize) -> (stride: usize)
        requires
            stride_of(n as nat) <= usize::MAX,
        ensures
            stride == stride_of(n as nat),
    {
        Self::num_workgroups_x(n) * WORKGROUP_SIZE
    }

    /// `n` padded to whole workgroups along y.
    pub fn stride_y(n: usize) -> (stride: usize)
        requires
            stride_of(n as nat) <= usize::MAX,
        ensures
            stride == stride_of(n as nat),
    {
        Self::num_workgroups_y(n) * WORKGROUP_SIZE
    }

    /// Bytes in each of the engine's two buffers.
    pub fn buffer_size(n: usize) -> (size: usize)
        requires
            bytes_of(n as nat) <= usize::MAX,
        ensures
            size == bytes_of(n as nat),
    {
        proof {
            lemma_layout(n as nat);
        }
        Self::stride_x(n) * n * CELL_BYTES
    }
}

/// The engine: the tiled kernel driven through the rounds of a run.
pub struct TropicalMatmul {
    kernel: TropicalMatmulKernel,
}

impl TropicalMatmul {
    /// The kernel that the engine dispatches.
    pub closed spec fn kernel(self) -> TropicalMatmulKernel {
        self.kernel
    }

    /// An engine with the tiled kernel.
    pub fn new() -> (engine: TropicalMatmul)
        ensures
            engine.kernel() == (TropicalMatmulKernel {  }),
    {
        TropicalMatmul { kernel: TropicalMatmulKernel::new() }
    }

    /// Runs all the rounds on the matrix staged in `in_buffer`.
    ///
    /// Buffers that do not both have `n` rows of `stride_x(n)` cells are
    /// refused, and left as they are. Otherwise the result is in
    /// `out_buffer`, and the operand of the last round in `in_buffer`.
    pub fn run(&self, in_buffer: &mut Vec<Distance>, out_buffer: &mut Vec<Distance>, n: usize) -> (result:
        Result<(), Error>)
        ensures
            match result {
                Ok(()) => {
                    &&& old(in_buffer)@.len() == cells_of(n as nat)
                    &&& old(out_buffer)@.len() == cells_of(n as nat)
                    &&& after_rounds(
                        old(in_buffer)@,
                        old(out_buffer)@,
                        final(in_buffer)@,
                        final(out_buffer)@,
                        n as nat,
                        stride_of(n as nat),
                    )
                },
                Err(error) => {
                    &&& error == Error::CapacityMismatch
                    &&& old(in_buffer)@.len() != cells_of(n as nat) || old(out_buffer)@.len()
                        != cells_of(n as nat)
                    &&& final(in_buffer)@ == old(in_buffer)@
                    &&& final(out_buffer)@ == old(out_buffer)@
                },
            },
    {
        let in_cells = in_buffer.len();
        let out_cells = out_buffer.len();
        let cells = match checked_cells(n) {
            Some(cells) => cells,
            None => {
                return Err(Error::CapacityMismatch);
            },
        };
        if in_cells != cells || out_cells != cells {
            return Err(Error::CapacityMismatch);
        }
        let tiled = BlockedTropicalMatmulKernel::new();
        proof {
            BlockedTropicalMatmulKernel::lemma_workgroup_shape();
        }
        assert(crate::tropical_matmul::stride_of::<BlockedTropicalMatmulKernel>(n as nat)
            == stride_of(n as nat));
        assert(n * stride_of(n as nat) == stride_of(n as nat) * n) by (nonlinear_arith);
        run_rounds(&tiled, in_buffer, out_buffer, n);
        Ok(())
    }
}

/// Number of cells in each buffer for `n` vertices, or `None` where no
/// buffer can be that large.
pub fn checked_cells(n: usize) -> (cells: Option<usize>)
    ensures
        match cells {
            Some(cells) => cells == cells_of(n as nat),
            None => cells_of(n as nat) > usize::MAX,
        },
{
    proof {
        lemma_layout(n as nat);
    }
    if n == 0 {
        assert(stride_of(0) * 0 == 0) by (nonlinear_arith);
        return Some(0);
    }
    match ceil_div(n, WORKGROUP_SIZE).checked_mul(WORKGROUP_SIZE) {
        Some(stride) => stride.checked_mul(n),
        None => None,
    }
}

/// Builds the seed matrix of the graph `edges` on `n` vertices in the
/// engine's layout. Refuses what `buffer::stage_adjacency_matrix` refuses.
pub fn stage_adjacency_matrix(edges: &[(usize, usize)], n: usize) -> (result: Result<
    Vec<Distance>,
    Error,
>)
    requires
        bytes_of(n as nat) <= usize::MAX,
    ensures
        match result {
            Ok(buffer) => {
                &&& in_range(edges@, n as nat)
                &&& buffer@ == staged(edges@, n as nat, stride_of(n as nat), cells_of(n as nat))
                &&& logical(buffer@, n as nat, stride_of(n as nat)) == seed(edges@, n as nat)
            },
            Err(error) => {
                &&& error matches Error::VertexOutOfRange { index }
                &&& index < edges@.len()
                &&& !(edges@[index as int].0 < n && edges@[index as int].1 < n)
                &&& in_range_among(edges@, index as int, n as nat)
            },
        },
{
    proof {
        lemma_layout(n as nat);
    }
    let size = TropicalMatmulKernel::buffer_size(n);
    let stride = TropicalMatmulKernel::stride_x(n);
    stage(edges, n, stride, size)
}

} // verus!
