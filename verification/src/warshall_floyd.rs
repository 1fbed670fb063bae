//! All-pairs shortest paths by Floyd–Warshall relaxation: `n` dispatches,
//! one through each vertex in turn, each relaxing the working buffer in
//! place. The buffers have `n` rows of `stride_x(n)` cells.
use vstd::prelude::*;
use crate::buffer::{in_range_among, stage_adjacency_matrix as stage, staged, Error, CELL_BYTES};
use crate::dispatch::{copy_buffer, relax};
use crate::distance::Distance;
use crate::convergence::{lemma_relaxation_reaches_shortest, solves};
use crate::graph::{in_range, loop_free, seed, shortest_distances, Edges};
use crate::kernel::{ceil_div, lemma_padded_bounds, padded, Kernel};
use crate::matrix::{logical, relaxed, relaxed_through, same_padding};

verus! {

/// Row stride of the buffers for `n` vertices.
pub open spec fn stride_of(n: nat) -> nat {
    padded(n, WarshallFloydKernel::WORKGROUP_SIZE_X as nat)
}

/// Number of cells in each buffer for `n` vertices.
pub open spec fn cells_of(n: nat) -> nat {
    stride_of(n) * n
}

/// Number of bytes in each buffer for `n` vertices.
pub open spec fn bytes_of(n: nat) -> nat {
    cells_of(n) * (CELL_BYTES as nat)
}

/// A buffer never has fewer cells than one row, nor a stride below `n`.
pub proof fn lemma_layout(n: nat)
    ensures
        n <= stride_of(n),
        stride_of(n) <= cells_of(n) || n == 0,
        cells_of(n) == n * stride_of(n),
        cells_of(n) <= bytes_of(n),
        n == 0 ==> cells_of(n) == 0,
{
    WarshallFloydKernel::lemma_workgroup_shape();
    lemma_padded_bounds(n, WarshallFloydKernel::WORKGROUP_SIZE_X as nat);
    let stride = stride_of(n);
    assert(stride * n == n * stride) by (nonlinear_arith);
    if n > 0 {
        assert(stride <= stride * n) by (nonlinear_arith)
            requires
                1 <= n,
        ;
    } else {
        assert(stride * 0 == 0) by (nonlinear_arith);
    }
}

/// The relaxation kernel.
pub struct WarshallFloydKernel {}

impl Kernel for WarshallFloydKernel {
    const WORKGROUP_SIZE_X: usize = 16;

    const WORKGROUP_SIZE_Y: usize = 16;

    const WORKGROUP_SIZE_Z: usize = 1;

    proof fn lemma_workgroup_shape()
        ensures
            Self::WORKGROUP_SIZE_X == 16,
            Self::WORKGROUP_SIZE_Y == 16,
            Self::WORKGROUP_SIZE_Z == 1,
    {
    }
}

impl WarshallFloydKernel {
    /// The relaxation kernel.
    pub fn new() -> (kernel: WarshallFloydKernel)
        ensures
            kernel == (WarshallFloydKernel {  }),
    {
        WarshallFloydKernel {  }
    }

    /// One dispatch, in place: every logical cell `(i, j)` of `buffer`
    /// becomes the smaller of itself and `buffer[i][k] + buffer[k][j]`, with
    /// row and column `k` as they stood when the dispatch began.
    pub fn run(&self, buffer: &mut Vec<Distance>, n: usize, k: usize)
        requires
            k < n,
            n * stride_of(n as nat) <= old(buffer).len(),
        ensures
            logical(final(buffer)@, n as nat, stride_of(n as nat)) == relaxed(
                logical(old(buffer)@, n as nat, stride_of(n as nat)),
                k as int,
            ),
            same_padding(final(buffer)@, old(buffer)@, n as nat, stride_of(n as nat)),
    {
        proof {
            lemma_layout(n as nat);
            assert(stride_of(n as nat) <= n * stride_of(n as nat)) by (nonlinear_arith)
                requires
                    1 <= n,
            ;
        }
        relax(buffer, n, Self::num_threads_x(n), k);
    }

    /// Bytes in each of the engine's two buffers.
    pub fn buffer_size(n: usize) -> (size: usize)
        requires
            bytes_of(n as nat) <= usize::MAX,
        ensures
            size == bytes_of(n as nat),
    {
        proof {
            lemma_layout(n as nat);
        }
        Self::num_threads_x(n) * n * CELL_BYTES
    }
}

/// The engine: the relaxation kernel driven through every vertex.
pub struct WarshallFloyd {
    kernel: WarshallFloydKernel,
}

impl WarshallFloyd {
    /// The kernel that the engine dispatches.
    pub closed spec fn kernel(self) -> WarshallFloydKernel {
        self.kernel
    }

    /// An engine with the relaxation kernel.
    pub fn new() -> (engine: WarshallFloyd)
        ensures
            engine.kernel() == (WarshallFloydKernel {  }),
    {
        WarshallFloyd { kernel: WarshallFloydKernel::new() }
    }

    /// Relaxes the matrix staged in `in_buffer` through the vertices
    /// `0, 1, .., n - 1`, one dispatch each and in that order, and leaves
    /// the result in `out_buffer`.
    ///
    /// Buffers that do not both have `n` rows of the kernel's stride are
    /// refused, and left as they are. Otherwise `out_buffer` starts as a
    /// copy of `in_buffer`, padding included, and is then the engine's
    /// working buffer; `in_buffer` is only read. Where the staged matrix is
    /// the seed of a graph without loops, the result is the matrix of its
    /// shortest-path distances.
    pub fn run(&self, in_buffer: &Vec<Distance>, out_buffer: &mut Vec<Distance>, n: usize) -> (result:
        Result<(), Error>)
        ensures
            match result {
                Ok(()) => {
                    &&& in_buffer@.len() == cells_of(n as nat)
                    &&& old(out_buffer)@.len() == cells_of(n as nat)
                    &&& logical(final(out_buffer)@, n as nat, stride_of(n as nat))
                        == relaxed_through(
                        logical(in_buffer@, n as nat, stride_of(n as nat)),
                        n as nat,
                    )
                    &&& same_padding(final(out_buffer)@, in_buffer@, n as nat, stride_of(n as nat))
                    &&& solves(
                        logical(in_buffer@, n as nat, stride_of(n as nat)),
                        logical(final(out_buffer)@, n as nat, stride_of(n as nat)),
                        n as nat,
                    )
                },
                Err(error) => {
                    &&& error == Error::CapacityMismatch
                    &&& in_buffer@.len() != cells_of(n as nat) || old(out_buffer)@.len()
                        != cells_of(n as nat)
                    &&& final(out_buffer)@ == old(out_buffer)@
                },
            },
    {
        let in_cells = in_buffer.len();
        let out_cells = out_buffer.len();
        let cells = match checked_cells(n) {
            Some(cells) => cells,
            None => {
                return Err(Error::CapacityMismatch);
            },
        };
        if in_cells != cells || out_cells != cells {
            return Err(Error::CapacityMismatch);
        }
        proof {
            lemma_layout(n as nat);
        }
        copy_buffer(in_buffer, out_buffer);
        let ghost staged = logical(in_buffer@, n as nat, stride_of(n as nat));
        let mut k: usize = 0;
        while k < n
            invariant
                k <= n,
                n * stride_of(n as nat) <= out_buffer@.len(),
                out_buffer@.len() == in_buffer@.len(),
                staged == logical(in_buffer@, n as nat, stride_of(n as nat)),
                logical(out_buffer@, n as nat, stride_of(n as nat)) == relaxed_through(
                    staged,
                    k as nat,
                ),
                same_padding(out_buffer@, in_buffer@, n as nat, stride_of(n as nat)),
            decreases n - k,
        {
            self.kernel.run(out_buffer, n, k);
            k += 1;
        }
        proof {
            assert forall|edges: Edges| loop_free(edges, n as nat) && #[trigger] seed(edges, n as nat)
                == staged implies relaxed_through(staged, n as nat) == shortest_distances(
                edges,
                n as nat,
            ) by {
                lemma_relaxation_reaches_shortest(edges, n as nat);
            }
        }
        Ok(())
    }
}

/// Number of cells in each buffer for `n` vertices, or `None` where no
/// buffer can be that large.
pub fn checked_cells(n: usize) -> (cells: Option<usize>)
    ensures
        match cells {
            Some(cells) => cells == cells_of(n as nat),
            None => cells_of(n as nat) > usize::MAX,
        },
{
    proof {
        lemma_layout(n as nat);
    }
    if n == 0 {
        return Some(0);
    }
    match ceil_div(n, WarshallFloydKernel::WORKGROUP_SIZE_X).checked_mul(
        WarshallFloydKernel::WORKGROUP_SIZE_X,
    ) {
        Some(stride) => stride.checked_mul(n),
        None => None,
    }
}

/// Builds the seed matrix of the graph `edges` on `n` vertices in the
/// engine's layout. Refuses what `buffer::stage_adjacency_matrix` refuses.
pub fn stage_adjacency_matrix(edges: &[(usize, usize)], n: usize) -> (result: Result<
    Vec<Distance>,
    Error,
>)
    requires
        bytes_of(n as nat) <= usize::MAX,
    ensures
        match result {
            Ok(buffer) => {
                &&& in_range(edges@, n as nat)
                &&& buffer@ == staged(edges@, n as nat, stride_of(n as nat), cells_of(n as nat))
                &&& logical(buffer@, n as nat, stride_of(n as nat)) == seed(edges@, n as nat)
            },
            Err(error) => {
                &&& error matches Error::VertexOutOfRange { index }
                &&& index < edges@.len()
                &&& !(edges@[index as int].0 < n && edges@[index as int].1 < n)
                &&& in_range_among(edges@, index as int, n as nat)
            },
        },
{
    proof {
        lemma_layout(n as nat);
    }
    let size = WarshallFloydKernel::buffer_size(n);
    let stride = WarshallFloydKernel::num_threads_x(n);
    stage(edges, n, stride, size)
}

} // verus!
