//! All-pairs shortest paths by repeated min-plus squaring of the seed
//! matrix: `⌈log2 n⌉` rounds, each one dispatch of a matmul kernel, with
//! the previous round's output copied back as the next round's operand.
use vstd::prelude::*;
use vstd::arithmetic::power2::{lemma2_to64, lemma_pow2_strictly_increases, lemma_pow2_unfold, pow2};
use crate::buffer::{
    capacity_fits, filled, in_range_among, stage_adjacency_matrix, staged, Error, CELL_BYTES,
};
use crate::dispatch::{copy_buffer, tropical_product, tropical_product_tiled};
use crate::distance::Distance;
use crate::convergence::{lemma_squaring_reaches_shortest, solves};
use crate::graph::{in_range, loop_free, seed, shortest_distances, Edges};
use crate::kernel::{checked_padded, lemma_padded_bounds, padded, workgroups, Kernel};
use crate::matrix::{logical, product, same_padding, squared, Matrix};
use crate::params::KernelParams;

verus! {

/// Row stride of the buffers of kernel `K` for `n` vertices.
pub open spec fn stride_of<K: Kernel>(n: nat) -> nat {
    padded(n, K::WORKGROUP_SIZE_X as nat)
}

/// Number of rows in the buffers of kernel `K` for `n` vertices.
pub open spec fn rows_of<K: Kernel>(n: nat) -> nat {
    padded(n, K::WORKGROUP_SIZE_Y as nat)
}

/// Number of cells in each buffer of kernel `K` for `n` vertices.
pub open spec fn cells_of<K: Kernel>(n: nat) -> nat {
    stride_of::<K>(n) * rows_of::<K>(n)
}

/// Number of bytes in each buffer of kernel `K` for `n` vertices.
pub open spec fn bytes_of<K: Kernel>(n: nat) -> nat {
    cells_of::<K>(n) * (CELL_BYTES as nat)
}

/// Rounds still to run when the operand reaches `reach` hops: the number of
/// doublings that take `reach` to `n` or beyond.
pub open spec fn rounds_from(reach: nat, n: nat) -> nat
    decreases shortfall(reach, n),
{
    if 0 < reach < n {
        1 + rounds_from(2 * reach, n)
    } else {
        0
    }
}

/// How far `reach` falls short of `n`.
pub open spec fn shortfall(reach: nat, n: nat) -> nat {
    if reach < n {
        (n - reach) as nat
    } else {
        0
    }
}

/// Rounds of a whole run on `n` vertices: `⌈log2 n⌉`, and none for `n <= 1`.
pub open spec fn rounds(n: nat) -> nat {
    rounds_from(1, n)
}

/// `rounds_from` counts the doublings exactly: that many reach `n`, one
/// fewer does not.
pub proof fn lemma_rounds_from(reach: nat, n: nat)
    requires
        reach > 0,
    ensures
        reach * pow2(rounds_from(reach, n)) >= n,
        rounds_from(reach, n) > 0 ==> reach * pow2((rounds_from(reach, n) - 1) as nat) < n,
    decreases shortfall(reach, n),
{
    lemma2_to64();
    let count = rounds_from(reach, n);
    if reach < n {
        let rest = rounds_from(2 * reach, n);
        assert(count == rest + 1);
        lemma_rounds_from(2 * reach, n);
        lemma_pow2_unfold(rest + 1);
        assert(reach * pow2(rest + 1) == (2 * reach) * pow2(rest)) by (nonlinear_arith)
            requires
                pow2(rest + 1) == 2 * pow2(rest),
        ;
        if rest > 0 {
            lemma_pow2_unfold(rest);
            assert((2 * reach) * pow2((rest - 1) as nat) == reach * pow2(rest))
                by (nonlinear_arith)
                requires
                    pow2(rest) == 2 * pow2((rest - 1) as nat),
            ;
        } else {
            assert(reach * pow2(0) == reach) by (nonlinear_arith)
                requires
                    pow2(0) == 1,
            ;
        }
    } else {
        assert(count == 0);
        assert(reach * pow2(0) == reach) by (nonlinear_arith)
            requires
                pow2(0) == 1,
        ;
    }
}

/// The rounds of a run are the least number whose power of two reaches `n`.
pub proof fn lemma_rounds(n: nat)
    ensures
        pow2(rounds(n)) >= n,
        rounds(n) > 0 ==> pow2((rounds(n) - 1) as nat) < n,
        n <= 1 <==> rounds(n) == 0,
{
    lemma_rounds_from(1, n);
    assert(1 * pow2(rounds(n)) == pow2(rounds(n))) by (nonlinear_arith);
    if rounds(n) > 0 {
        let below = pow2((rounds(n) - 1) as nat);
        assert(1 * below == below) by (nonlinear_arith);
    }
}

/// More rounds reach at least as far.
pub proof fn lemma_pow2_monotonic(lower: nat, upper: nat)
    requires
        lower <= upper,
    ensures
        pow2(lower) <= pow2(upper),
{
    if lower < upper {
        lemma_pow2_strictly_increases(lower, upper);
    }
}

/// A run on a machine has at most as many rounds as its words have bits.
pub proof fn lemma_rounds_bounded(n: nat)
    requires
        n <= usize::MAX,
    ensures
        rounds(n) <= 64,
{
    lemma_rounds(n);
    lemma2_to64();
    if rounds(n) > 64 {
        lemma_pow2_monotonic(64, (rounds(n) - 1) as nat);
    }
}

/// What the host does for one round.
#[derive(Clone, Copy, Debug, PartialEq, Eq, Structural)]
pub struct Round {
    /// Whether the previous round's output is first copied back into the
    /// input buffer.
    pub copy_back: bool,
    /// Hops that the output reaches once this round's dispatch is done.
    pub reach: usize,
}

/// Decides the next round of a run on `n` vertices whose latest output
/// reaches `reach` hops: none once `reach` is `n` or more; otherwise one
/// dispatch that doubles the reach, after a copy-back in every round but
/// the first.
pub fn next_round(reach: usize, n: usize) -> (round: Option<Round>)
    requires
        reach >= 1,
    ensures
        round == if reach < n {
            Some(
                Round {
                    copy_back: reach != 1,
                    reach: if 2 * reach <= usize::MAX {
                        (2 * reach) as usize
                    } else {
                        usize::MAX
                    },
                },
            )
        } else {
            None::<Round>
        },
{
    if reach < n {
        let doubled = match reach.checked_mul(2) {
            Some(doubled) => doubled,
            None => usize::MAX,
        };
        Some(Round { copy_back: reach != 1, reach: doubled })
    } else {
        None
    }
}

/// Number of rounds that a run on `n` vertices dispatches.
pub fn round_count(n: usize) -> (count: usize)
    ensures
        count == rounds(n as nat),
{
    proof {
        lemma_rounds_bounded(n as nat);
    }
    let mut count: usize = 0;
    let mut reach: usize = 1;
    loop
        invariant
            reach >= 1,
            count + rounds_from(reach as nat, n as nat) == rounds(n as nat),
            rounds(n as nat) <= 64,
        ensures
            count == rounds(n as nat),
        decreases rounds_from(reach as nat, n as nat),
    {
        let round = match next_round(reach, n) {
            Some(round) => round,
            None => {
                break ;
            },
        };
        assert(rounds_from(round.reach as nat, n as nat) == rounds_from(
            2 * (reach as nat),
            n as nat,
        ));
        count += 1;
        reach = round.reach;
    }
    count
}

/// The buffers of kernel `K` have at least `n` rows of at least `n` cells.
pub proof fn lemma_buffer_shape<K: Kernel>(n: nat)
    ensures
        n <= stride_of::<K>(n),
        n <= rows_of::<K>(n),
        n * stride_of::<K>(n) <= cells_of::<K>(n),
        n > 0 ==> stride_of::<K>(n) <= cells_of::<K>(n) && rows_of::<K>(n) <= cells_of::<K>(n),
{
    K::lemma_workgroup_shape();
    lemma_padded_bounds(n, K::WORKGROUP_SIZE_X as nat);
    lemma_padded_bounds(n, K::WORKGROUP_SIZE_Y as nat);
    let stride = stride_of::<K>(n);
    let rows = rows_of::<K>(n);
    assert(n * stride <= stride * rows) by (nonlinear_arith)
        requires
            n <= rows,
    ;
    if n > 0 {
        assert(stride <= stride * rows && rows <= stride * rows) by (nonlinear_arith)
            requires
                1 <= rows,
                1 <= stride,
        ;
    }
}

/// Number of cells in each buffer of kernel `K` for `n` vertices, or `None`
/// where no buffer can be that large.
pub fn checked_cells<K: Kernel>(n: usize) -> (cells: Option<usize>)
    ensures
        match cells {
            Some(cells) => cells == cells_of::<K>(n as nat),
            None => cells_of::<K>(n as nat) > usize::MAX,
        },
{
    proof {
        K::lemma_workgroup_shape();
        lemma_buffer_shape::<K>(n as nat);
    }
    if n == 0 {
        proof {
            lemma_padded_bounds(0, K::WORKGROUP_SIZE_X as nat);
            lemma_padded_bounds(0, K::WORKGROUP_SIZE_Y as nat);
            assert(cells_of::<K>(0) == 0) by (nonlinear_arith)
                requires
                    stride_of::<K>(0) < K::WORKGROUP_SIZE_X,
                    stride_of::<K>(0) % (K::WORKGROUP_SIZE_X as nat) == 0,
                    cells_of::<K>(0) == stride_of::<K>(0) * rows_of::<K>(0),
            {
                if stride_of::<K>(0) != 0 {
                    vstd::arithmetic::div_mod::lemma_small_mod(
                        stride_of::<K>(0),
                        K::WORKGROUP_SIZE_X as nat,
                    );
                }
            }
        }
        return Some(0);
    }
    match checked_padded(n, K::WORKGROUP_SIZE_X) {
        Some(stride) => match checked_padded(n, K::WORKGROUP_SIZE_Y) {
            Some(rows) => stride.checked_mul(rows),
            None => None,
        },
        None => None,
    }
}

/// A min-plus matmul kernel: a workgroup shape together with the dispatch
/// that multiplies a matrix by itself.
pub trait TropicalMatmulKernel: Kernel + Sized {
    /// One dispatch: the logical matrix of `out_buffer` becomes the min-plus
    /// product of the logical matrix of `in_buffer` with itself. Padding is
    /// not written. The buffers need `n` rows at the kernel's stride; how
    /// many more rows they have is the engine's matter.
    fn run(&self, in_buffer: &Vec<Distance>, out_buffer: &mut Vec<Distance>, n: usize)
        requires
            n * stride_of::<Self>(n as nat) <= in_buffer.len(),
            in_buffer.len() == old(out_buffer).len(),
        ensures
            logical(final(out_buffer)@, n as nat, stride_of::<Self>(n as nat)) == product(
                logical(in_buffer@, n as nat, stride_of::<Self>(n as nat)),
                logical(in_buffer@, n as nat, stride_of::<Self>(n as nat)),
            ),
            same_padding(final(out_buffer)@, old(out_buffer)@, n as nat, stride_of::<Self>(n as nat)),
    ;

    /// Bytes in each of the engine's two buffers.
    fn buffer_size(n: usize) -> (size: usize)
        requires
            bytes_of::<Self>(n as nat) <= usize::MAX,
        ensures
            size == bytes_of::<Self>(n as nat),
    {
        proof {
            lemma_buffer_shape::<Self>(n as nat);
            if n == 0 {
                Self::lemma_workgroup_shape();
                lemma_padded_bounds(0, Self::WORKGROUP_SIZE_X as nat);
                lemma_padded_bounds(0, Self::WORKGROUP_SIZE_Y as nat);
            }
        }
        Self::num_threads_x(n) * Self::num_threads_y(n) * CELL_BYTES
    }

    /// The grid that one dispatch covers, as the device takes it: workgroup
    /// counts along x and y, one along z. `None` where a count exceeds what
    /// a dispatch can hold.
    fn dispatch_size(n: usize) -> (grid: Option<(u32, u32, u32)>)
        ensures
            match grid {
                Some((x, y, z)) => {
                    &&& x == workgroups(n as nat, Self::WORKGROUP_SIZE_X as nat)
                    &&& y == workgroups(n as nat, Self::WORKGROUP_SIZE_Y as nat)
                    &&& z == 1
                },
                None => workgroups(n as nat, Self::WORKGROUP_SIZE_X as nat) > u32::MAX
                    || workgroups(n as nat, Self::WORKGROUP_SIZE_Y as nat) > u32::MAX,
            },
    {
        let x = Self::num_workgroups_x(n);
        let y = Self::num_workgroups_y(n);
        if x > u32::MAX as usize || y > u32::MAX as usize {
            None
        } else {
            Some((x as u32, y as u32, 1))
        }
    }
}

/// The kernel in which every invocation computes one output cell by
/// scanning all contraction indices against the input buffer.
pub struct NaiveTropicalMatmulKernel {}

impl NaiveTropicalMatmulKernel {
    /// The naive kernel.
    pub fn new() -> (kernel: NaiveTropicalMatmulKernel)
        ensures
            kernel == (NaiveTropicalMatmulKernel {  }),
    {
        NaiveTropicalMatmulKernel {  }
    }
}

impl Kernel for NaiveTropicalMatmulKernel {
    const WORKGROUP_SIZE_X: usize = 1;

    const WORKGROUP_SIZE_Y: usize = 1;

    const WORKGROUP_SIZE_Z: usize = 1;

    proof fn lemma_workgroup_shape()
        ensures
            Self::WORKGROUP_SIZE_X == 1,
            Self::WORKGROUP_SIZE_Y == 1,
            Self::WORKGROUP_SIZE_Z == 1,
    {
    }
}

impl TropicalMatmulKernel for NaiveTropicalMatmulKernel {
    fn run(&self, in_buffer: &Vec<Distance>, out_buffer: &mut Vec<Distance>, n: usize) {
        proof {
            lemma_padded_bounds(n as nat, 1);
        }
        tropical_product(in_buffer, out_buffer, n, n);
    }
}

/// The kernel in which each workgroup stages 16×16 tiles of both operands
/// and accumulates its block of the output tile by tile.
pub struct BlockedTropicalMatmulKernel {}

impl BlockedTropicalMatmulKernel {
    /// The tiled kernel.
    pub fn new() -> (kernel: BlockedTropicalMatmulKernel)
        ensures
            kernel == (BlockedTropicalMatmulKernel {  }),
    {
        BlockedTropicalMatmulKernel {  }
    }
}

impl Kernel for BlockedTropicalMatmulKernel {
    const WORKGROUP_SIZE_X: usize = 16;

    const WORKGROUP_SIZE_Y: usize = 16;

    const WORKGROUP_SIZE_Z: usize = 1;

    proof fn lemma_workgroup_shape()
        ensures
            Self::WORKGROUP_SIZE_X == 16,
            Self::WORKGROUP_SIZE_Y == 16,
            Self::WORKGROUP_SIZE_Z == 1,
    {
    }
}

impl TropicalMatmulKernel for BlockedTropicalMatmulKernel {
    fn run(&self, in_buffer: &Vec<Distance>, out_buffer: &mut Vec<Distance>, n: usize) {
        proof {
            lemma_padded_bounds(n as nat, 16);
            lemma_stride_fits::<Self>(n as nat, in_buffer.len() as nat);
        }
        let stride = Self::num_threads_x(n);
        tropical_product_tiled(in_buffer, out_buffer, n, stride, Self::WORKGROUP_SIZE_X);
    }
}

/// `buffer` holds the matrix `m` in its logical cells and, in its padding,
/// what `padding` holds there.
pub open spec fn holds(buffer: Seq<Distance>, n: nat, stride: nat, m: Matrix, padding: Seq<Distance>) -> bool {
    &&& logical(buffer, n, stride) == m
    &&& same_padding(buffer, padding, n, stride)
}

/// A buffer with `n` rows at the kernel's stride holds at least one row.
pub proof fn lemma_stride_fits<K: Kernel>(n: nat, cells: nat)
    requires
        n * stride_of::<K>(n) <= cells,
    ensures
        stride_of::<K>(n) <= cells,
        n <= stride_of::<K>(n),
{
    K::lemma_workgroup_shape();
    lemma_padded_bounds(n, K::WORKGROUP_SIZE_X as nat);
    let stride = stride_of::<K>(n);
    if n > 0 {
        assert(stride <= n * stride) by (nonlinear_arith)
            requires
                1 <= n,
        ;
    } else {
        assert(stride == 0) by {
            if stride != 0 {
                vstd::arithmetic::div_mod::lemma_small_mod(stride, K::WORKGROUP_SIZE_X as nat);
            }
        }
    }
}

/// How a run of `rounds(n)` rounds leaves the two buffers.
///
/// The logical matrix of the output is the staged matrix squared `rounds(n)`
/// times; where the staged matrix is the seed of a graph without loops, that
/// is the matrix of its shortest-path distances. The input is the operand
/// of the last round: the staged matrix itself after one round, the output
/// of the round before after more. Padding is never written by a dispatch,
/// so it is the output's own throughout, and reaches the input with the
/// first copy-back. With no round to run (`n <= 1`) both buffers are as they
/// were.
pub open spec fn after_rounds(
    first_in: Seq<Distance>,
    first_out: Seq<Distance>,
    last_in: Seq<Distance>,
    last_out: Seq<Distance>,
    n: nat,
    stride: nat,
) -> bool {
    let staged = logical(first_in, n, stride);
    let count = rounds(n);
    &&& last_in.len() == first_in.len()
    &&& last_out.len() == first_out.len()
    &&& count == 0 ==> last_out == first_out
    &&& count <= 1 ==> last_in == first_in
    &&& count >= 1 ==> holds(last_out, n, stride, squared(staged, count), first_out)
    &&& count >= 2 ==> holds(last_in, n, stride, squared(staged, (count - 1) as nat), first_out)
    &&& count >= 1 ==> solves(staged, logical(last_out, n, stride), n)
}

/// Drives `kernel` through the rounds of a run on `n` vertices: while the
/// reach is below `n`, copy the previous output back (but in the first
/// round), dispatch, and double the reach.
pub fn run_rounds<K: TropicalMatmulKernel>(
    kernel: &K,
    in_buffer: &mut Vec<Distance>,
    out_buffer: &mut Vec<Distance>,
    n: usize,
)
    requires
        n * stride_of::<K>(n as nat) <= old(in_buffer).len(),
        old(in_buffer).len() == old(out_buffer).len(),
    ensures
        after_rounds(
            old(in_buffer)@,
            old(out_buffer)@,
            final(in_buffer)@,
            final(out_buffer)@,
            n as nat,
            stride_of::<K>(n as nat),
        ),
{
    let ghost stride = stride_of::<K>(n as nat);
    let ghost staged = logical(in_buffer@, n as nat, stride);
    let ghost first_in = in_buffer@;
    let ghost first_out = out_buffer@;
    let ghost done: nat = 0;
    let mut reach: usize = 1;
    loop
        invariant
            reach >= 1,
            done == 0 <==> reach == 1,
            done + rounds_from(reach as nat, n as nat) == rounds(n as nat),
            stride == stride_of::<K>(n as nat),
            staged == logical(first_in, n as nat, stride),
            n * stride <= first_in.len(),
            in_buffer@.len() == first_in.len(),
            out_buffer@.len() == first_in.len(),
            first_out.len() == first_in.len(),
            done == 0 ==> out_buffer@ == first_out,
            done <= 1 ==> in_buffer@ == first_in,
            done >= 1 ==> holds(out_buffer@, n as nat, stride, squared(staged, done), first_out),
            done >= 2 ==> holds(
                in_buffer@,
                n as nat,
                stride,
                squared(staged, (done - 1) as nat),
                first_out,
            ),
        ensures
            done == rounds(n as nat),
            in_buffer@.len() == first_in.len(),
            out_buffer@.len() == first_in.len(),
            done == 0 ==> out_buffer@ == first_out,
            done <= 1 ==> in_buffer@ == first_in,
            done >= 1 ==> holds(out_buffer@, n as nat, stride, squared(staged, done), first_out),
            done >= 2 ==> holds(
                in_buffer@,
                n as nat,
                stride,
                squared(staged, (done - 1) as nat),
                first_out,
            ),
        decreases rounds_from(reach as nat, n as nat),
    {
        let round = match next_round(reach, n) {
            Some(round) => round,
            None => {
                break ;
            },
        };
        if round.copy_back {
            copy_buffer(out_buffer, in_buffer);
        }
        let ghost operand = logical(in_buffer@, n as nat, stride);
        assert(operand == squared(staged, done));
        kernel.run(in_buffer, out_buffer, n);
        proof {
            assert(squared(staged, done + 1) == product(operand, operand));
            assert(rounds_from(round.reach as nat, n as nat) == rounds_from(
                2 * (reach as nat),
                n as nat,
            ));
            done = done + 1;
        }
        reach = round.reach;
    }
    proof {
        assert forall|edges: Edges| loop_free(edges, n as nat) && #[trigger] seed(edges, n as nat)
            == staged implies squared(staged, rounds(n as nat)) == shortest_distances(
            edges,
            n as nat,
        ) by {
            lemma_rounds(n as nat);
            lemma_squaring_reaches_shortest(edges, n as nat, rounds(n as nat));
        }
    }
}

/// The engine: a matmul kernel driven through the rounds of a run.
pub struct TropicalMatmul<K: TropicalMatmulKernel = BlockedTropicalMatmulKernel> {
    kernel: K,
}

impl<K: TropicalMatmulKernel> TropicalMatmul<K> {
    /// The kernel that the engine dispatches.
    pub closed spec fn kernel(self) -> K {
        self.kernel
    }

    /// An engine that dispatches `kernel`.
    pub fn new(kernel: K) -> (engine: TropicalMatmul<K>)
        ensures
            engine.kernel() == kernel,
    {
        TropicalMatmul { kernel }
    }

    /// Runs all `rounds(n)` rounds on the matrix staged in `in_buffer`.
    ///
    /// Buffers that do not both have the kernel's capacity for `n` vertices
    /// are refused, and left as they are. Otherwise the buffers end as
    /// `run_rounds` leaves them: the result in `out_buffer`.
    pub fn run(&self, in_buffer: &mut Vec<Distance>, out_buffer: &mut Vec<Distance>, n: usize) -> (result:
        Result<(), Error>)
        ensures
            match result {
                Ok(()) => {
                    &&& old(in_buffer)@.len() == cells_of::<K>(n as nat)
                    &&& old(out_buffer)@.len() == cells_of::<K>(n as nat)
                    &&& after_rounds(
                        old(in_buffer)@,
                        old(out_buffer)@,
                        final(in_buffer)@,
                        final(out_buffer)@,
                        n as nat,
                        stride_of::<K>(n as nat),
                    )
                },
                Err(error) => {
                    &&& error == Error::CapacityMismatch
                    &&& old(in_buffer)@.len() != cells_of::<K>(n as nat) || old(out_buffer)@.len()
                        != cells_of::<K>(n as nat)
                    &&& final(in_buffer)@ == old(in_buffer)@
                    &&& final(out_buffer)@ == old(out_buffer)@
                },
            },
    {
        let in_cells = in_buffer.len();
        let out_cells = out_buffer.len();
        let cells = match checked_cells::<K>(n) {
            Some(cells) => cells,
            None => {
                return Err(Error::CapacityMismatch);
            },
        };
        if in_cells != cells || out_cells != cells {
            return Err(Error::CapacityMismatch);
        }
        proof {
            lemma_buffer_shape::<K>(n as nat);
        }
        run_rounds(&self.kernel, in_buffer, out_buffer, n);
        Ok(())
    }

    /// The uniform for a run on `n` vertices: `n` and the kernel's row
    /// stride; `None` where either does not fit the 32 bits the kernel reads.
    pub fn params(&self, n: usize) -> (params: Option<KernelParams>)
        ensures
            match params {
                Some(params) => params.n == n && params.stride == stride_of::<K>(n as nat),
                None => n > u32::MAX || stride_of::<K>(n as nat) > u32::MAX,
            },
    {
        proof {
            K::lemma_workgroup_shape();
        }
        match checked_padded(n, K::WORKGROUP_SIZE_X) {
            Some(stride) => KernelParams::new(n, stride),
            None => None,
        }
    }

    /// Builds the seed matrix of the graph `edges` on `n` vertices in the
    /// layout of the kernel's buffers. Refuses what `stage_adjacency_matrix`
    /// refuses, for the kernel's row stride and buffer size.
    pub fn stage_adjacency_matrix(&self, edges: &[(usize, usize)], n: usize) -> (result: Result<
        Vec<Distance>,
        Error,
    >)
        requires
            bytes_of::<K>(n as nat) <= usize::MAX,
        ensures
            match result {
                Ok(buffer) => {
                    &&& in_range(edges@, n as nat)
                    &&& capacity_fits(
                        n as nat,
                        stride_of::<K>(n as nat),
                        bytes_of::<K>(n as nat),
                    )
                    &&& buffer@ == staged(
                        edges@,
                        n as nat,
                        stride_of::<K>(n as nat),
                        cells_of::<K>(n as nat),
                    )
                    &&& logical(buffer@, n as nat, stride_of::<K>(n as nat)) == seed(
                        edges@,
                        n as nat,
                    )
                },
                Err(Error::VertexOutOfRange { index }) => {
                    &&& index < edges@.len()
                    &&& !(edges@[index as int].0 < n && edges@[index as int].1 < n)
                    &&& in_range_among(edges@, index as int, n as nat)
                },
                Err(Error::CapacityMismatch) => {
                    &&& in_range(edges@, n as nat)
                    &&& !capacity_fits(
                        n as nat,
                        stride_of::<K>(n as nat),
                        bytes_of::<K>(n as nat),
                    )
                },
            },
    {
        proof {
            lemma_buffer_shape::<K>(n as nat);
            if n == 0 {
                K::lemma_workgroup_shape();
                lemma_padded_bounds(0, K::WORKGROUP_SIZE_X as nat);
            }
        }
        stage_adjacency_matrix(edges, n, K::num_threads_x(n), K::buffer_size(n))
    }

    /// The engine's two buffers for `n` vertices, input first: each of the
    /// kernel's capacity, each zero throughout as fresh device memory is.
    pub fn create_buffer(&self, n: usize) -> (buffers: (Vec<Distance>, Vec<Distance>))
        requires
            bytes_of::<K>(n as nat) <= usize::MAX,
        ensures
            buffers.0@ == Seq::new(cells_of::<K>(n as nat), |p: int| Distance::Finite(0)),
            buffers.1@ == buffers.0@,
    {
        let size = K::buffer_size(n);
        let in_buffer = filled(Distance::Finite(0), size / CELL_BYTES);
        let out_buffer = filled(Distance::Finite(0), size / CELL_BYTES);
        assert(in_buffer@ =~= Seq::new(cells_of::<K>(n as nat), |p: int| Distance::Finite(0)));
        assert(out_buffer@ =~= in_buffer@);
        (in_buffer, out_buffer)
    }
}

} // verus!
