//! Staging of the seed matrix into a flat buffer with a padded row stride,
//! and reading the logical matrix back out of such a buffer.
use vstd::prelude::*;
use crate::distance::Distance;
use crate::graph::{in_range, joined_among, joins, seed, seed_cell, Edges};
use crate::matrix::{is_logical, lemma_offset, lemma_position, logical, offset};

verus! {

/// Bytes that one cell occupies in device memory.
pub const CELL_BYTES: usize = 4;

/// Why a graph or a buffer was refused.
#[derive(Clone, Copy, Debug, PartialEq, Eq, Structural)]
pub enum Error {
    /// The edge at position `index` names a vertex that is not below the
    /// vertex count; no earlier edge does.
    VertexOutOfRange { index: usize },
    /// A buffer's capacity is not that of a matrix with the given vertex
    /// count and row stride.
    CapacityMismatch,
}

/// A destination of `size` bytes holds exactly a matrix of `n` vertices with
/// row stride `stride`, padded either along the rows only or along both axes.
pub open spec fn capacity_fits(n: nat, stride: nat, size: nat) -> bool {
    &&& n <= stride
    &&& (size == stride * n * CELL_BYTES || size == stride * stride * CELL_BYTES)
}

/// The staged buffer of `cells` entries: the seed at every logical position,
/// `Infinite` at every padding position.
pub open spec fn staged(edges: Edges, n: nat, stride: nat, cells: nat) -> Seq<Distance> {
    Seq::new(
        cells,
        |p: int|
            if is_logical(p, n, stride) {
                seed_cell(edges, p / (stride as int), p % (stride as int))
            } else {
                Distance::Infinite
            },
    )
}

/// The first `count` edges all lie in range.
pub open spec fn in_range_among(edges: Edges, count: int, n: nat) -> bool {
    forall|e: int| 0 <= e < count && e < edges.len() ==> (#[trigger] edges[e]).0 < n && edges[e].1 < n
}

/// Position of the first edge that leaves the range `0..n`, if there is one.
pub fn first_out_of_range(edges: &[(usize, usize)], n: usize) -> (found: Option<usize>)
    ensures
        match found {
            Some(index) => {
                &&& index < edges@.len()
                &&& !(edges@[index as int].0 < n && edges@[index as int].1 < n)
                &&& in_range_among(edges@, index as int, n as nat)
            },
            None => in_range(edges@, n as nat),
        },
{
    let mut e: usize = 0;
    while e < edges.len()
        invariant
            e <= edges@.len(),
            in_range_among(edges@, e as int, n as nat),
        decreases edges@.len() - e,
    {
        let (u, v) = edges[e];
        if u >= n || v >= n {
            return Some(e);
        }
        e += 1;
    }
    None
}

/// Whether a destination of `size` bytes fits `n` vertices at row stride
/// `stride`.
pub fn check_capacity(n: usize, stride: usize, size: usize) -> (fits: bool)
    ensures
        fits == capacity_fits(n as nat, stride as nat, size as nat),
{
    if n > stride {
        return false;
    }
    let by_rows = match stride.checked_mul(n) {
        Some(cells) => match cells.checked_mul(CELL_BYTES) {
            Some(bytes) => bytes == size,
            None => false,
        },
        None => false,
    };
    let by_both = match stride.checked_mul(stride) {
        Some(cells) => match cells.checked_mul(CELL_BYTES) {
            Some(bytes) => bytes == size,
            None => false,
        },
        None => false,
    };
    proof {
        assert(stride * n > usize::MAX ==> stride * n * 4 > usize::MAX) by (nonlinear_arith);
        assert(stride * stride > usize::MAX ==> stride * stride * 4 > usize::MAX)
            by (nonlinear_arith);
    }
    by_rows || by_both
}

/// A buffer of `cells` entries, all `value`.
pub fn filled(value: Distance, cells: usize) -> (buffer: Vec<Distance>)
    ensures
        buffer@.len() == cells,
        forall|p: int| 0 <= p < cells ==> buffer@[p] == value,
{
    let mut buffer: Vec<Distance> = Vec::new();
    let mut p: usize = 0;
    while p < cells
        invariant
            p <= cells,
            buffer@.len() == p,
            forall|q: int| 0 <= q < p ==> buffer@[q] == value,
        decreases cells - p,
    {
        buffer.push(value);
        p += 1;
    }
    buffer
}

/// What stands at position `p` once the diagonal is laid and the first
/// `count` edges are entered.
pub open spec fn staged_cell(edges: Edges, n: nat, stride: nat, count: int, p: int) -> Distance {
    let r = p / (stride as int);
    let c = p % (stride as int);
    if !is_logical(p, n, stride) {
        Distance::Infinite
    } else if joined_among(edges, count, r, c) {
        Distance::Finite(1)
    } else if r == c {
        Distance::Finite(0)
    } else {
        Distance::Infinite
    }
}

/// Builds the seed matrix of the graph `edges` on `n` vertices for a
/// destination of `size` bytes with row stride `stride`.
///
/// An edge list that names a vertex outside `0..n` is refused before
/// anything is staged, with the position of its first such edge; after that,
/// a destination whose capacity is neither `stride * n` nor `stride * stride`
/// cells is refused. Otherwise the whole destination is written: `Infinite`
/// everywhere, then zero on the diagonal, then one in both cells of every
/// edge.
pub fn stage_adjacency_matrix(edges: &[(usize, usize)], n: usize, stride: usize, size: usize) -> (result:
    Result<Vec<Distance>, Error>)
    ensures
        match result {
            Ok(buffer) => {
                &&& in_range(edges@, n as nat)
                &&& capacity_fits(n as nat, stride as nat, size as nat)
                &&& buffer@ == staged(edges@, n as nat, stride as nat, (size / CELL_BYTES) as nat)
                &&& logical(buffer@, n as nat, stride as nat) == seed(edges@, n as nat)
            },
            Err(Error::VertexOutOfRange { index }) => {
                &&& index < edges@.len()
                &&& !(edges@[index as int].0 < n && edges@[index as int].1 < n)
                &&& in_range_among(edges@, index as int, n as nat)
            },
            Err(Error::CapacityMismatch) => {
                &&& in_range(edges@, n as nat)
                &&& !capacity_fits(n as nat, stride as nat, size as nat)
            },
        },
{
    if let Some(index) = first_out_of_range(edges, n) {
        return Err(Error::VertexOutOfRange { index });
    }
    if !check_capacity(n, stride, size) {
        return Err(Error::CapacityMismatch);
    }
    let cells = size / CELL_BYTES;
    assert(n * stride <= cells) by (nonlinear_arith)
        requires
            n <= stride,
            size == stride * n * 4 || size == stride * stride * 4,
            cells == size / 4,
    ;
    let mut buffer = filled(Distance::Infinite, cells);
    let mut i: usize = 0;
    while i < n
        invariant
            i <= n <= stride,
            n * stride <= cells,
            buffer@.len() == cells,
            forall|p: int|
                0 <= p < cells ==> #[trigger] buffer@[p] == if is_logical(p, n as nat, stride as nat)
                    && p / (stride as int) == p % (stride as int) && p / (stride as int) < i {
                    Distance::Finite(0)
                } else {
                    Distance::Infinite
                },
        decreases n - i,
    {
        proof {
            lemma_offset(i as int, i as int, n as int, stride as int);
        }
        let ghost previous = buffer@;
        buffer.set(i * stride + i, Distance::Finite(0));
        proof {
            assert forall|p: int| 0 <= p < cells implies #[trigger] buffer@[p] == if is_logical(
                p,
                n as nat,
                stride as nat,
            ) && p / (stride as int) == p % (stride as int) && p / (stride as int) < i + 1 {
                Distance::Finite(0)
            } else {
                Distance::Infinite
            } by {
                lemma_position(p, stride as int);
                assert(previous[p] == if is_logical(p, n as nat, stride as nat) && p / (
                stride as int) == p % (stride as int) && p / (stride as int) < i {
                    Distance::Finite(0)
                } else {
                    Distance::Infinite
                });
            }
        }
        i += 1;
    }
    let mut e: usize = 0;
    while e < edges.len()
        invariant
            e <= edges@.len(),
            n <= stride,
            n * stride <= cells,
            buffer@.len() == cells,
            in_range(edges@, n as nat),
            forall|p: int|
                0 <= p < cells ==> #[trigger] buffer@[p] == staged_cell(
                    edges@,
                    n as nat,
                    stride as nat,
                    e as int,
                    p,
                ),
        decreases edges@.len() - e,
    {
        let (u, v) = edges[e];
        let ghost previous = buffer@;
        proof {
            lemma_offset(u as int, v as int, n as int, stride as int);
            lemma_offset(v as int, u as int, n as int, stride as int);
        }
        buffer.set(u * stride + v, Distance::Finite(1));
        buffer.set(v * stride + u, Distance::Finite(1));
        proof {
            assert forall|p: int| 0 <= p < cells implies #[trigger] buffer@[p] == staged_cell(
                edges@,
                n as nat,
                stride as nat,
                e + 1,
                p,
            ) by {
                lemma_position(p, stride as int);
                let r = p / (stride as int);
                let c = p % (stride as int);
                assert(previous[p] == staged_cell(edges@, n as nat, stride as nat, e as int, p));
                assert(joined_among(edges@, e + 1, r, c) <==> joined_among(edges@, e as int, r, c)
                    || joins(edges@[e as int], r, c));
            }
        }
        e += 1;
    }
    proof {
        assert(buffer@ =~= staged(edges@, n as nat, stride as nat, cells as nat));
        lemma_staged_holds_seed(edges@, n as nat, stride as nat, cells as nat);
    }
    Ok(buffer)
}

/// Whatever the stride and the capacity, the staged buffer holds the seed
/// matrix: padding changes where a cell lies, never what it is.
pub proof fn lemma_staged_holds_seed(edges: Edges, n: nat, stride: nat, cells: nat)
    requires
        n <= stride,
        n * stride <= cells,
    ensures
        logical(staged(edges, n, stride, cells), n, stride) == seed(edges, n),
{
    let buffer = staged(edges, n, stride, cells);
    let held = logical(buffer, n, stride);
    assert forall|i: int, j: int| 0 <= i < n && 0 <= j < n implies #[trigger] held[i][j]
        == seed_cell(edges, i, j) by {
        lemma_offset(i, j, n as int, stride as int);
    }
    assert(held =~~= seed(edges, n));
}

/// A buffer has room for `n` rows of `stride` cells, `n` of them logical.
pub open spec fn holds_rows(cells: nat, n: nat, stride: nat) -> bool {
    n <= stride && n * stride <= cells
}

/// Reads the logical matrix out of a buffer that was read back: the `n`×`n`
/// cells in row-major order, re-indexed by the row stride they were staged
/// and dispatched with, the padding left behind. A buffer without room for
/// `n` rows at that stride is refused.
pub fn unpad(buffer: &Vec<Distance>, n: usize, stride: usize) -> (result: Result<Vec<Distance>, Error>)
    ensures
        match result {
            Ok(cells) => {
                &&& holds_rows(buffer@.len(), n as nat, stride as nat)
                &&& cells@.len() == n * n
                &&& logical(cells@, n as nat, n as nat) == logical(buffer@, n as nat, stride as nat)
            },
            Err(error) => {
                &&& error == Error::CapacityMismatch
                &&& !holds_rows(buffer@.len(), n as nat, stride as nat)
            },
        },
{
    let capacity = buffer.len();
    if n > stride {
        return Err(Error::CapacityMismatch);
    }
    match n.checked_mul(stride) {
        Some(needed) => {
            if needed > capacity {
                return Err(Error::CapacityMismatch);
            }
        },
        None => {
            return Err(Error::CapacityMismatch);
        },
    }
    let mut cells: Vec<Distance> = Vec::new();
    let mut i: usize = 0;
    while i < n
        invariant
            i <= n <= stride,
            n * stride <= buffer.len(),
            cells@.len() == i * n,
            forall|r: int, c: int|
                0 <= r < i && 0 <= c < n ==> cells@[#[trigger] offset(r, c, n as int)]
                    == buffer@[offset(r, c, stride as int)],
        decreases n - i,
    {
        let mut j: usize = 0;
        while j < n
            invariant
                i < n <= stride,
                j <= n,
                n * stride <= buffer.len(),
                cells@.len() == i * n + j,
                forall|r: int, c: int|
                    0 <= r < n && 0 <= c < n && (r < i || (r == i && c < j)) ==> cells@[#[trigger] offset(
                        r,
                        c,
                        n as int,
                    )] == buffer@[offset(r, c, stride as int)],
            decreases n - j,
        {
            proof {
                lemma_offset(i as int, j as int, n as int, stride as int);
            }
            let ghost previous = cells@;
            cells.push(buffer[i * stride + j]);
            proof {
                assert forall|r: int, c: int|
                    0 <= r < n && 0 <= c < n && (r < i || (r == i && c < j + 1)) implies cells@[#[trigger] offset(
                    r,
                    c,
                    n as int,
                )] == buffer@[offset(r, c, stride as int)] by {
                    lemma_offset(r, c, n as int, n as int);
                    if r < i {
                        assert(offset(r, c, n as int) < i * n) by (nonlinear_arith)
                            requires
                                r + 1 <= i,
                                0 <= c < n,
                                offset(r, c, n as int) == r * n + c,
                        ;
                    }
                    if !(r == i && c == j) {
                        assert(cells@[offset(r, c, n as int)] == previous[offset(r, c, n as int)]);
                    }
                }
            }
            j += 1;
        }
        assert((i + 1) * n == i * n + n) by (nonlinear_arith);
        i += 1;
    }
    proof {
        let held = logical(cells@, n as nat, n as nat);
        let wanted = logical(buffer@, n as nat, stride as nat);
        assert(held =~~= wanted);
    }
    Ok(cells)
}

} // verus!
