//! What holds of the engines' results on every graph: that the engines
//! agree, and that on a graph without loops they end with the shortest-path
//! distances; what holds of the diagonal, of symmetry and of isolated
//! vertices after every dispatch; that padding is transparent; and how many
//! rounds squaring takes to converge.
use vstd::prelude::*;
use vstd::arithmetic::power2::pow2;
use crate::buffer::{holds_rows, lemma_staged_holds_seed, staged};
use crate::convergence::{
    lemma_relaxation_reaches_shortest, lemma_squaring_reaches_shortest, lemma_squaring_truncates,
    truncated,
};
use crate::distance::Distance;
use crate::graph::{
    isolated, joined, lemma_joined_symmetric, lemma_shortest_length, loop_free, seed,
    shortest_distance, shortest_distances, shortest_length, Edges,
};
use crate::matrix::{
    contraction, is_square, lemma_contraction_below_term, lemma_contraction_is_term, lemma_square,
    logical, product, relaxed, relaxed_through, squared, Matrix,
};
use crate::tropical_matmul::{lemma_pow2_monotonic, lemma_rounds, rounds};

verus! {

/// The engines agree: relaxing the seed through every vertex gives what
/// squaring it `rounds(n)` times gives, whatever the kernel squares with.
/// A loop on a graph of two vertices or more sets them apart, and is left
/// out.
pub proof fn lemma_engines_agree(edges: Edges, n: nat)
    requires
        n <= usize::MAX,
        n <= 1 || loop_free(edges, n),
    ensures
        squared(seed(edges, n), rounds(n)) == relaxed_through(seed(edges, n), n),
{
    let m = seed(edges, n);
    if loop_free(edges, n) {
        lemma_engines_reach_shortest(edges, n);
    } else {
        lemma_rounds(n);
        if n == 1 {
            assert(relaxed_through(m, 1) == relaxed(relaxed_through(m, 0), 0));
            assert(relaxed(m, 0) =~~= m);
        } else {
            assert(relaxed_through(m, 0) =~~= m);
        }
    }
}

/// On a graph without loops both engines end with the matrix of
/// shortest-path distances: the rounds of a run suffice, and so do the
/// relaxations through every vertex.
pub proof fn lemma_engines_reach_shortest(edges: Edges, n: nat)
    requires
        n <= usize::MAX,
        loop_free(edges, n),
    ensures
        squared(seed(edges, n), rounds(n)) == shortest_distances(edges, n),
        relaxed_through(seed(edges, n), n) == shortest_distances(edges, n),
{
    lemma_rounds(n);
    lemma_squaring_reaches_shortest(edges, n, rounds(n));
    lemma_relaxation_reaches_shortest(edges, n);
}

/// `diameter` is the greatest hop count of a shortest walk in the graph.
pub open spec fn is_diameter(edges: Edges, n: nat, diameter: nat) -> bool {
    &&& exists|i: int, j: int|
        0 <= i < n && 0 <= j < n && #[trigger] shortest_length(edges, n, i, j) == Some(diameter)
    &&& forall|i: int, j: int|
        0 <= i < n && 0 <= j < n ==> (#[trigger] shortest_length(edges, n, i, j) matches Some(d)
            ==> d <= diameter)
}

/// Squaring converges in exactly `⌈log2 diameter⌉` rounds: after fewer, some
/// cell still differs from its shortest-path distance; after as many, or
/// more, none does.
pub proof fn lemma_rounds_to_converge(edges: Edges, n: nat, diameter: nat, count: nat)
    requires
        loop_free(edges, n),
        n <= usize::MAX,
        is_diameter(edges, n, diameter),
    ensures
        squared(seed(edges, n), count) == shortest_distances(edges, n) <==> rounds(diameter)
            <= count,
{
    let m = squared(seed(edges, n), count);
    let all = shortest_distances(edges, n);
    lemma_squaring_truncates(edges, n, count);
    lemma_rounds(diameter);
    if rounds(diameter) <= count {
        lemma_pow2_monotonic(rounds(diameter), count);
        assert forall|i: int, j: int| 0 <= i < n && 0 <= j < n implies #[trigger] m[i][j]
            == all[i][j] by {
            lemma_shortest_length(edges, n, i, j);
            assert(m[i][j] == truncated(shortest_distance(edges, n, i, j), pow2(count)));
        }
        assert(m =~~= all);
    } else {
        lemma_pow2_monotonic(count, (rounds(diameter) - 1) as nat);
        let (i, j) = choose|i: int, j: int|
            0 <= i < n && 0 <= j < n && #[trigger] shortest_length(edges, n, i, j) == Some(
                diameter,
            );
        lemma_shortest_length(edges, n, i, j);
        assert(m[i][j] == truncated(shortest_distance(edges, n, i, j), pow2(count)));
        assert(all[i][j] == shortest_distance(edges, n, i, j));
        assert(m[i][j] != all[i][j]);
    }
}

/// The matrix is zero at `(i, i)`.
pub open spec fn zero_at(m: Matrix, i: int) -> bool {
    m[i][i] == Distance::Finite(0)
}

/// Cells `(i, j)` and `(j, i)` of the matrix are equal, for all `i` and `j`
/// below `n`.
pub open spec fn symmetric(m: Matrix, n: nat) -> bool {
    forall|i: int, j: int| 0 <= i < n && 0 <= j < n ==> #[trigger] m[i][j] == m[j][i]
}

/// Row `v` and column `v` of the matrix are `Infinite` off the diagonal.
pub open spec fn apart(m: Matrix, n: nat, v: int) -> bool {
    forall|j: int|
        0 <= j < n && j != v ==> #[trigger] m[v][j] == Distance::Infinite && m[j][v]
            == Distance::Infinite
}

/// Over a symmetric matrix the contraction for `(i, j)` is that for `(j, i)`.
proof fn lemma_contraction_symmetric(m: Matrix, n: nat, i: int, j: int, count: nat)
    requires
        symmetric(m, n),
        0 <= i < n,
        0 <= j < n,
        count <= n,
    ensures
        contraction(m, m, i, j, count) == contraction(m, m, j, i, count),
    decreases count,
{
    if count > 0 {
        lemma_contraction_symmetric(m, n, i, j, (count - 1) as nat);
        assert(m[i][count - 1] == m[count - 1][i]);
        assert(m[count - 1][j] == m[j][count - 1]);
    }
}

/// A zero on the diagonal, symmetry, and a vertex kept apart each survive
/// one self-multiplication and one relaxation.
proof fn lemma_kept_by_a_dispatch(m: Matrix, n: nat, i: int, v: int, k: int)
    requires
        is_square(m, n),
        0 <= i < n,
        0 <= v < n,
        0 <= k < n,
    ensures
        zero_at(m, i) ==> zero_at(product(m, m), i) && zero_at(relaxed(m, k), i),
        symmetric(m, n) ==> symmetric(product(m, m), n) && symmetric(relaxed(m, k), n),
        apart(m, n, v) ==> apart(product(m, m), n, v) && apart(relaxed(m, k), n, v),
{
    let next = product(m, m);
    let eased = relaxed(m, k);
    if zero_at(m, i) {
        lemma_contraction_below_term(m, m, i, i, n, i);
    }
    if symmetric(m, n) {
        assert forall|a: int, b: int| 0 <= a < n && 0 <= b < n implies #[trigger] next[a][b]
            == next[b][a] by {
            lemma_contraction_symmetric(m, n, a, b, n);
        }
        assert forall|a: int, b: int| 0 <= a < n && 0 <= b < n implies #[trigger] eased[a][b]
            == eased[b][a] by {
            assert(m[a][b] == m[b][a]);
            assert(m[a][k] == m[k][a]);
            assert(m[k][b] == m[b][k]);
        }
    }
    if apart(m, n, v) {
        assert forall|j: int| 0 <= j < n && j != v implies #[trigger] next[v][j]
            == Distance::Infinite && next[j][v] == Distance::Infinite by {
            if next[v][j] is Finite {
                let t = lemma_contraction_is_term(m, m, v, j, n);
                assert(m[v][t] == Distance::Infinite || m[t][j] == Distance::Infinite) by {
                    if t == v {
                        assert(m[v][j] == Distance::Infinite);
                    } else {
                        assert(m[v][t] == Distance::Infinite);
                    }
                }
            }
            if next[j][v] is Finite {
                let t = lemma_contraction_is_term(m, m, j, v, n);
                assert(m[j][t] == Distance::Infinite || m[t][v] == Distance::Infinite) by {
                    if t == v {
                        assert(m[v][j] == Distance::Infinite);
                    } else {
                        assert(m[v][t] == Distance::Infinite);
                    }
                }
            }
        }
        assert forall|j: int| 0 <= j < n && j != v implies #[trigger] eased[v][j]
            == Distance::Infinite && eased[j][v] == Distance::Infinite by {
            assert(m[v][j] == Distance::Infinite);
            if k != v {
                assert(m[v][k] == Distance::Infinite);
            }
        }
    }
}

/// What the seed has of the three, every round of squaring and every
/// relaxation keeps.
proof fn lemma_kept_throughout(m: Matrix, n: nat, i: int, v: int, count: nat)
    requires
        is_square(m, n),
        0 <= i < n,
        0 <= v < n,
    ensures
        zero_at(m, i) ==> zero_at(squared(m, count), i),
        symmetric(m, n) ==> symmetric(squared(m, count), n),
        apart(m, n, v) ==> apart(squared(m, count), n, v),
        count <= n && zero_at(m, i) ==> zero_at(relaxed_through(m, count), i),
        count <= n && symmetric(m, n) ==> symmetric(relaxed_through(m, count), n),
        count <= n && apart(m, n, v) ==> apart(relaxed_through(m, count), n, v),
    decreases count,
{
    if count > 0 {
        let before = (count - 1) as nat;
        lemma_kept_throughout(m, n, i, v, before);
        lemma_square(m, n, before, 0);
        lemma_kept_by_a_dispatch(squared(m, before), n, i, v, 0);
        if count <= n {
            lemma_kept_by_a_dispatch(relaxed_through(m, before), n, i, v, count - 1);
        }
    }
}

/// The diagonal is zero at every vertex without a loop: after any number of
/// rounds of squaring, and after any number of relaxations. At a vertex
/// with a loop the seed holds a one, which no engine takes back.
pub proof fn lemma_diagonal_is_zero(edges: Edges, n: nat, i: int, count: nat)
    requires
        0 <= i < n,
        !joined(edges, i, i),
    ensures
        squared(seed(edges, n), count)[i][i] == Distance::Finite(0),
        count <= n ==> relaxed_through(seed(edges, n), count)[i][i] == Distance::Finite(0),
{
    lemma_kept_throughout(seed(edges, n), n, i, i, count);
}

/// The result is symmetric: after any number of rounds of squaring, and
/// after any number of relaxations.
pub proof fn lemma_result_is_symmetric(edges: Edges, n: nat, i: int, j: int, count: nat)
    requires
        0 <= i < n,
        0 <= j < n,
    ensures
        squared(seed(edges, n), count)[i][j] == squared(seed(edges, n), count)[j][i],
        count <= n ==> relaxed_through(seed(edges, n), count)[i][j] == relaxed_through(
            seed(edges, n),
            count,
        )[j][i],
{
    let m = seed(edges, n);
    assert forall|a: int, b: int| 0 <= a < n && 0 <= b < n implies #[trigger] m[a][b]
        == m[b][a] by {
        if joined(edges, a, b) {
            lemma_joined_symmetric(edges, a, b);
        }
        if joined(edges, b, a) {
            lemma_joined_symmetric(edges, b, a);
        }
    }
    lemma_kept_throughout(m, n, i, i, count);
    assert(squared(m, count)[i][j] == squared(m, count)[j][i]);
    if count <= n {
        assert(relaxed_through(m, count)[i][j] == relaxed_through(m, count)[j][i]);
    }
}

/// An isolated vertex stays at infinite distance from every other vertex,
/// and every other vertex from it: after any number of rounds of squaring,
/// and after any number of relaxations.
pub proof fn lemma_isolated_is_unreached(edges: Edges, n: nat, v: int, j: int, count: nat)
    requires
        0 <= v < n,
        0 <= j < n,
        j != v,
        isolated(edges, v),
    ensures
        squared(seed(edges, n), count)[v][j] == Distance::Infinite,
        squared(seed(edges, n), count)[j][v] == Distance::Infinite,
        count <= n ==> relaxed_through(seed(edges, n), count)[v][j] == Distance::Infinite,
        count <= n ==> relaxed_through(seed(edges, n), count)[j][v] == Distance::Infinite,
{
    let m = seed(edges, n);
    assert forall|u: int| 0 <= u < n && u != v implies #[trigger] m[v][u] == Distance::Infinite
        && m[u][v] == Distance::Infinite by {
        if joined(edges, u, v) {
            lemma_joined_symmetric(edges, u, v);
        }
    }
    lemma_kept_throughout(m, n, v, v, count);
    assert(squared(m, count)[v][j] == Distance::Infinite);
    if count <= n {
        assert(relaxed_through(m, count)[v][j] == Distance::Infinite);
    }
}

/// Padding is transparent: staged at any two strides, a graph gives buffers
/// that hold the same logical matrix, and so do runs on them.
pub proof fn lemma_padding_is_transparent(
    edges: Edges,
    n: nat,
    stride: nat,
    cells: nat,
    other_stride: nat,
    other_cells: nat,
    count: nat,
)
    requires
        holds_rows(cells, n, stride),
        holds_rows(other_cells, n, other_stride),
    ensures
        logical(staged(edges, n, stride, cells), n, stride) == logical(
            staged(edges, n, other_stride, other_cells),
            n,
            other_stride,
        ),
        squared(logical(staged(edges, n, stride, cells), n, stride), count) == squared(
            logical(staged(edges, n, other_stride, other_cells), n, other_stride),
            count,
        ),
        relaxed_through(logical(staged(edges, n, stride, cells), n, stride), count)
            == relaxed_through(
            logical(staged(edges, n, other_stride, other_cells), n, other_stride),
            count,
        ),
{
    lemma_staged_holds_seed(edges, n, stride, cells);
    lemma_staged_holds_seed(edges, n, other_stride, other_cells);
}

} // verus!
