//! Square matrices over the min-plus semiring, their layout in flat buffers
//! with a padded row stride, and the two products the engines are built on.
use vstd::prelude::*;
use crate::distance::Distance;

verus! {

/// A matrix as a sequence of rows.
pub type Matrix = Seq<Seq<Distance>>;

/// `m` has `n` rows of `n` cells.
pub open spec fn is_square(m: Matrix, n: nat) -> bool {
    &&& m.len() == n
    &&& forall|i: int| 0 <= i < n ==> (#[trigger] m[i]).len() == n
}

/// Position of cell `(i, j)` in a flat buffer with row stride `stride`.
pub open spec fn offset(i: int, j: int, stride: int) -> int {
    i * stride + j
}

/// Whether position `p` of a flat buffer holds a cell of the logical
/// `n`×`n` matrix; every other position is padding.
pub open spec fn is_logical(p: int, n: nat, stride: nat) -> bool {
    0 <= p && stride > 0 && p / (stride as int) < n && p % (stride as int) < n
}

/// The logical `n`×`n` matrix that a flat buffer with row stride `stride`
/// holds: cell `(i, j)` is the buffer's entry `i * stride + j`.
pub open spec fn logical(buffer: Seq<Distance>, n: nat, stride: nat) -> Matrix {
    Seq::new(n, |i: int| Seq::new(n, |j: int| buffer[offset(i, j, stride as int)]))
}

/// Two buffers of one length agree on every padding position.
pub open spec fn same_padding(a: Seq<Distance>, b: Seq<Distance>, n: nat, stride: nat) -> bool {
    &&& a.len() == b.len()
    &&& forall|p: int| 0 <= p < a.len() && !is_logical(p, n, stride) ==> a[p] == b[p]
}

/// The least of `a[i][m] + b[m][j]` over the contraction indices `m < count`;
/// `Infinite` when there is none.
pub open spec fn contraction(a: Matrix, b: Matrix, i: int, j: int, count: nat) -> Distance
    decreases count,
{
    if count == 0 {
        Distance::Infinite
    } else {
        contraction(a, b, i, j, (count - 1) as nat).min(a[i][count - 1].plus(b[count - 1][j]))
    }
}

/// The min-plus product of two square matrices of one dimension.
pub open spec fn product(a: Matrix, b: Matrix) -> Matrix {
    Seq::new(a.len(), |i: int| Seq::new(a.len(), |j: int| contraction(a, b, i, j, a.len())))
}

/// `m` after `rounds` self-multiplications: the min-plus power `m^(2^rounds)`.
pub open spec fn squared(m: Matrix, rounds: nat) -> Matrix
    decreases rounds,
{
    if rounds == 0 {
        m
    } else {
        product(squared(m, (rounds - 1) as nat), squared(m, (rounds - 1) as nat))
    }
}

/// One relaxation through vertex `k`: every cell `(i, j)` becomes the smaller
/// of itself and `m[i][k] + m[k][j]`, all read from `m` as it was before.
pub open spec fn relaxed(m: Matrix, k: int) -> Matrix {
    Seq::new(m.len(), |i: int| Seq::new(m.len(), |j: int| m[i][j].min(m[i][k].plus(m[k][j]))))
}

/// `m` after the relaxations through the vertices `0, 1, .., count - 1` in turn.
pub open spec fn relaxed_through(m: Matrix, count: nat) -> Matrix
    decreases count,
{
    if count == 0 {
        m
    } else {
        relaxed(relaxed_through(m, (count - 1) as nat), count - 1)
    }
}

/// Cell `(i, j)` of a matrix with `rows` rows lies inside its buffer, and
/// its position determines `i` and `j`.
pub proof fn lemma_offset(i: int, j: int, rows: int, stride: int)
    requires
        0 <= i < rows,
        0 <= j < stride,
    ensures
        0 <= offset(i, j, stride) < rows * stride,
        offset(i, j, stride) / stride == i,
        offset(i, j, stride) % stride == j,
{
    assert(i * stride >= 0) by (nonlinear_arith)
        requires
            i >= 0,
            stride > 0,
    ;
    assert(i * stride + stride <= rows * stride) by (nonlinear_arith)
        requires
            i + 1 <= rows,
            stride > 0,
    ;
    vstd::arithmetic::div_mod::lemma_fundamental_div_mod_converse(
        offset(i, j, stride),
        stride,
        i,
        j,
    );
}

/// A position is the offset of its own row and column.
pub proof fn lemma_position(p: int, stride: int)
    requires
        0 <= p,
        0 < stride,
    ensures
        p == offset(p / stride, p % stride, stride),
        0 <= p / stride,
        0 <= p % stride < stride,
{
    vstd::arithmetic::div_mod::lemma_fundamental_div_mod(p, stride);
    vstd::arithmetic::div_mod::lemma_mod_bound(p, stride);
    vstd::arithmetic::div_mod::lemma_div_pos_is_pos(p, stride);
    vstd::arithmetic::mul::lemma_mul_is_commutative(stride, p / stride);
}

/// A contraction is a lower bound of each of its terms.
pub proof fn lemma_contraction_below_term(a: Matrix, b: Matrix, i: int, j: int, count: nat, m: int)
    requires
        0 <= m < count,
    ensures
        contraction(a, b, i, j, count).le(a[i][m].plus(b[m][j])),
    decreases count,
{
    if m < count - 1 {
        lemma_contraction_below_term(a, b, i, j, (count - 1) as nat, m);
    }
}

/// A finite contraction is one of its terms.
pub proof fn lemma_contraction_is_term(a: Matrix, b: Matrix, i: int, j: int, count: nat) -> (m: int)
    requires
        contraction(a, b, i, j, count) is Finite,
    ensures
        0 <= m < count,
        contraction(a, b, i, j, count) == a[i][m].plus(b[m][j]),
    decreases count,
{
    let rest = contraction(a, b, i, j, (count - 1) as nat);
    if contraction(a, b, i, j, count) == a[i][count - 1].plus(b[count - 1][j]) {
        count - 1
    } else {
        lemma_contraction_is_term(a, b, i, j, (count - 1) as nat)
    }
}

/// The product of square matrices is square, and so are a matrix's powers
/// and relaxations.
pub proof fn lemma_square(m: Matrix, n: nat, count: nat, k: int)
    requires
        is_square(m, n),
    ensures
        is_square(product(m, m), n),
        is_square(relaxed(m, k), n),
        is_square(squared(m, count), n),
        is_square(relaxed_through(m, count), n),
    decreases count,
{
    if count > 0 {
        lemma_square(m, n, (count - 1) as nat, k);
        lemma_square(squared(m, (count - 1) as nat), n, 0, k);
        lemma_square(relaxed_through(m, (count - 1) as nat), n, 0, count - 1);
    }
}

} // verus!
