//! The kernels' dispatches, executed on the host on flat buffers: what a
//! dispatch of each kernel on a device has to leave in its output.
use vstd::prelude::*;
use crate::buffer::filled;
use crate::distance::{lemma_min_associative, Distance};
use crate::kernel::{ceil_div, lemma_workgroups_least_cover, padded};
use crate::matrix::{
    contraction, is_logical, lemma_offset, lemma_position, logical, offset, product, relaxed,
    same_padding, Matrix,
};

verus! {

/// Which logical cells a row-major sweep has passed when it stands at `(i, j)`.
pub open spec fn swept(p: int, n: nat, stride: nat, i: int, j: int) -> bool {
    &&& is_logical(p, n, stride)
    &&& (p / (stride as int) < i || (p / (stride as int) == i && p % (stride as int) < j))
}

/// One naive min-plus dispatch: every logical cell `(i, j)` of `output`
/// becomes the least of `input[i][m] + input[m][j]` over all `m < n`, read
/// straight from `input`. Padding positions of `output` are left alone.
pub fn tropical_product(input: &Vec<Distance>, output: &mut Vec<Distance>, n: usize, stride: usize)
    requires
        n <= stride,
        n * stride <= input.len(),
        input.len() == old(output).len(),
    ensures
        logical(final(output)@, n as nat, stride as nat) == product(
            logical(input@, n as nat, stride as nat),
            logical(input@, n as nat, stride as nat),
        ),
        same_padding(final(output)@, old(output)@, n as nat, stride as nat),
{
    let ghost a = logical(input@, n as nat, stride as nat);
    let ghost before = output@;
    let mut i: usize = 0;
    while i < n
        invariant
            i <= n <= stride,
            n * stride <= input.len(),
            input.len() == output.len(),
            output.len() == before.len(),
            a == logical(input@, n as nat, stride as nat),
            forall|p: int|
                0 <= p < output.len() ==> #[trigger] output@[p] == if swept(
                    p,
                    n as nat,
                    stride as nat,
                    i as int,
                    0,
                ) {
                    contraction(a, a, p / (stride as int), p % (stride as int), n as nat)
                } else {
                    before[p]
                },
        decreases n - i,
    {
        let mut j: usize = 0;
        while j < n
            invariant
                i < n <= stride,
                j <= n,
                n * stride <= input.len(),
                input.len() == output.len(),
                output.len() == before.len(),
                a == logical(input@, n as nat, stride as nat),
                forall|p: int|
                    0 <= p < output.len() ==> #[trigger] output@[p] == if swept(
                        p,
                        n as nat,
                        stride as nat,
                        i as int,
                        j as int,
                    ) {
                        contraction(a, a, p / (stride as int), p % (stride as int), n as nat)
                    } else {
                        before[p]
                    },
            decreases n - j,
        {
            let mut least = Distance::Infinite;
            let mut m: usize = 0;
            while m < n
                invariant
                    i < n <= stride,
                    j < n,
                    m <= n,
                    n * stride <= input.len(),
                    a == logical(input@, n as nat, stride as nat),
                    least == contraction(a, a, i as int, j as int, m as nat),
                decreases n - m,
            {
                proof {
                    lemma_offset(i as int, m as int, n as int, stride as int);
                    lemma_offset(m as int, j as int, n as int, stride as int);
                }
                let left = input[i * stride + m];
                let right = input[m * stride + j];
                least = least.min(left.plus(right));
                m += 1;
            }
            proof {
                lemma_offset(i as int, j as int, n as int, stride as int);
            }
            let ghost previous = output@;
            output.set(i * stride + j, least);
            proof {
                assert forall|p: int| 0 <= p < output.len() implies #[trigger] output@[p] == if swept(
                    p,
                    n as nat,
                    stride as nat,
                    i as int,
                    j + 1,
                ) {
                    contraction(a, a, p / (stride as int), p % (stride as int), n as nat)
                } else {
                    before[p]
                } by {
                    lemma_position(p, stride as int);
                    assert(previous[p] == if swept(p, n as nat, stride as nat, i as int, j as int) {
                        contraction(a, a, p / (stride as int), p % (stride as int), n as nat)
                    } else {
                        before[p]
                    });
                }
            }
            j += 1;
        }
        i += 1;
    }
    proof {
        let result = logical(output@, n as nat, stride as nat);
        assert forall|r: int, c: int| 0 <= r < n && 0 <= c < n implies #[trigger] result[r][c]
            == contraction(a, a, r, c, n as nat) by {
            lemma_offset(r, c, n as int, stride as int);
        }
        assert(result =~~= product(a, a));
    }
}

/// What a relaxation through `k` leaves at position `p` of a buffer that held
/// the matrix `a`: the smaller of the cell and the detour through `k`.
pub open spec fn relaxed_cell(a: Matrix, p: int, stride: nat, k: int) -> Distance {
    let r = p / (stride as int);
    let c = p % (stride as int);
    a[r][c].min(a[r][k].plus(a[k][c]))
}

/// One relaxation dispatch, in place: every logical cell `(i, j)` becomes the
/// smaller of itself and `buffer[i][k] + buffer[k][j]`, as row and column `k`
/// stood when the dispatch began. Padding positions are left alone.
pub fn relax(buffer: &mut Vec<Distance>, n: usize, stride: usize, k: usize)
    requires
        k < n <= stride,
        n * stride <= old(buffer).len(),
    ensures
        logical(final(buffer)@, n as nat, stride as nat) == relaxed(
            logical(old(buffer)@, n as nat, stride as nat),
            k as int,
        ),
        same_padding(final(buffer)@, old(buffer)@, n as nat, stride as nat),
{
    let ghost before = buffer@;
    let ghost a = logical(before, n as nat, stride as nat);
    let mut i: usize = 0;
    while i < n
        invariant
            i <= n <= stride,
            k < n,
            n * stride <= buffer.len(),
            buffer.len() == before.len(),
            a == logical(before, n as nat, stride as nat),
            forall|p: int|
                0 <= p < buffer.len() ==> #[trigger] buffer@[p] == if swept(
                    p,
                    n as nat,
                    stride as nat,
                    i as int,
                    0,
                ) {
                    relaxed_cell(a, p, stride as nat, k as int)
                } else {
                    before[p]
                },
        decreases n - i,
    {
        let mut j: usize = 0;
        while j < n
            invariant
                i < n <= stride,
                j <= n,
                k < n,
                n * stride <= buffer.len(),
                buffer.len() == before.len(),
                a == logical(before, n as nat, stride as nat),
                forall|p: int|
                    0 <= p < buffer.len() ==> #[trigger] buffer@[p] == if swept(
                        p,
                        n as nat,
                        stride as nat,
                        i as int,
                        j as int,
                    ) {
                        relaxed_cell(a, p, stride as nat, k as int)
                    } else {
                        before[p]
                    },
            decreases n - j,
        {
            proof {
                lemma_offset(i as int, j as int, n as int, stride as int);
                lemma_offset(i as int, k as int, n as int, stride as int);
                lemma_offset(k as int, j as int, n as int, stride as int);
                lemma_offset(k as int, k as int, n as int, stride as int);
            }
            let ghost previous = buffer@;
            let left = buffer[i * stride + k];
            let right = buffer[k * stride + j];
            let current = buffer[i * stride + j];
            assert(left == a[i as int][k as int]);
            assert(right == a[k as int][j as int]);
            assert(current == a[i as int][j as int]);
            let detour = left.plus(right);
            if detour.less_than(current) {
                buffer.set(i * stride + j, detour);
            }
            proof {
                assert forall|p: int| 0 <= p < buffer.len() implies #[trigger] buffer@[p] == if swept(
                    p,
                    n as nat,
                    stride as nat,
                    i as int,
                    j + 1,
                ) {
                    relaxed_cell(a, p, stride as nat, k as int)
                } else {
                    before[p]
                } by {
                    lemma_position(p, stride as int);
                    assert(previous[p] == if swept(p, n as nat, stride as nat, i as int, j as int) {
                        relaxed_cell(a, p, stride as nat, k as int)
                    } else {
                        before[p]
                    });
                }
            }
            j += 1;
        }
        i += 1;
    }
    proof {
        let result = logical(buffer@, n as nat, stride as nat);
        assert forall|r: int, c: int| 0 <= r < n && 0 <= c < n implies #[trigger] result[r][c]
            == a[r][c].min(a[r][k as int].plus(a[k as int][c])) by {
            lemma_offset(r, c, n as int, stride as int);
        }
        assert(result =~~= relaxed(a, k as int));
    }
}

/// A device-side buffer-to-buffer copy on the host: `target` takes every
/// entry of `source`.
pub fn copy_buffer(source: &Vec<Distance>, target: &mut Vec<Distance>)
    requires
        source.len() == old(target).len(),
    ensures
        final(target)@ == source@,
{
    let mut p: usize = 0;
    while p < source.len()
        invariant
            p <= source.len(),
            source.len() == target.len(),
            forall|q: int| 0 <= q < p ==> target@[q] == source@[q],
        decreases source.len() - p,
    {
        target.set(p, source[p]);
        p += 1;
    }
    assert(target@ =~= source@);
}

/// The `tile`×`tile` block of `a` whose corner is `(row, col)`, with
/// `Infinite` wherever the block reaches past the matrix.
pub open spec fn tile_of(a: Matrix, n: nat, row: int, col: int, tile: nat) -> Matrix {
    Seq::new(
        tile,
        |y: int|
            Seq::new(
                tile,
                |x: int|
                    if row + y < n && col + x < n {
                        a[row + y][col + x]
                    } else {
                        Distance::Infinite
                    },
            ),
    )
}

/// Contracting one tile of the left operand with the matching tile of the
/// right carries the contraction of the whole matrices `count` indices on.
pub proof fn lemma_tile_contraction(
    a: Matrix,
    n: nat,
    i: int,
    j: int,
    row: int,
    col: int,
    base: nat,
    tile: nat,
    count: nat,
)
    requires
        0 <= row <= i < row + tile,
        0 <= col <= j < col + tile,
        i < n,
        j < n,
        count <= tile,
    ensures
        contraction(a, a, i, j, min_nat(base, n)).min(
            contraction(
                tile_of(a, n, row, base as int, tile),
                tile_of(a, n, base as int, col, tile),
                i - row,
                j - col,
                count,
            ),
        ) == contraction(a, a, i, j, min_nat(base + count, n)),
    decreases count,
{
    let left = tile_of(a, n, row, base as int, tile);
    let right = tile_of(a, n, base as int, col, tile);
    let so_far = contraction(a, a, i, j, min_nat(base, n));
    if count == 0 {
        lemma_min_associative(so_far, so_far, so_far);
    } else {
        let before = (count - 1) as nat;
        lemma_tile_contraction(a, n, i, j, row, col, base, tile, before);
        let inner = contraction(left, right, i - row, j - col, before);
        let term = left[i - row][before as int].plus(right[before as int][j - col]);
        lemma_min_associative(so_far, inner, term);
        if base + before < n {
            assert(left[i - row][before as int] == a[i][(base + before) as int]);
            assert(right[before as int][j - col] == a[(base + before) as int][j]);
            assert(min_nat(base + count, n) == base + before + 1);
        } else {
            assert(term == Distance::Infinite);
            lemma_min_associative(so_far.min(inner), so_far, so_far);
        }
    }
}

/// The smaller of two numbers.
pub open spec fn min_nat(a: nat, b: nat) -> nat {
    if a <= b {
        a
    } else {
        b
    }
}

/// Stages one tile of `input` into a buffer of its own, as a workgroup
/// stages it into shared memory: cell `(y, x)` of the tile is the input's
/// cell `(row + y, col + x)`, or `Infinite` past the matrix.
pub fn load_tile(input: &Vec<Distance>, n: usize, stride: usize, row: usize, col: usize, tile: usize) -> (staged:
    Vec<Distance>)
    requires
        tile > 0,
        tile * tile <= usize::MAX,
        row + tile <= usize::MAX,
        col + tile <= usize::MAX,
        n <= stride,
        n * stride <= input.len(),
    ensures
        staged@.len() == tile * tile,
        logical(staged@, tile as nat, tile as nat) == tile_of(
            logical(input@, n as nat, stride as nat),
            n as nat,
            row as int,
            col as int,
            tile as nat,
        ),
{
    let ghost a = logical(input@, n as nat, stride as nat);
    let mut staged = filled(Distance::Infinite, tile * tile);
    let mut y: usize = 0;
    while y < tile
        invariant
            y <= tile,
            tile > 0,
            tile * tile <= usize::MAX,
            row + tile <= usize::MAX,
            col + tile <= usize::MAX,
            n <= stride,
            n * stride <= input.len(),
            staged@.len() == tile * tile,
            a == logical(input@, n as nat, stride as nat),
            forall|q: int|
                0 <= q < tile * tile ==> #[trigger] staged@[q] == if swept(
                    q,
                    tile as nat,
                    tile as nat,
                    y as int,
                    0,
                ) && row + q / (tile as int) < n && col + q % (tile as int) < n {
                    a[row + q / (tile as int)][col + q % (tile as int)]
                } else {
                    Distance::Infinite
                },
        decreases tile - y,
    {
        let mut x: usize = 0;
        while x < tile
            invariant
                y < tile,
                x <= tile,
                tile > 0,
                tile * tile <= usize::MAX,
                row + tile <= usize::MAX,
                col + tile <= usize::MAX,
                n <= stride,
                n * stride <= input.len(),
                staged@.len() == tile * tile,
                a == logical(input@, n as nat, stride as nat),
                forall|q: int|
                    0 <= q < tile * tile ==> #[trigger] staged@[q] == if swept(
                        q,
                        tile as nat,
                        tile as nat,
                        y as int,
                        x as int,
                    ) && row + q / (tile as int) < n && col + q % (tile as int) < n {
                        a[row + q / (tile as int)][col + q % (tile as int)]
                    } else {
                        Distance::Infinite
                    },
            decreases tile - x,
        {
            let ghost previous = staged@;
            proof {
                lemma_offset(y as int, x as int, tile as int, tile as int);
            }
            if row + y < n && col + x < n {
                proof {
                    lemma_offset((row + y) as int, (col + x) as int, n as int, stride as int);
                }
                staged.set(y * tile + x, input[(row + y) * stride + (col + x)]);
            }
            proof {
                assert forall|q: int| 0 <= q < tile * tile implies #[trigger] staged@[q] == if swept(
                    q,
                    tile as nat,
                    tile as nat,
                    y as int,
                    x + 1,
                ) && row + q / (tile as int) < n && col + q % (tile as int) < n {
                    a[row + q / (tile as int)][col + q % (tile as int)]
                } else {
                    Distance::Infinite
                } by {
                    lemma_position(q, tile as int);
                    assert(previous[q] == if swept(q, tile as nat, tile as nat, y as int, x as int)
                        && row + q / (tile as int) < n && col + q % (tile as int) < n {
                        a[row + q / (tile as int)][col + q % (tile as int)]
                    } else {
                        Distance::Infinite
                    });
                }
            }
            x += 1;
        }
        y += 1;
    }
    proof {
        let held = logical(staged@, tile as nat, tile as nat);
        let wanted = tile_of(a, n as nat, row as int, col as int, tile as nat);
        assert forall|r: int, c: int| 0 <= r < tile && 0 <= c < tile implies #[trigger] held[r][c]
            == wanted[r][c] by {
            lemma_offset(r, c, tile as int, tile as int);
        }
        assert(held =~~= wanted);
    }
    staged
}

/// Folds one pair of staged tiles into a workgroup's accumulators: cell
/// `(y, x)` becomes the smaller of itself and the least of
/// `left[y][m] + right[m][x]` over the tile's `m`.
pub fn accumulate_tile(totals: &mut Vec<Distance>, left: &Vec<Distance>, right: &Vec<Distance>, tile: usize)
    requires
        tile > 0,
        old(totals).len() == tile * tile,
        left.len() == tile * tile,
        right.len() == tile * tile,
    ensures
        final(totals)@.len() == tile * tile,
        forall|q: int|
            0 <= q < tile * tile ==> #[trigger] final(totals)@[q] == old(totals)@[q].min(
                contraction(
                    logical(left@, tile as nat, tile as nat),
                    logical(right@, tile as nat, tile as nat),
                    q / (tile as int),
                    q % (tile as int),
                    tile as nat,
                ),
            ),
{
    let ghost a = logical(left@, tile as nat, tile as nat);
    let ghost b = logical(right@, tile as nat, tile as nat);
    let ghost before = totals@;
    let mut y: usize = 0;
    while y < tile
        invariant
            y <= tile,
            tile > 0,
            totals@.len() == tile * tile,
            before.len() == tile * tile,
            left.len() == tile * tile,
            right.len() == tile * tile,
            a == logical(left@, tile as nat, tile as nat),
            b == logical(right@, tile as nat, tile as nat),
            forall|q: int|
                0 <= q < tile * tile ==> #[trigger] totals@[q] == if swept(
                    q,
                    tile as nat,
                    tile as nat,
                    y as int,
                    0,
                ) {
                    before[q].min(
                        contraction(a, b, q / (tile as int), q % (tile as int), tile as nat),
                    )
                } else {
                    before[q]
                },
        decreases tile - y,
    {
        let mut x: usize = 0;
        while x < tile
            invariant
                y < tile,
                x <= tile,
                tile > 0,
                totals@.len() == tile * tile,
                before.len() == tile * tile,
                left.len() == tile * tile,
                right.len() == tile * tile,
                a == logical(left@, tile as nat, tile as nat),
                b == logical(right@, tile as nat, tile as nat),
                forall|q: int|
                    0 <= q < tile * tile ==> #[trigger] totals@[q] == if swept(
                        q,
                        tile as nat,
                        tile as nat,
                        y as int,
                        x as int,
                    ) {
                        before[q].min(
                            contraction(a, b, q / (tile as int), q % (tile as int), tile as nat),
                        )
                    } else {
                        before[q]
                    },
            decreases tile - x,
        {
            let mut least = Distance::Infinite;
            let mut m: usize = 0;
            while m < tile
                invariant
                    y < tile,
                    x < tile,
                    m <= tile,
                    left.len() == tile * tile,
                    right.len() == tile * tile,
                    a == logical(left@, tile as nat, tile as nat),
                    b == logical(right@, tile as nat, tile as nat),
                    least == contraction(a, b, y as int, x as int, m as nat),
                decreases tile - m,
            {
                proof {
                    lemma_offset(y as int, m as int, tile as int, tile as int);
                    lemma_offset(m as int, x as int, tile as int, tile as int);
                }
                least = least.min(left[y * tile + m].plus(right[m * tile + x]));
                m += 1;
            }
            proof {
                lemma_offset(y as int, x as int, tile as int, tile as int);
            }
            let ghost previous = totals@;
            let total = totals[y * tile + x];
            totals.set(y * tile + x, total.min(least));
            proof {
                assert forall|q: int| 0 <= q < tile * tile implies #[trigger] totals@[q] == if swept(
                    q,
                    tile as nat,
                    tile as nat,
                    y as int,
                    x + 1,
                ) {
                    before[q].min(
                        contraction(a, b, q / (tile as int), q % (tile as int), tile as nat),
                    )
                } else {
                    before[q]
                } by {
                    lemma_position(q, tile as int);
                    assert(previous[q] == if swept(q, tile as nat, tile as nat, y as int, x as int) {
                        before[q].min(
                            contraction(a, b, q / (tile as int), q % (tile as int), tile as nat),
                        )
                    } else {
                        before[q]
                    });
                }
            }
            x += 1;
        }
        y += 1;
    }
    proof {
        assert forall|q: int| 0 <= q < tile * tile implies #[trigger] totals@[q] == before[q].min(
            contraction(a, b, q / (tile as int), q % (tile as int), tile as nat),
        ) by {
            lemma_position(q, tile as int);
            assert(q / (tile as int) < tile) by (nonlinear_arith)
                requires
                    0 <= q < tile * tile,
                    tile > 0,
                    q == (q / (tile as int)) * tile + q % (tile as int),
                    0 <= q % (tile as int),
            ;
        }
    }
}

/// Whether cell `(r, c)` lies in the tile whose corner is `(row, col)`.
pub open spec fn in_tile(r: int, c: int, row: int, col: int, tile: int) -> bool {
    row <= r < row + tile && col <= c < col + tile
}

/// Writes a workgroup's accumulators to the output's tile at `(row, col)`,
/// as far as the tile lies inside the logical matrix.
pub fn store_tile(
    output: &mut Vec<Distance>,
    totals: &Vec<Distance>,
    n: usize,
    stride: usize,
    row: usize,
    col: usize,
    tile: usize,
)
    requires
        tile > 0,
        totals.len() == tile * tile,
        row + tile <= usize::MAX,
        col + tile <= usize::MAX,
        n <= stride,
        n * stride <= old(output).len(),
    ensures
        final(output)@.len() == old(output)@.len(),
        forall|p: int|
            0 <= p < old(output)@.len() ==> #[trigger] final(output)@[p] == if is_logical(
                p,
                n as nat,
                stride as nat,
            ) && in_tile(
                p / (stride as int),
                p % (stride as int),
                row as int,
                col as int,
                tile as int,
            ) {
                totals@[offset(
                    p / (stride as int) - row,
                    p % (stride as int) - col,
                    tile as int,
                )]
            } else {
                old(output)@[p]
            },
{
    let ghost before = output@;
    let mut y: usize = 0;
    while y < tile
        invariant
            y <= tile,
            tile > 0,
            totals.len() == tile * tile,
            row + tile <= usize::MAX,
            col + tile <= usize::MAX,
            n <= stride,
            n * stride <= output.len(),
            output@.len() == before.len(),
            forall|p: int|
                0 <= p < output@.len() ==> #[trigger] output@[p] == if is_logical(
                    p,
                    n as nat,
                    stride as nat,
                ) && in_tile(
                    p / (stride as int),
                    p % (stride as int),
                    row as int,
                    col as int,
                    tile as int,
                ) && p / (stride as int) < row + y {
                    totals@[offset(
                        p / (stride as int) - row,
                        p % (stride as int) - col,
                        tile as int,
                    )]
                } else {
                    before[p]
                },
        decreases tile - y,
    {
        let mut x: usize = 0;
        while x < tile
            invariant
                y < tile,
                x <= tile,
                tile > 0,
                totals.len() == tile * tile,
                row + tile <= usize::MAX,
                col + tile <= usize::MAX,
                n <= stride,
                n * stride <= output.len(),
                output@.len() == before.len(),
                forall|p: int|
                    0 <= p < output@.len() ==> #[trigger] output@[p] == if is_logical(
                        p,
                        n as nat,
                        stride as nat,
                    ) && in_tile(
                        p / (stride as int),
                        p % (stride as int),
                        row as int,
                        col as int,
                        tile as int,
                    ) && (p / (stride as int) < row + y || (p / (stride as int) == row + y && p % (
                    stride as int) < col + x)) {
                        totals@[offset(
                            p / (stride as int) - row,
                            p % (stride as int) - col,
                            tile as int,
                        )]
                    } else {
                        before[p]
                    },
            decreases tile - x,
        {
            let ghost previous = output@;
            if row + y < n && col + x < n {
                proof {
                    lemma_offset((row + y) as int, (col + x) as int, n as int, stride as int);
                    lemma_offset(y as int, x as int, tile as int, tile as int);
                }
                output.set((row + y) * stride + (col + x), totals[y * tile + x]);
            }
            proof {
                assert forall|p: int| 0 <= p < output@.len() implies #[trigger] output@[p] == if is_logical(
                    p,
                    n as nat,
                    stride as nat,
                ) && in_tile(
                    p / (stride as int),
                    p % (stride as int),
                    row as int,
                    col as int,
                    tile as int,
                ) && (p / (stride as int) < row + y || (p / (stride as int) == row + y && p % (
                stride as int) < col + x + 1)) {
                    totals@[offset(
                        p / (stride as int) - row,
                        p % (stride as int) - col,
                        tile as int,
                    )]
                } else {
                    before[p]
                } by {
                    if stride > 0 {
                        lemma_position(p, stride as int);
                    }
                    assert(previous[p] == if is_logical(p, n as nat, stride as nat) && in_tile(
                        p / (stride as int),
                        p % (stride as int),
                        row as int,
                        col as int,
                        tile as int,
                    ) && (p / (stride as int) < row + y || (p / (stride as int) == row + y && p % (
                    stride as int) < col + x)) {
                        totals@[offset(
                            p / (stride as int) - row,
                            p % (stride as int) - col,
                            tile as int,
                        )]
                    } else {
                        before[p]
                    });
                }
            }
            x += 1;
        }
        y += 1;
    }
}

/// Which logical cells a sweep by tiles has passed when it stands at the
/// tile whose corner is `(row, col)`.
pub open spec fn swept_tiles(p: int, n: nat, stride: nat, row: int, col: int, tile: int) -> bool {
    &&& is_logical(p, n, stride)
    &&& (p / (stride as int) < row || (p / (stride as int) < row + tile && p % (stride as int)
        < col))
}

/// The tile after tile `g` ends no later than the last of `groups` tiles.
proof fn lemma_next_tile(g: int, groups: int, tile: int)
    requires
        0 <= g < groups,
        tile > 0,
    ensures
        0 <= g * tile,
        g * tile + tile == (g + 1) * tile,
        (g + 1) * tile <= groups * tile,
{
    assert(0 <= g * tile) by (nonlinear_arith)
        requires
            0 <= g,
            tile > 0,
    ;
    assert(g * tile + tile == (g + 1) * tile) by (nonlinear_arith);
    assert((g + 1) * tile <= groups * tile) by (nonlinear_arith)
        requires
            g + 1 <= groups,
            tile > 0,
    ;
}

/// One tiled min-plus dispatch. The output is cut into `tile`×`tile` blocks,
/// one per workgroup; each workgroup walks the contraction tile by tile,
/// stages the two operand tiles and folds them into its accumulators, then
/// writes its block. The result is that of `tropical_product`.
pub fn tropical_product_tiled(
    input: &Vec<Distance>,
    output: &mut Vec<Distance>,
    n: usize,
    stride: usize,
    tile: usize,
)
    requires
        tile > 0,
        tile * tile <= usize::MAX,
        padded(n as nat, tile as nat) <= stride,
        n * stride <= input.len(),
        input.len() == old(output).len(),
    ensures
        logical(final(output)@, n as nat, stride as nat) == product(
            logical(input@, n as nat, stride as nat),
            logical(input@, n as nat, stride as nat),
        ),
        same_padding(final(output)@, old(output)@, n as nat, stride as nat),
{
    let ghost a = logical(input@, n as nat, stride as nat);
    let ghost before = output@;
    let groups = ceil_div(n, tile);
    proof {
        lemma_workgroups_least_cover(n as nat, tile as nat, 0);
    }
    let mut gi: usize = 0;
    let mut row: usize = 0;
    while gi < groups
        invariant
            gi <= groups,
            row == gi * tile,
            tile > 0,
            tile * tile <= usize::MAX,
            groups * tile <= stride,
            n <= groups * tile,
            n * stride <= input.len(),
            input.len() == output.len(),
            output@.len() == before.len(),
            a == logical(input@, n as nat, stride as nat),
            forall|p: int|
                0 <= p < output@.len() ==> #[trigger] output@[p] == if swept_tiles(
                    p,
                    n as nat,
                    stride as nat,
                    row as int,
                    0,
                    tile as int,
                ) {
                    contraction(a, a, p / (stride as int), p % (stride as int), n as nat)
                } else {
                    before[p]
                },
        decreases groups - gi,
    {
        proof {
            lemma_next_tile(gi as int, groups as int, tile as int);
        }
        let mut gj: usize = 0;
        let mut col: usize = 0;
        while gj < groups
            invariant
                gi < groups,
                gj <= groups,
                row == gi * tile,
                col == gj * tile,
                row + tile <= groups * tile,
                tile > 0,
                tile * tile <= usize::MAX,
                groups * tile <= stride,
                n <= groups * tile,
                n * stride <= input.len(),
                input.len() == output.len(),
                output@.len() == before.len(),
                a == logical(input@, n as nat, stride as nat),
                forall|p: int|
                    0 <= p < output@.len() ==> #[trigger] output@[p] == if swept_tiles(
                        p,
                        n as nat,
                        stride as nat,
                        row as int,
                        col as int,
                        tile as int,
                    ) {
                        contraction(a, a, p / (stride as int), p % (stride as int), n as nat)
                    } else {
                        before[p]
                    },
            decreases groups - gj,
        {
            proof {
                lemma_next_tile(gj as int, groups as int, tile as int);
            }
            let mut totals = filled(Distance::Infinite, tile * tile);
            let mut gm: usize = 0;
            let mut base: usize = 0;
            while gm < groups
                invariant
                    gm <= groups,
                    base == gm * tile,
                    row + tile <= groups * tile,
                    col + tile <= groups * tile,
                    tile > 0,
                    tile * tile <= usize::MAX,
                    groups * tile <= stride,
                    n <= groups * tile,
                    n * stride <= input.len(),
                    totals@.len() == tile * tile,
                    a == logical(input@, n as nat, stride as nat),
                    forall|q: int|
                        0 <= q < tile * tile && row + q / (tile as int) < n && col + q % (
                        tile as int) < n ==> #[trigger] totals@[q] == contraction(
                            a,
                            a,
                            row + q / (tile as int),
                            col + q % (tile as int),
                            min_nat(base as nat, n as nat),
                        ),
                decreases groups - gm,
            {
                proof {
                    lemma_next_tile(gm as int, groups as int, tile as int);
                }
                let left = load_tile(input, n, stride, row, base, tile);
                let right = load_tile(input, n, stride, base, col, tile);
                let ghost previous = totals@;
                accumulate_tile(&mut totals, &left, &right, tile);
                proof {
                    assert forall|q: int|
                        0 <= q < tile * tile && row + q / (tile as int) < n && col + q % (
                        tile as int) < n implies #[trigger] totals@[q] == contraction(
                        a,
                        a,
                        row + q / (tile as int),
                        col + q % (tile as int),
                        min_nat((base + tile) as nat, n as nat),
                    ) by {
                        lemma_position(q, tile as int);
                        let y = q / (tile as int);
                        let x = q % (tile as int);
                        assert(y < tile) by (nonlinear_arith)
                            requires
                                0 <= q < tile * tile,
                                tile > 0,
                                q == y * tile + x,
                                0 <= x,
                        ;
                        lemma_tile_contraction(
                            a,
                            n as nat,
                            row + y,
                            col + x,
                            row as int,
                            col as int,
                            base as nat,
                            tile as nat,
                            tile as nat,
                        );
                        assert(previous[q] == contraction(
                            a,
                            a,
                            row + y,
                            col + x,
                            min_nat(base as nat, n as nat),
                        ));
                    }
                }
                gm += 1;
                base += tile;
            }
            store_tile(output, &totals, n, stride, row, col, tile);
            proof {
                assert forall|p: int| 0 <= p < output@.len() implies #[trigger] output@[p] == if swept_tiles(
                    p,
                    n as nat,
                    stride as nat,
                    row as int,
                    col + tile,
                    tile as int,
                ) {
                    contraction(a, a, p / (stride as int), p % (stride as int), n as nat)
                } else {
                    before[p]
                } by {
                    let r = p / (stride as int);
                    let c = p % (stride as int);
                    if is_logical(p, n as nat, stride as nat) && in_tile(
                        r,
                        c,
                        row as int,
                        col as int,
                        tile as int,
                    ) {
                        lemma_offset(r - row, c - col, tile as int, tile as int);
                        let q = offset(r - row, c - col, tile as int);
                        assert(totals@[q] == contraction(
                            a,
                            a,
                            row + q / (tile as int),
                            col + q % (tile as int),
                            min_nat(base as nat, n as nat),
                        ));
                    }
                }
            }
            gj += 1;
            col += tile;
        }
        gi += 1;
        row += tile;
    }
    proof {
        let result = logical(output@, n as nat, stride as nat);
        assert forall|r: int, c: int| 0 <= r < n && 0 <= c < n implies #[trigger] result[r][c]
            == contraction(a, a, r, c, n as nat) by {
            lemma_offset(r, c, n as int, stride as int);
        }
        assert(result =~~= product(a, a));
    }
}

} // verus!
