//! Why the engines are right: what the seed matrix holds, what one
//! relaxation and one self-multiplication add to it, and when the result
//! is the matrix of shortest-path distances.
use vstd::prelude::*;
use vstd::arithmetic::power2::{lemma2_to64, lemma_pow2_unfold, pow2};
use crate::distance::Distance;
use crate::graph::{
    connected, has_walk, has_walk_below, joined, lemma_join, lemma_least, lemma_raise_bound,
    lemma_shorten, lemma_shortest_distance, lemma_stretch, lemma_stretch_runs,
    lemma_walk_of_none, lemma_walk_of_one, lemma_walk_without_interior, loop_free, runs, seed,
    shortest_distance, shortest_distances, Edges,
};
use crate::matrix::{
    is_square, lemma_contraction_below_term, lemma_contraction_is_term, lemma_square, product,
    relaxed, relaxed_through, squared, Matrix,
};

verus! {

/// Every finite cell `(i, j)` of `m` is the hop count of a walk from `i` to
/// `j` through vertices below `k`.
pub open spec fn sound(edges: Edges, n: nat, m: Matrix, k: int) -> bool {
    forall|i: int, j: int|
        0 <= i < n && 0 <= j < n ==> (#[trigger] m[i][j] matches Distance::Finite(d)
            ==> has_walk_below(edges, n, i, j, d as nat, k))
}

/// Cell `(i, j)` of `m` is at most the hop count of every walk from `i` to
/// `j` through vertices below `k` that has at most `reach` hops and fewer
/// than `n`.
pub open spec fn complete(edges: Edges, n: nat, m: Matrix, k: int, reach: nat) -> bool {
    forall|i: int, j: int, length: nat|
        0 <= i < n && 0 <= j < n && length <= reach && length < n && #[trigger] has_walk_below(
            edges,
            n,
            i,
            j,
            length,
            k,
        ) ==> m[i][j].le(Distance::Finite(length as u64))
}

/// No finite cell of `m` exceeds `reach`.
pub open spec fn capped(n: nat, m: Matrix, reach: nat) -> bool {
    forall|i: int, j: int|
        0 <= i < n && 0 <= j < n ==> (#[trigger] m[i][j] matches Distance::Finite(d) ==> d <= reach)
}

/// A distance cut off at `reach`: itself if it is at most `reach`,
/// `Infinite` if it is longer.
pub open spec fn truncated(distance: Distance, reach: nat) -> Distance {
    match distance {
        Distance::Finite(d) => if d <= reach {
            distance
        } else {
            Distance::Infinite
        },
        Distance::Infinite => Distance::Infinite,
    }
}

/// Whatever graph without loops `staged` is the seed of, `result` is the
/// matrix of its shortest-path distances.
pub open spec fn solves(staged: Matrix, result: Matrix, n: nat) -> bool {
    forall|edges: Edges|
        loop_free(edges, n) && #[trigger] seed(edges, n) == staged ==> result == shortest_distances(
            edges,
            n,
        )
}

/// The seed matrix of a graph without loops holds exactly the walks of at
/// most one hop.
pub proof fn lemma_seed(edges: Edges, n: nat)
    requires
        n <= usize::MAX,
        loop_free(edges, n),
    ensures
        is_square(seed(edges, n), n),
        sound(edges, n, seed(edges, n), 0),
        complete(edges, n, seed(edges, n), 0, n),
        sound(edges, n, seed(edges, n), n as int),
        complete(edges, n, seed(edges, n), n as int, 1),
        capped(n, seed(edges, n), 1),
{
    let m = seed(edges, n);
    assert forall|i: int, j: int| 0 <= i < n && 0 <= j < n implies (#[trigger] m[i][j] matches Distance::Finite(
        d,
    ) ==> has_walk_below(edges, n, i, j, d as nat, 0) && has_walk_below(
        edges,
        n,
        i,
        j,
        d as nat,
        n as int,
    )) by {
        if joined(edges, i, j) {
            lemma_walk_of_one(edges, n, i, j, 0);
            lemma_walk_of_one(edges, n, i, j, n as int);
        } else if i == j {
            lemma_walk_of_none(edges, n, i, 0);
            lemma_walk_of_none(edges, n, i, n as int);
        }
    }
    assert forall|i: int, j: int, length: nat|
        0 <= i < n && 0 <= j < n && length <= n && length < n && #[trigger] has_walk_below(
            edges,
            n,
            i,
            j,
            length,
            0,
        ) implies m[i][j].le(Distance::Finite(length as u64)) by {
        let walk = choose|walk: Seq<int>| runs(edges, n, walk, i, j, length, 0);
        lemma_walk_without_interior(edges, n, walk, i, j, length);
    }
    assert forall|i: int, j: int, length: nat|
        0 <= i < n && 0 <= j < n && length <= 1 && length < n && #[trigger] has_walk_below(
            edges,
            n,
            i,
            j,
            length,
            n as int,
        ) implies m[i][j].le(Distance::Finite(length as u64)) by {
        let walk = choose|walk: Seq<int>| runs(edges, n, walk, i, j, length, n as int);
        assert(runs(edges, n, walk, i, j, length, 0));
        lemma_walk_without_interior(edges, n, walk, i, j, length);
    }
}

/// The first position strictly inside the walk, from `from` on, at which
/// it visits `k`.
proof fn lemma_first_visit(walk: Seq<int>, k: int, from: int, hit: int) -> (t: int)
    requires
        0 < from <= hit < walk.len() - 1,
        walk[hit] == k,
        forall|s: int| 0 < s < from ==> #[trigger] walk[s] != k,
    ensures
        0 < t <= hit,
        walk[t] == k,
        forall|s: int| 0 < s < t ==> #[trigger] walk[s] != k,
    decreases hit - from,
{
    if walk[from] == k {
        from
    } else {
        lemma_first_visit(walk, k, from + 1, hit)
    }
}

/// The last position strictly inside the walk, up to `until`, at which it
/// visits `k`.
proof fn lemma_last_visit(walk: Seq<int>, k: int, until: int, hit: int) -> (t: int)
    requires
        0 < hit <= until < walk.len() - 1,
        walk[hit] == k,
        forall|s: int| until < s < walk.len() - 1 ==> #[trigger] walk[s] != k,
    ensures
        hit <= t < walk.len() - 1,
        walk[t] == k,
        forall|s: int| t < s < walk.len() - 1 ==> #[trigger] walk[s] != k,
    decreases until - hit,
{
    if walk[until] == k {
        until
    } else {
        lemma_last_visit(walk, k, until - 1, hit)
    }
}

/// A walk from `i` to `j` through vertices up to `k` is no shorter than the
/// smaller of the best walk below `k` and the best detour through `k`.
proof fn lemma_relaxed_covers(
    edges: Edges,
    n: nat,
    m: Matrix,
    k: int,
    walk: Seq<int>,
    i: int,
    j: int,
    length: nat,
)
    requires
        0 <= k < n <= usize::MAX,
        0 <= i < n,
        0 <= j < n,
        length < n,
        is_square(m, n),
        complete(edges, n, m, k, n),
        runs(edges, n, walk, i, j, length, k + 1),
    ensures
        m[i][j].min(m[i][k].plus(m[k][j])).le(Distance::Finite(length as u64)),
{
    if exists|s: int| 0 < s < walk.len() - 1 && walk[s] == k {
        let hit = choose|s: int| 0 < s < walk.len() - 1 && walk[s] == k;
        let first = lemma_first_visit(walk, k, 1, hit);
        let last = lemma_last_visit(walk, k, walk.len() - 2, hit);
        lemma_stretch_runs(edges, n, walk, 0, first);
        lemma_stretch_runs(edges, n, walk, last, length as int);
        lemma_stretch(edges, n, walk, 0, first);
        lemma_stretch(edges, n, walk, last, length as int);
        let head = walk.subrange(0, first + 1);
        let tail = walk.subrange(last, length as int + 1);
        assert forall|t: int| 0 < t < head.len() - 1 implies #[trigger] head[t] < k by {
            assert(head[t] == walk[0 + t]);
            assert(walk[t] < k + 1);
            assert(walk[t] != k);
        }
        assert forall|t: int| 0 < t < tail.len() - 1 implies #[trigger] tail[t] < k by {
            assert(tail[t] == walk[last + t]);
            assert(walk[last + t] < k + 1);
            assert(walk[last + t] != k);
        }
        assert(runs(edges, n, head, i, k, first as nat, k));
        assert(runs(edges, n, tail, k, j, (length - last) as nat, k));
        assert(has_walk_below(edges, n, i, k, first as nat, k));
        assert(has_walk_below(edges, n, k, j, (length - last) as nat, k));
        assert(m[i][k].le(Distance::Finite(first as nat as u64)));
        assert(m[k][j].le(Distance::Finite((length - last) as nat as u64)));
    } else {
        assert forall|t: int| 0 < t < walk.len() - 1 implies #[trigger] walk[t] < k by {
            assert(walk[t] < k + 1);
        }
        assert(runs(edges, n, walk, i, j, length, k));
        assert(has_walk_below(edges, n, i, j, length, k));
    }
}

/// One relaxation through `k` turns a matrix that holds the shortest walks
/// below `k` into one that holds the shortest walks below `k + 1`.
pub proof fn lemma_relaxed(edges: Edges, n: nat, m: Matrix, k: int)
    requires
        0 <= k < n <= usize::MAX,
        is_square(m, n),
        sound(edges, n, m, k),
        complete(edges, n, m, k, n),
    ensures
        is_square(relaxed(m, k), n),
        sound(edges, n, relaxed(m, k), k + 1),
        complete(edges, n, relaxed(m, k), k + 1, n),
{
    let next = relaxed(m, k);
    lemma_square(m, n, 0, k);
    assert forall|i: int, j: int| 0 <= i < n && 0 <= j < n implies (#[trigger] next[i][j] matches Distance::Finite(
        d,
    ) ==> has_walk_below(edges, n, i, j, d as nat, k + 1)) by {
        if next[i][j] is Finite {
            let d = next[i][j]->0;
            if next[i][j] == m[i][j] {
                let walk = choose|walk: Seq<int>| runs(edges, n, walk, i, j, d as nat, k);
                lemma_raise_bound(edges, n, walk, i, j, d as nat, k, k + 1);
            } else {
                let a = m[i][k]->0;
                let b = m[k][j]->0;
                let head = choose|walk: Seq<int>| runs(edges, n, walk, i, k, a as nat, k);
                let tail = choose|walk: Seq<int>| runs(edges, n, walk, k, j, b as nat, k);
                lemma_join(edges, n, head, tail, i, k, j, a as nat, b as nat, k);
            }
        }
    }
    assert forall|i: int, j: int, length: nat|
        0 <= i < n && 0 <= j < n && length <= n && length < n && #[trigger] has_walk_below(
            edges,
            n,
            i,
            j,
            length,
            k + 1,
        ) implies next[i][j].le(Distance::Finite(length as u64)) by {
        let above = k + 1;
        let walk = choose|walk: Seq<int>| runs(edges, n, walk, i, j, length, above);
        lemma_relaxed_covers(edges, n, m, k, walk, i, j, length);
    }
}

/// One self-multiplication doubles the reach: a matrix that holds the
/// shortest walks of at most `reach` hops becomes one that holds those of
/// at most twice as many.
pub proof fn lemma_product(edges: Edges, n: nat, m: Matrix, reach: nat)
    requires
        n <= usize::MAX,
        is_square(m, n),
        sound(edges, n, m, n as int),
        complete(edges, n, m, n as int, reach),
        capped(n, m, reach),
    ensures
        is_square(product(m, m), n),
        sound(edges, n, product(m, m), n as int),
        complete(edges, n, product(m, m), n as int, 2 * reach),
        capped(n, product(m, m), 2 * reach),
{
    let next = product(m, m);
    lemma_square(m, n, 0, 0);
    assert forall|i: int, j: int| 0 <= i < n && 0 <= j < n implies (#[trigger] next[i][j] matches Distance::Finite(
        d,
    ) ==> d <= 2 * reach && has_walk_below(edges, n, i, j, d as nat, n as int)) by {
        if next[i][j] is Finite {
            let mid = lemma_contraction_is_term(m, m, i, j, n);
            let a = m[i][mid]->0;
            let b = m[mid][j]->0;
            let head = choose|walk: Seq<int>| runs(edges, n, walk, i, mid, a as nat, n as int);
            let tail = choose|walk: Seq<int>| runs(edges, n, walk, mid, j, b as nat, n as int);
            lemma_join(edges, n, head, tail, i, mid, j, a as nat, b as nat, n as int);
        }
    }
    assert forall|i: int, j: int, length: nat|
        0 <= i < n && 0 <= j < n && length <= 2 * reach && length < n && #[trigger] has_walk_below(
            edges,
            n,
            i,
            j,
            length,
            n as int,
        ) implies next[i][j].le(Distance::Finite(length as u64)) by {
        let walk = choose|walk: Seq<int>| runs(edges, n, walk, i, j, length, n as int);
        let t: int = if length <= reach {
            length as int
        } else {
            reach as int
        };
        let mid = walk[t];
        assert(0 <= walk[t] < n);
        lemma_stretch_runs(edges, n, walk, 0, t);
        lemma_stretch_runs(edges, n, walk, t, length as int);
        assert(has_walk_below(edges, n, i, mid, t as nat, n as int));
        assert(has_walk_below(edges, n, mid, j, (length - t) as nat, n as int));
        assert(m[i][mid].le(Distance::Finite(t as nat as u64)));
        assert(m[mid][j].le(Distance::Finite((length - t) as nat as u64)));
        lemma_contraction_below_term(m, m, i, j, n, mid);
    }
}

/// After the relaxations through the vertices below `count`, the seed holds
/// the shortest walks through vertices below `count`.
pub proof fn lemma_relaxed_through(edges: Edges, n: nat, count: nat)
    requires
        loop_free(edges, n),
        count <= n <= usize::MAX,
    ensures
        is_square(relaxed_through(seed(edges, n), count), n),
        sound(edges, n, relaxed_through(seed(edges, n), count), count as int),
        complete(edges, n, relaxed_through(seed(edges, n), count), count as int, n),
    decreases count,
{
    if count == 0 {
        lemma_seed(edges, n);
    } else {
        lemma_relaxed_through(edges, n, (count - 1) as nat);
        lemma_relaxed(edges, n, relaxed_through(seed(edges, n), (count - 1) as nat), count - 1);
    }
}

/// After `rounds` self-multiplications, the seed holds the shortest walks of
/// at most `2^rounds` hops.
pub proof fn lemma_squared(edges: Edges, n: nat, rounds: nat)
    requires
        loop_free(edges, n),
        n <= usize::MAX,
    ensures
        is_square(squared(seed(edges, n), rounds), n),
        sound(edges, n, squared(seed(edges, n), rounds), n as int),
        complete(edges, n, squared(seed(edges, n), rounds), n as int, pow2(rounds)),
        capped(n, squared(seed(edges, n), rounds), pow2(rounds)),
    decreases rounds,
{
    if rounds == 0 {
        lemma_seed(edges, n);
        lemma2_to64();
    } else {
        lemma_squared(edges, n, (rounds - 1) as nat);
        lemma_product(edges, n, squared(seed(edges, n), (rounds - 1) as nat), pow2((rounds - 1) as nat));
        lemma_pow2_unfold(rounds);
    }
}

/// A cell that holds the shortest walk of at most `reach` hops holds the
/// shortest-path distance cut off at `reach`.
pub proof fn lemma_holds_truncated(edges: Edges, n: nat, m: Matrix, reach: nat, i: int, j: int)
    requires
        n <= usize::MAX,
        0 <= i < n,
        0 <= j < n,
        sound(edges, n, m, n as int),
        complete(edges, n, m, n as int, reach),
        capped(n, m, reach),
    ensures
        m[i][j] == truncated(shortest_distance(edges, n, i, j), reach),
{
    match m[i][j] {
        Distance::Finite(d) => {
            assert(has_walk(edges, n, i, j, d as nat));
            assert forall|other: nat| has_walk(edges, n, i, j, other) implies d <= other by {
                let short = lemma_shorten(edges, n, i, j, other);
                if short <= reach {
                    assert(m[i][j].le(Distance::Finite(short as u64)));
                }
            }
            lemma_shortest_distance(edges, n, i, j, d as nat);
        },
        Distance::Infinite => {
            if connected(edges, n, i, j) {
                let some = choose|length: nat| has_walk(edges, n, i, j, length);
                let least = lemma_least(edges, n, i, j, some);
                lemma_shortest_distance(edges, n, i, j, least);
                if least <= reach {
                    assert(m[i][j].le(Distance::Finite(least as u64)));
                }
            }
        },
    }
}

/// A cell that holds the shortest walk of fewer than `n` hops holds the
/// shortest-path distance.
pub proof fn lemma_holds_shortest(edges: Edges, n: nat, m: Matrix, reach: nat, i: int, j: int)
    requires
        n <= usize::MAX,
        n <= reach + 1,
        0 <= i < n,
        0 <= j < n,
        sound(edges, n, m, n as int),
        complete(edges, n, m, n as int, reach),
    ensures
        m[i][j] == shortest_distance(edges, n, i, j),
{
    match m[i][j] {
        Distance::Finite(d) => {
            assert(has_walk(edges, n, i, j, d as nat));
            assert forall|other: nat| has_walk(edges, n, i, j, other) implies d <= other by {
                let short = lemma_shorten(edges, n, i, j, other);
                assert(m[i][j].le(Distance::Finite(short as u64)));
            }
            lemma_shortest_distance(edges, n, i, j, d as nat);
        },
        Distance::Infinite => {
            if connected(edges, n, i, j) {
                let some = choose|length: nat| has_walk(edges, n, i, j, length);
                let short = lemma_shorten(edges, n, i, j, some);
                assert(m[i][j].le(Distance::Finite(short as u64)));
            }
        },
    }
}

/// Floyd–Warshall: the seed relaxed through every vertex in turn is the
/// matrix of shortest-path distances.
pub proof fn lemma_relaxation_reaches_shortest(edges: Edges, n: nat)
    requires
        loop_free(edges, n),
        n <= usize::MAX,
    ensures
        relaxed_through(seed(edges, n), n) == shortest_distances(edges, n),
{
    let m = relaxed_through(seed(edges, n), n);
    lemma_relaxed_through(edges, n, n);
    assert forall|i: int, j: int| 0 <= i < n && 0 <= j < n implies #[trigger] m[i][j]
        == shortest_distance(edges, n, i, j) by {
        lemma_holds_shortest(edges, n, m, n, i, j);
    }
    assert(m =~~= shortest_distances(edges, n));
}

/// Repeated squaring: after `rounds` self-multiplications every cell of the
/// seed is the shortest-path distance if that is at most `2^rounds`, and
/// `Infinite` if it is longer.
pub proof fn lemma_squaring_truncates(edges: Edges, n: nat, rounds: nat)
    requires
        loop_free(edges, n),
        n <= usize::MAX,
    ensures
        is_square(squared(seed(edges, n), rounds), n),
        forall|i: int, j: int|
            0 <= i < n && 0 <= j < n ==> #[trigger] squared(seed(edges, n), rounds)[i][j]
                == truncated(shortest_distance(edges, n, i, j), pow2(rounds)),
{
    let m = squared(seed(edges, n), rounds);
    lemma_squared(edges, n, rounds);
    assert forall|i: int, j: int| 0 <= i < n && 0 <= j < n implies #[trigger] m[i][j] == truncated(
        shortest_distance(edges, n, i, j),
        pow2(rounds),
    ) by {
        lemma_holds_truncated(edges, n, m, pow2(rounds), i, j);
    }
}

/// Repeated squaring has converged once `2^rounds` is at least `n - 1`:
/// the seed is then the matrix of shortest-path distances.
pub proof fn lemma_squaring_reaches_shortest(edges: Edges, n: nat, rounds: nat)
    requires
        loop_free(edges, n),
        n <= usize::MAX,
        n <= pow2(rounds) + 1,
    ensures
        squared(seed(edges, n), rounds) == shortest_distances(edges, n),
{
    let m = squared(seed(edges, n), rounds);
    lemma_squared(edges, n, rounds);
    assert forall|i: int, j: int| 0 <= i < n && 0 <= j < n implies #[trigger] m[i][j]
        == shortest_distance(edges, n, i, j) by {
        lemma_holds_shortest(edges, n, m, pow2(rounds), i, j);
    }
    assert(m =~~= shortest_distances(edges, n));
}

} // verus!
