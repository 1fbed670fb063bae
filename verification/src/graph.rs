//! Undirected, unweighted graphs given as edge lists over the vertices
//! `0..n`, the walks in them, and the length of a shortest walk between two
//! vertices.
use vstd::prelude::*;
use crate::distance::Distance;
use crate::matrix::Matrix;

verus! {

/// An edge list: each pair joins its two vertices, in both directions.
pub type Edges = Seq<(usize, usize)>;

/// The edge `edge` joins `u` and `v`.
pub open spec fn joins(edge: (usize, usize), u: int, v: int) -> bool {
    (edge.0 == u && edge.1 == v) || (edge.0 == v && edge.1 == u)
}

/// One of the first `count` edges joins `u` and `v`.
pub open spec fn joined_among(edges: Edges, count: int, u: int, v: int) -> bool {
    exists|e: int| 0 <= e < count && e < edges.len() && joins(#[trigger] edges[e], u, v)
}

/// Some edge joins `u` and `v`.
pub open spec fn joined(edges: Edges, u: int, v: int) -> bool {
    joined_among(edges, edges.len() as int, u, v)
}

/// Every edge has both its vertices among `0..n`.
pub open spec fn in_range(edges: Edges, n: nat) -> bool {
    forall|e: int| 0 <= e < edges.len() ==> (#[trigger] edges[e]).0 < n && edges[e].1 < n
}

/// No edge joins one of the vertices `0..n` to itself.
pub open spec fn loop_free(edges: Edges, n: nat) -> bool {
    forall|v: int| 0 <= v < n ==> !joined(edges, v, v)
}

/// The seed of every engine: one between vertices that an edge joins, zero
/// from a vertex to itself, `Infinite` otherwise. The edges are entered
/// after the diagonal, so an edge from a vertex to itself leaves a one on
/// the diagonal.
pub open spec fn seed_cell(edges: Edges, i: int, j: int) -> Distance {
    if joined(edges, i, j) {
        Distance::Finite(1)
    } else if i == j {
        Distance::Finite(0)
    } else {
        Distance::Infinite
    }
}

/// The `n`×`n` matrix of `seed_cell`s.
pub open spec fn seed(edges: Edges, n: nat) -> Matrix {
    Seq::new(n, |i: int| Seq::new(n, |j: int| seed_cell(edges, i, j)))
}

/// The walk's hop from position `t` to the next follows an edge.
pub open spec fn step(edges: Edges, walk: Seq<int>, t: int) -> bool {
    joined(edges, walk[t], walk[t + 1])
}

/// A walk: at least one vertex, all among `0..n`, each joined to the next.
pub open spec fn is_walk(edges: Edges, n: nat, walk: Seq<int>) -> bool {
    &&& walk.len() >= 1
    &&& forall|t: int| 0 <= t < walk.len() ==> 0 <= #[trigger] walk[t] < n
    &&& forall|t: int| 0 <= t < walk.len() - 1 ==> #[trigger] step(edges, walk, t)
}

/// Every vertex strictly inside the walk is below `k`.
pub open spec fn interior_below(walk: Seq<int>, k: int) -> bool {
    forall|t: int| 0 < t < walk.len() - 1 ==> #[trigger] walk[t] < k
}

/// `walk` leads from `i` to `j` in `length` hops, passing only through
/// vertices below `k` on its way.
pub open spec fn runs(edges: Edges, n: nat, walk: Seq<int>, i: int, j: int, length: nat, k: int) -> bool {
    &&& is_walk(edges, n, walk)
    &&& walk.len() == length + 1
    &&& walk[0] == i
    &&& walk[length as int] == j
    &&& interior_below(walk, k)
}

/// Some walk of `length` hops leads from `i` to `j` through vertices below `k`.
pub open spec fn has_walk_below(edges: Edges, n: nat, i: int, j: int, length: nat, k: int) -> bool {
    exists|walk: Seq<int>| runs(edges, n, walk, i, j, length, k)
}

/// Some walk of `length` hops leads from `i` to `j`.
pub open spec fn has_walk(edges: Edges, n: nat, i: int, j: int, length: nat) -> bool {
    has_walk_below(edges, n, i, j, length, n as int)
}

/// Some walk leads from `i` to `j`.
pub open spec fn connected(edges: Edges, n: nat, i: int, j: int) -> bool {
    exists|length: nat| has_walk(edges, n, i, j, length)
}

/// `length` is the hop count of a walk from `i` to `j`, and of no walk
/// between them with fewer hops.
pub open spec fn is_shortest(edges: Edges, n: nat, i: int, j: int, length: nat) -> bool {
    &&& has_walk(edges, n, i, j, length)
    &&& forall|other: nat| has_walk(edges, n, i, j, other) ==> length <= other
}

/// The hop count of a shortest walk from `i` to `j`; `None` when no walk
/// leads from one to the other.
pub open spec fn shortest_length(edges: Edges, n: nat, i: int, j: int) -> Option<nat> {
    if connected(edges, n, i, j) {
        Some(choose|length: nat| is_shortest(edges, n, i, j, length))
    } else {
        None
    }
}

/// The shortest-path distance from `i` to `j` as the engines report it.
pub open spec fn shortest_distance(edges: Edges, n: nat, i: int, j: int) -> Distance {
    match shortest_length(edges, n, i, j) {
        Some(length) => Distance::Finite(length as u64),
        None => Distance::Infinite,
    }
}

/// The matrix of all shortest-path distances of the graph.
pub open spec fn shortest_distances(edges: Edges, n: nat) -> Matrix {
    Seq::new(n, |i: int| Seq::new(n, |j: int| shortest_distance(edges, n, i, j)))
}

/// An edge joins both ways.
pub proof fn lemma_joined_symmetric(edges: Edges, u: int, v: int)
    requires
        joined(edges, u, v),
    ensures
        joined(edges, v, u),
{
    let e = choose|e: int| 0 <= e < edges.len() && joins(#[trigger] edges[e], u, v);
    assert(joins(edges[e], v, u));
}

/// A vertex alone is a walk of no hops.
pub proof fn lemma_walk_of_none(edges: Edges, n: nat, i: int, k: int)
    requires
        0 <= i < n,
    ensures
        has_walk_below(edges, n, i, i, 0, k),
{
    let walk = seq![i];
    assert(runs(edges, n, walk, i, i, 0, k));
}

/// An edge is a walk of one hop.
pub proof fn lemma_walk_of_one(edges: Edges, n: nat, i: int, j: int, k: int)
    requires
        0 <= i < n,
        0 <= j < n,
        joined(edges, i, j),
    ensures
        has_walk_below(edges, n, i, j, 1, k),
{
    let walk = seq![i, j];
    assert(step(edges, walk, 0));
    assert(runs(edges, n, walk, i, j, 1, k));
}

/// A walk with nothing inside it is a vertex alone or a single edge.
pub proof fn lemma_walk_without_interior(edges: Edges, n: nat, walk: Seq<int>, i: int, j: int, length: nat)
    requires
        runs(edges, n, walk, i, j, length, 0),
    ensures
        length <= 1,
        length == 0 ==> i == j,
        length == 1 ==> joined(edges, i, j),
{
    if length >= 2 {
        assert(walk[1] < 0);
        assert(0 <= walk[1]);
    }
    if length == 1 {
        assert(step(edges, walk, 0));
    }
}

/// A walk's interior lies below `n`, and raising the bound keeps a walk.
pub proof fn lemma_raise_bound(edges: Edges, n: nat, walk: Seq<int>, i: int, j: int, length: nat, k: int, higher: int)
    requires
        runs(edges, n, walk, i, j, length, k),
        k <= higher || n <= higher,
    ensures
        runs(edges, n, walk, i, j, length, higher),
{
    assert forall|t: int| 0 < t < walk.len() - 1 implies #[trigger] walk[t] < higher by {
        assert(0 <= walk[t] < n);
        assert(walk[t] < k);
    }
}

/// The stretch of a walk from position `from` to position `to` is a walk.
pub proof fn lemma_stretch(edges: Edges, n: nat, walk: Seq<int>, from: int, to: int)
    requires
        is_walk(edges, n, walk),
        0 <= from <= to < walk.len(),
    ensures
        is_walk(edges, n, walk.subrange(from, to + 1)),
        walk.subrange(from, to + 1).len() == to - from + 1,
        forall|t: int|
            0 <= t <= to - from ==> #[trigger] walk.subrange(from, to + 1)[t] == walk[from + t],
{
    let part = walk.subrange(from, to + 1);
    assert forall|t: int| 0 <= t < part.len() implies 0 <= #[trigger] part[t] < n by {
        assert(part[t] == walk[from + t]);
    }
    assert forall|t: int| 0 <= t < part.len() - 1 implies #[trigger] step(edges, part, t) by {
        assert(step(edges, walk, from + t));
        assert(part[t] == walk[from + t]);
        assert(part[t + 1] == walk[from + t + 1]);
    }
}

/// Two walks that meet at `mid` join into one, as long as the sum of
/// their hops; its interior is theirs together with `mid`.
pub proof fn lemma_join(
    edges: Edges,
    n: nat,
    first: Seq<int>,
    second: Seq<int>,
    i: int,
    mid: int,
    j: int,
    a: nat,
    b: nat,
    k: int,
)
    requires
        runs(edges, n, first, i, mid, a, k),
        runs(edges, n, second, mid, j, b, k),
    ensures
        runs(edges, n, first + second.subrange(1, b as int + 1), i, j, a + b, if mid < k {
            k
        } else {
            mid + 1
        }),
{
    let tail = second.subrange(1, b as int + 1);
    let whole = first + tail;
    let bound = if mid < k {
        k
    } else {
        mid + 1
    };
    assert(whole.len() == a + b + 1);
    assert forall|t: int| 0 <= t < whole.len() implies 0 <= #[trigger] whole[t] < n by {
        if t <= a {
            assert(whole[t] == first[t]);
        } else {
            assert(whole[t] == second[t - a]);
        }
    }
    assert forall|t: int| 0 <= t < whole.len() - 1 implies #[trigger] step(edges, whole, t) by {
        if t < a {
            assert(step(edges, first, t));
            assert(whole[t] == first[t]);
            assert(whole[t + 1] == first[t + 1]);
        } else {
            assert(step(edges, second, t - a));
            assert(whole[t] == second[t - a]) by {
                if t == a {
                    assert(whole[t] == first[a as int]);
                } else {
                    assert(whole[t] == tail[t - a - 1]);
                }
            }
            assert(whole[t + 1] == tail[t - a]);
            assert(whole[t + 1] == second[t - a + 1]);
        }
    }
    assert forall|t: int| 0 < t < whole.len() - 1 implies #[trigger] whole[t] < bound by {
        if t < a {
            assert(whole[t] == first[t]);
            assert(first[t] < k);
        } else if t == a {
            assert(whole[t] == first[a as int]);
        } else {
            assert(whole[t] == tail[t - a - 1]);
            assert(whole[t] == second[t - a]);
            assert(second[t - a] < k);
        }
    }
    if b == 0 {
        assert(whole[(a + b) as int] == first[a as int]);
    } else {
        assert(whole[(a + b) as int] == tail[b - 1]);
    }
    assert(whole[0] == first[0]);
}

/// A walk read backwards is a walk back.
pub proof fn lemma_walk_back(edges: Edges, n: nat, i: int, j: int, length: nat)
    requires
        has_walk(edges, n, i, j, length),
    ensures
        has_walk(edges, n, j, i, length),
{
    let walk = choose|walk: Seq<int>| runs(edges, n, walk, i, j, length, n as int);
    let back = Seq::new(walk.len(), |t: int| walk[length - t]);
    assert forall|t: int| 0 <= t < back.len() - 1 implies #[trigger] step(edges, back, t) by {
        assert(step(edges, walk, length - t - 1));
        lemma_joined_symmetric(edges, walk[length - t - 1], walk[length - t - 1 + 1]);
    }
    assert forall|t: int| 0 < t < back.len() - 1 implies #[trigger] back[t] < n by {
        assert(0 <= walk[length - t] < n);
    }
    assert(runs(edges, n, back, j, i, length, n as int));
}

/// The stretch of a walk between two of its positions leads from the
/// vertex at the one to the vertex at the other.
pub proof fn lemma_stretch_runs(edges: Edges, n: nat, walk: Seq<int>, from: int, to: int)
    requires
        is_walk(edges, n, walk),
        0 <= from <= to < walk.len(),
    ensures
        runs(
            edges,
            n,
            walk.subrange(from, to + 1),
            walk[from],
            walk[to],
            (to - from) as nat,
            n as int,
        ),
{
    lemma_stretch(edges, n, walk, from, to);
    let part = walk.subrange(from, to + 1);
    assert(part[0] == walk[from + 0]);
    assert(part[to - from] == walk[from + (to - from)]);
    assert forall|t: int| 0 < t < part.len() - 1 implies #[trigger] part[t] < n by {
        assert(0 <= part[t] < n);
    }
}

/// Pigeonhole: a walk over more vertices than the graph has visits one twice.
pub proof fn lemma_repeated_vertex(edges: Edges, n: nat, walk: Seq<int>) -> (pair: (int, int))
    requires
        is_walk(edges, n, walk),
        walk.len() > n,
    ensures
        0 <= pair.0 < pair.1 < walk.len(),
        walk[pair.0] == walk[pair.1],
{
    if walk.no_duplicates() {
        walk.unique_seq_to_set();
        vstd::set_lib::lemma_int_range(0, n as int);
        assert forall|v: int| walk.to_set().contains(v) implies vstd::set_lib::set_int_range(
            0,
            n as int,
        ).contains(v) by {
            let t = choose|t: int| 0 <= t < walk.len() && walk[t] == v;
            assert(0 <= walk[t] < n);
        }
        vstd::set_lib::lemma_len_subset(walk.to_set(), vstd::set_lib::set_int_range(0, n as int));
        assert(false);
    }
    let (a, b) = choose|a: int, b: int|
        0 <= a < walk.len() && 0 <= b < walk.len() && a != b && walk[a] == walk[b];
    if a < b {
        (a, b)
    } else {
        (b, a)
    }
}

/// Every walk can be cut down to one between the same vertices that has
/// fewer hops than the graph has vertices.
pub proof fn lemma_shorten(edges: Edges, n: nat, i: int, j: int, length: nat) -> (short: nat)
    requires
        has_walk(edges, n, i, j, length),
    ensures
        short <= length,
        short < n,
        has_walk(edges, n, i, j, short),
    decreases length,
{
    let walk = choose|walk: Seq<int>| runs(edges, n, walk, i, j, length, n as int);
    assert(0 <= walk[0] < n);
    if length < n {
        length
    } else {
        let (a, b) = lemma_repeated_vertex(edges, n, walk);
        lemma_stretch_runs(edges, n, walk, 0, a);
        lemma_stretch_runs(edges, n, walk, b, length as int);
        let head = walk.subrange(0, a + 1);
        let tail = walk.subrange(b, length as int + 1);
        lemma_join(edges, n, head, tail, i, walk[a], j, a as nat, (length - b) as nat, n as int);
        let cut = (a + length - b) as nat;
        assert(has_walk(edges, n, i, j, cut)) by {
            assert(0 <= walk[a] < n);
            assert(runs(
                edges,
                n,
                head + tail.subrange(1, (length - b) as nat as int + 1),
                i,
                j,
                cut,
                n as int,
            ));
        }
        lemma_shorten(edges, n, i, j, cut)
    }
}

/// Where a walk leads from `i` to `j`, some hop count is the least.
pub proof fn lemma_least(edges: Edges, n: nat, i: int, j: int, length: nat) -> (least: nat)
    requires
        has_walk(edges, n, i, j, length),
    ensures
        least <= length,
        is_shortest(edges, n, i, j, least),
    decreases length,
{
    if exists|other: nat| other < length && has_walk(edges, n, i, j, other) {
        let other = choose|other: nat| other < length && has_walk(edges, n, i, j, other);
        lemma_least(edges, n, i, j, other)
    } else {
        length
    }
}

/// The shortest-path distance is the one least hop count, and it is below
/// the number of vertices.
pub proof fn lemma_shortest_distance(edges: Edges, n: nat, i: int, j: int, length: nat)
    requires
        is_shortest(edges, n, i, j, length),
        n <= usize::MAX,
    ensures
        length < n,
        shortest_length(edges, n, i, j) == Some(length),
        shortest_distance(edges, n, i, j) == Distance::Finite(length as u64),
{
    let short = lemma_shorten(edges, n, i, j, length);
    assert(connected(edges, n, i, j));
    let chosen = choose|length: nat| is_shortest(edges, n, i, j, length);
    assert(is_shortest(edges, n, i, j, chosen));
    assert(chosen <= length && length <= chosen);
}

/// What `shortest_length` picks is a least hop count, below the number of
/// vertices, and the shortest-path distance reports it.
pub proof fn lemma_shortest_length(edges: Edges, n: nat, i: int, j: int)
    requires
        n <= usize::MAX,
    ensures
        match shortest_length(edges, n, i, j) {
            Some(length) => {
                &&& is_shortest(edges, n, i, j, length)
                &&& length < n
                &&& shortest_distance(edges, n, i, j) == Distance::Finite(length as u64)
            },
            None => {
                &&& !connected(edges, n, i, j)
                &&& shortest_distance(edges, n, i, j) == Distance::Infinite
            },
        },
{
    if connected(edges, n, i, j) {
        let some = choose|length: nat| has_walk(edges, n, i, j, length);
        let least = lemma_least(edges, n, i, j, some);
        lemma_shortest_distance(edges, n, i, j, least);
    }
}

/// No edge joins `v` to another vertex.
pub open spec fn isolated(edges: Edges, v: int) -> bool {
    forall|u: int| u != v ==> !joined(edges, v, u)
}

/// Every vertex is at distance zero from itself.
pub proof fn lemma_distance_to_self(edges: Edges, n: nat, i: int)
    requires
        0 <= i < n <= usize::MAX,
    ensures
        shortest_distance(edges, n, i, i) == Distance::Finite(0),
{
    lemma_walk_of_none(edges, n, i, n as int);
    lemma_shortest_distance(edges, n, i, i, 0);
}

/// The distance from `i` to `j` is the distance from `j` to `i`.
pub proof fn lemma_distance_symmetric(edges: Edges, n: nat, i: int, j: int)
    requires
        n <= usize::MAX,
    ensures
        shortest_distance(edges, n, i, j) == shortest_distance(edges, n, j, i),
{
    if connected(edges, n, i, j) {
        let some = choose|length: nat| has_walk(edges, n, i, j, length);
        let least = lemma_least(edges, n, i, j, some);
        lemma_walk_back(edges, n, i, j, least);
        assert forall|other: nat| has_walk(edges, n, j, i, other) implies least <= other by {
            lemma_walk_back(edges, n, j, i, other);
        }
        lemma_shortest_distance(edges, n, i, j, least);
        lemma_shortest_distance(edges, n, j, i, least);
    } else if connected(edges, n, j, i) {
        let some = choose|length: nat| has_walk(edges, n, j, i, length);
        lemma_walk_back(edges, n, j, i, some);
    }
}

/// A walk out of an isolated vertex never leaves it.
proof fn lemma_walk_stays(edges: Edges, n: nat, walk: Seq<int>, v: int, t: int)
    requires
        is_walk(edges, n, walk),
        isolated(edges, v),
        walk[0] == v,
        0 <= t < walk.len(),
    ensures
        walk[t] == v,
    decreases t,
{
    if t > 0 {
        lemma_walk_stays(edges, n, walk, v, t - 1);
        assert(step(edges, walk, t - 1));
    }
}

/// An isolated vertex is at infinite distance from every other vertex, and
/// every other vertex from it.
pub proof fn lemma_distance_from_isolated(edges: Edges, n: nat, v: int, j: int)
    requires
        n <= usize::MAX,
        isolated(edges, v),
        j != v,
    ensures
        shortest_distance(edges, n, v, j) == Distance::Infinite,
        shortest_distance(edges, n, j, v) == Distance::Infinite,
{
    if connected(edges, n, v, j) {
        let length = choose|length: nat| has_walk(edges, n, v, j, length);
        let walk = choose|walk: Seq<int>| runs(edges, n, walk, v, j, length, n as int);
        lemma_walk_stays(edges, n, walk, v, length as int);
    }
    lemma_distance_symmetric(edges, n, v, j);
}

} // verus!
