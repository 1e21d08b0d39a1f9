use crate::error::PathError;
use crate::graph::{entries_in_range, symmetric, well_formed, NeighborGraph};
use crate::random::below;
use rand::rngs::StdRng;
use vstd::prelude::*;

verus! {

/// Each vertex of `c` is adjacent to the next one, and the last to the first.
pub open spec fn ring_edges(adj: Seq<Seq<usize>>, c: Seq<usize>) -> bool {
    &&& c.len() > 0
    &&& forall|k: int| 0 <= k < c.len() - 1 ==> adj[#[trigger] c[k] as int].contains(c[k + 1])
    &&& adj[c.last() as int].contains(c[0])
}

/// `c` is a closed tour along graph edges through at least three distinct
/// vertices.
pub open spec fn is_cycle(adj: Seq<Seq<usize>>, c: Seq<usize>) -> bool {
    &&& c.len() >= 3
    &&& c.no_duplicates()
    &&& forall|k: int| 0 <= k < c.len() ==> #[trigger] c[k] < adj.len()
    &&& ring_edges(adj, c)
}

/// The successor map `succ` runs along `c` and back to its start.
pub open spec fn links(c: Seq<usize>, succ: Seq<usize>) -> bool {
    &&& c.len() > 0
    &&& forall|k: int| 0 <= k < c.len() - 1 ==> succ[#[trigger] c[k] as int] == c[k + 1]
    &&& succ[c.last() as int] == c[0]
}

/// Two neighbors of `s` that are adjacent to each other.
pub open spec fn has_triangle(adj: Seq<Seq<usize>>, s: int) -> bool {
    exists|i: int, j: int|
        0 <= i < j < adj[s].len() && #[trigger] adj[adj[s][i] as int].contains(#[trigger] adj[s][j])
}

/// `x` and `y` share a neighbor that `visited` does not mark.
pub open spec fn can_grow(adj: Seq<Seq<usize>>, visited: Seq<bool>, x: usize, y: usize) -> bool {
    exists|u: usize| u < visited.len() && !visited[u as int] && #[trigger] adj[x as int].contains(u) && adj[y as int].contains(u)
}

/// `u` is the first neighbor of `v`, in list order, that is unmarked in
/// `visited` and a neighbor of `w`.
pub open spec fn first_common(adj: Seq<Seq<usize>>, visited: Seq<bool>, v: usize, w: usize, u: usize) -> bool {
    exists|k: int|
        {
            &&& 0 <= k < adj[v as int].len()
            &&& #[trigger] adj[v as int][k] == u
            &&& u < visited.len()
            &&& !visited[u as int]
            &&& adj[w as int].contains(u)
            &&& forall|j: int|
                0 <= j < k ==> !(adj[w as int].contains(#[trigger] adj[v as int][j]) && !visited[adj[v as int][j] as int])
        }
}

/// `after` is `before` with `x` dropped when `x` can no longer grow: the
/// first occurrence of `x` is overwritten by the last element, which is then
/// removed. Otherwise `after` is `before`.
pub open spec fn pruned(
    adj: Seq<Seq<usize>>,
    visited: Seq<bool>,
    succ: Seq<usize>,
    before: Seq<usize>,
    x: usize,
    after: Seq<usize>,
) -> bool {
    if can_grow(adj, visited, x, succ[x as int]) || !before.contains(x) {
        after == before
    } else {
        exists|k: int|
            0 <= k < before.len() && #[trigger] before[k] == x && (forall|j: int| 0 <= j < k ==> before[j] != x) && after
                == before.update(k, before.last()).drop_last()
    }
}

/// What pruning keeps: nothing new, and everything but a stuck `x`.
proof fn lemma_pruned_keeps(
    adj: Seq<Seq<usize>>,
    visited: Seq<bool>,
    succ: Seq<usize>,
    before: Seq<usize>,
    x: usize,
    after: Seq<usize>,
)
    requires
        pruned(adj, visited, succ, before, x, after),
    ensures
        after.len() <= before.len(),
        forall|k: int| 0 <= k < after.len() ==> before.contains(#[trigger] after[k]),
        forall|y: usize| #[trigger] before.contains(y) && (y != x || can_grow(adj, visited, x, succ[x as int])) ==> after.contains(y),
{
    if can_grow(adj, visited, x, succ[x as int]) || !before.contains(x) {
        assert forall|k: int| 0 <= k < after.len() implies before.contains(#[trigger] after[k]) by {
            assert(before[k] == after[k]);
        }
        assert forall|y: usize| #[trigger] before.contains(y) && (y != x || can_grow(adj, visited, x, succ[x as int])) implies after.contains(y) by {}
    } else {
        let k = choose|k: int|
            0 <= k < before.len() && #[trigger] before[k] == x && (forall|j: int| 0 <= j < k ==> before[j] != x) && after
                == before.update(k, before.last()).drop_last();
        assert forall|i: int| 0 <= i < after.len() implies before.contains(#[trigger] after[i]) by {
            if i == k {
                assert(after[i] == before[before.len() - 1]);
            } else {
                assert(after[i] == before[i]);
            }
        }
        assert forall|y: usize| #[trigger] before.contains(y) && (y != x || can_grow(adj, visited, x, succ[x as int])) implies after.contains(y) by {
            let j = choose|j: int| 0 <= j < before.len() && before[j] == y;
            lemma_swap_remove_keeps(before, after, x, j);
        }
    }
}

/// The vertex after position `k` on the closed tour `r`.
pub open spec fn ring_next(r: Seq<usize>, k: int) -> usize {
    if k + 1 < r.len() { r[k + 1] } else { r[0] }
}

/// `x` and `y` share a neighbor that is not on `r`.
pub open spec fn can_grow_off(adj: Seq<Seq<usize>>, r: Seq<usize>, x: usize, y: usize) -> bool {
    exists|u: usize| !r.contains(u) && #[trigger] adj[x as int].contains(u) && adj[y as int].contains(u)
}

/// Putting `u` after position `p` keeps the ring and its successor map in step.
proof fn lemma_splice(adj: Seq<Seq<usize>>, c: Seq<usize>, succ: Seq<usize>, p: int, u: usize)
    requires
        c.no_duplicates(),
        0 <= p < c.len(),
        !c.contains(u),
        forall|k: int| 0 <= k < c.len() ==> #[trigger] c[k] < succ.len() && c[k] < adj.len(),
        u < succ.len(),
        u < adj.len(),
        links(c, succ),
        ring_edges(adj, c),
        adj[c[p] as int].contains(u),
        adj[u as int].contains(succ[c[p] as int]),
    ensures
        links(c.insert(p + 1, u), succ.update(c[p] as int, u).update(u as int, succ[c[p] as int])),
        ring_edges(adj, c.insert(p + 1, u)),
        c.insert(p + 1, u).no_duplicates(),
        c.insert(p + 1, u)[0] == c[0],
        c.insert(p + 1, u).len() == c.len() + 1,
        forall|x: usize| #[trigger] c.insert(p + 1, u).contains(x) <==> (c.contains(x) || x == u),
{
    let c2 = c.insert(p + 1, u);
    let v = c[p];
    let w = succ[v as int];
    let succ2 = succ.update(v as int, u).update(u as int, w);
    let l = c.len();
    assert(w == if p < l - 1 { c[p + 1] } else { c[0] });
    assert forall|k: int| 0 <= k < c2.len() implies #[trigger] c2[k] == if k <= p { c[k] } else if k == p + 1 { u } else { c[k - 1] } by {}
    assert(u != v);
    assert forall|k: int| 0 <= k < c2.len() - 1 implies succ2[#[trigger] c2[k] as int] == c2[k + 1] && adj[c2[k] as int].contains(c2[k + 1]) by {
        if k < p {
            assert(c2[k] == c[k] && c2[k + 1] == c[k + 1]);
            assert(c[k] != v);
            assert(c[k] != u);
            assert(succ[c[k] as int] == c[k + 1]);
            assert(adj[c[k] as int].contains(c[k + 1]));
        } else if k == p {
            assert(c2[k] == v && c2[k + 1] == u);
        } else if k == p + 1 {
            assert(c2[k] == u && c2[k + 1] == c[p + 1]);
        } else {
            assert(c2[k] == c[k - 1] && c2[k + 1] == c[k]);
            assert(c[k - 1] != v);
            assert(c[k - 1] != u);
            assert(succ[c[k - 1] as int] == c[k]);
            assert(adj[c[k - 1] as int].contains(c[k]));
        }
    }
    if p == l - 1 {
        assert(c2.last() == u);
    } else {
        assert(c2.last() == c.last());
        assert(c.last() != v && c.last() != u);
    }
    assert forall|a: int, b: int| 0 <= a < b < c2.len() implies c2[a] != c2[b] by {
        if a == p + 1 {
            assert(c.contains(c2[b]));
        } else if b == p + 1 {
            assert(c.contains(c2[a]));
        }
    }
    assert forall|x: usize| #[trigger] c2.contains(x) <==> (c.contains(x) || x == u) by {
        if c2.contains(x) {
            let k = choose|k: int| 0 <= k < c2.len() && c2[k] == x;
            if k <= p {
                assert(c[k] == x);
            } else if k > p + 1 {
                assert(c[k - 1] == x);
            }
        }
        if c.contains(x) {
            let k = choose|k: int| 0 <= k < c.len() && c[k] == x;
            if k <= p {
                assert(c2[k] == x);
            } else {
                assert(c2[k + 1] == x);
            }
        }
        if x == u {
            assert(c2[p + 1] == x);
        }
    }
}

/// Reading a cycle from its second vertex round to its first is again a cycle.
proof fn lemma_rotate(adj: Seq<Seq<usize>>, c: Seq<usize>)
    requires
        is_cycle(adj, c),
    ensures
        is_cycle(adj, c.subrange(1, c.len() as int).push(c[0])),
        c.subrange(1, c.len() as int).push(c[0]).len() == c.len(),
{
    let r = c.subrange(1, c.len() as int).push(c[0]);
    let l = c.len();
    assert forall|k: int| 0 <= k < l implies #[trigger] r[k] == if k < l - 1 { c[k + 1] } else { c[0] } by {}
    assert forall|k: int| 0 <= k < r.len() - 1 implies adj[#[trigger] r[k] as int].contains(r[k + 1]) by {
        if k < l - 2 {
            assert(adj[c[k + 1] as int].contains(c[k + 2]));
        } else {
            assert(r[k] == c.last());
        }
    }
    assert(adj[c[0] as int].contains(c[1]));
    assert(r.last() == c[0]);
    assert forall|a: int, b: int| 0 <= a < b < r.len() implies r[a] != r[b] by {
        if b == l - 1 {
            assert(c[a + 1] != c[0]);
        } else {
            assert(c[a + 1] != c[b + 1]);
        }
    }
    assert forall|k: int| 0 <= k < r.len() implies #[trigger] r[k] < adj.len() by {
        if k < l - 1 {
            assert(c[k + 1] < adj.len());
        } else {
            assert(c[0] < adj.len());
        }
    }
}

/// Read from its second vertex, the ring keeps its vertices, and each one is
/// followed by its successor.
proof fn lemma_rotate_links(c: Seq<usize>, succ: Seq<usize>)
    requires
        c.len() >= 2,
        links(c, succ),
    ensures
        forall|x: usize| #[trigger] c.subrange(1, c.len() as int).push(c[0]).contains(x) <==> c.contains(x),
        forall|k: int|
            0 <= k < c.len() ==> succ[#[trigger] c.subrange(1, c.len() as int).push(c[0])[k] as int] == ring_next(
                c.subrange(1, c.len() as int).push(c[0]),
                k,
            ),
{
    let r = c.subrange(1, c.len() as int).push(c[0]);
    let l = c.len();
    assert forall|k: int| 0 <= k < l implies #[trigger] r[k] == if k < l - 1 { c[k + 1] } else { c[0] } by {}
    assert forall|x: usize| #[trigger] r.contains(x) <==> c.contains(x) by {
        if r.contains(x) {
            let k = choose|k: int| 0 <= k < r.len() && r[k] == x;
            if k < l - 1 {
                assert(c[k + 1] == x);
            } else {
                assert(c[0] == x);
            }
        }
        if c.contains(x) {
            let k = choose|k: int| 0 <= k < c.len() && c[k] == x;
            if k == 0 {
                assert(r[l - 1] == x);
            } else {
                assert(r[k - 1] == x);
            }
        }
    }
    assert forall|k: int| 0 <= k < l implies succ[#[trigger] r[k] as int] == ring_next(r, k) by {
        if k < l - 2 {
            assert(succ[c[k + 1] as int] == c[k + 2]);
        } else if k == l - 2 {
            assert(r[k] == c.last());
        } else {
            assert(succ[c[0] as int] == c[1]);
        }
    }
}

/// The first neighbor of `v`, in list order, that is unvisited and also a
/// neighbor of `w`.
fn common_unvisited(graph: &NeighborGraph, visited: &Vec<bool>, v: usize, w: usize) -> (r: Option<usize>)
    requires
        entries_in_range(graph@),
        v < graph@.len(),
        w < graph@.len(),
        visited.len() == graph@.len(),
    ensures
        r matches Some(u) ==> u < graph@.len() && graph@[v as int].contains(u) && graph@[w as int].contains(u) && !visited[u as int],
        r matches Some(u) ==> first_common(graph@, visited@, v, w, u),
        r is None ==> forall|u: usize|
            #[trigger] graph@[v as int].contains(u) && graph@[w as int].contains(u) ==> visited[u as int],
{
    let nbrs = graph.neighbors(v);
    let mut k: usize = 0;
    while k < nbrs.len()
        invariant
            entries_in_range(graph@),
            v < graph@.len(),
            w < graph@.len(),
            visited.len() == graph@.len(),
            nbrs@ == graph@[v as int],
            k <= nbrs.len(),
            forall|j: int| 0 <= j < k ==> graph@[w as int].contains(#[trigger] nbrs@[j]) ==> visited[nbrs@[j] as int],
        decreases nbrs.len() - k,
    {
        let u = nbrs[k];
        assert(u < graph@.len()) by {
            assert(graph@[v as int][k as int] == u);
        }
        if !visited[u] && graph.is_neighbor(w, u) {
            assert(nbrs@[k as int] == u);
            assert(first_common(graph@, visited@, v, w, u)) by {
                assert(graph@[v as int][k as int] == u);
            }
            return Some(u);
        }
        k = k + 1;
    }
    proof {
        assert forall|u: usize| #[trigger] graph@[v as int].contains(u) && graph@[w as int].contains(u) implies visited[u as int] by {
            let j = choose|j: int| 0 <= j < nbrs@.len() && nbrs@[j] == u;
        }
    }
    None
}

/// Drops `x` from the boundary once it and its successor share no unvisited
/// neighbor.
fn prune(graph: &NeighborGraph, visited: &Vec<bool>, succ: &Vec<usize>, boundary: &mut Vec<usize>, x: usize)
    requires
        entries_in_range(graph@),
        x < graph@.len(),
        succ.len() == graph@.len(),
        succ[x as int] < graph@.len(),
        visited.len() == graph@.len(),
    ensures
        final(boundary).len() <= old(boundary).len(),
        forall|k: int| 0 <= k < final(boundary).len() ==> old(boundary)@.contains(#[trigger] final(boundary)@[k]),
        forall|y: usize|
            #[trigger] old(boundary)@.contains(y) && (y != x || can_grow(graph@, visited@, x, succ[x as int]))
                ==> final(boundary)@.contains(y),
        pruned(graph@, visited@, succ@, old(boundary)@, x, final(boundary)@),
{
    let ghost before = boundary@;
    let found = common_unvisited(graph, visited, x, succ[x]);
    proof {
        if let Some(u) = found {
            assert(can_grow(graph@, visited@, x, succ[x as int]));
        } else {
            assert(!can_grow(graph@, visited@, x, succ[x as int]));
        }
    }
    if found.is_none() {
        let mut k: usize = 0;
        while k < boundary.len() && boundary[k] != x
            invariant
                boundary@ == before,
                k <= boundary.len(),
                forall|j: int| 0 <= j < k ==> before[j] != x,
            decreases boundary.len() - k,
        {
            k = k + 1;
        }
        if k < boundary.len() {
            boundary.swap_remove(k);
            assert(before[k as int] == x);
        } else {
            assert(!before.contains(x));
        }
    }
    proof {
        assert forall|j: int| 0 <= j < boundary.len() implies before.contains(#[trigger] boundary@[j]) by {
            if boundary@[j] != before[j] {
                assert(boundary@[j] == before.last());
                assert(before[before.len() - 1] == before.last());
            }
        }
        assert forall|y: usize|
            #[trigger] before.contains(y) && (y != x || can_grow(graph@, visited@, x, succ[x as int]))
                implies boundary@.contains(y) by {
            let j = choose|j: int| 0 <= j < before.len() && before[j] == y;
            if boundary@ == before {
                assert(boundary@[j] == y);
            } else {
                lemma_swap_remove_keeps(before, boundary@, x, j);
            }
        }
    }
}

/// Removing one occurrence of `x` by swapping in the last element keeps the
/// other elements.
proof fn lemma_swap_remove_keeps(before: Seq<usize>, after: Seq<usize>, x: usize, j: int)
    requires
        0 <= j < before.len(),
        before[j] != x,
        exists|k: int| 0 <= k < before.len() && before[k] == x && after == before.update(k, before.last()).drop_last(),
    ensures
        after.contains(before[j]),
{
    let k = choose|k: int| 0 <= k < before.len() && before[k] == x && after == before.update(k, before.last()).drop_last();
    if j == before.len() - 1 {
        assert(after[k] == before[j]);
    } else {
        assert(after[j] == before[j]);
    }
}

/// One growth step at boundary position `idx`, from `visited`, `succ` and
/// `boundary` to `visited2`, `succ2` and `boundary2`. Let `v` be the vertex
/// there and `w` its successor. If they share no unvisited neighbor, `v`
/// leaves the boundary (the last element takes its place). Otherwise the
/// first such neighbor `u` is spliced in between them, marked visited and
/// appended to the boundary, and then `v`, `u` and `w` are pruned in turn.
pub open spec fn step_result(
    adj: Seq<Seq<usize>>,
    visited: Seq<bool>,
    succ: Seq<usize>,
    boundary: Seq<usize>,
    idx: int,
    visited2: Seq<bool>,
    succ2: Seq<usize>,
    boundary2: Seq<usize>,
) -> bool {
    let v = boundary[idx];
    let w = succ[v as int];
    if !can_grow(adj, visited, v, w) {
        &&& visited2 == visited
        &&& succ2 == succ
        &&& boundary2 == boundary.update(idx, boundary.last()).drop_last()
    } else {
        exists|u: usize|
            {
                &&& #[trigger] first_common(adj, visited, v, w, u)
                &&& succ2 == succ.update(v as int, u).update(u as int, w)
                &&& visited2 == visited.update(u as int, true)
                &&& exists|b1: Seq<usize>, b2: Seq<usize>|
                    {
                        &&& #[trigger] pruned(adj, visited2, succ2, boundary.push(u), v, b1)
                        &&& #[trigger] pruned(adj, visited2, succ2, b1, u, b2)
                        &&& pruned(adj, visited2, succ2, b2, w, boundary2)
                    }
            }
    }
}

/// Performs one growth step at boundary position `idx` (see `step_result`);
/// returns whether a vertex was spliced in.
pub fn grow_step(
    graph: &NeighborGraph,
    succ: &mut Vec<usize>,
    visited: &mut Vec<bool>,
    boundary: &mut Vec<usize>,
    idx: usize,
) -> (r: bool)
    requires
        entries_in_range(graph@),
        old(succ).len() == graph@.len(),
        old(visited).len() == graph@.len(),
        forall|x: int| 0 <= x < graph@.len() ==> #[trigger] old(succ)[x] < graph@.len(),
        idx < old(boundary).len(),
        old(boundary)[idx as int] < graph@.len(),
    ensures
        step_result(
            graph@,
            old(visited)@,
            old(succ)@,
            old(boundary)@,
            idx as int,
            final(visited)@,
            final(succ)@,
            final(boundary)@,
        ),
        r == can_grow(graph@, old(visited)@, old(boundary)@[idx as int], old(succ)@[old(boundary)@[idx as int] as int]),
{
    let n = graph.len();
    let v = boundary[idx];
    let w = succ[v];
    match common_unvisited(graph, visited, v, w) {
        None => {
            proof {
                assert(!can_grow(graph@, visited@, v, w));
            }
            boundary.swap_remove(idx);
            false
        },
        Some(u) => {
            let ghost vis0 = visited@;
            let ghost s0 = succ@;
            let ghost bd0 = boundary@;
            proof {
                assert(can_grow(graph@, visited@, v, w));
            }
            succ.set(v, u);
            succ.set(u, w);
            visited.set(u, true);
            boundary.push(u);
            proof {
                assert(succ@ =~= s0.update(v as int, u).update(u as int, w));
                assert forall|x: int| 0 <= x < n implies #[trigger] succ[x] < n by {
                    assert(s0[x] < n);
                }
            }
            let ghost bp = boundary@;
            prune(graph, visited, succ, boundary, v);
            let ghost b1 = boundary@;
            prune(graph, visited, succ, boundary, u);
            let ghost b2 = boundary@;
            prune(graph, visited, succ, boundary, w);
            proof {
                assert(bp == bd0.push(u));
                assert(pruned(graph@, visited@, succ@, bd0.push(u), v, b1));
                assert(pruned(graph@, visited@, succ@, b1, u, b2));
                assert(first_common(graph@, vis0, v, w, u));
            }
            true
        },
    }
}

/// Grows a cycle from the triangle `seed -> a -> b -> seed`: a random boundary
/// vertex `v` with successor `w` takes in the first unvisited common neighbor
/// of `v` and `w`, or leaves the boundary when there is none. Growth stops
/// when at most two boundary vertices remain or every point is on the cycle.
/// The cycle is read from the vertex after `seed` round to `seed`.
pub fn grow_cycle(graph: &NeighborGraph, seed: usize, a: usize, b: usize, rng: &mut StdRng) -> (r: Vec<usize>)
    requires
        well_formed(graph@),
        seed < graph@.len(),
        graph@[seed as int].contains(a),
        graph@[seed as int].contains(b),
        graph@[a as int].contains(b),
    ensures
        is_cycle(graph@, r@),
        r.len() <= graph@.len(),
        r@.last() == seed,
        r.len() == graph@.len() || exists|b: Seq<usize>|
            b.len() <= 2 && forall|k: int|
                0 <= k < r.len() && #[trigger] can_grow_off(graph@, r@, r[k], ring_next(r@, k)) ==> b.contains(r[k]),
{
    let n = graph.len();
    proof {
        let ra = graph@[seed as int];
        let ja = choose|j: int| 0 <= j < ra.len() && ra[j] == a;
        let jb = choose|j: int| 0 <= j < ra.len() && ra[j] == b;
        assert(ra[ja] < n && ra[jb] < n);
        assert(a != seed && b != seed);
        assert(a != b);
        assert(graph@[b as int].contains(seed));
        assert(graph@[b as int].contains(a));
    }
    let mut succ: Vec<usize> = Vec::new();
    let mut visited: Vec<bool> = Vec::new();
    while succ.len() < n
        invariant
            succ.len() == visited.len(),
            succ.len() <= n,
            forall|x: int| 0 <= x < succ.len() ==> succ[x] == x,
            forall|x: int| 0 <= x < visited.len() ==> !visited[x],
        decreases n - succ.len(),
    {
        let x = succ.len();
        succ.push(x);
        visited.push(false);
    }
    succ.set(seed, a);
    succ.set(a, b);
    succ.set(b, seed);
    visited.set(seed, true);
    visited.set(a, true);
    visited.set(b, true);
    let mut boundary: Vec<usize> = Vec::new();
    boundary.push(seed);
    boundary.push(a);
    boundary.push(b);
    let mut count: usize = 3;
    let ghost mut c: Seq<usize> = seq![seed, a, b];
    proof {
        assert forall|x: usize| x < n implies (visited[x as int] <==> c.contains(x)) by {
            if x == seed {
                assert(c[0] == x);
            } else if x == a {
                assert(c[1] == x);
            } else if x == b {
                assert(c[2] == x);
            }
        }
        assert(c[0] == seed && c[1] == a && c[2] == b);
        assert(succ[seed as int] == a && succ[a as int] == b && succ[b as int] == seed);
        assert(links(c, succ@));
        assert(ring_edges(graph@, c));
        assert forall|x: usize|
            x < n && visited[x as int] && #[trigger] can_grow(graph@, visited@, x, succ@[x as int]) implies boundary@.contains(x) by {
            if x == seed {
                assert(boundary@[0] == x);
            } else if x == a {
                assert(boundary@[1] == x);
            } else {
                assert(c.contains(x));
                assert(boundary@[2] == x);
            }
        }
    }
    while boundary.len() > 2 && count < n
        invariant
            n == graph@.len(),
            entries_in_range(graph@),
            symmetric(graph@),
            seed < n,
            succ.len() == n,
            visited.len() == n,
            forall|x: int| 0 <= x < n ==> #[trigger] succ[x] < n,
            c.len() == count,
            3 <= count <= n,
            c[0] == seed,
            c.no_duplicates(),
            forall|k: int| 0 <= k < c.len() ==> #[trigger] c[k] < n,
            links(c, succ@),
            ring_edges(graph@, c),
            forall|x: usize| x < n ==> (#[trigger] visited[x as int] <==> c.contains(x)),
            forall|k: int| 0 <= k < boundary.len() ==> #[trigger] boundary[k] < n && visited[boundary[k] as int],
            forall|x: usize|
                x < n && visited[x as int] && #[trigger] can_grow(graph@, visited@, x, succ@[x as int]) ==> boundary@.contains(x),
        decreases 2 * (n - count) + boundary.len(),
    {
        let idx = below(rng, boundary.len());
        let ghost before = boundary@;
        let ghost s0 = succ@;
        let ghost vis0 = visited@;
        let ghost v = before[idx as int];
        let ghost w = s0[v as int];
        assert(v < n);
        let grew = grow_step(graph, &mut succ, &mut visited, &mut boundary, idx);
        if grew {
            count = count + 1;
        }
        proof {
            if !can_grow(graph@, vis0, v, w) {
                assert forall|k: int| 0 <= k < boundary.len() implies #[trigger] boundary[k] < n && visited[boundary[k] as int] by {
                    if k == idx {
                        assert(boundary[k] == before[before.len() - 1]);
                    } else {
                        assert(boundary[k] == before[k]);
                    }
                }
                assert forall|x: usize|
                    x < n && visited[x as int] && #[trigger] can_grow(graph@, visited@, x, succ@[x as int])
                        implies boundary@.contains(x) by {
                    let j = choose|j: int| 0 <= j < before.len() && before[j] == x;
                    lemma_swap_remove_keeps(before, boundary@, v, j);
                }
            } else {
                let u = choose|u: usize|
                    {
                        &&& #[trigger] first_common(graph@, vis0, v, w, u)
                        &&& succ@ == s0.update(v as int, u).update(u as int, w)
                        &&& visited@ == vis0.update(u as int, true)
                        &&& exists|b1: Seq<usize>, b2: Seq<usize>|
                            {
                                &&& #[trigger] pruned(graph@, visited@, succ@, before.push(u), v, b1)
                                &&& #[trigger] pruned(graph@, visited@, succ@, b1, u, b2)
                                &&& pruned(graph@, visited@, succ@, b2, w, boundary@)
                            }
                    };
                let (b1, b2) = choose|b1: Seq<usize>, b2: Seq<usize>|
                    {
                        &&& #[trigger] pruned(graph@, visited@, succ@, before.push(u), v, b1)
                        &&& #[trigger] pruned(graph@, visited@, succ@, b1, u, b2)
                        &&& pruned(graph@, visited@, succ@, b2, w, boundary@)
                    };
                let kk = choose|k: int|
                    {
                        &&& 0 <= k < graph@[v as int].len()
                        &&& #[trigger] graph@[v as int][k] == u
                        &&& u < vis0.len()
                        &&& !vis0[u as int]
                        &&& graph@[w as int].contains(u)
                        &&& forall|j: int|
                            0 <= j < k ==> !(graph@[w as int].contains(#[trigger] graph@[v as int][j]) && !vis0[graph@[v as int][j] as int])
                    };
                assert(graph@[v as int].contains(u));
                let b0 = before.push(u);
                lemma_pruned_keeps(graph@, visited@, succ@, b0, v, b1);
                lemma_pruned_keeps(graph@, visited@, succ@, b1, u, b2);
                lemma_pruned_keeps(graph@, visited@, succ@, b2, w, boundary@);
                let p = choose|p: int| 0 <= p < c.len() && c[p] == v;
                assert(vis0[v as int]);
                assert(c.contains(v));
                assert(!c.contains(u));
                assert(w == s0[c[p] as int]);
                assert(graph@[u as int].contains(w));
                lemma_splice(graph@, c, s0, p, u);
                c = c.insert(p + 1, u);
                assert forall|x: int| 0 <= x < n implies #[trigger] succ[x] < n by {
                    assert(s0[x] < n);
                }
                assert forall|x: usize| x < n implies (#[trigger] visited[x as int] <==> c.contains(x)) by {}
                assert forall|k: int| 0 <= k < c.len() implies #[trigger] c[k] < n by {
                    if c[k] != u {
                        assert(c.contains(c[k]));
                    }
                }
                assert forall|k: int| 0 <= k < boundary.len() implies #[trigger] boundary[k] < n && visited[boundary[k] as int] by {
                    assert(b2.contains(boundary[k]));
                    let j2 = choose|j: int| 0 <= j < b2.len() && b2[j] == boundary[k];
                    assert(b1.contains(b2[j2]));
                    let j1 = choose|j: int| 0 <= j < b1.len() && b1[j] == boundary[k];
                    assert(b0.contains(b1[j1]));
                    let j0 = choose|j: int| 0 <= j < b0.len() && b0[j] == boundary[k];
                    if j0 < before.len() {
                        assert(b0[j0] == before[j0]);
                    }
                }
                assert forall|x: usize|
                    x < n && visited[x as int] && #[trigger] can_grow(graph@, visited@, x, succ@[x as int])
                        implies boundary@.contains(x) by {
                    assert(b0.contains(x)) by {
                        if x == u {
                            assert(b0[before.len() as int] == x);
                        } else if x == v {
                            assert(before[idx as int] == x);
                            assert(b0[idx as int] == x);
                        } else {
                            assert(succ@[x as int] == s0[x as int]);
                            assert(vis0[x as int]);
                            let z = choose|z: usize| z < visited@.len() && !visited@[z as int]
                                && #[trigger] graph@[x as int].contains(z) && graph@[succ@[x as int] as int].contains(z);
                            assert(!vis0[z as int]);
                            assert(can_grow(graph@, vis0, x, s0[x as int]));
                            let j = choose|j: int| 0 <= j < before.len() && before[j] == x;
                            assert(b0[j] == x);
                        }
                    }
                    assert(b1.contains(x));
                    assert(b2.contains(x));
                }
            }
        }
    }
    let ghost final_boundary = boundary@;
    let mut path: Vec<usize> = Vec::new();
    let mut cur = succ[seed];
    while cur != seed
        invariant
            n == graph@.len(),
            succ.len() == n,
            c[0] == seed,
            c.no_duplicates(),
            c.len() >= 3,
            forall|k: int| 0 <= k < c.len() ==> #[trigger] c[k] < n,
            links(c, succ@),
            path.len() + 1 <= c.len(),
            path@ == c.subrange(1, path.len() + 1),
            cur == if path.len() + 1 < c.len() { c[path.len() + 1] } else { c[0] },
        decreases c.len() - path.len(),
    {
        proof {
            if path.len() + 1 < c.len() {
                assert(c[path.len() + 1] != c[0]);
            }
        }
        path.push(cur);
        cur = succ[cur];
        proof {
            assert(path@ =~= c.subrange(1, path.len() + 1));
        }
    }
    proof {
        if path.len() + 1 < c.len() {
            assert(c[path.len() + 1] != c[0]);
        }
    }
    path.push(seed);
    proof {
        lemma_rotate(graph@, c);
        assert(path@ =~= c.subrange(1, c.len() as int).push(c[0]));
        lemma_rotate_links(c, succ@);
        if path.len() != n {
            assert(final_boundary.len() <= 2);
            assert forall|k: int|
                0 <= k < path.len() && #[trigger] can_grow_off(graph@, path@, path[k], ring_next(path@, k))
                    implies final_boundary.contains(path[k]) by {
                let x = path[k];
                assert(path@.contains(x));
                assert(c.contains(x));
                assert(visited[x as int]);
                let z = choose|z: usize| !path@.contains(z) && #[trigger] graph@[x as int].contains(z)
                    && graph@[ring_next(path@, k) as int].contains(z);
                let j = choose|j: int| 0 <= j < graph@[x as int].len() && graph@[x as int][j] == z;
                assert(z < n);
                assert(!c.contains(z));
                assert(!visited[z as int]);
                assert(succ@[x as int] == ring_next(path@, k));
                assert(can_grow(graph@, visited@, x, succ@[x as int]));
            }
        }
    }
    path
}

/// Positions `i < j` in the neighbor list of `s` hold adjacent vertices, and
/// no pair before them in scan order (by `i`, then by `j`) does.
pub open spec fn first_triangle(adj: Seq<Seq<usize>>, s: int, i: int, j: int) -> bool {
    &&& 0 <= i < j < adj[s].len()
    &&& adj[adj[s][i] as int].contains(adj[s][j])
    &&& forall|i2: int, j2: int|
        0 <= i2 < j2 < adj[s].len() && (i2 < i || (i2 == i && j2 < j)) ==> !#[trigger] adj[adj[s][i2] as int].contains(
            #[trigger] adj[s][j2],
        )
}

/// The first pair of mutually adjacent neighbors of `seed` in scan order.
pub fn find_triangle(graph: &NeighborGraph, seed: usize) -> (r: Option<(usize, usize)>)
    requires
        entries_in_range(graph@),
        seed < graph@.len(),
    ensures
        r is None <==> !has_triangle(graph@, seed as int),
        r matches Some((a, b)) ==> exists|i: int, j: int|
            first_triangle(graph@, seed as int, i, j) && a == #[trigger] graph@[seed as int][i] && b == #[trigger] graph@[seed as int][j],
{
    let nbrs = graph.neighbors(seed);
    let ghost adj = graph@;
    let ghost sd = seed as int;
    let mut i: usize = 0;
    while i < nbrs.len()
        invariant
            adj == graph@,
            sd == seed,
            entries_in_range(graph@),
            seed < graph@.len(),
            nbrs@ == graph@[sd],
            i <= nbrs.len(),
            forall|i2: int, j2: int|
                0 <= i2 < j2 < adj[sd].len() && i2 < i ==> !#[trigger] adj[adj[sd][i2] as int].contains(#[trigger] adj[sd][j2]),
        decreases nbrs.len() - i,
    {
        let mut j: usize = i + 1;
        while j < nbrs.len()
            invariant
                adj == graph@,
                sd == seed,
                entries_in_range(graph@),
                seed < graph@.len(),
                nbrs@ == graph@[sd],
                i < nbrs.len(),
                i + 1 <= j <= nbrs.len(),
                forall|i2: int, j2: int|
                    0 <= i2 < j2 < adj[sd].len() && (i2 < i || (i2 == i && j2 < j)) ==> !#[trigger] adj[adj[sd][i2] as int].contains(
                        #[trigger] adj[sd][j2],
                    ),
            decreases nbrs.len() - j,
        {
            let x = nbrs[i];
            let y = nbrs[j];
            assert(x < graph@.len()) by {
                assert(graph@[sd][i as int] == x);
            }
            if graph.is_neighbor(x, y) {
                proof {
                    assert(first_triangle(adj, sd, i as int, j as int));
                    assert(has_triangle(adj, sd));
                }
                return Some((x, y));
            }
            j = j + 1;
        }
        i = i + 1;
    }
    None
}

/// The boundary-growth heuristic. A seed is a random vertex of degree three
/// or more, picked in at most `max_tries` draws, else `GraphTooSparse`; a
/// seed without two adjacent neighbors is replaced, at most `max_tries` times
/// in all, else `NoTriangleFound`. The cycle grown from the first seed with a
/// triangle is returned; it may cover only part of the points.
pub fn boundary_growth_path(graph: &NeighborGraph, rng: &mut StdRng, max_tries: usize) -> (r: Result<
    Vec<usize>,
    PathError,
>)
    requires
        well_formed(graph@),
    ensures
        r matches Ok(p) ==> is_cycle(graph@, p@) && p.len() <= graph@.len(),
        r is Err ==> r == Err::<Vec<usize>, PathError>(PathError::GraphTooSparse) || r == Err::<
            Vec<usize>,
            PathError,
        >(PathError::NoTriangleFound),
        (forall|v: int| 0 <= v < graph@.len() ==> #[trigger] graph@[v].len() < 3) ==> r == Err::<
            Vec<usize>,
            PathError,
        >(PathError::GraphTooSparse),
        r == Err::<Vec<usize>, PathError>(PathError::NoTriangleFound) ==> exists|v: int|
            0 <= v < graph@.len() && #[trigger] graph@[v].len() >= 3,
        (forall|v: int| 0 <= v < graph@.len() ==> !#[trigger] has_triangle(graph@, v)) ==> r is Err,
        max_tries == 0 ==> r == Err::<Vec<usize>, PathError>(PathError::GraphTooSparse),
        max_tries > 0 && graph@.len() > 0 && (forall|v: int|
            0 <= v < graph@.len() ==> #[trigger] graph@[v].len() >= 3 && has_triangle(graph@, v)) ==> r is Ok,
{
    let ghost good = max_tries > 0 && (forall|v: int|
        0 <= v < graph@.len() ==> #[trigger] graph@[v].len() >= 3 && has_triangle(graph@, v));
    let n = graph.len();
    if n == 0 {
        return Err(PathError::GraphTooSparse);
    }
    let mut found_seed = false;
    let mut attempt: usize = 0;
    while attempt < max_tries
        invariant
            n == graph@.len(),
            n > 0,
            well_formed(graph@),
            found_seed ==> exists|v: int| 0 <= v < graph@.len() && #[trigger] graph@[v].len() >= 3,
            found_seed ==> attempt > 0,
            attempt <= max_tries,
            good == (max_tries > 0 && (forall|v: int|
                0 <= v < graph@.len() ==> #[trigger] graph@[v].len() >= 3 && has_triangle(graph@, v))),
            good ==> attempt == 0,
        decreases max_tries - attempt,
    {
        let mut seed: usize = n;
        let mut picks: usize = 0;
        while picks < max_tries && seed == n
            invariant
                n == graph@.len(),
                n > 0,
                seed == n || (seed < n && graph@[seed as int].len() >= 3),
                good == (max_tries > 0 && (forall|v: int|
                    0 <= v < graph@.len() ==> #[trigger] graph@[v].len() >= 3 && has_triangle(graph@, v))),
                good && picks > 0 ==> seed != n,
            decreases max_tries - picks,
        {
            let v = below(rng, n);
            if graph.neighbors(v).len() >= 3 {
                seed = v;
            }
            picks = picks + 1;
        }
        if seed == n {
            return Err(PathError::GraphTooSparse);
        }
        found_seed = true;
        match find_triangle(graph, seed) {
            Some((a, b)) => {
                proof {
                    let (i, j) = choose|i: int, j: int|
                        first_triangle(graph@, seed as int, i, j) && a == #[trigger] graph@[seed as int][i] && b
                            == #[trigger] graph@[seed as int][j];
                    assert(graph@[seed as int].contains(a));
                    assert(graph@[seed as int].contains(b));
                }
                return Ok(grow_cycle(graph, seed, a, b, rng));
            },
            None => {},
        }
        attempt = attempt + 1;
    }
    if found_seed {
        Err(PathError::NoTriangleFound)
    } else {
        Err(PathError::GraphTooSparse)
    }
}

} // verus!
