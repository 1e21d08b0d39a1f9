use crate::graph::{entries_in_range, well_formed, NeighborGraph};
use crate::random::below;
use rand::rngs::StdRng;
use vstd::prelude::*;
use vstd::set_lib::{lemma_int_range, lemma_len_subset, set_int_range};

verus! {

/// A simple path in `adj` read backwards: distinct vertices, each a neighbor
/// of the one after it, and the last a neighbor of `root`.
pub open spec fn is_path_towards(adj: Seq<Seq<usize>>, root: usize, p: Seq<usize>) -> bool {
    &&& p.no_duplicates()
    &&& forall|k: int| 0 <= k < p.len() ==> #[trigger] p[k] < adj.len()
    &&& forall|k: int| 0 <= k < p.len() - 1 ==> adj[p[k + 1] as int].contains(#[trigger] p[k])
    &&& p.len() > 0 ==> adj[root as int].contains(p.last())
}

/// The state of the depth-first search: parents (`n` for unreached),
/// depths, the work list, the deepest vertex so far and its depth.
pub type DfsState = (Seq<usize>, Seq<usize>, Seq<usize>, usize, usize);

/// Only the seed is reached, as its own parent at depth 0.
pub open spec fn dfs_start(n: usize, seed: usize) -> DfsState {
    (
        Seq::new(n as nat, |i: int| if i == seed { seed } else { n }),
        Seq::new(n as nat, |i: int| 0usize),
        seq![seed],
        seed,
        0usize,
    )
}

/// Looking at neighbor `nb` of `cur`: an unreached neighbor gets `cur` as
/// parent, one more than its depth, a place on the work list, and becomes
/// the deepest vertex if it is strictly deeper than the record.
pub open spec fn dfs_visit(s: DfsState, cur: usize, nb: usize, n: usize) -> DfsState {
    if s.0[nb as int] == n {
        let d = (s.1[cur as int] + 1) as usize;
        (
            s.0.update(nb as int, cur),
            s.1.update(nb as int, d),
            s.2.push(nb),
            if d > s.4 { nb } else { s.3 },
            if d > s.4 { d } else { s.4 },
        )
    } else {
        s
    }
}

/// Looking at the first `k` neighbors in `nbrs`, in order.
pub open spec fn dfs_scan(s: DfsState, cur: usize, nbrs: Seq<usize>, k: nat, n: usize) -> DfsState
    decreases k,
{
    if k == 0 {
        s
    } else {
        dfs_visit(dfs_scan(s, cur, nbrs, (k - 1) as nat, n), cur, nbrs[k - 1], n)
    }
}

/// Takes the last vertex off the work list and looks at all its neighbors.
pub open spec fn dfs_pop(adj: Seq<Seq<usize>>, s: DfsState, n: usize) -> DfsState {
    let cur = s.2.last();
    dfs_scan((s.0, s.1, s.2.drop_last(), s.3, s.4), cur, adj[cur as int], adj[cur as int].len(), n)
}

/// Runs the search for at most `fuel` pops or until the work list is empty.
pub open spec fn dfs_run(adj: Seq<Seq<usize>>, s: DfsState, fuel: nat, n: usize) -> DfsState
    decreases fuel,
{
    if fuel == 0 || s.2.len() == 0 {
        s
    } else {
        dfs_run(adj, dfs_pop(adj, s, n), (fuel - 1) as nat, n)
    }
}

/// Follows parent links from `v` until `seed`, for at most `fuel` steps,
/// leaving the seed out.
pub open spec fn parent_chain(parent: Seq<usize>, v: usize, seed: usize, fuel: nat) -> Seq<usize>
    decreases fuel,
{
    if fuel == 0 || v == seed {
        Seq::empty()
    } else {
        seq![v] + parent_chain(parent, parent[v as int], seed, (fuel - 1) as nat)
    }
}

/// The search from `seed` runs to the end (every vertex is popped at most
/// once), and the result is the parent chain of the first deepest vertex.
pub open spec fn dfs_longest(adj: Seq<Seq<usize>>, seed: usize) -> Seq<usize> {
    let n = adj.len() as usize;
    let s = dfs_run(adj, dfs_start(n, seed), (n + 1) as nat, n);
    parent_chain(s.0, s.3, seed, s.4 as nat)
}

/// Depth-first search from `seed` that records parents and depths; the result
/// runs from the deepest vertex (the first found at the greatest depth) back
/// along parent links, without the seed.
#[verifier::rlimit(100)]
pub fn longest_path_from(graph: &NeighborGraph, seed: usize) -> (r: Vec<usize>)
    requires
        seed < graph@.len(),
        entries_in_range(graph@),
    ensures
        is_path_towards(graph@, seed, r@),
        r.len() < graph@.len(),
        (exists|u: usize| u != seed && #[trigger] graph@[seed as int].contains(u)) ==> r.len() > 0,
        r@ == dfs_longest(graph@, seed),
{
    let n = graph.len();
    let mut parent: Vec<usize> = Vec::new();
    let mut depth: Vec<usize> = Vec::new();
    while parent.len() < n
        invariant
            parent.len() == depth.len(),
            parent.len() <= n,
            forall|v: int| 0 <= v < parent.len() ==> parent[v] == n,
            forall|v: int| 0 <= v < depth.len() ==> depth[v] == 0,
        decreases n - parent.len(),
    {
        parent.push(n);
        depth.push(0);
    }
    parent.set(seed, seed);
    let mut stack: Vec<usize> = Vec::new();
    stack.push(seed);
    let mut count: usize = 1;
    let mut deepest: usize = seed;
    let mut best_depth: usize = 0;
    let ghost mut seen: Set<int> = set![seed as int];
    let ghost total = dfs_run(graph@, dfs_start(n, seed), (n + 1) as nat, n);
    let ghost mut iters: nat = 0;
    proof {
        assert(parent@ =~= dfs_start(n, seed).0);
        assert(depth@ =~= dfs_start(n, seed).1);
        assert(stack@ =~= dfs_start(n, seed).2);
        lemma_int_range(0, n as int);
        assert(seen.subset_of(set_int_range(0, n as int)));
        assert(stack@[0] == seed);
        assert forall|v: int| #[trigger] seen.contains(v) implies stack@.contains(v as usize) by {
            assert(v == seed);
        }
    }
    while stack.len() > 0
        invariant
            n == graph@.len(),
            entries_in_range(graph@),
            seed < n,
            parent.len() == n,
            depth.len() == n,
            set_int_range(0, n as int).finite(),
            set_int_range(0, n as int).len() == n,
            seen.subset_of(set_int_range(0, n as int)),
            seen.finite(),
            seen.len() == count,
            count <= n,
            forall|v: int| 0 <= v < n ==> (parent[v] != n <==> #[trigger] seen.contains(v)),
            seen.contains(seed as int),
            parent[seed as int] == seed,
            depth[seed as int] == 0,
            forall|v: int|
                #[trigger] seen.contains(v) && v != seed ==> {
                    &&& parent[v] < n
                    &&& seen.contains(parent[v] as int)
                    &&& depth[v] == depth[parent[v] as int] + 1
                    &&& graph@[parent[v] as int].contains(v as usize)
                },
            forall|v: int| #[trigger] seen.contains(v) ==> depth[v] < count && depth[v] <= best_depth,
            seen.contains(deepest as int),
            deepest < n,
            best_depth == depth[deepest as int],
            stack@.no_duplicates(),
            forall|k: int| 0 <= k < stack.len() ==> seen.contains(#[trigger] stack@[k] as int),
            forall|v: int, k: int|
                #[trigger] seen.contains(v) && !stack@.contains(v as usize) && 0 <= k < graph@[v].len()
                    ==> seen.contains(#[trigger] graph@[v][k] as int),
            dfs_run(graph@, (parent@, depth@, stack@, deepest, best_depth), (n + 1 - iters) as nat, n) == total,
            iters + stack.len() <= count,
        decreases stack.len() + 2 * (n - count),
    {
        let ghost before_pop = stack@;
        let ghost st: DfsState = (parent@, depth@, stack@, deepest, best_depth);
        let ghost fuel: nat = (n + 1 - iters) as nat;
        let ghost popped: DfsState = (parent@, depth@, stack@.drop_last(), deepest, best_depth);
        let cur = stack.pop().unwrap();
        proof {
            assert(before_pop =~= stack@.push(cur));
            assert(seen.contains(cur as int));
            assert forall|k: int| 0 <= k < stack.len() implies seen.contains(#[trigger] stack@[k] as int) by {
                assert(stack@[k] == before_pop[k]);
            }
            assert(!stack@.contains(cur)) by {
                if stack@.contains(cur) {
                    let k = choose|k: int| 0 <= k < stack.len() && stack@[k] == cur;
                    assert(before_pop[k] == before_pop[stack.len() as int]);
                }
            }
            assert forall|v: usize| #[trigger] stack@.contains(v) implies before_pop.contains(v) by {
                let k = choose|k: int| 0 <= k < stack.len() && stack@[k] == v;
                assert(before_pop[k] == v);
            }
        }
        let ghost m0 = stack.len() + 2 * (n - count);
        let nbrs = graph.neighbors(cur);
        let mut k: usize = 0;
        while k < nbrs.len()
            invariant
                n == graph@.len(),
                entries_in_range(graph@),
                seed < n,
                cur < n,
                nbrs@ == graph@[cur as int],
                k <= nbrs.len(),
                parent.len() == n,
                depth.len() == n,
                set_int_range(0, n as int).finite(),
                set_int_range(0, n as int).len() == n,
                seen.subset_of(set_int_range(0, n as int)),
                seen.finite(),
                seen.len() == count,
                count <= n,
                forall|v: int| 0 <= v < n ==> (parent[v] != n <==> #[trigger] seen.contains(v)),
                seen.contains(seed as int),
                seen.contains(cur as int),
                parent[seed as int] == seed,
                depth[seed as int] == 0,
                forall|v: int|
                    #[trigger] seen.contains(v) && v != seed ==> {
                        &&& parent[v] < n
                        &&& seen.contains(parent[v] as int)
                        &&& depth[v] == depth[parent[v] as int] + 1
                        &&& graph@[parent[v] as int].contains(v as usize)
                    },
                forall|v: int| #[trigger] seen.contains(v) ==> depth[v] < count && depth[v] <= best_depth,
                seen.contains(deepest as int),
                deepest < n,
                best_depth == depth[deepest as int],
                stack@.no_duplicates(),
                !stack@.contains(cur),
                forall|j: int| 0 <= j < stack.len() ==> seen.contains(#[trigger] stack@[j] as int),
                forall|v: int, j: int|
                    #[trigger] seen.contains(v) && !stack@.contains(v as usize) && v != cur && 0 <= j < graph@[v].len()
                        ==> seen.contains(#[trigger] graph@[v][j] as int),
                forall|j: int| 0 <= j < k ==> seen.contains(#[trigger] nbrs@[j] as int),
                stack.len() + 2 * (n - count) <= m0,
                iters + stack.len() + 1 <= count,
                (parent@, depth@, stack@, deepest, best_depth) == dfs_scan(popped, cur, nbrs@, k as nat, n),
                popped.0.len() == n,
                popped.1.len() == n,
            decreases nbrs.len() - k,
        {
            let nb = nbrs[k];
            let ghost prev: DfsState = (parent@, depth@, stack@, deepest, best_depth);
            assert(nb < n) by {
                assert(graph@[cur as int][k as int] == nb);
            }
            if parent[nb] == n {
                let ghost old_seen = seen;
                let ghost old_stack = stack@;
                proof {
                    assert(!seen.contains(nb as int));
                    assert(seen.insert(nb as int).len() == seen.len() + 1);
                    seen = seen.insert(nb as int);
                    lemma_len_subset(seen, set_int_range(0, n as int));
                }
                parent.set(nb, cur);
                let d = depth[cur] + 1;
                depth.set(nb, d);
                stack.push(nb);
                count = count + 1;
                if d > best_depth {
                    best_depth = d;
                    deepest = nb;
                }
                proof {
                    assert(graph@[cur as int].contains(nb)) by {
                        assert(graph@[cur as int][k as int] == nb);
                    }
                    assert forall|v: usize| stack@.contains(v) <==> (old_stack.contains(v) || v == nb) by {
                        if stack@.contains(v) {
                            let j = choose|j: int| 0 <= j < stack.len() && stack@[j] == v;
                            if j < old_stack.len() {
                                assert(old_stack[j] == v);
                            }
                        }
                        if old_stack.contains(v) {
                            let j = choose|j: int| 0 <= j < old_stack.len() && old_stack[j] == v;
                            assert(stack@[j] == v);
                        }
                        if v == nb {
                            assert(stack@[old_stack.len() as int] == v);
                        }
                    }
                    assert forall|a: int, b: int| 0 <= a < b < stack.len() implies stack@[a] != stack@[b] by {
                        if b == old_stack.len() {
                            assert(old_stack.contains(stack@[a]));
                            assert(old_seen.contains(stack@[a] as int));
                        } else {
                            assert(stack@[a] == old_stack[a] && stack@[b] == old_stack[b]);
                        }
                    }
                    assert forall|j: int| 0 <= j < stack.len() implies seen.contains(#[trigger] stack@[j] as int) by {
                        if j < old_stack.len() {
                            assert(stack@[j] == old_stack[j]);
                        }
                    }
                    assert forall|v: int| #[trigger] seen.contains(v) && v != seed implies {
                        &&& parent[v] < n
                        &&& seen.contains(parent[v] as int)
                        &&& depth[v] == depth[parent[v] as int] + 1
                        &&& graph@[parent[v] as int].contains(v as usize)
                    } by {
                        if v != nb {
                            assert(old_seen.contains(v));
                        }
                    }
                    assert forall|v: int| #[trigger] seen.contains(v) implies depth[v] < count && depth[v] <= best_depth by {
                        if v != nb {
                            assert(old_seen.contains(v));
                        }
                    }
                    assert forall|u: int, j: int|
                        #[trigger] seen.contains(u) && !stack@.contains(u as usize) && u != cur && 0 <= j < graph@[u].len()
                        implies seen.contains(#[trigger] graph@[u][j] as int) by {
                        if u != nb {
                            assert(old_seen.contains(u));
                            assert(!old_stack.contains(u as usize));
                            assert(old_seen.contains(graph@[u][j] as int));
                        } else {
                            assert(stack@[old_stack.len() as int] == nb);
                            assert(stack@.contains(nb));
                        }
                    }
                    assert forall|j: int| 0 <= j <= k implies seen.contains(#[trigger] nbrs@[j] as int) by {
                        if j < k {
                            assert(old_seen.contains(nbrs@[j] as int));
                        }
                    }
                }
            }
            proof {
                assert(nbrs@[k as int] == nb);
                assert((parent@, depth@, stack@, deepest, best_depth) == dfs_visit(prev, cur, nb, n));
            }
            k = k + 1;
        }
        proof {
            assert(st.2.last() == cur);
            assert(dfs_pop(graph@, st, n) == (parent@, depth@, stack@, deepest, best_depth));
            assert(dfs_run(graph@, st, fuel, n) == dfs_run(graph@, dfs_pop(graph@, st, n), (fuel - 1) as nat, n));
            iters = iters + 1;
            assert forall|u: int, j: int|
                #[trigger] seen.contains(u) && !stack@.contains(u as usize) && 0 <= j < graph@[u].len()
                implies seen.contains(#[trigger] graph@[u][j] as int) by {
                if u == cur {
                    assert(graph@[u][j] == nbrs@[j]);
                }
            }
        }
    }
    proof {
        assert(dfs_run(graph@, (parent@, depth@, stack@, deepest, best_depth), (n + 1 - iters) as nat, n) == (
            parent@,
            depth@,
            stack@,
            deepest,
            best_depth,
        ));
    }
    let mut path: Vec<usize> = Vec::new();
    let mut v: usize = deepest;
    proof {
        assert(path@ + parent_chain(parent@, v, seed, depth[v as int] as nat) =~= parent_chain(parent@, deepest, seed, best_depth as nat));
    }
    while v != seed
        invariant
            n == graph@.len(),
            seed < n,
            parent.len() == n,
            depth.len() == n,
            forall|u: int| 0 <= u < n ==> (parent[u] != n <==> #[trigger] seen.contains(u)),
            seen.contains(v as int),
            v < n,
            seen.contains(seed as int),
            depth[seed as int] == 0,
            forall|u: int|
                #[trigger] seen.contains(u) && u != seed ==> {
                    &&& parent[u] < n
                    &&& seen.contains(parent[u] as int)
                    &&& depth[u] == depth[parent[u] as int] + 1
                    &&& graph@[parent[u] as int].contains(u as usize)
                },
            path.len() + depth[v as int] == best_depth,
            forall|j: int| 0 <= j < path.len() ==> depth[#[trigger] path@[j] as int] == best_depth - j,
            forall|j: int| 0 <= j < path.len() ==> #[trigger] path@[j] < n,
            forall|j: int| 0 <= j < path.len() - 1 ==> graph@[path@[j + 1] as int].contains(#[trigger] path@[j]),
            path.len() > 0 ==> graph@[v as int].contains(path@.last()),
            path@ + parent_chain(parent@, v, seed, depth[v as int] as nat) == parent_chain(
                parent@,
                deepest,
                seed,
                best_depth as nat,
            ),
        decreases depth[v as int],
    {
        let ghost old_path = path@;
        let ghost old_v = v;
        path.push(v);
        v = parent[v];
        proof {
            assert(parent_chain(parent@, old_v, seed, depth[old_v as int] as nat) == seq![old_v] + parent_chain(
                parent@,
                v,
                seed,
                depth[v as int] as nat,
            ));
            assert(path@ + parent_chain(parent@, v, seed, depth[v as int] as nat) =~= old_path + parent_chain(
                parent@,
                old_v,
                seed,
                depth[old_v as int] as nat,
            ));
        }
    }
    proof {
        assert forall|a: int, b: int| 0 <= a < b < path.len() implies path@[a] != path@[b] by {
            assert(depth[path@[a] as int] != depth[path@[b] as int]);
        }
        assert(depth[deepest as int] < count);
        if exists|u: usize| u != seed && #[trigger] graph@[seed as int].contains(u) {
            let u = choose|u: usize| u != seed && #[trigger] graph@[seed as int].contains(u);
            let j = choose|j: int| 0 <= j < graph@[seed as int].len() && graph@[seed as int][j] == u;
            assert(!stack@.contains(seed));
            assert(seen.contains(graph@[seed as int][j] as int));
            assert(depth[u as int] >= 1);
        }
    }
    path
}

/// The longest-path heuristic: a random seed with at least one neighbor
/// (up to `max_tries` random picks, then the first such vertex in index
/// order), then `longest_path_from`. Empty when no vertex has a neighbor.
pub fn longest_path(graph: &NeighborGraph, rng: &mut StdRng, max_tries: usize) -> (r: Vec<usize>)
    requires
        well_formed(graph@),
    ensures
        r.len() == 0 || exists|s: usize| s < graph@.len() && is_path_towards(graph@, s, r@),
        graph@.len() > 0 ==> r.len() < graph@.len(),
        (exists|v: int| 0 <= v < graph@.len() && #[trigger] graph@[v].len() > 0) ==> r.len() > 0,
{
    let n = graph.len();
    if n == 0 {
        return Vec::new();
    }
    let mut seed: usize = n;
    let mut tries: usize = 0;
    while tries < max_tries && seed == n
        invariant
            n == graph@.len(),
            n > 0,
            seed == n || (seed < n && graph@[seed as int].len() > 0),
        decreases max_tries - tries,
    {
        let v = below(rng, n);
        if graph.neighbors(v).len() > 0 {
            seed = v;
        }
        tries = tries + 1;
    }
    let mut v: usize = 0;
    while v < n && seed == n
        invariant
            n == graph@.len(),
            seed == n || (seed < n && graph@[seed as int].len() > 0),
            seed == n ==> forall|u: int| 0 <= u < v ==> #[trigger] graph@[u].len() == 0,
        decreases n - v,
    {
        if graph.neighbors(v).len() > 0 {
            seed = v;
        }
        v = v + 1;
    }
    if seed == n {
        return Vec::new();
    }
    proof {
        let row = graph@[seed as int];
        let u = row[0];
        assert(row.contains(u));
        assert(u != seed);
    }
    longest_path_from(graph, seed)
}

} // verus!
