use crate::geometry::{sq_dist, squared_distance, Point};
use vstd::prelude::*;

verus! {

/// Every listed neighbor is the index of a vertex.
pub open spec fn entries_in_range(adj: Seq<Seq<usize>>) -> bool {
    forall|i: int, k: int| 0 <= i < adj.len() && 0 <= k < adj[i].len() ==> (#[trigger] adj[i][k]) < adj.len()
}

/// Every listed neighbor is the index of another vertex, each list is
/// increasing, and adjacency goes both ways.
pub open spec fn well_formed(adj: Seq<Seq<usize>>) -> bool {
    &&& entries_in_range(adj)
    &&& forall|i: int| 0 <= i < adj.len() ==> increasing(#[trigger] adj[i])
    &&& forall|i: int| 0 <= i < adj.len() ==> !(#[trigger] adj[i]).contains(i as usize)
    &&& symmetric(adj)
}

/// `j` is listed under `i` exactly when `i` is listed under `j`.
pub open spec fn symmetric(adj: Seq<Seq<usize>>) -> bool {
    forall|i: usize, j: usize|
        i < adj.len() && j < adj.len() ==> (#[trigger] adj[i as int].contains(j) <==> #[trigger] adj[j as int].contains(i))
}

/// Strictly increasing.
pub open spec fn increasing(s: Seq<usize>) -> bool {
    forall|a: int, b: int| 0 <= a < b < s.len() ==> s[a] < s[b]
}

/// `row` lists, in increasing order, every other point within the squared
/// distance `max` of point `i`.
pub open spec fn row_ok(pts: Seq<Point>, max: int, i: int, row: Seq<usize>) -> bool {
    &&& increasing(row)
    &&& forall|j: usize| #[trigger] row.contains(j) <==> (j < pts.len() && j != i && sq_dist(pts[i], pts[j as int]) <= max)
}

/// `adj` is the neighbor graph of `pts` for the squared threshold `max`.
pub open spec fn adjacency_ok(pts: Seq<Point>, max: int, adj: Seq<Seq<usize>>) -> bool {
    &&& adj.len() == pts.len()
    &&& forall|i: int| 0 <= i < adj.len() ==> row_ok(pts, max, i, #[trigger] adj[i])
}

/// Undirected adjacency over point indices, built once and then only read.
pub struct NeighborGraph {
    adj: Vec<Vec<usize>>,
}

impl View for NeighborGraph {
    type V = Seq<Seq<usize>>;

    closed spec fn view(&self) -> Seq<Seq<usize>> {
        self.adj@.map_values(|row: Vec<usize>| row@)
    }
}

impl NeighborGraph {
    /// The number of vertices.
    pub fn len(&self) -> (r: usize)
        ensures
            r == self@.len(),
    {
        self.adj.len()
    }

    /// The neighbors of vertex `i`, in increasing order.
    pub fn neighbors(&self, i: usize) -> (r: &Vec<usize>)
        requires
            i < self@.len(),
        ensures
            r@ == self@[i as int],
    {
        &self.adj[i]
    }

    /// Whether `j` is a neighbor of `i`.
    pub fn is_neighbor(&self, i: usize, j: usize) -> (r: bool)
        requires
            i < self@.len(),
        ensures
            r == self@[i as int].contains(j),
    {
        let row = &self.adj[i];
        let mut k: usize = 0;
        while k < row.len()
            invariant
                row@ == self@[i as int],
                k <= row.len(),
                forall|m: int| 0 <= m < k ==> row@[m] != j,
            decreases row.len() - k,
        {
            if row[k] == j {
                return true;
            }
            k = k + 1;
        }
        false
    }
}

/// Links every two distinct points whose squared distance is at most
/// `max_sq_dist` (the square of the neighbor distance). Each list comes in
/// increasing index order.
pub fn build_graph(points: &Vec<Point>, max_sq_dist: u64) -> (g: NeighborGraph)
    ensures
        adjacency_ok(points@, max_sq_dist as int, g@),
        well_formed(g@),
{
    let n = points.len();
    let mut adj: Vec<Vec<usize>> = Vec::new();
    let mut i: usize = 0;
    while i < n
        invariant
            n == points.len(),
            i <= n,
            adj.len() == i,
            forall|a: int| 0 <= a < i ==> row_ok(points@, max_sq_dist as int, a, #[trigger] adj@[a]@),
            forall|a: int, k: int| 0 <= a < i && 0 <= k < adj@[a]@.len() ==> #[trigger] adj@[a]@[k] < n,
        decreases n - i,
    {
        let mut row: Vec<usize> = Vec::new();
        let mut j: usize = 0;
        while j < n
            invariant
                n == points.len(),
                i < n,
                j <= n,
                increasing(row@),
                forall|k: int| 0 <= k < row.len() ==> row@[k] < j,
                forall|v: usize| #[trigger] row@.contains(v) <==> (v < j && v != i && sq_dist(points@[i as int], points@[v as int]) <= max_sq_dist),
            decreases n - j,
        {
            let ghost before = row@;
            if j != i && squared_distance(points[i], points[j]) <= max_sq_dist as u128 {
                row.push(j);
                proof {
                    assert forall|v: usize| #[trigger] row@.contains(v) <==> (before.contains(v) || v == j) by {
                        if row@.contains(v) {
                            let k = choose|k: int| 0 <= k < row@.len() && row@[k] == v;
                            if k < before.len() {
                                assert(before[k] == v);
                            }
                        }
                        if before.contains(v) {
                            let k = choose|k: int| 0 <= k < before.len() && before[k] == v;
                            assert(row@[k] == v);
                        }
                        if v == j {
                            assert(row@[before.len() as int] == v);
                        }
                    }
                }
            }
            j = j + 1;
        }
        proof {
            assert forall|k: int| 0 <= k < row@.len() implies row@[k] < n by {}
        }
        adj.push(row);
        proof {
            assert forall|a: int| 0 <= a < i + 1 implies row_ok(points@, max_sq_dist as int, a, #[trigger] adj@[a]@) by {}
        }
        i = i + 1;
    }
    proof {
        let v = adj@.map_values(|row: Vec<usize>| row@);
        assert forall|a: int| 0 <= a < v.len() implies v[a] == adj@[a]@ by {}
        assert forall|a: int, k: int| 0 <= a < v.len() && 0 <= k < v[a].len() implies (#[trigger] v[a][k]) < v.len() by {
            assert(v[a] == adj@[a]@);
        }
        assert(adjacency_ok(points@, max_sq_dist as int, v));
        lemma_neighbors_symmetric(points@, max_sq_dist as int, v);
        assert forall|a: int| 0 <= a < v.len() implies !(#[trigger] v[a]).contains(a as usize) by {
            assert(row_ok(points@, max_sq_dist as int, a, v[a]));
        }
        assert forall|a: int| 0 <= a < v.len() implies increasing(#[trigger] v[a]) by {
            assert(row_ok(points@, max_sq_dist as int, a, v[a]));
        }
    }
    let g = NeighborGraph { adj };
    proof {
        assert(g@.len() == n);
        assert forall|a: int| 0 <= a < n implies g@[a] == adj@[a]@ by {}
        assert(adjacency_ok(points@, max_sq_dist as int, g@));
    }
    g
}

/// The squared distance does not depend on the order of the two points.
pub proof fn lemma_sq_dist_symmetric(p: Point, q: Point)
    ensures
        sq_dist(p, q) == sq_dist(q, p),
{
    assert((p.x - q.x) * (p.x - q.x) == (q.x - p.x) * (q.x - p.x)) by (nonlinear_arith);
    assert((p.y - q.y) * (p.y - q.y) == (q.y - p.y) * (q.y - p.y)) by (nonlinear_arith);
}

/// The neighbor graph is symmetric: `j` is a neighbor of `i` exactly when `i`
/// is a neighbor of `j`.
pub proof fn lemma_neighbors_symmetric(pts: Seq<Point>, max: int, adj: Seq<Seq<usize>>)
    requires
        adjacency_ok(pts, max, adj),
    ensures
        forall|i: usize, j: usize|
            i < adj.len() && j < adj.len() ==> (#[trigger] adj[i as int].contains(j) <==> #[trigger] adj[j as int].contains(i)),
{
    assert forall|i: usize, j: usize| i < adj.len() && j < adj.len() implies (#[trigger] adj[i as int].contains(j) <==> #[trigger] adj[j as int].contains(i)) by {
        assert(row_ok(pts, max, i as int, adj[i as int]));
        assert(row_ok(pts, max, j as int, adj[j as int]));
        lemma_sq_dist_symmetric(pts[i as int], pts[j as int]);
    }
}

} // verus!
