use rand::rngs::StdRng;
use rand::SeedableRng;
use single_line::boundary::{boundary_growth_path, find_triangle, grow_cycle, grow_step};
use single_line::error::PathError;
use single_line::geometry::Point;
use single_line::graph::{build_graph, NeighborGraph};
use single_line::longest::{longest_path, longest_path_from};

fn lattice(w: i32, h: i32) -> Vec<Point> {
    let mut pts = vec![];
    for y in 0..h {
        for x in 0..w {
            pts.push(Point::new(x, y));
        }
    }
    pts
}

fn no_repeats(p: &[usize]) -> bool {
    let mut s = p.to_vec();
    s.sort();
    s.dedup();
    s.len() == p.len()
}

fn closed_along_edges(g: &NeighborGraph, p: &[usize]) -> bool {
    (0..p.len()).all(|k| g.is_neighbor(p[k], p[(k + 1) % p.len()]))
}

#[test]
fn lattice_neighbors_are_orthogonal() {
    let g = build_graph(&lattice(3, 3), 1);
    assert_eq!(g.len(), 9);
    assert_eq!(g.neighbors(0), &vec![1, 3]);
    assert_eq!(g.neighbors(4), &vec![1, 3, 5, 7]);
    assert_eq!(g.neighbors(8), &vec![5, 7]);
    let g2 = build_graph(&lattice(3, 3), 2);
    assert_eq!(g2.neighbors(4), &vec![0, 1, 2, 3, 5, 6, 7, 8]);
    assert_eq!(g2.neighbors(0), &vec![1, 3, 4]);
}

#[test]
fn neighbor_graph_is_symmetric() {
    let pts = vec![
        Point::new(0, 0),
        Point::new(3, 1),
        Point::new(-2, 5),
        Point::new(7, 7),
        Point::new(3, 1),
        Point::new(1, -4),
    ];
    for t in [0u64, 10, 30, 1000] {
        let g = build_graph(&pts, t);
        for i in 0..pts.len() {
            assert!(!g.is_neighbor(i, i));
            for j in 0..pts.len() {
                assert_eq!(g.is_neighbor(i, j), g.is_neighbor(j, i));
            }
        }
    }
    let g = build_graph(&pts, 0);
    assert_eq!(g.neighbors(1), &vec![4]);
}

#[test]
fn empty_point_set_gives_empty_graph() {
    let g = build_graph(&vec![], 5);
    assert_eq!(g.len(), 0);
}

#[test]
fn triangle_search_takes_first_pair() {
    let g = build_graph(&lattice(3, 3), 2);
    assert_eq!(find_triangle(&g, 0), Some((1, 3)));
    let square = build_graph(&lattice(3, 3), 1);
    assert_eq!(find_triangle(&square, 4), None);
}

#[test]
fn orthogonal_lattice_has_no_triangle() {
    let g = build_graph(&lattice(3, 3), 1);
    let mut rng = StdRng::seed_from_u64(1);
    assert_eq!(boundary_growth_path(&g, &mut rng, 50), Err(PathError::NoTriangleFound));
}

#[test]
fn sparse_graph_is_refused() {
    let g = build_graph(&lattice(4, 1), 1);
    let mut rng = StdRng::seed_from_u64(2);
    assert_eq!(boundary_growth_path(&g, &mut rng, 50), Err(PathError::GraphTooSparse));
    let mut rng = StdRng::seed_from_u64(2);
    assert_eq!(boundary_growth_path(&build_graph(&vec![], 1), &mut rng, 5), Err(PathError::GraphTooSparse));
}

#[test]
fn lattice_with_diagonals_grows_a_cycle() {
    let g = build_graph(&lattice(3, 3), 2);
    for seed in 0..20u64 {
        let mut rng = StdRng::seed_from_u64(seed);
        let p = boundary_growth_path(&g, &mut rng, 50).unwrap();
        assert!(no_repeats(&p));
        assert!(p.len() >= 3 && p.len() <= 9);
        assert!(closed_along_edges(&g, &p));
    }
}

#[test]
fn grown_cycle_ends_at_seed() {
    let g = build_graph(&lattice(4, 4), 2);
    let mut rng = StdRng::seed_from_u64(9);
    let p = grow_cycle(&g, 5, 0, 1, &mut rng);
    assert_eq!(*p.last().unwrap(), 5);
    assert!(no_repeats(&p));
    assert!(closed_along_edges(&g, &p));
}

#[test]
fn longest_path_on_a_line() {
    let g = build_graph(&lattice(4, 1), 1);
    assert_eq!(longest_path_from(&g, 0), vec![3, 2, 1]);
    assert_eq!(longest_path_from(&g, 2), vec![0, 1]);
}

#[test]
fn longest_path_never_revisits() {
    let g = build_graph(&lattice(3, 3), 1);
    for seed in 0..20u64 {
        let mut rng = StdRng::seed_from_u64(seed);
        let p = longest_path(&g, &mut rng, 10);
        assert!(!p.is_empty());
        assert!(p.len() <= 8);
        assert!(no_repeats(&p));
        for k in 0..p.len() - 1 {
            assert!(g.is_neighbor(p[k], p[k + 1]));
        }
    }
}

#[test]
fn longest_path_without_edges_is_empty() {
    let g = build_graph(&vec![Point::new(0, 0), Point::new(10, 10)], 1);
    let mut rng = StdRng::seed_from_u64(0);
    assert_eq!(longest_path(&g, &mut rng, 10), Vec::<usize>::new());
}

#[test]
fn zero_tries_is_too_sparse() {
    let g = build_graph(&lattice(3, 3), 2);
    let mut rng = StdRng::seed_from_u64(3);
    assert_eq!(boundary_growth_path(&g, &mut rng, 0), Err(PathError::GraphTooSparse));
}

#[test]
fn dense_graph_always_grows() {
    // Every pair is adjacent, so every vertex has degree 4 and a triangle.
    let pts = lattice(5, 1);
    let g = build_graph(&pts, 16);
    for seed in 0..10u64 {
        let mut rng = StdRng::seed_from_u64(seed);
        let p = boundary_growth_path(&g, &mut rng, 1).unwrap();
        assert_eq!(p.len(), 5);
        assert!(no_repeats(&p));
    }
}

#[test]
fn growth_step_splices_then_prunes() {
    let g = build_graph(&lattice(4, 1), 9);
    let mut succ = vec![1usize, 2, 0, 3];
    let mut visited = vec![true, true, true, false];
    let mut boundary = vec![0usize, 1, 2];
    assert!(grow_step(&g, &mut succ, &mut visited, &mut boundary, 0));
    assert_eq!(succ, vec![3, 2, 0, 1]);
    assert_eq!(visited, vec![true; 4]);
    assert_eq!(boundary, vec![2]);
    assert!(!grow_step(&g, &mut succ, &mut visited, &mut boundary, 0));
    assert_eq!(boundary, Vec::<usize>::new());
    assert_eq!(succ, vec![3, 2, 0, 1]);
}
