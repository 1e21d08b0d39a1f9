use rand::rngs::StdRng;
use rand::SeedableRng;
use single_line::error::PathError;
use single_line::genetic::{
    breed, cross_genes, cross_vectors, next_generation, random_population, select_elites, tour_from_unselected,
};
use single_line::geometry::tour_visits;

fn closed_length(points: &[(f32, f32)], tour: &Vec<usize>) -> f32 {
    let visits = tour_visits(points.len(), Some(tour), true).unwrap();
    let mut length = 0f32;
    for i in 0..visits.len() - 1 {
        let p = points[visits[i]];
        let q = points[visits[i + 1]];
        length += ((q.0 - p.0) * (q.0 - p.0) + (q.1 - p.1) * (q.1 - p.1)).sqrt();
    }
    length
}

fn is_permutation(t: &[usize], n: usize) -> bool {
    let mut seen = vec![false; n];
    for &v in t {
        if v >= n || seen[v] {
            return false;
        }
        seen[v] = true;
    }
    t.len() == n
}

/// Runs the population search and records the best length of each generation.
fn run(points: &[(f32, f32)], generations: usize, seed: u64) -> (Vec<usize>, Vec<f32>) {
    let mut rng = StdRng::seed_from_u64(seed);
    let n = points.len();
    let mut tours = random_population(n, 50, &mut rng);
    let mut bests = vec![];
    for _ in 0..generations {
        let lengths: Vec<f32> = tours.iter().map(|t| closed_length(points, t)).collect();
        let keys: Vec<u64> = lengths.iter().map(|l| l.to_bits() as u64).collect();
        let best = lengths.iter().cloned().fold(f32::INFINITY, f32::min);
        bests.push(best);
        tours = next_generation(&tours, &keys, 1, 100, n, &mut rng);
    }
    (tours[0].clone(), bests)
}

fn corners() -> Vec<(f32, f32)> {
    vec![(0f32, 0f32), (1f32, 0f32), (0f32, 1f32), (1f32, 1f32)]
}

#[test]
fn draws_pick_from_shrinking_pool() {
    assert_eq!(tour_from_unselected(3, vec![0, 0, 0]), Ok(vec![0, 1, 2]));
    assert_eq!(tour_from_unselected(3, vec![2, 1, 0]), Ok(vec![2, 1, 0]));
    assert_eq!(tour_from_unselected(3, vec![5, 7]), Ok(vec![2, 1]));
    assert_eq!(tour_from_unselected(0, vec![]), Ok(vec![]));
}

#[test]
fn too_many_draws_empty_the_pool() {
    assert_eq!(tour_from_unselected(2, vec![0, 0, 0]), Err(PathError::EmptyPool));
}

#[test]
fn elites_are_two_smallest_first_seen() {
    assert_eq!(select_elites(&vec![5, 3, 4]), (1, 2));
    assert_eq!(select_elites(&vec![2, 2, 1]), (2, 0));
    assert_eq!(select_elites(&vec![1, 1]), (0, 1));
    assert_eq!(select_elites(&vec![4, 9, 4, 1, 1]), (3, 4));
}

#[test]
fn crossover_without_mutation_takes_parent_genes() {
    let mut rng = StdRng::seed_from_u64(3);
    let p = vec![0usize, 1, 2, 3, 4];
    let q = vec![4usize, 3, 2, 1];
    for _ in 0..20 {
        let c = cross_vectors(&p, &q, 0, 100, 5, &mut rng);
        assert_eq!(c.len(), 4);
        for i in 0..4 {
            assert!(c[i] == p[i] || c[i] == q[i]);
        }
    }
}

#[test]
fn crossover_with_certain_mutation_stays_in_range() {
    let mut rng = StdRng::seed_from_u64(4);
    let p = vec![100usize; 6];
    let q = vec![200usize; 6];
    let c = cross_vectors(&p, &q, 1, 1, 3, &mut rng);
    assert_eq!(c.len(), 6);
    assert!(c.iter().all(|&g| g < 3));
}

#[test]
fn breeding_keeps_parents_first() {
    let mut rng = StdRng::seed_from_u64(5);
    let a = vec![0usize, 1, 2];
    let b = vec![2usize, 1, 0];
    let next = breed(&a, &b, 6, 1, 100, 3, &mut rng);
    assert_eq!(next.len(), 6);
    assert_eq!(next[0], a);
    assert_eq!(next[1], b);
    assert!(next.iter().all(|t| t.len() == 3));
}

#[test]
fn next_generation_keeps_elites() {
    let mut rng = StdRng::seed_from_u64(6);
    let tours = vec![vec![0usize, 1, 2], vec![1, 2, 0], vec![2, 0, 1]];
    let keys = vec![7u64, 3, 5];
    let next = next_generation(&tours, &keys, 1, 100, 3, &mut rng);
    assert_eq!(next.len(), 3);
    assert_eq!(next[0], tours[1]);
    assert_eq!(next[1], tours[2]);
}

#[test]
fn initial_population_is_permutations() {
    let mut rng = StdRng::seed_from_u64(7);
    let pop = random_population(9, 30, &mut rng);
    assert_eq!(pop.len(), 30);
    assert!(pop.iter().all(|t| is_permutation(t, 9)));
}

#[test]
fn same_seed_same_result() {
    let pts = vec![(0f32, 0f32), (5f32, 1f32), (2f32, 7f32), (9f32, 3f32), (4f32, 4f32), (8f32, 8f32)];
    assert_eq!(run(&pts, 15, 11), run(&pts, 15, 11));
}

#[test]
fn best_length_never_increases() {
    let pts = vec![(0f32, 0f32), (5f32, 1f32), (2f32, 7f32), (9f32, 3f32), (4f32, 4f32), (8f32, 8f32)];
    let (_, bests) = run(&pts, 25, 12);
    for w in bests.windows(2) {
        assert!(w[1] <= w[0]);
    }
}

#[test]
fn unit_square_search_terminates() {
    let pts = corners();
    let (tour, _) = run(&pts, 10, 13);
    assert_eq!(tour.len(), 4);
    assert!(tour.iter().all(|&i| i < 4));
    let (first, _) = run(&pts, 0, 13);
    assert!(is_permutation(&first, 4));
}

#[test]
fn crossover_follows_its_coins() {
    let p = vec![0usize, 1, 2];
    let q = vec![5usize, 6, 7, 8];
    let mutate = vec![false, true, false];
    let from_p = vec![true, false, false];
    let draws = vec![0u64, 10, 0];
    assert_eq!(cross_genes(&p, &q, &mutate, &from_p, &draws, 4), vec![0, 2, 7]);
    assert_eq!(cross_genes(&vec![], &q, &vec![], &vec![], &vec![], 4), Vec::<usize>::new());
}
