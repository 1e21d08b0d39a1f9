use crate::error::PathError;
use crate::random::{below, chance, next_u64};
use rand::rngs::StdRng;
use vstd::prelude::*;

verus! {

/// The indices `0..n` in increasing order.
pub open spec fn identity(n: nat) -> Seq<usize> {
    Seq::new(n, |i: int| i as usize)
}

/// Draw without replacement: each draw takes `pool[draw % pool.len()]` out of
/// the pool.
pub open spec fn draw_sequence(pool: Seq<usize>, draws: Seq<usize>) -> Seq<usize>
    decreases draws.len(),
{
    if draws.len() == 0 || pool.len() == 0 {
        Seq::empty()
    } else {
        let k = draws[0] as int % pool.len() as int;
        seq![pool[k]] + draw_sequence(pool.remove(k), draws.drop_first())
    }
}

/// `s` holds distinct indices, each below `n`.
pub open spec fn distinct_below(s: Seq<usize>, n: nat) -> bool {
    &&& s.no_duplicates()
    &&& forall|i: int| 0 <= i < s.len() ==> s[i] < n
}

/// `s` visits each of `0..n` exactly once.
pub open spec fn is_permutation(s: Seq<usize>, n: nat) -> bool {
    &&& s.len() == n
    &&& distinct_below(s, n)
    &&& forall|v: usize| v < n ==> s.contains(v)
}

/// Turns raw draws into a tour: the i-th draw picks, modulo the number of
/// indices still unpicked, one of them and removes it from the pool.
/// Fails with `EmptyPool` when there are more draws than indices.
pub fn tour_from_unselected(num_points: usize, unselected: Vec<usize>) -> (r: Result<
    Vec<usize>,
    PathError,
>)
    ensures
        unselected.len() > num_points <==> r is Err,
        r is Err ==> r == Err::<Vec<usize>, PathError>(PathError::EmptyPool),
        r matches Ok(t) ==> t@ == draw_sequence(identity(num_points as nat), unselected@),
        r matches Ok(t) ==> t.len() == unselected.len() && distinct_below(t@, num_points as nat),
        r matches Ok(t) ==> (unselected.len() == num_points ==> is_permutation(t@, num_points as nat)),
{
    if unselected.len() > num_points {
        return Err(PathError::EmptyPool);
    }
    let mut points: Vec<usize> = Vec::new();
    let mut k: usize = 0;
    while k < num_points
        invariant
            k <= num_points,
            points@ == identity(k as nat),
        decreases num_points - k,
    {
        points.push(k);
        k = k + 1;
        proof {
            assert(points@ =~= identity(k as nat));
        }
    }
    let ghost full = identity(num_points as nat);
    let mut ordering: Vec<usize> = Vec::new();
    let mut i: usize = 0;
    proof {
        assert(unselected@.subrange(0, unselected.len() as int) =~= unselected@);
        assert(ordering@ + draw_sequence(points@, unselected@) =~= draw_sequence(full, unselected@));
        assert forall|v: usize| v < num_points implies points@.contains(v) by {
            assert(points@[v as int] == v);
        }
    }
    while i < unselected.len()
        invariant
            i <= unselected.len() <= num_points,
            full == identity(num_points as nat),
            ordering.len() == i,
            points.len() + i == num_points,
            ordering@ + draw_sequence(points@, unselected@.subrange(i as int, unselected.len() as int))
                == draw_sequence(full, unselected@),
            points@.no_duplicates(),
            ordering@.no_duplicates(),
            forall|v: usize| v < num_points <==> (ordering@.contains(v) || points@.contains(v)),
            forall|v: usize| ordering@.contains(v) ==> !points@.contains(v),
        decreases unselected.len() - i,
    {
        let ghost rest = unselected@.subrange(i as int, unselected.len() as int);
        let ghost before = points@;
        let ghost old_ord = ordering@;
        let idx = unselected[i] % points.len();
        let next = points.remove(idx);
        proof {
            assert(rest.drop_first() =~= unselected@.subrange(i + 1, unselected.len() as int));
            assert(draw_sequence(before, rest) == seq![next] + draw_sequence(points@, rest.drop_first()));
            assert forall|a: int, b: int| 0 <= a < b < points@.len() implies points@[a] != points@[b] by {
                let a2 = if a < idx { a } else { a + 1 };
                let b2 = if b < idx { b } else { b + 1 };
                assert(points@[a] == before[a2] && points@[b] == before[b2]);
            }
            assert forall|v: usize| points@.contains(v) implies before.contains(v) && v != next by {
                let j = choose|j: int| 0 <= j < points@.len() && points@[j] == v;
                let j2 = if j < idx { j } else { j + 1 };
                assert(before[j2] == v);
            }
            assert forall|v: usize| before.contains(v) && v != next implies points@.contains(v) by {
                let j = choose|j: int| 0 <= j < before.len() && before[j] == v;
                if j < idx {
                    assert(points@[j] == v);
                } else {
                    assert(j != idx);
                    assert(points@[j - 1] == v);
                }
            }
        }
        ordering.push(next);
        proof {
            assert forall|v: usize| ordering@.contains(v) <==> (old_ord.contains(v) || v == next) by {
                if ordering@.contains(v) {
                    let j = choose|j: int| 0 <= j < ordering@.len() && ordering@[j] == v;
                    if j < i {
                        assert(old_ord[j] == v);
                    }
                }
                if old_ord.contains(v) {
                    let j = choose|j: int| 0 <= j < old_ord.len() && old_ord[j] == v;
                    assert(ordering@[j] == v);
                }
                if v == next {
                    assert(ordering@[i as int] == v);
                }
            }
            assert(before.contains(next)) by {
                assert(before[idx as int] == next);
            }
            assert(ordering@.contains(next));
            assert forall|a: int, b: int| 0 <= a < b < ordering@.len() implies ordering@[a] != ordering@[b] by {
                if b == i {
                    assert(ordering@[a] == old_ord[a]);
                    assert(old_ord.contains(old_ord[a]));
                    assert(before[idx as int] == next);
                } else {
                    assert(ordering@[a] == old_ord[a] && ordering@[b] == old_ord[b]);
                }
            }
            assert(ordering@ == ordering@.drop_last() + seq![next]);
            assert((ordering@.drop_last() + seq![next]) + draw_sequence(points@, rest.drop_first())
                =~= ordering@.drop_last() + (seq![next] + draw_sequence(points@, rest.drop_first())));
        }
        proof {
            assert forall|v: usize| v < num_points <==> (ordering@.contains(v) || points@.contains(v)) by {
                assert(points@.contains(v) <==> (before.contains(v) && v != next));
                assert(ordering@.contains(v) <==> (old_ord.contains(v) || v == next));
            }
            assert forall|v: usize| ordering@.contains(v) implies !points@.contains(v) by {
                assert(points@.contains(v) <==> (before.contains(v) && v != next));
                assert(ordering@.contains(v) <==> (old_ord.contains(v) || v == next));
            }
        }
        i = i + 1;
    }
    proof {
        assert(unselected@.subrange(i as int, unselected.len() as int).len() == 0);
        assert(ordering@ =~= draw_sequence(full, unselected@));
        if unselected.len() == num_points {
            assert forall|v: usize| v < num_points implies ordering@.contains(v) by {
                assert(!points@.contains(v));
            }
        }
        assert forall|j: int| 0 <= j < ordering@.len() implies ordering@[j] < num_points by {
            assert(ordering@.contains(ordering@[j]));
        }
    }
    Ok(ordering)
}

/// `keys[i]` is the smallest key outside position `skip`, and no earlier
/// position outside `skip` holds that key.
pub open spec fn is_first_min_except(keys: Seq<u64>, i: int, skip: int) -> bool {
    &&& 0 <= i < keys.len()
    &&& i != skip
    &&& forall|j: int| 0 <= j < keys.len() && j != skip ==> keys[i] <= keys[j]
    &&& forall|j: int| 0 <= j < i && j != skip ==> keys[i] < keys[j]
}

/// `best` holds the first smallest key and `second` the first smallest key
/// among the other positions.
pub open spec fn is_elite_pair(keys: Seq<u64>, best: int, second: int) -> bool {
    is_first_min_except(keys, best, -1) && is_first_min_except(keys, second, best)
}

/// Picks the positions of the two smallest keys in one scan with a running
/// best and second best; strict comparisons let the first of equal keys win.
pub fn select_elites(keys: &Vec<u64>) -> (r: (usize, usize))
    requires
        keys.len() >= 2,
    ensures
        is_elite_pair(keys@, r.0 as int, r.1 as int),
{
    let mut best: usize = 0;
    let mut second: usize = 1;
    if keys[1] < keys[0] {
        best = 1;
        second = 0;
    }
    let mut idx: usize = 2;
    while idx < keys.len()
        invariant
            2 <= idx <= keys.len(),
            is_first_min_except(keys@.take(idx as int), best as int, -1),
            is_first_min_except(keys@.take(idx as int), second as int, best as int),
        decreases keys.len() - idx,
    {
        let ghost pre = keys@.take(idx as int);
        let k = keys[idx];
        if k < keys[best] {
            second = best;
            best = idx;
        } else if k < keys[second] {
            second = idx;
        }
        idx = idx + 1;
        proof {
            let cur = keys@.take(idx as int);
            assert forall|j: int| 0 <= j < idx - 1 implies cur[j] == pre[j] by {}
            assert(cur[idx - 1] == k);
        }
    }
    proof {
        assert(keys@.take(idx as int) =~= keys@);
    }
    (best, second)
}

/// Each gene of `r` comes from `p` or `q` at the same position, or is an
/// index below `num_points`.
pub open spec fn is_cross(r: Seq<usize>, p: Seq<usize>, q: Seq<usize>, num_points: nat) -> bool {
    &&& r.len() == if p.len() <= q.len() { p.len() } else { q.len() }
    &&& forall|i: int| 0 <= i < r.len() ==> r[i] == p[i] || r[i] == q[i] || r[i] < num_points
}

/// The shorter of two lengths.
pub open spec fn min_len(a: nat, b: nat) -> nat {
    if a <= b { a } else { b }
}

/// The child of `p` and `q` for given coins: gene `i` is the draw modulo
/// `num_points` where `mutate[i]`, else `p[i]` where `from_p[i]`, else `q[i]`.
pub open spec fn crossed(
    p: Seq<usize>,
    q: Seq<usize>,
    mutate: Seq<bool>,
    from_p: Seq<bool>,
    draws: Seq<u64>,
    num_points: usize,
) -> Seq<usize> {
    Seq::new(
        min_len(p.len(), q.len()),
        |i: int|
            if mutate[i] {
                ((draws[i] as usize) % num_points) as usize
            } else if from_p[i] {
                p[i]
            } else {
                q[i]
            },
    )
}

/// `r` is a child of `p` and `q` for some coins and draws: no gene mutates
/// at a zero mutation ratio, and every gene does at ratio one.
pub open spec fn is_offspring(
    r: Seq<usize>,
    p: Seq<usize>,
    q: Seq<usize>,
    num_points: usize,
    mutation_num: u32,
    mutation_den: u32,
) -> bool {
    exists|mutate: Seq<bool>, from_p: Seq<bool>, draws: Seq<u64>|
        {
            &&& mutate.len() == min_len(p.len(), q.len())
            &&& from_p.len() == mutate.len()
            &&& draws.len() == mutate.len()
            &&& r == #[trigger] crossed(p, q, mutate, from_p, draws, num_points)
            &&& mutation_num == 0 ==> forall|i: int| 0 <= i < mutate.len() ==> !mutate[i]
            &&& mutation_num == mutation_den ==> forall|i: int| 0 <= i < mutate.len() ==> mutate[i]
        }
}

/// Builds a child of `p` and `q` from coins and draws made beforehand.
pub fn cross_genes(
    p: &Vec<usize>,
    q: &Vec<usize>,
    mutate: &Vec<bool>,
    from_p: &Vec<bool>,
    draws: &Vec<u64>,
    num_points: usize,
) -> (r: Vec<usize>)
    requires
        num_points > 0,
        mutate.len() >= min_len(p.len() as nat, q.len() as nat),
        from_p.len() >= min_len(p.len() as nat, q.len() as nat),
        draws.len() >= min_len(p.len() as nat, q.len() as nat),
    ensures
        r@ == crossed(p@, q@, mutate@, from_p@, draws@, num_points),
{
    let n = if p.len() <= q.len() { p.len() } else { q.len() };
    let mut res: Vec<usize> = Vec::new();
    let mut i: usize = 0;
    while i < n
        invariant
            i <= n,
            n == min_len(p.len() as nat, q.len() as nat),
            mutate.len() >= n,
            from_p.len() >= n,
            draws.len() >= n,
            num_points > 0,
            res.len() == i,
            forall|k: int| 0 <= k < i ==> res[k] == crossed(p@, q@, mutate@, from_p@, draws@, num_points)[k],
        decreases n - i,
    {
        let gene = if mutate[i] {
            (#[verifier::truncate] (draws[i] as usize)) % num_points
        } else if from_p[i] {
            p[i]
        } else {
            q[i]
        };
        res.push(gene);
        i = i + 1;
    }
    proof {
        assert(res@ =~= crossed(p@, q@, mutate@, from_p@, draws@, num_points));
    }
    res
}

/// Positional crossover with mutation. With probability
/// `mutation_num / mutation_den` a gene becomes a random index below
/// `num_points`; otherwise it comes from `p` with probability
/// `(1 - m) / 2` for that ratio `m`, else from `q`. Offspring need not be
/// permutations.
pub fn cross_vectors(
    p: &Vec<usize>,
    q: &Vec<usize>,
    mutation_num: u32,
    mutation_den: u32,
    num_points: usize,
    rng: &mut StdRng,
) -> (r: Vec<usize>)
    requires
        mutation_num <= mutation_den,
        0 < mutation_den <= 0x7fff_ffff,
        num_points > 0,
    ensures
        is_offspring(r@, p@, q@, num_points, mutation_num, mutation_den),
        is_cross(r@, p@, q@, num_points as nat),
        mutation_num == 0 ==> forall|i: int| 0 <= i < r.len() ==> r[i] == p[i] || r[i] == q[i],
        mutation_num == mutation_den ==> forall|i: int| 0 <= i < r.len() ==> r[i] < num_points,
{
    let n = if p.len() <= q.len() { p.len() } else { q.len() };
    let mut mutate: Vec<bool> = Vec::new();
    let mut from_p: Vec<bool> = Vec::new();
    let mut draws: Vec<u64> = Vec::new();
    while mutate.len() < n
        invariant
            n == min_len(p.len() as nat, q.len() as nat),
            mutate.len() <= n,
            from_p.len() == mutate.len(),
            draws.len() == mutate.len(),
            mutation_num <= mutation_den,
            0 < mutation_den <= 0x7fff_ffff,
            mutation_num == 0 ==> forall|i: int| 0 <= i < mutate.len() ==> !mutate[i],
            mutation_num == mutation_den ==> forall|i: int| 0 <= i < mutate.len() ==> mutate[i],
        decreases n - mutate.len(),
    {
        if chance(rng, mutation_num, mutation_den) {
            mutate.push(true);
            from_p.push(false);
            draws.push(next_u64(rng));
        } else {
            mutate.push(false);
            from_p.push(chance(rng, mutation_den - mutation_num, 2 * mutation_den));
            draws.push(0);
        }
    }
    let r = cross_genes(p, q, &mutate, &from_p, &draws, num_points);
    proof {
        let c = crossed(p@, q@, mutate@, from_p@, draws@, num_points);
        assert(is_offspring(r@, p@, q@, num_points, mutation_num, mutation_den));
        assert forall|i: int| 0 <= i < r.len() implies r[i] == p[i] || r[i] == q[i] || r[i] < num_points by {
            assert(r[i] == c[i]);
        }
    }
    r
}

/// The next generation: the two parents in slots 0 and 1, then crossovers of
/// them up to `size` candidates.
pub fn breed(
    elite: &Vec<usize>,
    runner_up: &Vec<usize>,
    size: usize,
    mutation_num: u32,
    mutation_den: u32,
    num_points: usize,
    rng: &mut StdRng,
) -> (r: Vec<Vec<usize>>)
    requires
        size >= 2,
        mutation_num <= mutation_den,
        0 < mutation_den <= 0x7fff_ffff,
        num_points > 0,
    ensures
        r.len() == size,
        r[0]@ == elite@,
        r[1]@ == runner_up@,
        forall|k: int| 2 <= k < size ==> is_offspring(#[trigger] r[k]@, elite@, runner_up@, num_points, mutation_num, mutation_den),
{
    let mut next: Vec<Vec<usize>> = Vec::new();
    next.push(elite.clone());
    next.push(runner_up.clone());
    while next.len() < size
        invariant
            2 <= next.len() <= size,
            next[0]@ == elite@,
            next[1]@ == runner_up@,
            forall|k: int| 2 <= k < next.len() ==> is_offspring(#[trigger] next[k]@, elite@, runner_up@, num_points, mutation_num, mutation_den),
            mutation_num <= mutation_den,
            0 < mutation_den <= 0x7fff_ffff,
            num_points > 0,
        decreases size - next.len(),
    {
        let child = cross_vectors(elite, runner_up, mutation_num, mutation_den, num_points, rng);
        next.push(child);
    }
    next
}

/// One generation step: keep the two candidates with the smallest keys
/// (a key orders candidates as their closed tour lengths do) and fill the
/// rest of the population with their crossovers.
pub fn next_generation(
    tours: &Vec<Vec<usize>>,
    keys: &Vec<u64>,
    mutation_num: u32,
    mutation_den: u32,
    num_points: usize,
    rng: &mut StdRng,
) -> (r: Vec<Vec<usize>>)
    requires
        tours.len() == keys.len(),
        keys.len() >= 2,
        mutation_num <= mutation_den,
        0 < mutation_den <= 0x7fff_ffff,
        num_points > 0,
    ensures
        r.len() == tours.len(),
        exists|b: int, s: int|
            {
                &&& is_elite_pair(keys@, b, s)
                &&& r[0]@ == tours[b]@
                &&& r[1]@ == tours[s]@
                &&& forall|k: int| 2 <= k < r.len() ==> is_offspring(#[trigger] r[k]@, tours[b]@, tours[s]@, num_points, mutation_num, mutation_den)
            },
{
    let (best, second) = select_elites(keys);
    let r = breed(&tours[best], &tours[second], tours.len(), mutation_num, mutation_den, num_points, rng);
    assert(is_elite_pair(keys@, best as int, second as int));
    r
}

/// A population of `size` random tours over `num_points` points, each a
/// permutation built from raw 64-bit draws.
pub fn random_population(num_points: usize, size: usize, rng: &mut StdRng) -> (r: Vec<Vec<usize>>)
    ensures
        r.len() == size,
        forall|k: int| 0 <= k < size ==> is_permutation(#[trigger] r[k]@, num_points as nat),
{
    let mut tours: Vec<Vec<usize>> = Vec::new();
    while tours.len() < size
        invariant
            tours.len() <= size,
            forall|k: int| 0 <= k < tours.len() ==> is_permutation(#[trigger] tours[k]@, num_points as nat),
        decreases size - tours.len(),
    {
        let mut draws: Vec<usize> = Vec::new();
        while draws.len() < num_points
            invariant
                draws.len() <= num_points,
            decreases num_points - draws.len(),
        {
            draws.push(#[verifier::truncate] (next_u64(rng) as usize));
        }
        match tour_from_unselected(num_points, draws) {
            Ok(t) => {
                tours.push(t);
            },
            Err(_) => {},
        }
    }
    tours
}

/// A kept elite never gets worse: when every key is a function of its tour
/// and the next generation starts with the elite of the current one, as
/// `next_generation` ensures, the first key of the next generation (and so
/// its best) is at most every key of the current one.
pub proof fn lemma_elite_never_worse(
    key: spec_fn(Seq<usize>) -> u64,
    tours: Seq<Seq<usize>>,
    keys: Seq<u64>,
    next: Seq<Seq<usize>>,
    next_keys: Seq<u64>,
)
    requires
        tours.len() == keys.len(),
        forall|i: int| 0 <= i < tours.len() ==> keys[i] == key(#[trigger] tours[i]),
        next.len() > 0,
        exists|b: int, s: int| is_elite_pair(keys, b, s) && next[0] == tours[b],
        next_keys.len() == next.len(),
        forall|i: int| 0 <= i < next.len() ==> next_keys[i] == key(#[trigger] next[i]),
    ensures
        forall|i: int| 0 <= i < keys.len() ==> next_keys[0] <= keys[i],
{
    let (b, s) = choose|b: int, s: int| is_elite_pair(keys, b, s) && next[0] == tours[b];
    assert(next_keys[0] == keys[b]);
}

} // verus!
