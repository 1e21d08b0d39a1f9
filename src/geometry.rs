use crate::error::PathError;
use vstd::prelude::*;

verus! {

/// A sample point on the integer pixel grid.
#[derive(Clone, Copy, Debug, PartialEq, Eq, Structural)]
pub struct Point {
    pub x: i32,
    pub y: i32,
}

impl Point {
    pub fn new(x: i32, y: i32) -> (r: Point)
        ensures
            r.x == x && r.y == y,
    {
        Point { x, y }
    }
}

/// Squared Euclidean distance.
pub open spec fn sq_dist(p: Point, q: Point) -> int {
    (p.x - q.x) * (p.x - q.x) + (p.y - q.y) * (p.y - q.y)
}

/// Squared Euclidean distance, exact.
pub fn squared_distance(p: Point, q: Point) -> (r: u128)
    ensures
        r == sq_dist(p, q),
{
    let dx: i64 = p.x as i64 - q.x as i64;
    let dy: i64 = p.y as i64 - q.y as i64;
    let ax: u128 = if dx < 0 { (-dx) as u128 } else { dx as u128 };
    let ay: u128 = if dy < 0 { (-dy) as u128 } else { dy as u128 };
    assert(ax * ax == dx * dx && ay * ay == dy * dy) by (nonlinear_arith)
        requires
            ax == dx || ax == -dx,
            ay == dy || ay == -dy,
    ;
    assert(ax * ax <= 0x1_0000_0000 * 0x1_0000_0000 && ay * ay <= 0x1_0000_0000 * 0x1_0000_0000)
        by (nonlinear_arith)
        requires
            ax <= 0x1_0000_0000,
            ay <= 0x1_0000_0000,
    ;
    ax * ax + ay * ay
}

/// The indices that a walk visits: `order`, or `0..n` when absent, with the
/// first index repeated at the end when the walk is closed.
pub open spec fn visit_sequence(n: nat, order: Option<Seq<usize>>, close: bool) -> Seq<usize> {
    let base = match order {
        Some(o) => o,
        None => Seq::new(n, |i: int| i as usize),
    };
    if close {
        base.push(base[0])
    } else {
        base
    }
}

/// What a walk over `n` points may be given: a non-empty order of indices
/// below `n`.
pub open spec fn valid_order(n: nat, order: Option<Seq<usize>>) -> bool {
    match order {
        Some(o) => o.len() > 0 && forall|i: int| 0 <= i < o.len() ==> o[i] < n,
        None => true,
    }
}

/// Sum of `w` over consecutive pairs of `s`.
pub open spec fn walk_weight(w: spec_fn(usize, usize) -> int, s: Seq<usize>) -> int
    decreases s.len(),
{
    if s.len() < 2 {
        0
    } else {
        w(s[0], s[1]) + walk_weight(w, s.drop_first())
    }
}

/// The sequence of point indices whose consecutive distances make up the
/// length of a walk over `num_points` points. Fails with `InvalidInput` for
/// fewer than two points.
pub fn tour_visits(num_points: usize, order: Option<&Vec<usize>>, close: bool) -> (r: Result<
    Vec<usize>,
    PathError,
>)
    requires
        num_points >= 2 ==> valid_order(
            num_points as nat,
            match order {
                Some(o) => Some(o@),
                None => None,
            },
        ),
    ensures
        num_points < 2 <==> r is Err,
        r is Err ==> r == Err::<Vec<usize>, PathError>(PathError::InvalidInput),
        r matches Ok(v) ==> v@ == visit_sequence(
            num_points as nat,
            match order {
                Some(o) => Some(o@),
                None => None,
            },
            close,
        ),
        r matches Ok(v) ==> forall|i: int| 0 <= i < v.len() ==> v[i] < num_points,
{
    if num_points < 2 {
        return Err(PathError::InvalidInput);
    }
    let mut visits: Vec<usize> = Vec::new();
    match order {
        Some(o) => {
            visits = o.clone();
        },
        None => {
            let mut k: usize = 0;
            while k < num_points
                invariant
                    k <= num_points,
                    visits@ == Seq::new(k as nat, |i: int| i as usize),
                decreases num_points - k,
            {
                visits.push(k);
                k = k + 1;
                proof {
                    assert(visits@ =~= Seq::new(k as nat, |i: int| i as usize));
                }
            }
        },
    }
    assert(visits.len() > 0);
    if close {
        let first = visits[0];
        visits.push(first);
    }
    Ok(visits)
}

/// Appending one index adds the weight of the new last pair.
pub proof fn lemma_walk_weight_push(w: spec_fn(usize, usize) -> int, s: Seq<usize>, x: usize)
    requires
        s.len() > 0,
    ensures
        walk_weight(w, s.push(x)) == walk_weight(w, s) + w(s.last(), x),
    decreases s.len(),
{
    if s.len() == 1 {
        assert(s.push(x).drop_first() =~= seq![x]);
        assert(walk_weight(w, seq![x]) == 0);
        assert(walk_weight(w, s) == 0);
        assert(s.push(x)[0] == s.last() && s.push(x)[1] == x);
    } else {
        assert(s.push(x).drop_first() =~= s.drop_first().push(x));
        lemma_walk_weight_push(w, s.drop_first(), x);
        assert(s.push(x)[0] == s[0] && s.push(x)[1] == s[1]);
        assert(s.drop_first().last() == s.last());
    }
}

/// Under a symmetric weight, a sequence and its reverse weigh the same.
pub proof fn lemma_walk_weight_reverse(w: spec_fn(usize, usize) -> int, s: Seq<usize>)
    requires
        forall|a: usize, b: usize| #[trigger] w(a, b) == w(b, a),
    ensures
        walk_weight(w, s.reverse()) == walk_weight(w, s),
    decreases s.len(),
{
    if s.len() >= 2 {
        let t = s.drop_first();
        lemma_walk_weight_reverse(w, t);
        assert(s.reverse() =~= t.reverse().push(s[0]));
        lemma_walk_weight_push(w, t.reverse(), s[0]);
        assert(t.reverse().last() == s[1]);
    } else {
        assert(s.reverse() =~= s);
    }
}

/// A walk and the walk over the reversed order have the same length, open or
/// closed, for any symmetric distance between indices.
pub proof fn lemma_reversed_order_same_length(
    w: spec_fn(usize, usize) -> int,
    n: nat,
    order: Seq<usize>,
    close: bool,
)
    requires
        forall|a: usize, b: usize| #[trigger] w(a, b) == w(b, a),
        valid_order(n, Some(order)),
    ensures
        walk_weight(w, visit_sequence(n, Some(order.reverse()), close)) == walk_weight(
            w,
            visit_sequence(n, Some(order), close),
        ),
{
    lemma_walk_weight_reverse(w, order);
    if close {
        let r = order.reverse();
        lemma_walk_weight_push(w, order, order[0]);
        lemma_walk_weight_push(w, r, r[0]);
        assert(r[0] == order.last());
        assert(r.last() == order[0]);
    }
}

} // verus!
