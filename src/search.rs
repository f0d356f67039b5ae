//! Least-cost routes over a dense cost matrix, with node positions as vertices.
use vstd::prelude::*;

verus! {

/// The step cost from vertex `i` to vertex `j`, or `None` when there is no step.
pub open spec fn step(m: Seq<Vec<Option<u32>>>, i: int, j: int) -> Option<u32> {
    m[i]@[j]
}

/// Every row has one entry per vertex.
pub open spec fn is_square(m: Seq<Vec<Option<u32>>>) -> bool {
    forall|i: int| 0 <= i < m.len() ==> #[trigger] m[i]@.len() == m.len()
}

/// `p` visits vertices of `m` from `start` to `goal`, each move along a step.
pub open spec fn is_route(m: Seq<Vec<Option<u32>>>, p: Seq<usize>, start: usize, goal: usize) -> bool {
    &&& p.len() >= 1
    &&& p[0] == start
    &&& p.last() == goal
    &&& forall|k: int| 0 <= k < p.len() ==> #[trigger] p[k] < m.len()
    &&& forall|k: int| 0 <= k < p.len() - 1 ==> step(m, #[trigger] p[k] as int, p[k + 1] as int) is Some
}

/// Sum of the step costs along `p`.
pub open spec fn route_cost(m: Seq<Vec<Option<u32>>>, p: Seq<usize>) -> nat
    decreases p.len(),
{
    if p.len() <= 1 {
        0
    } else {
        route_cost(m, p.drop_last()) + (step(m, p[p.len() - 2] as int, p.last() as int)->Some_0) as nat
    }
}

/// The successors of vertex `i`, with the cost of the step to each.
pub fn successors(m: &Vec<Vec<Option<u32>>>, i: usize) -> (r: Vec<(usize, u64)>)
    requires
        i < m@.len(),
    ensures
        forall|k: int|
            0 <= k < r@.len() ==> #[trigger] r@[k].0 < m@[i as int]@.len() && step(
                m@,
                i as int,
                r@[k].0 as int,
            ) == Some(r@[k].1 as u32) && r@[k].1 <= u32::MAX,
        forall|j: int|
            0 <= j < m@[i as int]@.len() && (#[trigger] step(m@, i as int, j)) is Some ==> exists|
                k: int,
            |
                0 <= k < r@.len() && (#[trigger] r@[k]).0 == j,
{
    let row = &m[i];
    let mut r: Vec<(usize, u64)> = Vec::new();
    let mut j: usize = 0;
    while j < row.len()
        invariant
            i < m@.len(),
            j <= row@.len(),
            row@ == m@[i as int]@,
            forall|k: int|
                0 <= k < r@.len() ==> #[trigger] r@[k].0 < j && step(m@, i as int, r@[k].0 as int)
                    == Some(r@[k].1 as u32) && r@[k].1 <= u32::MAX,
            forall|j2: int|
                0 <= j2 < j && (#[trigger] step(m@, i as int, j2)) is Some ==> exists|k: int|
                    0 <= k < r@.len() && (#[trigger] r@[k]).0 == j2,
        decreases row@.len() - j,
    {
        let ghost r0 = r@;
        if let Some(c) = row[j] {
            r.push((j, c as u64));
            assert(r@[r@.len() - 1].0 == j);
        }
        assert forall|j2: int|
            0 <= j2 < j + 1 && (#[trigger] step(m@, i as int, j2)) is Some implies exists|k: int|
                0 <= k < r@.len() && (#[trigger] r@[k]).0 == j2 by {
            if j2 < j {
                let k = choose|k: int| 0 <= k < r0.len() && (#[trigger] r0[k]).0 == j2;
                assert(r@[k] == r0[k]);
            } else {
                assert(r@[r@.len() - 1].0 == j2);
            }
        }
        j += 1;
    }
    r
}

/// Whether vertex `i` is the one searched for.
pub fn is_goal(i: usize, goal: usize) -> (r: bool)
    ensures
        r == (i == goal),
{
    i == goal
}

/// Relies on pathfinding::directed::dijkstra::dijkstra: given non-negative step costs, it returns
/// a least-cost path from `start` to a vertex that satisfies the goal test, start and end
/// included, with its total cost, and `None` when no such vertex can be reached. With at most
/// `u32::MAX` vertices and costs below 2^32, every cost that it adds up fits in `u64`.
#[verifier::external_body]
pub(crate) fn least_cost_route(m: &Vec<Vec<Option<u32>>>, start: usize, goal: usize) -> (r: Option<(Vec<usize>, u64)>)
    requires
        is_square(m@),
        start < m@.len(),
        goal < m@.len(),
        m@.len() <= u32::MAX,
    ensures
        r is None <==> !exists|p: Seq<usize>| is_route(m@, p, start, goal),
        r matches Some((p, c)) ==> {
            &&& is_route(m@, p@, start, goal)
            &&& c == route_cost(m@, p@)
            &&& forall|q: Seq<usize>| is_route(m@, q, start, goal) ==> c <= route_cost(m@, q)
        },
{
    pathfinding::directed::dijkstra::dijkstra(&start, |i: &usize| successors(m, *i), |i: &usize| is_goal(*i, goal))
}

} // verus!
