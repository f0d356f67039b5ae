//! Properties that relate several operations of a graph.
use vstd::prelude::*;
use crate::graph::{covers, hop_cost, is_answer, is_chain, GraphView};

verus! {

/// After a link is registered for a pair, that pair's entry is exactly what was written, and
/// a second registration of the same pair replaces the first: the pair still has one entry.
pub proof fn law_last_link_wins<D>(
    g0: GraphView<D>,
    g1: GraphView<D>,
    g2: GraphView<D>,
    a: u32,
    b: u32,
    first: (u32, D),
    second: (u32, D),
)
    requires
        g1.links == g0.links.insert((a, b), first),
        g2.links == g1.links.insert((a, b), second),
    ensures
        g1.links.contains_key((a, b)) && g1.links[(a, b)] == first,
        g2.links.contains_key((a, b)) && g2.links[(a, b)] == second,
        g2.links == g0.links.insert((a, b), second),
        g2.links.dom() == g1.links.dom(),
{
    assert(g2.links =~= g0.links.insert((a, b), second));
    assert(g2.links.dom() =~= g1.links.dom());
}

/// A search without a bypass finds nothing exactly when no chain of registered links leads
/// from `start` to `goal`.
pub proof fn law_none_iff_unreachable<D>(g: GraphView<D>, start: u32, goal: u32, r: Option<(Seq<u32>, u64)>)
    requires
        is_answer(g, None, start, goal, r),
    ensures
        r is None <==> !exists|p: Seq<u32>| is_chain(g, None, p, start, goal),
        forall|p: Seq<u32>, k: int|
            is_chain(g, None, p, start, goal) && 0 <= k < p.len() - 1 ==> g.links.contains_key(
                (#[trigger] p[k], p[k + 1]),
            ),
{
    if let Some((p, c)) = r {
        assert(is_chain(g, None, p, start, goal));
    }
    assert forall|p: Seq<u32>, k: int|
        is_chain(g, None, p, start, goal) && 0 <= k < p.len() - 1 implies g.links.contains_key(
        (#[trigger] p[k], p[k + 1]),
    ) by {
        assert(hop_cost(g, None, p[k], p[k + 1]) is Some);
    }
}

/// A search with a bypass that prices every unlinked pair of distinct nodes always finds a
/// path between two registered nodes.
pub proof fn law_bypass_always_finds<D>(
    g: GraphView<D>,
    t: Map<(u32, u32), u32>,
    start: u32,
    goal: u32,
    r: Option<(Seq<u32>, u64)>,
)
    requires
        covers(g, t),
        g.nodes.contains(start),
        g.nodes.contains(goal),
        is_answer(g, Some(t), start, goal, r),
    ensures
        r is Some,
{
    if start == goal {
        assert(is_chain(g, Some(t), seq![start], start, goal));
    } else {
        let p = seq![start, goal];
        if !g.links.contains_key((start, goal)) {
            assert(t.contains_key((start, goal)));
        }
        assert(hop_cost(g, Some(t), p[0], p[1]) is Some);
        assert(is_chain(g, Some(t), p, start, goal));
    }
}

} // verus!
