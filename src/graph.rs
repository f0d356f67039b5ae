//! A directed graph over version numbers whose links carry a cost and a payload.
use vstd::prelude::*;
use crate::search::{is_route, is_square, least_cost_route, route_cost, step};

verus! {

/// Why a graph operation failed.
#[derive(Debug, Clone, Copy, PartialEq, Eq, Structural)]
pub enum GraphError {
    /// The node is not in the graph.
    NodeNotFound(u32),
    /// No link is registered from the first node to the second.
    LinkNotFound(u32, u32),
    /// No chain of registered links leads from the first version to the second.
    ConversionFailed(u32, u32),
}

/// One registered link: its endpoints and its (cost, payload) entry.
#[derive(Debug)]
pub struct Link<D> {
    pub from: u32,
    pub to: u32,
    pub entry: (u32, D),
}

/// A set of nodes and a map from ordered node pairs to (cost, payload).
#[derive(Debug)]
pub struct Graph<D> {
    nodes: Vec<u32>,
    links: Vec<Link<D>>,
}

/// The abstract content of a graph.
pub struct GraphView<D> {
    pub nodes: Set<u32>,
    pub links: Map<(u32, u32), (u32, D)>,
}

/// The ordered pair of nodes that a link joins.
pub open spec fn key_of<D>(l: Link<D>) -> (u32, u32) {
    (l.from, l.to)
}

/// The map that a list of links stands for; a later link of a pair wins.
pub open spec fn link_map<D>(s: Seq<Link<D>>) -> Map<(u32, u32), (u32, D)>
    decreases s.len(),
{
    if s.len() == 0 {
        Map::empty()
    } else {
        link_map(s.drop_last()).insert(key_of(s.last()), s.last().entry)
    }
}

/// No two links join the same ordered pair.
pub open spec fn keys_unique<D>(s: Seq<Link<D>>) -> bool {
    forall|i: int, j: int|
        0 <= i < s.len() && 0 <= j < s.len() && i != j ==> key_of(#[trigger] s[i]) != key_of(
            #[trigger] s[j],
        )
}

/// Every link joins two registered nodes.
pub open spec fn links_closed<D>(g: GraphView<D>) -> bool {
    forall|k: (u32, u32)| #[trigger] g.links.contains_key(k) ==> g.nodes.contains(k.0) && g.nodes.contains(k.1)
}

proof fn lemma_link_map<D>(s: Seq<Link<D>>)
    ensures
        forall|k: (u32, u32)|
            #[trigger] link_map(s).contains_key(k) <==> exists|i: int|
                0 <= i < s.len() && key_of(#[trigger] s[i]) == k,
        keys_unique(s) ==> forall|i: int|
            0 <= i < s.len() ==> link_map(s)[key_of(#[trigger] s[i])] == s[i].entry,
    decreases s.len(),
{
    if s.len() > 0 {
        let t = s.drop_last();
        lemma_link_map(t);
        assert(link_map(s) == link_map(t).insert(key_of(s.last()), s.last().entry));
        assert forall|k: (u32, u32)|
            #[trigger] link_map(s).contains_key(k) <==> exists|i: int|
                0 <= i < s.len() && key_of(#[trigger] s[i]) == k by {
            if link_map(s).contains_key(k) && k != key_of(s.last()) {
                assert(link_map(t).contains_key(k));
                let i = choose|i: int| 0 <= i < t.len() && key_of(#[trigger] t[i]) == k;
                assert(s[i] == t[i]);
            }
            if exists|i: int| 0 <= i < s.len() && key_of(#[trigger] s[i]) == k {
                let i = choose|i: int| 0 <= i < s.len() && key_of(#[trigger] s[i]) == k;
                if i < t.len() {
                    assert(t[i] == s[i]);
                    assert(link_map(t).contains_key(k));
                }
            }
        }
        if keys_unique(s) {
            assert forall|i: int| 0 <= i < s.len() implies link_map(s)[key_of(#[trigger] s[i])]
                == s[i].entry by {
                if i < t.len() {
                    assert(t[i] == s[i]);
                    assert(key_of(s[i]) != key_of(s[s.len() - 1]));
                }
            }
        }
    }
}

/// The cost of one hop from `a` to `b`: the registered link's cost, or, where a bypass table `t`
/// is in use, its entry for two distinct registered nodes that no link joins.
pub open spec fn hop_cost<D>(g: GraphView<D>, t: Option<Map<(u32, u32), u32>>, a: u32, b: u32) -> Option<u32> {
    if g.links.contains_key((a, b)) {
        Some(g.links[(a, b)].0)
    } else if t is Some && a != b && g.nodes.contains(a) && g.nodes.contains(b)
        && t->Some_0.contains_key((a, b)) {
        Some(t->Some_0[(a, b)])
    } else {
        None
    }
}

/// `p` runs over registered nodes from `start` to `goal`, each hop having a cost.
pub open spec fn is_chain<D>(g: GraphView<D>, t: Option<Map<(u32, u32), u32>>, p: Seq<u32>, start: u32, goal: u32) -> bool {
    &&& p.len() >= 1
    &&& p[0] == start
    &&& p.last() == goal
    &&& forall|k: int| 0 <= k < p.len() ==> g.nodes.contains(#[trigger] p[k])
    &&& forall|k: int| 0 <= k < p.len() - 1 ==> hop_cost(g, t, #[trigger] p[k], p[k + 1]) is Some
}

/// The sum of the hop costs along `p`.
pub open spec fn chain_cost<D>(g: GraphView<D>, t: Option<Map<(u32, u32), u32>>, p: Seq<u32>) -> nat
    decreases p.len(),
{
    if p.len() <= 1 {
        0
    } else {
        chain_cost(g, t, p.drop_last()) + (hop_cost(g, t, p[p.len() - 2], p.last())->Some_0) as nat
    }
}

/// `r` is a correct search result: a least-cost chain with its cost, or `None` exactly when no
/// chain exists.
pub open spec fn is_answer<D>(
    g: GraphView<D>,
    t: Option<Map<(u32, u32), u32>>,
    start: u32,
    goal: u32,
    r: Option<(Seq<u32>, u64)>,
) -> bool {
    match r {
        None => !exists|p: Seq<u32>| is_chain(g, t, p, start, goal),
        Some((p, c)) => {
            &&& is_chain(g, t, p, start, goal)
            &&& c == chain_cost(g, t, p)
            &&& forall|q: Seq<u32>| is_chain(g, t, q, start, goal) ==> c <= chain_cost(g, t, q)
        },
    }
}

/// The table has an entry for every ordered pair of distinct registered nodes without a link.
pub open spec fn covers<D>(g: GraphView<D>, t: Map<(u32, u32), u32>) -> bool {
    forall|a: u32, b: u32|
        g.nodes.contains(a) && g.nodes.contains(b) && a != b && !g.links.contains_key((a, b))
            ==> #[trigger] t.contains_key((a, b))
}

/// A search result with its path as a sequence.
pub open spec fn found_view(x: Option<(Vec<u32>, u64)>) -> Option<(Seq<u32>, u64)> {
    match x {
        Some((p, c)) => Some((p@, c)),
        None => None,
    }
}

/// The matrix `m` holds the hop costs between the nodes listed in `ns`.
pub open spec fn matrix_of<D>(g: GraphView<D>, t: Option<Map<(u32, u32), u32>>, ns: Seq<u32>, m: Seq<Vec<Option<u32>>>) -> bool {
    &&& m.len() == ns.len()
    &&& is_square(m)
    &&& forall|i: int, j: int|
        0 <= i < ns.len() && 0 <= j < ns.len() ==> #[trigger] step(m, i, j) == hop_cost(g, t, ns[i], ns[j])
}

/// The nodes at the positions `q` of the node list `ns`.
pub open spec fn versions_of(ns: Seq<u32>, q: Seq<usize>) -> Seq<u32> {
    q.map_values(|i: usize| ns[i as int])
}

proof fn lemma_route_to_chain<D>(
    g: GraphView<D>,
    t: Option<Map<(u32, u32), u32>>,
    ns: Seq<u32>,
    m: Seq<Vec<Option<u32>>>,
    q: Seq<usize>,
)
    requires
        matrix_of(g, t, ns, m),
        ns.to_set() == g.nodes,
        is_route(m, q, q[0], q.last()),
    ensures
        is_chain(g, t, versions_of(ns, q), ns[q[0] as int], ns[q.last() as int]),
        chain_cost(g, t, versions_of(ns, q)) == route_cost(m, q),
    decreases q.len(),
{
    let p = versions_of(ns, q);
    assert forall|k: int| 0 <= k < p.len() implies g.nodes.contains(#[trigger] p[k]) by {
        assert(q[k] < m.len());
        assert(ns.contains(ns[q[k] as int]));
    }
    assert forall|k: int| 0 <= k < p.len() - 1 implies hop_cost(g, t, #[trigger] p[k], p[k + 1]) is Some by {
        assert(q[k] < m.len() && q[k + 1] < m.len());
        assert(step(m, q[k] as int, q[k + 1] as int) is Some);
    }
    if q.len() > 1 {
        let q1 = q.drop_last();
        assert(is_route(m, q1, q1[0], q1.last()));
        lemma_route_to_chain(g, t, ns, m, q1);
        assert(versions_of(ns, q1) =~= p.drop_last());
        let n = q.len();
        assert(q[n - 2] < m.len() && q[n - 1] < m.len());
        assert(step(m, q[n - 2] as int, q[n - 1] as int) == hop_cost(g, t, p[n - 2], p[n - 1]));
    }
}

/// A position of `v` in the node list `ns`.
pub open spec fn position_of(ns: Seq<u32>, v: u32) -> usize {
    (choose|i: int| 0 <= i < ns.len() && ns[i] == v) as usize
}

proof fn lemma_chain_to_route<D>(
    g: GraphView<D>,
    t: Option<Map<(u32, u32), u32>>,
    ns: Seq<u32>,
    m: Seq<Vec<Option<u32>>>,
    p: Seq<u32>,
)
    requires
        matrix_of(g, t, ns, m),
        ns.to_set() == g.nodes,
        ns.len() <= usize::MAX,
        is_chain(g, t, p, p[0], p.last()),
    ensures
        is_route(m, p.map_values(|v: u32| position_of(ns, v)), position_of(ns, p[0]), position_of(ns, p.last())),
        route_cost(m, p.map_values(|v: u32| position_of(ns, v))) == chain_cost(g, t, p),
    decreases p.len(),
{
    let q = p.map_values(|v: u32| position_of(ns, v));
    assert forall|k: int| 0 <= k < p.len() implies ns[#[trigger] q[k] as int] == p[k] && q[k] < m.len() by {
        assert(g.nodes.contains(p[k]));
        assert(ns.contains(p[k]));
    }
    assert forall|k: int| 0 <= k < q.len() implies #[trigger] q[k] < m.len() by {
        assert(ns[q[k] as int] == p[k]);
    }
    assert forall|k: int| 0 <= k < q.len() - 1 implies step(m, #[trigger] q[k] as int, q[k + 1] as int) is Some by {
        assert(ns[q[k] as int] == p[k]);
        assert(ns[q[k + 1] as int] == p[k + 1]);
        assert(hop_cost(g, t, p[k], p[k + 1]) is Some);
    }
    if p.len() > 1 {
        let p1 = p.drop_last();
        assert(is_chain(g, t, p1, p1[0], p1.last()));
        lemma_chain_to_route(g, t, ns, m, p1);
        assert(p1.map_values(|v: u32| position_of(ns, v)) =~= q.drop_last());
        let n = p.len();
        assert(ns[q[n - 2] as int] == p[n - 2]);
        assert(ns[q[n - 1] as int] == p[n - 1]);
    }
}

/// The matrix entry for the hop from `a` to `b` while the bypass table stands at `t`.
pub open spec fn cell_ok<D>(g: GraphView<D>, bypass_on: bool, t: Map<(u32, u32), u32>, a: u32, b: u32, c: Option<u32>) -> bool {
    if g.links.contains_key((a, b)) {
        c == Some(g.links[(a, b)].0)
    } else if bypass_on && a != b {
        t.contains_key((a, b)) && c == Some(t[(a, b)])
    } else {
        c is None
    }
}

impl<D> View for Graph<D> {
    type V = GraphView<D>;

    closed spec fn view(&self) -> GraphView<D> {
        GraphView { nodes: self.nodes@.to_set(), links: link_map(self.links@) }
    }
}

impl<D> Graph<D> {
    /// The representation is consistent: nodes listed once, one link per pair, links closed.
    pub closed spec fn wf(&self) -> bool {
        &&& self.nodes@.no_duplicates()
        &&& keys_unique(self.links@)
        &&& forall|i: int|
            0 <= i < self.links@.len() ==> self.nodes@.contains(#[trigger] self.links@[i].from)
                && self.nodes@.contains(self.links@[i].to)
    }

    /// A well-formed graph only links registered nodes.
    pub proof fn lemma_links_closed(&self)
        requires
            self.wf(),
        ensures
            links_closed(self@),
    {
        lemma_link_map(self.links@);
        assert forall|k: (u32, u32)| #[trigger] self@.links.contains_key(k) implies self@.nodes.contains(
            k.0,
        ) && self@.nodes.contains(k.1) by {
            let i = choose|i: int| 0 <= i < self.links@.len() && key_of(#[trigger] self.links@[i]) == k;
            assert(self.nodes@.contains(self.links@[i].from));
        }
    }

    /// An empty graph.
    pub fn new() -> (g: Self)
        ensures
            g.wf(),
            g@.nodes == Set::<u32>::empty(),
            g@.links == Map::<(u32, u32), (u32, D)>::empty(),
    {
        let g = Graph { nodes: Vec::new(), links: Vec::new() };
        assert(g.nodes@.to_set() =~= Set::<u32>::empty());
        g
    }

    /// The number of registered nodes.
    pub fn node_count(&self) -> (r: usize)
        requires
            self.wf(),
        ensures
            r == self@.nodes.len(),
    {
        proof {
            self.nodes@.unique_seq_to_set();
        }
        self.nodes.len()
    }

    /// The position of `node` in the node list, if it is registered.
    fn position(&self, node: u32) -> (r: Option<usize>)
        requires
            self.wf(),
        ensures
            r matches Some(i) ==> i < self.nodes@.len() && self.nodes@[i as int] == node,
            r is None ==> !self@.nodes.contains(node),
    {
        let mut i: usize = 0;
        while i < self.nodes.len()
            invariant
                i <= self.nodes@.len(),
                forall|k: int| 0 <= k < i ==> self.nodes@[k] != node,
            decreases self.nodes@.len() - i,
        {
            if self.nodes[i] == node {
                return Some(i);
            }
            i += 1;
        }
        None
    }

    /// The position of the link from `a` to `b` in the link list, if there is one.
    fn link_position(&self, a: u32, b: u32) -> (r: Option<usize>)
        requires
            self.wf(),
        ensures
            r matches Some(i) ==> i < self.links@.len() && key_of(self.links@[i as int]) == (a, b),
            r is None ==> !self@.links.contains_key((a, b)),
    {
        proof {
            lemma_link_map(self.links@);
        }
        let mut i: usize = 0;
        while i < self.links.len()
            invariant
                i <= self.links@.len(),
                forall|k: int| 0 <= k < i ==> key_of(#[trigger] self.links@[k]) != (a, b),
            decreases self.links@.len() - i,
        {
            if self.links[i].from == a && self.links[i].to == b {
                return Some(i);
            }
            i += 1;
        }
        None
    }

    /// `Ok` when `node` is registered, `NodeNotFound(node)` otherwise.
    pub fn check_node(&self, node: &u32) -> (r: Result<(), GraphError>)
        requires
            self.wf(),
        ensures
            self@.nodes.contains(*node) ==> r == Ok::<(), GraphError>(()),
            !self@.nodes.contains(*node) ==> r == Err::<(), GraphError>(GraphError::NodeNotFound(*node)),
    {
        match self.position(*node) {
            Some(_) => Ok(()),
            None => Err(GraphError::NodeNotFound(*node)),
        }
    }

    /// The hop costs between all pairs of nodes, by position in the node list. In bypass mode
    /// the heuristic is asked once for each ordered pair of distinct nodes that no link joins;
    /// the ghost table records its answers.
    fn cost_matrix<H: Fn(&Graph<D>, u32, u32) -> u32>(&self, bypass: &Option<H>) -> (r: (
        Vec<Vec<Option<u32>>>,
        Ghost<Map<(u32, u32), u32>>,
    ))
        requires
            self.wf(),
            bypass matches Some(h) ==> forall|a: u32, b: u32| h.requires((self, a, b)),
        ensures
            matrix_of(self@, if bypass is Some { Some(r.1@) } else { None }, self.nodes@, r.0@),
            bypass is Some ==> covers(self@, r.1@),
            bypass matches Some(h) ==> forall|a: u32, b: u32|
                #[trigger] r.1@.contains_key((a, b)) ==> h.ensures((self, a, b), r.1@[(a, b)]),
    {
        let n = self.nodes.len();
        let ghost ns = self.nodes@;
        let ghost on = bypass is Some;
        let mut m: Vec<Vec<Option<u32>>> = Vec::new();
        let ghost mut t: Map<(u32, u32), u32> = Map::empty();
        let mut i: usize = 0;
        while i < n
            invariant
                self.wf(),
                n == ns.len(),
                ns == self.nodes@,
                on == bypass is Some,
                bypass matches Some(h) ==> forall|a: u32, b: u32| h.requires((self, a, b)),
                i <= n,
                m@.len() == i,
                forall|x: int| 0 <= x < i ==> (#[trigger] m@[x])@.len() == n,
                forall|x: int, y: int|
                    0 <= x < i && 0 <= y < n ==> cell_ok(self@, on, t, ns[x], ns[y], #[trigger] step(m@, x, y)),
                bypass matches Some(h) ==> forall|a: u32, b: u32|
                    #[trigger] t.contains_key((a, b)) ==> h.ensures((self, a, b), t[(a, b)]),
            decreases n - i,
        {
            let mut row: Vec<Option<u32>> = Vec::new();
            let mut j: usize = 0;
            while j < n
                invariant
                    self.wf(),
                    n == ns.len(),
                    ns == self.nodes@,
                    on == bypass is Some,
                    bypass matches Some(h) ==> forall|a: u32, b: u32| h.requires((self, a, b)),
                    i < n,
                    j <= n,
                    m@.len() == i,
                    row@.len() == j,
                    forall|x: int| 0 <= x < i ==> (#[trigger] m@[x])@.len() == n,
                    forall|x: int, y: int|
                        0 <= x < i && 0 <= y < n ==> cell_ok(self@, on, t, ns[x], ns[y], #[trigger] step(m@, x, y)),
                    forall|y: int| 0 <= y < j ==> cell_ok(self@, on, t, ns[i as int], ns[y], #[trigger] row@[y]),
                    bypass matches Some(h) ==> forall|a: u32, b: u32|
                        #[trigger] t.contains_key((a, b)) ==> h.ensures((self, a, b), t[(a, b)]),
                decreases n - j,
            {
                let a = self.nodes[i];
                let b = self.nodes[j];
                proof {
                    lemma_link_map(self.links@);
                }
                let c: Option<u32> = match self.link_position(a, b) {
                    Some(k) => Some(self.links[k].entry.0),
                    None => match bypass {
                        Some(h) => {
                            if i != j {
                                let c = h(self, a, b);
                                let ghost t0 = t;
                                proof {
                                    t = t.insert((a, b), c);
                                    assert forall|x: int, y: int|
                                        0 <= x < i && 0 <= y < n implies cell_ok(
                                        self@,
                                        on,
                                        t,
                                        ns[x],
                                        ns[y],
                                        #[trigger] step(m@, x, y),
                                    ) by {
                                        assert(cell_ok(self@, on, t0, ns[x], ns[y], step(m@, x, y)));
                                        assert(ns[x] != ns[i as int]);
                                    }
                                    assert forall|y: int| 0 <= y < j implies cell_ok(
                                        self@,
                                        on,
                                        t,
                                        ns[i as int],
                                        ns[y],
                                        #[trigger] row@[y],
                                    ) by {
                                        assert(cell_ok(self@, on, t0, ns[i as int], ns[y], row@[y]));
                                        assert(ns[y] != ns[j as int]);
                                    }
                                }
                                Some(c)
                            } else {
                                None
                            }
                        },
                        None => None,
                    },
                };
                row.push(c);
                j += 1;
            }
            let ghost m0 = m@;
            m.push(row);
            proof {
                assert forall|x: int, y: int|
                    0 <= x < i + 1 && 0 <= y < n implies cell_ok(self@, on, t, ns[x], ns[y], #[trigger] step(m@, x, y)) by {
                    if x == i {
                        assert(step(m@, x, y) == row@[y]);
                    } else {
                        assert(m@[x] == m0[x]);
                        assert(cell_ok(self@, on, t, ns[x], ns[y], step(m0, x, y)));
                    }
                }
            }
            assert forall|x: int| 0 <= x < i + 1 implies (#[trigger] m@[x])@.len() == n by {
                if x < i {
                    assert(m@[x] == m0[x]);
                }
            }
            i += 1;
        }
        proof {
            let tt = if bypass is Some { Some(t) } else { None::<Map<(u32, u32), u32>> };
            assert forall|x: int, y: int| 0 <= x < ns.len() && 0 <= y < ns.len() implies #[trigger] step(m@, x, y)
                == hop_cost(self@, tt, ns[x], ns[y]) by {
                assert(cell_ok(self@, on, t, ns[x], ns[y], step(m@, x, y)));
                assert(ns.contains(ns[x]) && ns.contains(ns[y]));
                if x != y {
                    assert(ns[x] != ns[y]);
                }
            }
            if bypass is Some {
                assert forall|a: u32, b: u32|
                    self@.nodes.contains(a) && self@.nodes.contains(b) && a != b && !self@.links.contains_key((a, b))
                    implies #[trigger] t.contains_key((a, b)) by {
                    let x = choose|x: int| 0 <= x < ns.len() && ns[x] == a;
                    let y = choose|y: int| 0 <= y < ns.len() && ns[y] == b;
                    assert(cell_ok(self@, on, t, ns[x], ns[y], step(m@, x, y)));
                }
            }
        }
        (m, Ghost(t))
    }

    /// A least-cost path from `start` to `goal`, both included, with its total cost; `None`
    /// when no path exists. Without a bypass only registered links are hops. With a bypass
    /// every ordered pair of distinct nodes is a hop: a registered link keeps its cost, any
    /// other pair costs what the heuristic returns for it.
    /// Fails with `NodeNotFound` for the first of `start`, `goal` that is not registered.
    pub fn compute_path<H: Fn(&Graph<D>, u32, u32) -> u32>(&self, start: u32, goal: u32, bypass: Option<H>) -> (r: Result<
        Option<(Vec<u32>, u64)>,
        GraphError,
    >)
        requires
            self.wf(),
            self@.nodes.len() <= u32::MAX,
            bypass matches Some(h) ==> forall|a: u32, b: u32| h.requires((self, a, b)),
        ensures
            !self@.nodes.contains(start) ==> r == Err::<Option<(Vec<u32>, u64)>, GraphError>(
                GraphError::NodeNotFound(start),
            ),
            self@.nodes.contains(start) && !self@.nodes.contains(goal) ==> r == Err::<
                Option<(Vec<u32>, u64)>,
                GraphError,
            >(GraphError::NodeNotFound(goal)),
            self@.nodes.contains(start) && self@.nodes.contains(goal) ==> (r matches Ok(x) && (
            bypass is None ==> is_answer(self@, None, start, goal, found_view(x))) && (bypass matches Some(h)
                ==> exists|t: Map<(u32, u32), u32>|
                {
                    &&& covers(self@, t)
                    &&& forall|a: u32, b: u32|
                        #[trigger] t.contains_key((a, b)) ==> h.ensures((self, a, b), t[(a, b)])
                    &&& is_answer(self@, Some(t), start, goal, found_view(x))
                })),
    {
        let si = match self.position(start) {
            Some(i) => i,
            None => return Err(GraphError::NodeNotFound(start)),
        };
        let gi = match self.position(goal) {
            Some(i) => i,
            None => return Err(GraphError::NodeNotFound(goal)),
        };
        let (m, Ghost(t)) = self.cost_matrix(&bypass);
        let ghost ns = self.nodes@;
        let ghost tt = if bypass is Some { Some(t) } else { None::<Map<(u32, u32), u32>> };
        proof {
            ns.unique_seq_to_set();
            assert(position_of(ns, start) == si);
            assert(position_of(ns, goal) == gi);
        }
        let found = least_cost_route(&m, si, gi);
        let x = match found {
            None => {
                proof {
                    assert forall|p: Seq<u32>| !is_chain(self@, tt, p, start, goal) by {
                        if is_chain(self@, tt, p, start, goal) {
                            lemma_chain_to_route(self@, tt, ns, m@, p);
                        }
                    }
                }
                None
            },
            Some((q, c)) => {
                let mut p: Vec<u32> = Vec::new();
                let mut k: usize = 0;
                while k < q.len()
                    invariant
                        is_route(m@, q@, si, gi),
                        m@.len() == ns.len(),
                        ns == self.nodes@,
                        k <= q@.len(),
                        p@.len() == k,
                        forall|k2: int| 0 <= k2 < k ==> #[trigger] p@[k2] == ns[q@[k2] as int],
                    decreases q@.len() - k,
                {
                    p.push(self.nodes[q[k]]);
                    k += 1;
                }
                proof {
                    assert(p@ =~= versions_of(ns, q@));
                    lemma_route_to_chain(self@, tt, ns, m@, q@);
                    assert forall|p2: Seq<u32>| is_chain(self@, tt, p2, start, goal) implies c <= chain_cost(
                        self@,
                        tt,
                        p2,
                    ) by {
                        lemma_chain_to_route(self@, tt, ns, m@, p2);
                    }
                }
                Some((p, c))
            },
        };
        proof {
            if bypass is Some {
                assert(is_answer(self@, Some(t), start, goal, found_view(x)));
            }
        }
        Ok(x)
    }

    /// Registers `node`; registering it again changes nothing.
    pub fn add_node(&mut self, node: u32)
        requires
            old(self).wf(),
        ensures
            final(self).wf(),
            final(self)@.nodes == old(self)@.nodes.insert(node),
            final(self)@.links == old(self)@.links,
    {
        if self.position(node).is_none() {
            proof {
                self.nodes@.lemma_push_to_set_commute(node);
            }
            self.nodes.push(node);
            assert forall|i: int|
                0 <= i < self.links@.len() implies self.nodes@.contains(#[trigger] self.links@[i].from)
                && self.nodes@.contains(self.links@[i].to) by {
                assert(old(self).nodes@.contains(self.links@[i].from));
                assert(old(self).nodes@.contains(self.links@[i].to));
                let x = choose|x: int| 0 <= x < old(self).nodes@.len() && old(self).nodes@[x] == self.links@[i].from;
                let y = choose|y: int| 0 <= y < old(self).nodes@.len() && old(self).nodes@[y] == self.links@[i].to;
                assert(self.nodes@[x] == old(self).nodes@[x]);
                assert(self.nodes@[y] == old(self).nodes@[y]);
            }
        } else {
            assert(self@.nodes =~= old(self)@.nodes.insert(node));
        }
    }
    /// Registers the link from `a` to `b`, replacing an earlier link of that pair.
    /// Fails with `NodeNotFound` for the first of `a`, `b` that is not registered, and then
    /// leaves the graph as it was.
    pub fn add_link(&mut self, a: u32, b: u32, cost_a2b: u32, data: D) -> (r: Result<(), GraphError>)
        requires
            old(self).wf(),
        ensures
            final(self).wf(),
            final(self)@.nodes == old(self)@.nodes,
            !old(self)@.nodes.contains(a) ==> r == Err::<(), GraphError>(GraphError::NodeNotFound(a))
                && final(self)@ == old(self)@,
            old(self)@.nodes.contains(a) && !old(self)@.nodes.contains(b) ==> r == Err::<(), GraphError>(
                GraphError::NodeNotFound(b),
            ) && final(self)@ == old(self)@,
            old(self)@.nodes.contains(a) && old(self)@.nodes.contains(b) ==> r == Ok::<(), GraphError>(())
                && final(self)@.links == old(self)@.links.insert((a, b), (cost_a2b, data)),
    {
        if self.position(a).is_none() {
            return Err(GraphError::NodeNotFound(a));
        }
        if self.position(b).is_none() {
            return Err(GraphError::NodeNotFound(b));
        }
        let link = Link { from: a, to: b, entry: (cost_a2b, data) };
        let ghost s0 = self.links@;
        let ghost lk = link;
        proof {
            lemma_link_map(s0);
        }
        match self.link_position(a, b) {
            Some(i) => {
                self.links.set(i, link);
                proof {
                    let s1 = self.links@;
                    assert(keys_unique(s1)) by {
                        assert forall|x: int, y: int|
                            0 <= x < s1.len() && 0 <= y < s1.len() && x != y implies key_of(
                                #[trigger] s1[x],
                            ) != key_of(#[trigger] s1[y]) by {
                            assert(key_of(s1[x]) == key_of(s0[x]));
                            assert(key_of(s1[y]) == key_of(s0[y]));
                        }
                    }
                    lemma_link_map(s1);
                    assert forall|k: (u32, u32)| #[trigger] link_map(s1).contains_key(k)
                        <==> link_map(s0).insert((a, b), lk.entry).contains_key(k) by {
                        if exists|x: int| 0 <= x < s1.len() && key_of(#[trigger] s1[x]) == k {
                            let x = choose|x: int| 0 <= x < s1.len() && key_of(#[trigger] s1[x]) == k;
                            assert(key_of(s1[x]) == key_of(s0[x]));
                        }
                        if exists|x: int| 0 <= x < s0.len() && key_of(#[trigger] s0[x]) == k {
                            let x = choose|x: int| 0 <= x < s0.len() && key_of(#[trigger] s0[x]) == k;
                            assert(key_of(s1[x]) == key_of(s0[x]));
                        }
                    }
                    assert forall|k: (u32, u32)| #[trigger] link_map(s1).contains_key(k)
                        implies link_map(s1)[k] == link_map(s0).insert((a, b), lk.entry)[k] by {
                        let x = choose|x: int| 0 <= x < s1.len() && key_of(#[trigger] s1[x]) == k;
                        assert(link_map(s1)[key_of(s1[x])] == s1[x].entry);
                        if x != i {
                            assert(s1[x] == s0[x]);
                        }
                    }
                    assert(link_map(s1) =~= link_map(s0).insert((a, b), lk.entry));
                    assert forall|x: int|
                        0 <= x < s1.len() implies self.nodes@.contains(#[trigger] s1[x].from)
                        && self.nodes@.contains(s1[x].to) by {
                        if x != i {
                            assert(s1[x] == s0[x]);
                        }
                    }
                }
            },
            None => {
                self.links.push(link);
                proof {
                    let s1 = self.links@;
                    assert(s1.drop_last() =~= s0);
                    assert forall|x: int, y: int|
                        0 <= x < s1.len() && 0 <= y < s1.len() && x != y implies key_of(
                            #[trigger] s1[x],
                        ) != key_of(#[trigger] s1[y]) by {
                        if x < s0.len() {
                            assert(s1[x] == s0[x]);
                        }
                        if y < s0.len() {
                            assert(s1[y] == s0[y]);
                        }
                    }
                    assert forall|x: int|
                        0 <= x < s1.len() implies self.nodes@.contains(#[trigger] s1[x].from)
                        && self.nodes@.contains(s1[x].to) by {
                        if x < s0.len() {
                            assert(s1[x] == s0[x]);
                        }
                    }
                }
            },
        }
        Ok(())
    }

    /// The (cost, payload) entry of the link from `from` to `to`.
    /// Fails with `NodeNotFound` for the first endpoint that is not registered, then with
    /// `LinkNotFound(from, to)` when no such link is registered.
    pub fn get_link(&self, from: &u32, to: &u32) -> (r: Result<&(u32, D), GraphError>)
        requires
            self.wf(),
        ensures
            !self@.nodes.contains(*from) ==> r == Err::<&(u32, D), GraphError>(
                GraphError::NodeNotFound(*from),
            ),
            self@.nodes.contains(*from) && !self@.nodes.contains(*to) ==> r == Err::<
                &(u32, D),
                GraphError,
            >(GraphError::NodeNotFound(*to)),
            self@.nodes.contains(*from) && self@.nodes.contains(*to) && !self@.links.contains_key(
                (*from, *to),
            ) ==> r == Err::<&(u32, D), GraphError>(GraphError::LinkNotFound(*from, *to)),
            self@.nodes.contains(*from) && self@.nodes.contains(*to) && self@.links.contains_key(
                (*from, *to),
            ) ==> (r matches Ok(e) && *e == self@.links[(*from, *to)]),
    {
        if self.position(*from).is_none() {
            return Err(GraphError::NodeNotFound(*from));
        }
        if self.position(*to).is_none() {
            return Err(GraphError::NodeNotFound(*to));
        }
        match self.link_position(*from, *to) {
            Some(i) => {
                proof {
                    lemma_link_map(self.links@);
                }
                Ok(&self.links[i].entry)
            },
            None => Err(GraphError::LinkNotFound(*from, *to)),
        }
    }

    /// The payload of the link from `from` to `to`; fails as `get_link` does.
    pub fn get_data(&self, from: &u32, to: &u32) -> (r: Result<&D, GraphError>)
        requires
            self.wf(),
        ensures
            !self@.nodes.contains(*from) ==> r == Err::<&D, GraphError>(GraphError::NodeNotFound(*from)),
            self@.nodes.contains(*from) && !self@.nodes.contains(*to) ==> r == Err::<&D, GraphError>(
                GraphError::NodeNotFound(*to),
            ),
            self@.nodes.contains(*from) && self@.nodes.contains(*to) && !self@.links.contains_key(
                (*from, *to),
            ) ==> r == Err::<&D, GraphError>(GraphError::LinkNotFound(*from, *to)),
            self@.nodes.contains(*from) && self@.nodes.contains(*to) && self@.links.contains_key(
                (*from, *to),
            ) ==> (r matches Ok(d) && *d == self@.links[(*from, *to)].1),
    {
        match self.get_link(from, to) {
            Ok(e) => Ok(&e.1),
            Err(err) => Err(err),
        }
    }

    /// The cost of the link from `from` to `to`; fails as `get_link` does.
    pub fn get_cost(&self, from: &u32, to: &u32) -> (r: Result<&u32, GraphError>)
        requires
            self.wf(),
        ensures
            !self@.nodes.contains(*from) ==> r == Err::<&u32, GraphError>(GraphError::NodeNotFound(*from)),
            self@.nodes.contains(*from) && !self@.nodes.contains(*to) ==> r == Err::<&u32, GraphError>(
                GraphError::NodeNotFound(*to),
            ),
            self@.nodes.contains(*from) && self@.nodes.contains(*to) && !self@.links.contains_key(
                (*from, *to),
            ) ==> r == Err::<&u32, GraphError>(GraphError::LinkNotFound(*from, *to)),
            self@.nodes.contains(*from) && self@.nodes.contains(*to) && self@.links.contains_key(
                (*from, *to),
            ) ==> (r matches Ok(c) && *c == self@.links[(*from, *to)].0),
    {
        match self.get_link(from, to) {
            Ok(e) => Ok(&e.0),
            Err(err) => Err(err),
        }
    }
}

impl<D> Default for Graph<D> {
    fn default() -> (g: Self)
        ensures
            g.wf(),
            g@.nodes == Set::<u32>::empty(),
            g@.links == Map::<(u32, u32), (u32, D)>::empty(),
    {
        Graph::new()
    }
}

} // verus!
