//! Directed topology of a graph, held in a petgraph `Graph` whose nodes and
//! edges carry no data. Node payloads live beside it, indexed by the same
//! small integer handles.

use vstd::prelude::*;

verus! {

#[verifier::external_type_specification]
#[verifier::external_body]
#[verifier::reject_recursive_types(N)]
#[verifier::reject_recursive_types(E)]
#[verifier::reject_recursive_types(Ty)]
#[verifier::reject_recursive_types(Ix)]
pub struct ExGraph<N, E, Ty, Ix>(petgraph::graph::Graph<N, E, Ty, Ix>);

#[verifier::external_type_specification]
#[verifier::external_body]
pub struct ExDirected(petgraph::Directed);

/// Directed graph with `usize` handles and no payloads.
pub type Topology = petgraph::graph::Graph<(), (), petgraph::Directed, usize>;

/// Number of nodes of a topology.
pub uninterp spec fn topology_size(g: Topology) -> nat;

/// Edges of a topology as (source, target) pairs, in order of addition.
pub uninterp spec fn topology_edges(g: Topology) -> Seq<(int, int)>;

/// Targets of the edges leaving `a`, most recently added first.
pub open spec fn targets_newest_first(edges: Seq<(int, int)>, a: int) -> Seq<int>
    decreases edges.len(),
{
    if edges.len() == 0 {
        Seq::empty()
    } else {
        let rest = targets_newest_first(edges.drop_last(), a);
        if edges.last().0 == a {
            seq![edges.last().1] + rest
        } else {
            rest
        }
    }
}

/// Sources of the edges entering `a`, most recently added first.
pub open spec fn sources_newest_first(edges: Seq<(int, int)>, a: int) -> Seq<int>
    decreases edges.len(),
{
    if edges.len() == 0 {
        Seq::empty()
    } else {
        let rest = sources_newest_first(edges.drop_last(), a);
        if edges.last().1 == a {
            seq![edges.last().0] + rest
        } else {
            rest
        }
    }
}

/// Targets of the edges leaving `a`, in order of addition.
pub open spec fn targets_in_order(edges: Seq<(int, int)>, a: int) -> Seq<int>
    decreases edges.len(),
{
    if edges.len() == 0 {
        Seq::empty()
    } else {
        let rest = targets_in_order(edges.drop_last(), a);
        if edges.last().0 == a {
            rest.push(edges.last().1)
        } else {
            rest
        }
    }
}

/// Sources of the edges entering `a`, in order of addition.
pub open spec fn sources_in_order(edges: Seq<(int, int)>, a: int) -> Seq<int>
    decreases edges.len(),
{
    if edges.len() == 0 {
        Seq::empty()
    } else {
        let rest = sources_in_order(edges.drop_last(), a);
        if edges.last().1 == a {
            rest.push(edges.last().0)
        } else {
            rest
        }
    }
}

/// `p` is a closed walk of at least one edge.
pub open spec fn is_cycle(edges: Seq<(int, int)>, p: Seq<int>) -> bool {
    &&& p.len() >= 2
    &&& p[0] == p.last()
    &&& forall|k: int| 0 <= k < p.len() - 1 ==> edges.contains((p[k], #[trigger] p[k + 1]))
}

pub open spec fn has_cycle(edges: Seq<(int, int)>) -> bool {
    exists|p: Seq<int>| is_cycle(edges, p)
}

/// `a` stands somewhere before `b` in `s`.
pub open spec fn precedes<A>(s: Seq<A>, a: A, b: A) -> bool {
    exists|p: int, q: int| 0 <= p < q < s.len() && s[p] == a && s[q] == b
}

/// `order` lists every node of `0..n` exactly once, and each edge's source
/// comes before its target.
pub open spec fn is_topological_order(n: nat, edges: Seq<(int, int)>, order: Seq<int>) -> bool {
    &&& order.len() == n
    &&& order.no_duplicates()
    &&& forall|k: int| 0 <= k < order.len() ==> 0 <= #[trigger] order[k] < n
    &&& forall|i: int| 0 <= i < n ==> #[trigger] order.contains(i)
    &&& forall|e: int| 0 <= e < edges.len() ==> precedes(order, #[trigger] edges[e].0, edges[e].1)
}

/// `p` is a walk of zero or more edges.
pub open spec fn is_walk(edges: Seq<(int, int)>, p: Seq<int>) -> bool {
    &&& p.len() >= 1
    &&& forall|k: int| 0 <= k < p.len() - 1 ==> edges.contains((p[k], #[trigger] p[k + 1]))
}

/// `t` can be reached from `s` along zero or more edges.
pub open spec fn reachable(edges: Seq<(int, int)>, s: int, t: int) -> bool {
    exists|p: Seq<int>| is_walk(edges, p) && p[0] == s && p.last() == t
}

/// The newest-first target list of `a` holds exactly the targets of the
/// edges that leave `a`.
pub proof fn lemma_targets_are_edges(edges: Seq<(int, int)>, a: int)
    ensures
        forall|t: int| #[trigger] targets_newest_first(edges, a).contains(t) <==> edges.contains((a, t)),
    decreases edges.len(),
{
    if edges.len() > 0 {
        let rest = edges.drop_last();
        lemma_targets_are_edges(rest, a);
        let l = targets_newest_first(edges, a);
        assert forall|t: int| #[trigger] l.contains(t) <==> edges.contains((a, t)) by {
            if edges.contains((a, t)) {
                let e = choose|e: int| 0 <= e < edges.len() && edges[e] == (a, t);
                if e < edges.len() - 1 {
                    assert(rest[e] == edges[e]);
                    assert(rest.contains((a, t)));
                    assert(targets_newest_first(rest, a).contains(t));
                    if edges.last().0 == a {
                        assert(l[1 + targets_newest_first(rest, a).index_of(t)] == t);
                    }
                } else {
                    assert(l[0] == t);
                }
            }
            if l.contains(t) {
                let k = choose|k: int| 0 <= k < l.len() && l[k] == t;
                if edges.last().0 == a {
                    if k == 0 {
                        assert(edges[edges.len() - 1] == (a, t));
                    } else {
                        assert(targets_newest_first(rest, a)[k - 1] == t);
                        assert(targets_newest_first(rest, a).contains(t));
                        assert(rest.contains((a, t)));
                        let e = choose|e: int| 0 <= e < rest.len() && rest[e] == (a, t);
                        assert(edges[e] == (a, t));
                    }
                } else {
                    assert(targets_newest_first(rest, a)[k] == t);
                    assert(targets_newest_first(rest, a).contains(t));
                    assert(rest.contains((a, t)));
                    let e = choose|e: int| 0 <= e < rest.len() && rest[e] == (a, t);
                    assert(edges[e] == (a, t));
                }
            }
        }
    }
}

pub open spec fn edges_in_bounds(n: nat, edges: Seq<(int, int)>) -> bool {
    forall|e: int|
        0 <= e < edges.len() ==> 0 <= #[trigger] edges[e].0 < n && 0 <= edges[e].1 < n
}

pub open spec fn as_ints(v: Seq<usize>) -> Seq<int> {
    v.map_values(|x: usize| x as int)
}

/// Both neighbour lists are the in-order lists reversed, and lie in `0..n`.
pub proof fn lemma_neighbor_orders(edges: Seq<(int, int)>, n: nat, a: int)
    requires
        edges_in_bounds(n, edges),
    ensures
        targets_in_order(edges, a).len() == targets_newest_first(edges, a).len(),
        sources_in_order(edges, a).len() == sources_newest_first(edges, a).len(),
        forall|j: int|
            0 <= j < targets_in_order(edges, a).len() ==> #[trigger] targets_in_order(edges, a)[j]
                == targets_newest_first(edges, a)[targets_in_order(edges, a).len() - 1 - j]
                && 0 <= targets_in_order(edges, a)[j] < n,
        forall|j: int|
            0 <= j < sources_in_order(edges, a).len() ==> #[trigger] sources_in_order(edges, a)[j]
                == sources_newest_first(edges, a)[sources_in_order(edges, a).len() - 1 - j]
                && 0 <= sources_in_order(edges, a)[j] < n,
    decreases edges.len(),
{
    if edges.len() > 0 {
        let rest = edges.drop_last();
        assert forall|e: int| 0 <= e < rest.len() implies 0 <= #[trigger] rest[e].0 < n && 0
            <= rest[e].1 < n by {
            assert(rest[e] == edges[e]);
        }
        lemma_neighbor_orders(rest, n, a);
        assert(0 <= edges[edges.len() - 1].0 < n);
    }
}

/// Relies on petgraph's `Graph::default`: a graph with no nodes and no edges.
#[verifier::external_body]
pub(crate) fn new_topology() -> (g: Topology)
    ensures
        topology_size(g) == 0,
        topology_edges(g) == Seq::<(int, int)>::empty(),
{
    Topology::default()
}

/// Relies on petgraph's `Graph::add_node`: the new node's index is the old
/// node count; edges are kept. With `usize` indices it never panics.
#[verifier::external_body]
pub(crate) fn add_topology_node(g: &mut Topology) -> (r: usize)
    ensures
        r == topology_size(*old(g)),
        topology_size(*final(g)) == topology_size(*old(g)) + 1,
        topology_edges(*final(g)) == topology_edges(*old(g)),
{
    g.add_node(()).index()
}

/// Relies on petgraph's `Graph::add_edge`: appends the edge `a -> b`
/// (parallel edges allowed). It panics only on indices out of bounds.
#[verifier::external_body]
pub(crate) fn add_topology_edge(g: &mut Topology, a: usize, b: usize)
    requires
        a < topology_size(*old(g)),
        b < topology_size(*old(g)),
    ensures
        topology_size(*final(g)) == topology_size(*old(g)),
        topology_edges(*final(g)) == topology_edges(*old(g)).push((a as int, b as int)),
{
    g.add_edge(petgraph::graph::NodeIndex::new(a), petgraph::graph::NodeIndex::new(b), ());
}

/// Relies on petgraph's `Graph::neighbors_directed`: on a directed graph
/// the neighbours along outgoing (or incoming) edges of `a`, listed in
/// reverse order of the edges' addition.
#[verifier::external_body]
pub(crate) fn topology_neighbors(g: &Topology, a: usize, outgoing: bool) -> (r: Vec<usize>)
    requires
        a < topology_size(*g),
    ensures
        outgoing ==> as_ints(r@) == targets_newest_first(topology_edges(*g), a as int),
        !outgoing ==> as_ints(r@) == sources_newest_first(topology_edges(*g), a as int),
{
    let dir = if outgoing {
        petgraph::Direction::Outgoing
    } else {
        petgraph::Direction::Incoming
    };
    g.neighbors_directed(petgraph::graph::NodeIndex::new(a), dir).map(|i| i.index()).collect()
}

/// The order that petgraph's `algo::toposort` gives a graph without payloads
/// of `n` nodes and these edges, in order of addition.
pub uninterp spec fn toposort_order(n: nat, edges: Seq<(int, int)>) -> Seq<int>;

/// Relies on petgraph's `algo::toposort`: on an acyclic graph, every node
/// once, each before its successors; otherwise a `Cycle` error, which
/// carries a node of the graph. Its walk visits nodes by index and
/// neighbours in the order of the edge lists, so the order depends on the
/// node count and the edges alone.
#[verifier::external_body]
pub(crate) fn topology_sort(g: &Topology) -> (r: Result<Vec<usize>, usize>)
    ensures
        r matches Ok(order) ==> is_topological_order(
            topology_size(*g),
            topology_edges(*g),
            as_ints(order@),
        ),
        r matches Ok(order) ==> as_ints(order@) == toposort_order(
            topology_size(*g),
            topology_edges(*g),
        ),
        r matches Err(node) ==> node < topology_size(*g) && has_cycle(topology_edges(*g)),
{
    match petgraph::algo::toposort(g, None) {
        Ok(order) => Ok(order.into_iter().map(|i| i.index()).collect()),
        Err(c) => Err(c.node_id().index()),
    }
}

} // verus!
