//! The design/module hierarchy: which design instantiates which module, and
//! which designs can implement a module.

use vstd::prelude::*;
use vstd::string::StringExecFns;

use crate::error::BuildError;
use crate::topology::{
    add_topology_edge, add_topology_node, edges_in_bounds, lemma_neighbor_orders, new_topology,
    sources_in_order, targets_in_order, topology_edges, topology_neighbors, topology_size, Topology,
};

verus! {

/// One module instance of a design, as the manifest lists it.
#[derive(Debug, Clone)]
pub struct ModuleEntry {
    pub name: String,
    pub region: Option<String>,
    /// Designs that can implement this module.
    pub rm: Vec<String>,
}

/// One design of the manifest's hierarchy, with its module instances.
#[derive(Debug, Clone)]
pub struct DesignEntry {
    pub name: String,
    pub modules: Vec<ModuleEntry>,
}

#[derive(Debug, Clone)]
pub enum NodeKind {
    Design { name: String },
    Module { name: String, region: Option<String> },
}

#[derive(Debug, Clone, Copy, PartialEq, Eq, Structural)]
pub enum EdgeKind {
    /// design -> module it instantiates
    Instance,
    /// module -> design that can fill it
    Implement,
}

/// The key of a node: `D:<name>` for a design, `M:<name>` for a module.
pub open spec fn node_key(is_design: bool, name: Seq<char>) -> Seq<char> {
    if is_design {
        seq!['D', ':'] + name
    } else {
        seq!['M', ':'] + name
    }
}

pub open spec fn node_is(n: NodeKind, is_design: bool, name: Seq<char>) -> bool {
    n.is_design_node() == is_design && n.name_view() == name
}

pub open spec fn opt_view(o: Option<String>) -> Option<Seq<char>> {
    match o {
        Some(s) => Some(s@),
        None => None,
    }
}

impl NodeKind {
    pub open spec fn is_design_node(self) -> bool {
        self is Design
    }

    /// The region of a module node; none for a design.
    pub open spec fn region_view(self) -> Option<Seq<char>> {
        match self {
            NodeKind::Module { region, .. } => opt_view(region),
            NodeKind::Design { .. } => None,
        }
    }

    pub open spec fn name_view(self) -> Seq<char> {
        match self {
            NodeKind::Design { name } => name@,
            NodeKind::Module { name, .. } => name@,
        }
    }

    /// A copy equal to `self`.
    pub fn duplicate(&self) -> (r: NodeKind)
        ensures
            r == *self,
    {
        match self {
            NodeKind::Design { name } => NodeKind::Design { name: name.clone() },
            NodeKind::Module { name, region } => NodeKind::Module {
                name: name.clone(),
                region: match region {
                    Some(s) => Some(s.clone()),
                    None => None,
                },
            },
        }
    }

    pub fn name(&self) -> (r: &String)
        ensures
            r@ == self.name_view(),
    {
        match self {
            NodeKind::Design { name } => name,
            NodeKind::Module { name, .. } => name,
        }
    }

    pub fn is_design(&self) -> (r: bool)
        ensures
            r == self.is_design_node(),
    {
        match self {
            NodeKind::Design { .. } => true,
            NodeKind::Module { .. } => false,
        }
    }

    /// The node's key in the hierarchy.
    pub fn key(&self) -> (r: String)
        ensures
            r@ == node_key(self.is_design_node(), self.name_view()),
    {
        match self {
            NodeKind::Design { name } => HierarchyGraph::key_design(name.as_str()),
            NodeKind::Module { name, .. } => HierarchyGraph::key_module(name.as_str()),
        }
    }
}

/// A hierarchy as plain values: each node as (is a design, name, region),
/// and the edges as (source, target) handles in order of addition.
pub type HierModel = (Seq<(bool, Seq<char>, Option<Seq<char>>)>, Seq<(int, int)>);

pub open spec fn node_view(n: NodeKind) -> (bool, Seq<char>, Option<Seq<char>>) {
    (n.is_design_node(), n.name_view(), n.region_view())
}

/// The hierarchy with no node and no edge.
pub open spec fn empty_model() -> HierModel {
    (Seq::empty(), Seq::empty())
}

pub open spec fn model_has(m: HierModel, d: bool, name: Seq<char>) -> bool {
    exists|i: int| 0 <= i < m.0.len() && #[trigger] m.0[i].0 == d && m.0[i].1 == name
}

pub open spec fn model_pos(m: HierModel, d: bool, name: Seq<char>) -> int {
    choose|i: int| 0 <= i < m.0.len() && #[trigger] m.0[i].0 == d && m.0[i].1 == name
}

/// Adding a node: nothing changes if one of that kind and name exists.
pub open spec fn model_add(m: HierModel, d: bool, name: Seq<char>, region: Option<Seq<char>>) -> HierModel {
    if model_has(m, d, name) {
        m
    } else {
        (m.0.push((d, name, region)), m.1)
    }
}

/// Connecting two nodes: nothing changes unless both exist.
pub open spec fn model_connect(m: HierModel, ad: bool, a: Seq<char>, bd: bool, b: Seq<char>) -> HierModel {
    if model_has(m, ad, a) && model_has(m, bd, b) {
        (m.0, m.1.push((model_pos(m, ad, a), model_pos(m, bd, b))))
    } else {
        m
    }
}

/// `new` is `old` after adding the design `name`, which has handle `r`:
/// the existing node if there was one, else a new last node.
pub open spec fn design_added(old: HierarchyGraph, name: Seq<char>, new: HierarchyGraph, r: usize) -> bool {
    &&& new.wf()
    &&& r < new.nodes@.len()
    &&& node_is(new.nodes@[r as int], true, name)
    &&& new.edges() == old.edges()
    &&& new.edge_kinds@ == old.edge_kinds@
    &&& old.contains_node(true, name) ==> r == old.position(true, name) && new.nodes@ == old.nodes@
    &&& !old.contains_node(true, name) ==> r == old.nodes@.len() && new.nodes@ == old.nodes@.push(
        new.nodes@[r as int],
    )
}

/// `new` is `old` after adding the module `name` with `region`: the
/// existing node, untouched, if there was one, else a new last node that
/// records the region.
pub open spec fn module_added(
    old: HierarchyGraph,
    name: Seq<char>,
    region: Option<Seq<char>>,
    new: HierarchyGraph,
    r: usize,
) -> bool {
    &&& new.wf()
    &&& r < new.nodes@.len()
    &&& node_is(new.nodes@[r as int], false, name)
    &&& new.edges() == old.edges()
    &&& new.edge_kinds@ == old.edge_kinds@
    &&& old.contains_node(false, name) ==> r == old.position(false, name) && new.nodes@ == old.nodes@
    &&& !old.contains_node(false, name) ==> r == old.nodes@.len() && new.nodes@ == old.nodes@.push(
        new.nodes@[r as int],
    ) && new.nodes@[r as int].region_view() == region
}

/// Adding the same design twice gives the same handle, and the second
/// call changes nothing.
pub proof fn add_design_is_idempotent(
    g0: HierarchyGraph,
    g1: HierarchyGraph,
    g2: HierarchyGraph,
    name: Seq<char>,
    r1: usize,
    r2: usize,
)
    requires
        g0.wf(),
        design_added(g0, name, g1, r1),
        design_added(g1, name, g2, r2),
    ensures
        r1 == r2,
        g2.nodes@ == g1.nodes@,
        g2.edges() == g1.edges(),
{
    g1.lemma_position(r1 as int);
}

/// A module's region is fixed when it is first added: adding it again,
/// with any region, returns the same handle and keeps the first region.
pub proof fn module_region_first_write_wins(
    g0: HierarchyGraph,
    g1: HierarchyGraph,
    g2: HierarchyGraph,
    name: Seq<char>,
    region1: Option<Seq<char>>,
    region2: Option<Seq<char>>,
    r1: usize,
    r2: usize,
)
    requires
        g0.wf(),
        !g0.contains_node(false, name),
        module_added(g0, name, region1, g1, r1),
        module_added(g1, name, region2, g2, r2),
    ensures
        r1 == r2,
        g2.nodes@ == g1.nodes@,
        g2.nodes@[r2 as int].region_view() == region1,
{
    g1.lemma_position(r1 as int);
}

/// Hierarchy graph: node payloads by handle in `nodes`, topology in `graph`,
/// and the kind of each edge, in order of addition, in `edge_kinds`.
#[derive(Debug)]
pub struct HierarchyGraph {
    pub graph: Topology,
    pub nodes: Vec<NodeKind>,
    pub edge_kinds: Vec<EdgeKind>,
}

impl HierarchyGraph {
    pub open spec fn edges(&self) -> Seq<(int, int)> {
        topology_edges(self.graph)
    }

    /// The node handles fit the topology; an edge always joins a design and
    /// a module, and its kind follows from its source; keys are unique.
    pub open spec fn wf(&self) -> bool {
        &&& topology_size(self.graph) == self.nodes@.len()
        &&& edges_in_bounds(self.nodes@.len(), self.edges())
        &&& self.edge_kinds@.len() == self.edges().len()
        &&& forall|e: int|
            0 <= e < self.edges().len() ==> self.nodes@[#[trigger] self.edges()[e].0].is_design_node()
                != self.nodes@[self.edges()[e].1].is_design_node() && self.edge_kinds@[e] == (if self.nodes@[self.edges()[e].0].is_design_node() {
                EdgeKind::Instance
            } else {
                EdgeKind::Implement
            })
        &&& forall|i: int, j: int|
            0 <= i < j < self.nodes@.len() ==> !node_is(
                #[trigger] self.nodes@[i],
                self.nodes@[j].is_design_node(),
                #[trigger] self.nodes@[j].name_view(),
            )
    }

    pub open spec fn contains_node(&self, is_design: bool, name: Seq<char>) -> bool {
        exists|i: int| 0 <= i < self.nodes@.len() && node_is(#[trigger] self.nodes@[i], is_design, name)
    }

    /// The handle of the node with this kind and name (meaningful where it
    /// is contained).
    pub open spec fn position(&self, is_design: bool, name: Seq<char>) -> int {
        choose|i: int| 0 <= i < self.nodes@.len() && node_is(#[trigger] self.nodes@[i], is_design, name)
    }

    /// Nodes one outgoing edge away from the node at `i`, in order of the
    /// edges' addition.
    pub open spec fn children_of(&self, i: int) -> Seq<NodeKind> {
        targets_in_order(self.edges(), i).map_values(|t: int| self.nodes@[t])
    }

    /// Nodes one incoming edge away from the node at `i`, in order of the
    /// edges' addition.
    pub open spec fn parents_of(&self, i: int) -> Seq<NodeKind> {
        sources_in_order(self.edges(), i).map_values(|t: int| self.nodes@[t])
    }

    /// Both nodes are in the graph, joined by an edge from the first to the
    /// second.
    pub open spec fn has_edge(&self, a_design: bool, a: Seq<char>, b_design: bool, b: Seq<char>) -> bool {
        &&& self.contains_node(a_design, a)
        &&& self.contains_node(b_design, b)
        &&& self.edges().contains((self.position(a_design, a), self.position(b_design, b)))
    }

    /// `self` is `old` with nodes and edges added only at the end.
    pub open spec fn grows_from(&self, old: HierarchyGraph) -> bool {
        &&& old.nodes@.len() <= self.nodes@.len()
        &&& forall|i: int| 0 <= i < old.nodes@.len() ==> #[trigger] self.nodes@[i] == old.nodes@[i]
        &&& old.edges().len() <= self.edges().len()
        &&& forall|e: int| 0 <= e < old.edges().len() ==> #[trigger] self.edges()[e] == old.edges()[e]
    }

    /// The graph as plain values.
    pub open spec fn model(&self) -> HierModel {
        (self.nodes@.map_values(|n: NodeKind| node_view(n)), self.edges())
    }

    /// Membership and handles read the same on the graph and its model.
    pub proof fn lemma_model_lookup(&self, d: bool, name: Seq<char>)
        requires
            self.wf(),
        ensures
            self.contains_node(d, name) == model_has(self.model(), d, name),
            self.contains_node(d, name) ==> self.position(d, name) == model_pos(
                self.model(),
                d,
                name,
            ),
    {
        let m = self.model();
        if self.contains_node(d, name) {
            let i = self.position(d, name);
            assert(m.0[i].0 == d && m.0[i].1 == name);
            let j = model_pos(m, d, name);
            assert(node_is(self.nodes@[j], d, name));
            self.lemma_position(j);
            self.lemma_position(i);
        }
        if model_has(m, d, name) {
            let j = model_pos(m, d, name);
            assert(node_is(self.nodes@[j], d, name));
        }
    }

    /// What `add_design` promises, read on the model.
    pub proof fn lemma_design_added_model(old: HierarchyGraph, name: Seq<char>, new: HierarchyGraph, r: usize)
        requires
            old.wf(),
            design_added(old, name, new, r),
        ensures
            new.model() == model_add(old.model(), true, name, None),
    {
        old.lemma_model_lookup(true, name);
        if !old.contains_node(true, name) {
            assert(new.model().0 =~= old.model().0.push((true, name, None)));
        }
    }

    /// What `add_module` promises, read on the model.
    pub proof fn lemma_module_added_model(
        old: HierarchyGraph,
        name: Seq<char>,
        region: Option<Seq<char>>,
        new: HierarchyGraph,
        r: usize,
    )
        requires
            old.wf(),
            module_added(old, name, region, new, r),
        ensures
            new.model() == model_add(old.model(), false, name, region),
    {
        old.lemma_model_lookup(false, name);
        if !old.contains_node(false, name) {
            assert(new.model().0 =~= old.model().0.push((false, name, region)));
        }
    }

    /// What the `connect_*` functions promise, read on the model.
    pub proof fn lemma_connected_model(
        old: HierarchyGraph,
        new: HierarchyGraph,
        ad: bool,
        a: Seq<char>,
        bd: bool,
        b: Seq<char>,
    )
        requires
            old.wf(),
            new.nodes@ == old.nodes@,
            old.contains_node(ad, a) && old.contains_node(bd, b) ==> new.edges() == old.edges().push(
                (old.position(ad, a), old.position(bd, b)),
            ),
            !(old.contains_node(ad, a) && old.contains_node(bd, b)) ==> new.edges() == old.edges(),
        ensures
            new.model() == model_connect(old.model(), ad, a, bd, b),
    {
        old.lemma_model_lookup(ad, a);
        old.lemma_model_lookup(bd, b);
        assert(new.model().0 =~= old.model().0);
    }

    /// Nodes and edges of a graph stay, with the same handles, as it grows.
    pub proof fn lemma_grows_keeps_all(&self, old: HierarchyGraph)
        requires
            old.wf(),
            self.wf(),
            self.grows_from(old),
        ensures
            forall|d: bool, n: Seq<char>| old.contains_node(d, n) ==> #[trigger] self.contains_node(d, n),
            forall|d: bool, n: Seq<char>|
                old.contains_node(d, n) ==> #[trigger] self.position(d, n) == old.position(d, n),
            forall|ad: bool, a: Seq<char>, bd: bool, b: Seq<char>|
                old.has_edge(ad, a, bd, b) ==> #[trigger] self.has_edge(ad, a, bd, b),
    {
        assert forall|d: bool, n: Seq<char>| old.contains_node(d, n) implies #[trigger] self.contains_node(
            d,
            n,
        ) by {
            let i = old.position(d, n);
            assert(self.nodes@[i] == old.nodes@[i]);
            self.lemma_position(i);
        }
        assert forall|d: bool, n: Seq<char>| old.contains_node(d, n) implies #[trigger] self.position(
            d,
            n,
        ) == old.position(d, n) by {
            let i = old.position(d, n);
            assert(self.nodes@[i] == old.nodes@[i]);
            self.lemma_position(i);
        }
        assert forall|ad: bool, a: Seq<char>, bd: bool, b: Seq<char>| old.has_edge(
            ad,
            a,
            bd,
            b,
        ) implies #[trigger] self.has_edge(ad, a, bd, b) by {
            let i = old.position(ad, a);
            assert(self.nodes@[i] == old.nodes@[i]);
            self.lemma_position(i);
            let k = old.position(bd, b);
            assert(self.nodes@[k] == old.nodes@[k]);
            self.lemma_position(k);
            let e = choose|e: int|
                0 <= e < old.edges().len() && old.edges()[e] == (old.position(ad, a), old.position(bd, b));
            assert(self.edges()[e] == old.edges()[e]);
        }
    }

    pub fn new() -> (r: Self)
        ensures
            r.wf(),
            r.model() == empty_model(),
            r.nodes@.len() == 0,
            r.edges().len() == 0,
    {
        let r = HierarchyGraph { graph: new_topology(), nodes: Vec::new(), edge_kinds: Vec::new() };
        proof {
            assert(r.model().0 =~= Seq::<(bool, Seq<char>, Option<Seq<char>>)>::empty());
            assert(r.model().1 =~= Seq::<(int, int)>::empty());
        }
        r
    }

    pub fn key_design(name: &str) -> (r: String)
        ensures
            r@ == node_key(true, name@),
    {
        let mut s = String::from_str("D:");
        proof {
            reveal_strlit("D:");
        }
        s.append(name);
        s
    }

    pub fn key_module(name: &str) -> (r: String)
        ensures
            r@ == node_key(false, name@),
    {
        let mut s = String::from_str("M:");
        proof {
            reveal_strlit("M:");
        }
        s.append(name);
        s
    }

    pub proof fn lemma_position(&self, i: int)
        requires
            self.wf(),
            0 <= i < self.nodes@.len(),
        ensures
            self.contains_node(self.nodes@[i].is_design_node(), self.nodes@[i].name_view()),
            self.position(self.nodes@[i].is_design_node(), self.nodes@[i].name_view()) == i,
    {
        let d = self.nodes@[i].is_design_node();
        let n = self.nodes@[i].name_view();
        assert(node_is(self.nodes@[i], d, n));
        let p = self.position(d, n);
        if p < i {
            assert(!node_is(self.nodes@[p], self.nodes@[i].is_design_node(), self.nodes@[i].name_view()));
        } else if p > i {
            assert(!node_is(self.nodes@[i], self.nodes@[p].is_design_node(), self.nodes@[p].name_view()));
        }
    }

    /// The handle of the node with this kind and name, if it was added.
    pub fn find(&self, name: &str, is_design: bool) -> (r: Option<usize>)
        requires
            self.wf(),
        ensures
            r is Some <==> self.contains_node(is_design, name@),
            r matches Some(i) ==> i as int == self.position(is_design, name@) && i
                < self.nodes@.len(),
    {
        let target = String::from_str(name);
        let mut k: usize = 0;
        while k < self.nodes.len()
            invariant
                self.wf(),
                target@ == name@,
                k <= self.nodes@.len(),
                forall|j: int| 0 <= j < k ==> !node_is(#[trigger] self.nodes@[j], is_design, name@),
            decreases self.nodes@.len() - k,
        {
            let n = &self.nodes[k];
            if n.is_design() == is_design && *n.name() == target {
                proof {
                    self.lemma_position(k as int);
                }
                return Some(k);
            }
            k = k + 1;
        }
        None
    }

    /// Whether a node with this key (`D:<name>` or `M:<name>`) was added.
    pub fn contains_key(&self, key: &str) -> (r: bool)
        requires
            self.wf(),
        ensures
            r == exists|i: int|
                0 <= i < self.nodes@.len() && node_key(
                    #[trigger] self.nodes@[i].is_design_node(),
                    self.nodes@[i].name_view(),
                ) == key@,
    {
        let target = String::from_str(key);
        let mut k: usize = 0;
        while k < self.nodes.len()
            invariant
                target@ == key@,
                k <= self.nodes@.len(),
                forall|j: int|
                    0 <= j < k ==> node_key(
                        #[trigger] self.nodes@[j].is_design_node(),
                        self.nodes@[j].name_view(),
                    ) != key@,
            decreases self.nodes@.len() - k,
        {
            if self.nodes[k].key() == target {
                return true;
            }
            k = k + 1;
        }
        false
    }

    /// The node at handle `idx`, if there is one.
    pub fn node(&self, idx: usize) -> (r: Option<&NodeKind>)
        ensures
            idx < self.nodes@.len() ==> r == Some(&self.nodes@[idx as int]),
            idx >= self.nodes@.len() ==> r is None,
    {
        if idx < self.nodes.len() {
            Some(&self.nodes[idx])
        } else {
            None
        }
    }

    fn push_node(&mut self, n: NodeKind) -> (r: usize)
        requires
            old(self).wf(),
            !old(self).contains_node(n.is_design_node(), n.name_view()),
        ensures
            final(self).wf(),
            r == old(self).nodes@.len(),
            final(self).nodes@ == old(self).nodes@.push(n),
            final(self).edges() == old(self).edges(),
            final(self).edge_kinds@ == old(self).edge_kinds@,
    {
        let r = add_topology_node(&mut self.graph);
        self.nodes.push(n);
        proof {
            let nodes = self.nodes@;
            assert forall|i: int, j: int| 0 <= i < j < nodes.len() implies !node_is(
                #[trigger] nodes[i],
                nodes[j].is_design_node(),
                #[trigger] nodes[j].name_view(),
            ) by {
                if j == nodes.len() - 1 {
                    assert(nodes[i] == old(self).nodes@[i]);
                    if node_is(nodes[i], n.is_design_node(), n.name_view()) {
                        assert(old(self).contains_node(n.is_design_node(), n.name_view()));
                    }
                } else {
                    assert(nodes[i] == old(self).nodes@[i]);
                    assert(nodes[j] == old(self).nodes@[j]);
                }
            }
            assert forall|e: int| 0 <= e < self.edges().len() implies 0 <= #[trigger] self.edges()[e].0
                < nodes.len() && 0 <= self.edges()[e].1 < nodes.len() by {}
        }
        r
    }

    /// Adds a design node, or returns the existing one of that name.
    pub fn add_design(&mut self, name: &str) -> (r: usize)
        requires
            old(self).wf(),
        ensures
            design_added(*old(self), name@, *final(self), r),
    {
        match self.find(name, true) {
            Some(i) => {
                proof {
                    assert(old(self).contains_node(true, name@));
                    let w = choose|w: int|
                        0 <= w < self.nodes@.len() && node_is(#[trigger] self.nodes@[w], true, name@);
                    self.lemma_position(w);
                }
                i
            },
            None => {
                let n = NodeKind::Design { name: String::from_str(name) };
                self.push_node(n)
            },
        }
    }

    /// Adds a module node, or returns the existing one of that name; the
    /// region is recorded only when the node is first added.
    pub fn add_module(&mut self, name: &str, region: Option<&str>) -> (r: usize)
        requires
            old(self).wf(),
        ensures
            module_added(
                *old(self),
                name@,
                match region {
                    Some(s) => Some(s@),
                    None => None,
                },
                *final(self),
                r,
            ),
    {
        match self.find(name, false) {
            Some(i) => {
                proof {
                    let w = choose|w: int|
                        0 <= w < self.nodes@.len() && node_is(#[trigger] self.nodes@[w], false, name@);
                    self.lemma_position(w);
                }
                i
            },
            None => {
                let reg = match region {
                    Some(s) => Some(String::from_str(s)),
                    None => None,
                };
                let n = NodeKind::Module { name: String::from_str(name), region: reg };
                self.push_node(n)
            },
        }
    }

    fn push_edge(&mut self, a: usize, b: usize, kind: EdgeKind)
        requires
            old(self).wf(),
            a < old(self).nodes@.len(),
            b < old(self).nodes@.len(),
            old(self).nodes@[a as int].is_design_node() != old(
                self,
            ).nodes@[b as int].is_design_node(),
            kind == (if old(self).nodes@[a as int].is_design_node() {
                EdgeKind::Instance
            } else {
                EdgeKind::Implement
            }),
        ensures
            final(self).wf(),
            final(self).nodes@ == old(self).nodes@,
            final(self).edges() == old(self).edges().push((a as int, b as int)),
            final(self).edge_kinds@ == old(self).edge_kinds@.push(kind),
    {
        add_topology_edge(&mut self.graph, a, b);
        self.edge_kinds.push(kind);
        proof {
            let edges = self.edges();
            assert forall|e: int| 0 <= e < edges.len() implies 0 <= #[trigger] edges[e].0
                < self.nodes@.len() && 0 <= edges[e].1 < self.nodes@.len() by {
                if e < edges.len() - 1 {
                    assert(edges[e] == old(self).edges()[e]);
                }
            }
            assert forall|e: int| 0 <= e < edges.len() implies self.nodes@[#[trigger] edges[e].0].is_design_node()
                != self.nodes@[edges[e].1].is_design_node() && self.edge_kinds@[e] == (if self.nodes@[edges[e].0].is_design_node() {
                EdgeKind::Instance
            } else {
                EdgeKind::Implement
            }) by {
                if e < edges.len() - 1 {
                    assert(edges[e] == old(self).edges()[e]);
                    assert(self.edge_kinds@[e] == old(self).edge_kinds@[e]);
                }
            }
        }
    }

    /// Adds an `Instance` edge from a design to a module it instantiates.
    /// Fails with `MissingNode` (design checked first) if either is absent.
    pub fn connect_design_to_module(&mut self, design: &str, module: &str) -> (r: Result<
        (),
        BuildError,
    >)
        requires
            old(self).wf(),
        ensures
            final(self).wf(),
            final(self).nodes@ == old(self).nodes@,
            r is Ok <==> old(self).contains_node(true, design@) && old(self).contains_node(
                false,
                module@,
            ),
            r is Ok ==> final(self).edges() == old(self).edges().push(
                (old(self).position(true, design@), old(self).position(false, module@)),
            ) && final(self).edge_kinds@ == old(self).edge_kinds@.push(EdgeKind::Instance),
            r is Err ==> final(self).edges() == old(self).edges() && final(self).edge_kinds@
                == old(self).edge_kinds@,
            !old(self).contains_node(true, design@) ==> (r matches Err(BuildError::MissingNode(k)) && k@ == node_key(true, design@)),
            old(self).contains_node(true, design@) && !old(self).contains_node(false, module@)
                ==> (r matches Err(BuildError::MissingNode(k)) && k@ == node_key(false, module@)),
    {
        let d = match self.find(design, true) {
            Some(d) => d,
            None => {
                return Err(BuildError::MissingNode(Self::key_design(design)));
            },
        };
        let m = match self.find(module, false) {
            Some(m) => m,
            None => {
                return Err(BuildError::MissingNode(Self::key_module(module)));
            },
        };
        proof {
            let w = choose|w: int| 0 <= w < self.nodes@.len() && node_is(#[trigger] self.nodes@[w], true, design@);
            self.lemma_position(w);
            let v = choose|v: int| 0 <= v < self.nodes@.len() && node_is(#[trigger] self.nodes@[v], false, module@);
            self.lemma_position(v);
        }
        self.push_edge(d, m, EdgeKind::Instance);
        Ok(())
    }

    /// Adds an `Implement` edge from a module to a design that can fill it.
    /// Fails with `MissingNode` (module checked first) if either is absent.
    pub fn connect_module_to_design_impl(&mut self, module: &str, impl_design: &str) -> (r:
        Result<(), BuildError>)
        requires
            old(self).wf(),
        ensures
            final(self).wf(),
            final(self).nodes@ == old(self).nodes@,
            r is Ok <==> old(self).contains_node(false, module@) && old(self).contains_node(
                true,
                impl_design@,
            ),
            r is Ok ==> final(self).edges() == old(self).edges().push(
                (old(self).position(false, module@), old(self).position(true, impl_design@)),
            ) && final(self).edge_kinds@ == old(self).edge_kinds@.push(EdgeKind::Implement),
            r is Err ==> final(self).edges() == old(self).edges() && final(self).edge_kinds@
                == old(self).edge_kinds@,
            !old(self).contains_node(false, module@) ==> (r matches Err(BuildError::MissingNode(k)) && k@ == node_key(false, module@)),
            old(self).contains_node(false, module@) && !old(self).contains_node(true, impl_design@)
                ==> (r matches Err(BuildError::MissingNode(k)) && k@ == node_key(true, impl_design@)),
    {
        let m = match self.find(module, false) {
            Some(m) => m,
            None => {
                return Err(BuildError::MissingNode(Self::key_module(module)));
            },
        };
        let d = match self.find(impl_design, true) {
            Some(d) => d,
            None => {
                return Err(BuildError::MissingNode(Self::key_design(impl_design)));
            },
        };
        proof {
            let w = choose|w: int| 0 <= w < self.nodes@.len() && node_is(#[trigger] self.nodes@[w], true, impl_design@);
            self.lemma_position(w);
            let v = choose|v: int| 0 <= v < self.nodes@.len() && node_is(#[trigger] self.nodes@[v], false, module@);
            self.lemma_position(v);
        }
        self.push_edge(m, d, EdgeKind::Implement);
        Ok(())
    }

    /// The nodes one outgoing edge away from the named node, in order of the
    /// edges' addition; empty if the node is absent.
    pub fn get_child_nodes(&self, name: &str, is_design: bool) -> (r: Vec<NodeKind>)
        requires
            self.wf(),
        ensures
            !self.contains_node(is_design, name@) ==> r@.len() == 0,
            self.contains_node(is_design, name@) ==> r@ == self.children_of(
                self.position(is_design, name@),
            ),
    {
        self.neighbor_nodes(name, is_design, true)
    }

    /// The nodes one incoming edge away from the named node, in order of the
    /// edges' addition; empty if the node is absent.
    pub fn get_parent_nodes(&self, name: &str, is_design: bool) -> (r: Vec<NodeKind>)
        requires
            self.wf(),
        ensures
            !self.contains_node(is_design, name@) ==> r@.len() == 0,
            self.contains_node(is_design, name@) ==> r@ == self.parents_of(
                self.position(is_design, name@),
            ),
    {
        self.neighbor_nodes(name, is_design, false)
    }

    fn neighbor_nodes(&self, name: &str, is_design: bool, outgoing: bool) -> (r: Vec<NodeKind>)
        requires
            self.wf(),
        ensures
            !self.contains_node(is_design, name@) ==> r@.len() == 0,
            self.contains_node(is_design, name@) && outgoing ==> r@ == self.children_of(
                self.position(is_design, name@),
            ),
            self.contains_node(is_design, name@) && !outgoing ==> r@ == self.parents_of(
                self.position(is_design, name@),
            ),
    {
        let mut out: Vec<NodeKind> = Vec::new();
        let idx = match self.find(name, is_design) {
            Some(i) => i,
            None => {
                return out;
            },
        };
        let nb = topology_neighbors(&self.graph, idx, outgoing);
        let ghost expected = if outgoing {
            targets_in_order(self.edges(), idx as int)
        } else {
            sources_in_order(self.edges(), idx as int)
        };
        proof {
            lemma_neighbor_orders(self.edges(), self.nodes@.len(), idx as int);
        }
        let mut k: usize = nb.len();
        while k > 0
            invariant
                self.wf(),
                k <= nb@.len(),
                expected.len() == nb@.len(),
                forall|j: int|
                    0 <= j < expected.len() ==> #[trigger] expected[j] == nb@[nb@.len() - 1
                        - j] as int && 0 <= expected[j] < self.nodes@.len(),
                out@.len() == nb@.len() - k,
                forall|j: int| 0 <= j < out@.len() ==> #[trigger] out@[j] == self.nodes@[expected[j]],
            decreases k,
        {
            k = k - 1;
            proof {
                let j = nb@.len() - 1 - k;
                assert(expected[j] == nb@[k as int] as int);
            }
            out.push(self.nodes[nb[k]].duplicate());
        }
        proof {
            if outgoing {
                assert(out@ =~= self.children_of(idx as int));
            } else {
                assert(out@ =~= self.parents_of(idx as int));
            }
        }
        out
    }
}

} // verus!
