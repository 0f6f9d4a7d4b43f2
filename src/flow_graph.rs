//! The per-build stage graph: one node per (design, stage), an edge
//! `u -> v` meaning that `u` must complete before `v` may start.

use vstd::prelude::*;
use vstd::string::StringExecFns;

use crate::error::BuildError;
use crate::topology::{
    add_topology_edge, add_topology_node, as_ints, edges_in_bounds, has_cycle, is_cycle,
    is_topological_order, is_walk, toposort_order, lemma_neighbor_orders, lemma_targets_are_edges, new_topology,
    precedes, reachable, sources_in_order, targets_in_order, targets_newest_first, topology_edges,
    topology_neighbors, topology_size, topology_sort, Topology,
};
use vstd::set_lib::{lemma_int_range, lemma_len_subset, set_int_range};

verus! {

/// Lower-case form of a string, as `str::to_lowercase` gives it.
pub uninterp spec fn lowercase_of(s: Seq<char>) -> Seq<char>;

/// Relies on `str::to_lowercase`: its result depends on the characters of
/// its argument alone.
#[verifier::external_body]
fn to_lowercase(s: &str) -> (r: String)
    ensures
        r@ == lowercase_of(s@),
{
    s.to_lowercase()
}

/// The fixed stage vocabulary of the build pipeline.
#[derive(Debug, Clone, Copy, PartialEq, Eq, Hash, Structural)]
pub enum BuildStage {
    VerifyFiles,
    CreateProject,
    Synth,
    Route,
    Bitgen,
}

/// The stage that a lower-case name denotes: its canonical name, or the
/// same words joined by an underscore.
pub open spec fn stage_named(s: Seq<char>) -> Option<BuildStage> {
    if s == "verifyfiles"@ || s == "verify_files"@ {
        Some(BuildStage::VerifyFiles)
    } else if s == "createproject"@ || s == "create_project"@ {
        Some(BuildStage::CreateProject)
    } else if s == "synth"@ {
        Some(BuildStage::Synth)
    } else if s == "route"@ {
        Some(BuildStage::Route)
    } else if s == "bitgen"@ {
        Some(BuildStage::Bitgen)
    } else {
        None
    }
}

impl BuildStage {
    pub open spec fn name_spec(self) -> Seq<char> {
        match self {
            BuildStage::VerifyFiles => "verifyfiles"@,
            BuildStage::CreateProject => "createproject"@,
            BuildStage::Synth => "synth"@,
            BuildStage::Route => "route"@,
            BuildStage::Bitgen => "bitgen"@,
        }
    }

    /// The stage's canonical name, as it appears in flow keys.
    pub fn as_str(self) -> (r: &'static str)
        ensures
            r@ == self.name_spec(),
    {
        match self {
            BuildStage::VerifyFiles => "verifyfiles",
            BuildStage::CreateProject => "createproject",
            BuildStage::Synth => "synth",
            BuildStage::Route => "route",
            BuildStage::Bitgen => "bitgen",
        }
    }

    /// The stage named by `s`, compared without regard to case.
    pub fn from_str(s: &str) -> (r: Option<Self>)
        ensures
            r == stage_named(lowercase_of(s@)),
    {
        let lower = to_lowercase(s);
        Self::from_lowercase(lower.as_str())
    }

    /// The stage named by `s`, which is already in lower case.
    pub fn from_lowercase(s: &str) -> (r: Option<Self>)
        ensures
            r == stage_named(s@),
    {
        let t = String::from_str(s);
        proof {
            reveal_strlit("verifyfiles");
            reveal_strlit("verify_files");
            reveal_strlit("createproject");
            reveal_strlit("create_project");
            reveal_strlit("synth");
            reveal_strlit("route");
            reveal_strlit("bitgen");
        }
        if t == String::from_str("verifyfiles") || t == String::from_str("verify_files") {
            Some(BuildStage::VerifyFiles)
        } else if t == String::from_str("createproject") || t == String::from_str(
            "create_project",
        ) {
            Some(BuildStage::CreateProject)
        } else if t == String::from_str("synth") {
            Some(BuildStage::Synth)
        } else if t == String::from_str("route") {
            Some(BuildStage::Route)
        } else if t == String::from_str("bitgen") {
            Some(BuildStage::Bitgen)
        } else {
            None
        }
    }
}

/// The key of a (design, stage) node: `<design>:<stage>`.
pub open spec fn flow_key(design: Seq<char>, stage: BuildStage) -> Seq<char> {
    design + seq![':'] + stage.name_spec()
}

/// No stage name holds a colon, and different stages have different names.
pub proof fn lemma_stage_names()
    ensures
        forall|s: BuildStage| !(#[trigger] s.name_spec()).contains(':'),
        forall|s1: BuildStage, s2: BuildStage|
            #[trigger] s1.name_spec() == #[trigger] s2.name_spec() ==> s1 == s2,
{
    reveal_strlit("verifyfiles");
    reveal_strlit("createproject");
    reveal_strlit("synth");
    reveal_strlit("route");
    reveal_strlit("bitgen");
    assert forall|s: BuildStage| !(#[trigger] s.name_spec()).contains(':') by {
        let n = s.name_spec();
        if n.contains(':') {
            let i = choose|i: int| 0 <= i < n.len() && n[i] == ':';
            assert(n[i] != ':');
        }
    }
    assert forall|s1: BuildStage, s2: BuildStage|
        #[trigger] s1.name_spec() == #[trigger] s2.name_spec() implies s1 == s2 by {
        let (n1, n2) = (s1.name_spec(), s2.name_spec());
        if s1 != s2 {
            assert(n1.len() != n2.len() || n1[0] != n2[0] || n1[1] != n2[1]);
        }
    }
}

/// A flow key determines its design and its stage.
pub proof fn lemma_flow_key_injective(d1: Seq<char>, s1: BuildStage, d2: Seq<char>, s2: BuildStage)
    requires
        flow_key(d1, s1) == flow_key(d2, s2),
    ensures
        d1 == d2,
        s1 == s2,
{
    lemma_stage_names();
    let k = flow_key(d1, s1);
    let (n1, n2) = (s1.name_spec(), s2.name_spec());
    let len = k.len() as int;
    assert(k == d2 + seq![':'] + n2);
    if n1.len() < n2.len() {
        let i = len - n1.len() - 1;
        assert(k[i] == ':');
        assert(k[i] == n2[i - d2.len() - 1]);
        assert(n2.contains(':'));
    } else if n2.len() < n1.len() {
        let i = len - n2.len() - 1;
        assert(k[i] == ':');
        assert(k[i] == n1[i - d1.len() - 1]);
        assert(n1.contains(':'));
    }
    assert(n1 =~= k.subrange(len - n1.len(), len));
    assert(n2 =~= k.subrange(len - n2.len(), len));
    assert(d1 =~= k.subrange(0, d1.len() as int));
    assert(d2 =~= k.subrange(0, d2.len() as int));
}

/// `ks` with `k` appended unless it is already there.
pub open spec fn with_key(ks: Seq<Seq<char>>, k: Seq<char>) -> Seq<Seq<char>> {
    if ks.contains(k) {
        ks
    } else {
        ks.push(k)
    }
}

/// Where `k` stands in `ks` (meaningful where it is there).
pub open spec fn key_index(ks: Seq<Seq<char>>, k: Seq<char>) -> int {
    choose|i: int| 0 <= i < ks.len() && ks[i] == k
}

/// One node: one stage of one design, with the artifacts it produced.
#[derive(Debug, Clone)]
pub struct FlowNode {
    pub key: String,
    pub design: String,
    pub stage: BuildStage,
    pub artifacts: Vec<String>,
}

/// The one kind of edge: `u -> v` means `u` must complete before `v`.
#[derive(Debug, Clone, Copy, PartialEq, Eq, Structural)]
pub enum FlowEdge {
    Depends,
}

/// Artifacts of the nodes, concatenated in node order.
pub open spec fn flatten_artifacts(nodes: Seq<FlowNode>) -> Seq<Seq<char>>
    decreases nodes.len(),
{
    if nodes.len() == 0 {
        Seq::empty()
    } else {
        flatten_artifacts(nodes.drop_last()) + nodes.last().artifacts@.map_values(
            |a: String| a@,
        )
    }
}

/// One stage in the structural dump: its key and its direct successors.
#[derive(Debug, Clone, PartialEq, Eq)]
pub struct StageSummary {
    pub key: String,
    pub successors: Vec<String>,
}

/// The stages of one design in the structural dump.
#[derive(Debug, Clone, PartialEq, Eq)]
pub struct DesignGroup {
    pub design: String,
    pub stages: Vec<StageSummary>,
}

/// The designs of the nodes, each once, in order of first appearance.
pub open spec fn design_order(nodes: Seq<FlowNode>) -> Seq<Seq<char>>
    decreases nodes.len(),
{
    if nodes.len() == 0 {
        Seq::empty()
    } else {
        let rest = design_order(nodes.drop_last());
        if rest.contains(nodes.last().design@) {
            rest
        } else {
            rest.push(nodes.last().design@)
        }
    }
}

/// Handles of the nodes of design `d`, in order.
pub open spec fn stages_of(nodes: Seq<FlowNode>, d: Seq<char>) -> Seq<int>
    decreases nodes.len(),
{
    if nodes.len() == 0 {
        Seq::empty()
    } else if nodes.last().design@ == d {
        stages_of(nodes.drop_last(), d).push(nodes.len() - 1)
    } else {
        stages_of(nodes.drop_last(), d)
    }
}

proof fn lemma_stages_in_bounds(nodes: Seq<FlowNode>, d: Seq<char>)
    ensures
        forall|j: int|
            0 <= j < stages_of(nodes, d).len() ==> 0 <= #[trigger] stages_of(nodes, d)[j] < nodes.len(),
    decreases nodes.len(),
{
    if nodes.len() > 0 {
        let rest = nodes.drop_last();
        lemma_stages_in_bounds(rest, d);
        let r = stages_of(rest, d);
        assert forall|j: int| 0 <= j < stages_of(nodes, d).len() implies 0
            <= #[trigger] stages_of(nodes, d)[j] < nodes.len() by {
            if j < r.len() {
                assert(stages_of(nodes, d)[j] == r[j]);
            }
        }
    }
}

proof fn lemma_design_order_distinct(nodes: Seq<FlowNode>)
    ensures
        design_order(nodes).no_duplicates(),
    decreases nodes.len(),
{
    if nodes.len() > 0 {
        lemma_design_order_distinct(nodes.drop_last());
    }
}

/// The stage graph: node payloads by handle in `nodes`, topology in `graph`.
#[derive(Debug)]
pub struct FlowGraph {
    pub graph: Topology,
    pub nodes: Vec<FlowNode>,
}

impl FlowGraph {
    pub open spec fn edges(&self) -> Seq<(int, int)> {
        topology_edges(self.graph)
    }

    /// Keys of the nodes, in node order.
    pub open spec fn keys(&self) -> Seq<Seq<char>> {
        self.nodes@.map_values(|n: FlowNode| n.key@)
    }

    /// The order `topo_order` gives: petgraph's toposort of the topology,
    /// read as keys.
    pub open spec fn planned_order(&self) -> Seq<Seq<char>> {
        toposort_order(self.nodes@.len(), self.edges()).map_values(|i: int| self.keys()[i])
    }

    /// Membership and handles read the same on the graph and its keys.
    pub proof fn lemma_keys_lookup(&self, k: Seq<char>)
        requires
            self.wf(),
        ensures
            self.contains_key(k) == self.keys().contains(k),
            self.contains_key(k) ==> self.position(k) == key_index(self.keys(), k),
    {
        if self.contains_key(k) {
            let p = self.position(k);
            assert(self.keys()[p] == k);
            let q = key_index(self.keys(), k);
            assert(self.nodes@[q].key@ == k);
            self.lemma_position(q);
        }
        if self.keys().contains(k) {
            let q = choose|q: int| 0 <= q < self.keys().len() && self.keys()[q] == k;
            assert(self.nodes@[q].key@ == k);
        }
    }

    pub open spec fn key_at(&self, i: int) -> Seq<char> {
        self.nodes@[i].key@
    }

    /// Handles fit the topology; each key is derived from its node's design
    /// and stage; keys are unique.
    pub open spec fn wf(&self) -> bool {
        &&& topology_size(self.graph) == self.nodes@.len()
        &&& edges_in_bounds(self.nodes@.len(), self.edges())
        &&& forall|i: int|
            0 <= i < self.nodes@.len() ==> #[trigger] self.nodes@[i].key@ == flow_key(
                self.nodes@[i].design@,
                self.nodes@[i].stage,
            )
        &&& forall|i: int, j: int|
            0 <= i < j < self.nodes@.len() ==> #[trigger] self.nodes@[i].key@
                != #[trigger] self.nodes@[j].key@
    }

    pub open spec fn contains_key(&self, key: Seq<char>) -> bool {
        exists|i: int| 0 <= i < self.nodes@.len() && #[trigger] self.nodes@[i].key@ == key
    }

    /// The handle of the node with this key (meaningful where it is there).
    pub open spec fn position(&self, key: Seq<char>) -> int {
        choose|i: int| 0 <= i < self.nodes@.len() && #[trigger] self.nodes@[i].key@ == key
    }

    /// `keys` lists every node's key once, each dependency before its
    /// dependants.
    pub open spec fn is_key_order(&self, keys: Seq<Seq<char>>) -> bool {
        exists|order: Seq<int>|
            is_topological_order(self.nodes@.len(), self.edges(), order) && keys == order.map_values(
                |i: int| self.nodes@[i].key@,
            )
    }

    /// The old nodes are kept, in place; more may follow.
    pub open spec fn extends(&self, old: FlowGraph) -> bool {
        &&& old.nodes@.len() <= self.nodes@.len()
        &&& forall|i: int| 0 <= i < old.nodes@.len() ==> #[trigger] self.nodes@[i] == old.nodes@[i]
    }

    pub fn new() -> (r: Self)
        ensures
            r.wf(),
            r.nodes@.len() == 0,
            r.edges().len() == 0,
    {
        FlowGraph { graph: new_topology(), nodes: Vec::new() }
    }

    /// The key `<design>:<stage>`.
    pub fn key(design: &str, stage: BuildStage) -> (r: String)
        ensures
            r@ == flow_key(design@, stage),
    {
        let mut s = String::from_str(design);
        proof {
            reveal_strlit(":");
        }
        s.append(":");
        s.append(stage.as_str());
        s
    }

    /// `self` is `old` with nodes and edges added only at the end.
    pub open spec fn grows_from(&self, old: FlowGraph) -> bool {
        &&& self.extends(old)
        &&& old.edges().len() <= self.edges().len()
        &&& forall|e: int| 0 <= e < old.edges().len() ==> #[trigger] self.edges()[e] == old.edges()[e]
    }

    /// Both stages are in the graph, with an edge from `a` to `b`.
    pub open spec fn has_dependency(&self, a: Seq<char>, b: Seq<char>) -> bool {
        &&& self.contains_key(a)
        &&& self.contains_key(b)
        &&& self.edges().contains((self.position(a), self.position(b)))
    }

    /// A key of a graph keeps its handle and its edges as the graph grows.
    pub proof fn lemma_grows_keeps(&self, old: FlowGraph, a: Seq<char>, b: Seq<char>)
        requires
            old.wf(),
            self.wf(),
            self.grows_from(old),
        ensures
            old.contains_key(a) ==> self.contains_key(a) && self.position(a) == old.position(a),
            old.has_dependency(a, b) ==> self.has_dependency(a, b),
    {
        if old.contains_key(a) {
            let i = old.position(a);
            assert(self.nodes@[i] == old.nodes@[i]);
            self.lemma_position(i);
        }
        if old.has_dependency(a, b) {
            let i = old.position(b);
            assert(self.nodes@[i] == old.nodes@[i]);
            self.lemma_position(i);
            let e = choose|e: int|
                0 <= e < old.edges().len() && old.edges()[e] == (old.position(a), old.position(b));
            assert(self.edges()[e] == old.edges()[e]);
        }
    }

    /// What a graph holds, its larger successor holds too.
    pub proof fn lemma_grows_keeps_all(&self, old: FlowGraph)
        requires
            old.wf(),
            self.wf(),
            self.grows_from(old),
        ensures
            forall|a: Seq<char>| old.contains_key(a) ==> #[trigger] self.contains_key(a),
            forall|a: Seq<char>, b: Seq<char>|
                old.has_dependency(a, b) ==> #[trigger] self.has_dependency(a, b),
    {
        assert forall|a: Seq<char>| old.contains_key(a) implies #[trigger] self.contains_key(a) by {
            self.lemma_grows_keeps(old, a, a);
        }
        assert forall|a: Seq<char>, b: Seq<char>| old.has_dependency(a, b) implies #[trigger] self.has_dependency(
            a,
            b,
        ) by {
            self.lemma_grows_keeps(old, a, b);
        }
    }

    pub proof fn lemma_position(&self, i: int)
        requires
            self.wf(),
            0 <= i < self.nodes@.len(),
        ensures
            self.contains_key(self.nodes@[i].key@),
            self.position(self.nodes@[i].key@) == i,
    {
        let k = self.nodes@[i].key@;
        assert(self.nodes@[i].key@ == k);
        let p = self.position(k);
        if p < i {
            assert(self.nodes@[p].key@ != self.nodes@[i].key@);
        } else if p > i {
            assert(self.nodes@[i].key@ != self.nodes@[p].key@);
        }
    }

    /// The handle of the node with this key, if there is one.
    pub fn find(&self, key: &String) -> (r: Option<usize>)
        requires
            self.wf(),
        ensures
            r is Some <==> self.contains_key(key@),
            r matches Some(i) ==> i as int == self.position(key@) && i < self.nodes@.len(),
    {
        let mut k: usize = 0;
        while k < self.nodes.len()
            invariant
                self.wf(),
                k <= self.nodes@.len(),
                forall|j: int| 0 <= j < k ==> #[trigger] self.nodes@[j].key@ != key@,
            decreases self.nodes@.len() - k,
        {
            if self.nodes[k].key == *key {
                proof {
                    self.lemma_position(k as int);
                }
                return Some(k);
            }
            k = k + 1;
        }
        None
    }

    /// The node for (design, stage), added with no artifacts if absent.
    pub fn ensure_node(&mut self, design: &str, stage: BuildStage) -> (r: usize)
        requires
            old(self).wf(),
        ensures
            final(self).wf(),
            r < final(self).nodes@.len(),
            final(self).key_at(r as int) == flow_key(design@, stage),
            final(self).keys() == with_key(old(self).keys(), flow_key(design@, stage)),
            final(self).edges() == old(self).edges(),
            final(self).extends(*old(self)),
            old(self).contains_key(flow_key(design@, stage)) ==> r == old(self).position(
                flow_key(design@, stage),
            ) && final(self).nodes@ == old(self).nodes@,
            !old(self).contains_key(flow_key(design@, stage)) ==> r == old(self).nodes@.len()
                && final(self).nodes@.len() == old(self).nodes@.len() + 1
                && final(self).nodes@[r as int].design@ == design@
                && final(self).nodes@[r as int].stage == stage
                && final(self).nodes@[r as int].artifacts@.len() == 0,
    {
        proof {
            self.lemma_keys_lookup(flow_key(design@, stage));
        }
        let k = Self::key(design, stage);
        match self.find(&k) {
            Some(i) => i,
            None => {
                let r = add_topology_node(&mut self.graph);
                self.nodes.push(
                    FlowNode {
                        key: k,
                        design: String::from_str(design),
                        stage,
                        artifacts: Vec::new(),
                    },
                );
                proof {
                    let nodes = self.nodes@;
                    assert forall|i: int, j: int| 0 <= i < j < nodes.len() implies #[trigger] nodes[i].key@
                        != #[trigger] nodes[j].key@ by {
                        assert(nodes[i] == old(self).nodes@[i]);
                        if j < nodes.len() - 1 {
                            assert(nodes[j] == old(self).nodes@[j]);
                        } else if nodes[i].key@ == nodes[j].key@ {
                            assert(old(self).contains_key(flow_key(design@, stage)));
                        }
                    }
                    assert forall|i: int| 0 <= i < nodes.len() implies #[trigger] nodes[i].key@
                        == flow_key(nodes[i].design@, nodes[i].stage) by {
                        if i < nodes.len() - 1 {
                            assert(nodes[i] == old(self).nodes@[i]);
                        }
                    }
                    assert forall|e: int| 0 <= e < self.edges().len() implies 0
                        <= #[trigger] self.edges()[e].0 < nodes.len() && 0 <= self.edges()[e].1
                        < nodes.len() by {}
                    assert(self.keys() =~= old(self).keys().push(flow_key(design@, stage)));
                }
                r
            },
        }
    }

    /// Records that `before` must complete before `after`, adding either
    /// node if absent.
    pub fn depend(&mut self, before: (&str, BuildStage), after: (&str, BuildStage))
        requires
            old(self).wf(),
        ensures
            final(self).wf(),
            final(self).extends(*old(self)),
            final(self).contains_key(flow_key(before.0@, before.1)),
            final(self).contains_key(flow_key(after.0@, after.1)),
            final(self).edges() == old(self).edges().push(
                (
                    final(self).position(flow_key(before.0@, before.1)),
                    final(self).position(flow_key(after.0@, after.1)),
                ),
            ),
            final(self).grows_from(*old(self)),
            final(self).has_dependency(flow_key(before.0@, before.1), flow_key(after.0@, after.1)),
            final(self).keys() == with_key(
                with_key(old(self).keys(), flow_key(before.0@, before.1)),
                flow_key(after.0@, after.1),
            ),
            final(self).edges() == old(self).edges().push(
                (
                    key_index(final(self).keys(), flow_key(before.0@, before.1)),
                    key_index(final(self).keys(), flow_key(after.0@, after.1)),
                ),
            ),
            forall|i: int|
                old(self).nodes@.len() <= i < final(self).nodes@.len() ==> #[trigger] final(self).key_at(i) == flow_key(before.0@, before.1) || final(self).key_at(i) == flow_key(
                    after.0@,
                    after.1,
                ),
    {
        let ghost g0 = *self;
        let u = self.ensure_node(before.0, before.1);
        let ghost g1 = *self;
        let v = self.ensure_node(after.0, after.1);
        add_topology_edge(&mut self.graph, u, v);
        proof {
            assert forall|i: int| 0 <= i < g0.nodes@.len() implies #[trigger] self.nodes@[i]
                == g0.nodes@[i] by {
                assert(g1.nodes@[i] == g0.nodes@[i]);
            }
            assert(self.nodes@[u as int] == g1.nodes@[u as int]);
            self.lemma_position(u as int);
            self.lemma_position(v as int);
            let edges = self.edges();
            assert forall|e: int| 0 <= e < edges.len() implies 0 <= #[trigger] edges[e].0
                < self.nodes@.len() && 0 <= edges[e].1 < self.nodes@.len() by {
                if e < edges.len() - 1 {
                    assert(edges[e] == g0.edges()[e]);
                }
            }
            assert(edges[edges.len() - 1] == (u as int, v as int));
            self.lemma_keys_lookup(flow_key(before.0@, before.1));
            self.lemma_keys_lookup(flow_key(after.0@, after.1));
        }
    }

    /// Every node's key once, each stage after the stages it depends on;
    /// `CycleDetected`, naming a stage, exactly when the dependencies form
    /// a cycle.
    pub fn topo_order(&self) -> (r: Result<Vec<String>, BuildError>)
        requires
            self.wf(),
        ensures
            r is Ok <==> !has_cycle(self.edges()),
            r matches Ok(keys) ==> self.is_key_order(keys@.map_values(|k: String| k@)),
            r matches Ok(keys) ==> keys@.map_values(|k: String| k@) == self.planned_order(),
            r matches Err(e) ==> e matches BuildError::CycleDetected(k) && self.contains_key(k@),
    {
        match topology_sort(&self.graph) {
            Ok(order) => {
                let mut keys: Vec<String> = Vec::new();
                let mut k: usize = 0;
                while k < order.len()
                    invariant
                        self.wf(),
                        is_topological_order(self.nodes@.len(), self.edges(), as_ints(order@)),
                        k <= order@.len(),
                        keys@.len() == k,
                        forall|j: int|
                            0 <= j < k ==> #[trigger] keys@[j]@ == self.nodes@[order@[j] as int].key@,
                    decreases order@.len() - k,
                {
                    proof {
                        assert(as_ints(order@)[k as int] == order@[k as int] as int);
                    }
                    keys.push(self.nodes[order[k]].key.clone());
                    k = k + 1;
                }
                proof {
                    let o = as_ints(order@);
                    assert(keys@.map_values(|k: String| k@) =~= o.map_values(
                        |i: int| self.nodes@[i].key@,
                    ));
                    lemma_order_has_no_cycle(self.nodes@.len(), self.edges(), o);
                    assert forall|j: int| 0 <= j < o.len() implies self.nodes@[#[trigger] o[j]].key@
                        == self.keys()[o[j]] by {
                        assert(0 <= o[j] < self.nodes@.len());
                    }
                    assert(o.map_values(|i: int| self.nodes@[i].key@) =~= self.planned_order());
                }
                Ok(keys)
            },
            Err(c) => {
                proof {
                    self.lemma_position(c as int);
                }
                Err(BuildError::CycleDetected(self.nodes[c].key.clone()))
            },
        }
    }

    /// Appends an artifact path to the node's list; does nothing if the
    /// node is absent.
    pub fn add_artifact(&mut self, design: &str, stage: BuildStage, path: &str)
        requires
            old(self).wf(),
        ensures
            final(self).wf(),
            final(self).edges() == old(self).edges(),
            final(self).nodes@.len() == old(self).nodes@.len(),
            !old(self).contains_key(flow_key(design@, stage)) ==> final(self).nodes@ == old(self).nodes@,
            old(self).contains_key(flow_key(design@, stage)) ==> {
                let p = old(self).position(flow_key(design@, stage));
                &&& forall|i: int|
                    0 <= i < old(self).nodes@.len() && i != p ==> #[trigger] final(self).nodes@[i]
                        == old(self).nodes@[i]
                &&& final(self).nodes@[p].key == old(self).nodes@[p].key
                &&& final(self).nodes@[p].design == old(self).nodes@[p].design
                &&& final(self).nodes@[p].stage == old(self).nodes@[p].stage
                &&& final(self).nodes@[p].artifacts@.map_values(|a: String| a@) == old(self).nodes@[p].artifacts@.map_values(|a: String| a@).push(path@)
            },
    {
        let k = Self::key(design, stage);
        if let Some(i) = self.find(&k) {
            self.nodes[i].artifacts.push(String::from_str(path));
            proof {
                let p = i as int;
                assert(self.nodes@[p].artifacts@.map_values(|a: String| a@) =~= old(self).nodes@[p].artifacts@.map_values(|a: String| a@).push(path@));
                assert forall|j: int| 0 <= j < self.nodes@.len() implies #[trigger] self.nodes@[j].key@
                    == flow_key(self.nodes@[j].design@, self.nodes@[j].stage) by {
                    assert(old(self).nodes@[j].key@ == flow_key(
                        old(self).nodes@[j].design@,
                        old(self).nodes@[j].stage,
                    ));
                }
                assert forall|a: int, b: int| 0 <= a < b < self.nodes@.len() implies #[trigger] self.nodes@[a].key@
                    != #[trigger] self.nodes@[b].key@ by {
                    assert(old(self).nodes@[a].key@ != old(self).nodes@[b].key@);
                }
            }
        }
    }

    /// The artifacts recorded for (design, stage), if the node exists.
    pub fn get_artifacts(&self, design: &str, stage: BuildStage) -> (r: Option<&[String]>)
        requires
            self.wf(),
        ensures
            r is Some <==> self.contains_key(flow_key(design@, stage)),
            r matches Some(a) ==> a@ == self.nodes@[self.position(
                flow_key(design@, stage),
            )].artifacts@,
    {
        let k = Self::key(design, stage);
        match self.find(&k) {
            Some(i) => Some(self.nodes[i].artifacts.as_slice()),
            None => None,
        }
    }

    /// Every recorded artifact, node by node in node order.
    pub fn all_artifacts(&self) -> (r: Vec<String>)
        ensures
            r@.map_values(|a: String| a@) == flatten_artifacts(self.nodes@),
    {
        let mut out: Vec<String> = Vec::new();
        let mut k: usize = 0;
        while k < self.nodes.len()
            invariant
                k <= self.nodes@.len(),
                out@.map_values(|a: String| a@) == flatten_artifacts(self.nodes@.take(k as int)),
            decreases self.nodes@.len() - k,
        {
            let arts = &self.nodes[k].artifacts;
            let ghost before = out@.map_values(|a: String| a@);
            let mut j: usize = 0;
            while j < arts.len()
                invariant
                    j <= arts@.len(),
                    out@.map_values(|a: String| a@) == before + arts@.take(j as int).map_values(
                        |a: String| a@,
                    ),
                decreases arts@.len() - j,
            {
                let ghost prev = out@;
                let item = arts[j].clone();
                out.push(item);
                proof {
                    assert(out@.map_values(|a: String| a@) =~= prev.map_values(|a: String| a@).push(
                        item@,
                    ));
                    assert(arts@.take(j + 1).map_values(|a: String| a@) =~= arts@.take(
                        j as int,
                    ).map_values(|a: String| a@).push(item@));
                }
                j = j + 1;
            }
            proof {
                assert(arts@.take(j as int) =~= arts@);
                assert(self.nodes@.take(k + 1).drop_last() =~= self.nodes@.take(k as int));
            }
            k = k + 1;
        }
        proof {
            assert(self.nodes@.take(k as int) =~= self.nodes@);
        }
        out
    }

    /// Marks the nodes reachable from node `start` along dependency edges,
    /// `start` itself included.
    pub fn downstream_of(&self, start: usize) -> (r: Vec<bool>)
        requires
            self.wf(),
            start < self.nodes@.len(),
        ensures
            r@.len() == self.nodes@.len(),
            forall|i: int|
                0 <= i < r@.len() ==> (#[trigger] r@[i] <==> reachable(
                    self.edges(),
                    start as int,
                    i,
                )),
    {
        let n = self.nodes.len();
        let ghost edges = self.edges();
        let mut visited: Vec<bool> = Vec::new();
        let mut done: Vec<bool> = Vec::new();
        let mut k: usize = 0;
        while k < n
            invariant
                k <= n,
                visited@.len() == k,
                done@.len() == k,
                forall|i: int| 0 <= i < k ==> !#[trigger] visited@[i],
                forall|i: int| 0 <= i < k ==> !#[trigger] done@[i],
            decreases n - k,
        {
            visited.push(false);
            done.push(false);
            k = k + 1;
        }
        visited.set(start, true);
        let ghost mut seen: Set<int> = set![start as int];
        let mut stack: Vec<usize> = Vec::new();
        stack.push(start);
        proof {
            let w = seq![start as int];
            assert(is_walk(edges, w));
            assert(w.last() == start as int);
            assert(reachable(edges, start as int, start as int));
            assert(stack@[0] == start);
            assert forall|i: int| 0 <= i < n implies (#[trigger] visited@[i] <==> seen.contains(i)) by {}
            assert(seen =~= set_int_range(0, n as int).intersect(set![start as int]));
            assert(set![start as int].len() == 1);
            assert(seen.len() == 1);
        }
        while stack.len() > 0
            invariant
                self.wf(),
                edges == self.edges(),
                n == self.nodes@.len(),
                start < n,
                visited@.len() == n,
                done@.len() == n,
                visited@[start as int],
                seen.finite(),
                seen.subset_of(set_int_range(0, n as int)),
                seen.len() <= n,
                forall|i: int| 0 <= i < n ==> (#[trigger] visited@[i] <==> seen.contains(i)),
                forall|i: int| 0 <= i < n && #[trigger] visited@[i] ==> reachable(edges, start as int, i),
                forall|j: int| 0 <= j < stack@.len() ==> #[trigger] stack@[j] < n,
                forall|j: int| 0 <= j < stack@.len() ==> visited@[#[trigger] stack@[j] as int],
                forall|i: int|
                    0 <= i < n && #[trigger] visited@[i] && !done@[i] ==> stack@.contains(i as usize),
                forall|e: int|
                    0 <= e < edges.len() && #[trigger] done@[edges[e].0] ==> visited@[edges[e].1],
                forall|i: int| 0 <= i < n && #[trigger] done@[i] ==> visited@[i],
            decreases 2 * (n - seen.len()) + stack@.len(),
        {
            let ghost measure = 2 * (n - seen.len()) + stack@.len();
            let ghost before_pop = stack@;
            let u = match stack.pop() {
                Some(u) => u,
                None => {
                    return visited;
                },
            };
            proof {
                assert(stack@ == before_pop.drop_last());
                assert(before_pop[before_pop.len() - 1] == u);
                assert forall|j: int| 0 <= j < stack@.len() implies visited@[#[trigger] stack@[j] as int]
                    && stack@[j] < n by {
                    assert(stack@[j] == before_pop[j]);
                }
                assert forall|i: int|
                    0 <= i < n && #[trigger] visited@[i] && !done@[i] && i != u as int implies stack@.contains(
                    i as usize,
                ) by {
                    let j = choose|j: int| 0 <= j < before_pop.len() && before_pop[j] == i as usize;
                    assert(j != before_pop.len() - 1);
                    assert(stack@[j] == i as usize);
                }
            }
            if !done[u] {
                let nb = topology_neighbors(&self.graph, u, true);
                proof {
                    lemma_targets_are_edges(edges, u as int);
                    assert forall|j: int| 0 <= j < nb@.len() implies #[trigger] nb@[j] < n
                        && edges.contains((u as int, nb@[j] as int)) by {
                        assert(as_ints(nb@)[j] == nb@[j] as int);
                        assert(targets_newest_first(edges, u as int)[j] == nb@[j] as int);
                        assert(targets_newest_first(edges, u as int).contains(nb@[j] as int));
                        let e = choose|e: int| 0 <= e < edges.len() && edges[e] == (u as int, nb@[j] as int);
                        assert(0 <= edges[e].0 < n && 0 <= edges[e].1 < n);
                    }
                }
                let mut j: usize = 0;
                while j < nb.len()
                    invariant
                        self.wf(),
                        edges == self.edges(),
                        n == self.nodes@.len(),
                        start < n,
                        u < n,
                        !done@[u as int],
                        visited@[u as int],
                        visited@[start as int],
                        j <= nb@.len(),
                        forall|jj: int| 0 <= jj < nb@.len() ==> #[trigger] nb@[jj] < n
                            && edges.contains((u as int, nb@[jj] as int)),
                        forall|jj: int| 0 <= jj < j ==> visited@[#[trigger] nb@[jj] as int],
                        visited@.len() == n,
                        done@.len() == n,
                        seen.finite(),
                        seen.subset_of(set_int_range(0, n as int)),
                        seen.len() <= n,
                        forall|i: int| 0 <= i < n ==> (#[trigger] visited@[i] <==> seen.contains(i)),
                        forall|i: int|
                            0 <= i < n && #[trigger] visited@[i] ==> reachable(edges, start as int, i),
                        forall|jj: int| 0 <= jj < stack@.len() ==> #[trigger] stack@[jj] < n,
                        forall|jj: int| 0 <= jj < stack@.len() ==> visited@[#[trigger] stack@[jj] as int],
                        forall|i: int|
                            0 <= i < n && #[trigger] visited@[i] && !done@[i] && i != u as int
                                ==> stack@.contains(i as usize),
                        forall|e: int|
                            0 <= e < edges.len() && #[trigger] done@[edges[e].0] ==> visited@[edges[e].1],
                        forall|i: int| 0 <= i < n && #[trigger] done@[i] ==> visited@[i],
                        2 * (n - seen.len()) + stack@.len() < measure,
                    decreases nb@.len() - j,
                {
                    let v = nb[j];
                    if !visited[v] {
                        let ghost old_stack = stack@;
                        let ghost old_visited = visited@;
                        proof {
                            let p = choose|p: Seq<int>|
                                is_walk(edges, p) && p[0] == start as int && p.last() == u as int;
                            let q = p.push(v as int);
                            assert(q[q.len() - 2] == u as int);
                            assert forall|kk: int| 0 <= kk < q.len() - 1 implies edges.contains(
                                (q[kk], #[trigger] q[kk + 1]),
                            ) by {
                                if kk < q.len() - 2 {
                                    assert(q[kk] == p[kk] && q[kk + 1] == p[kk + 1]);
                                }
                            }
                            assert(is_walk(edges, q));
                            assert(q[0] == start as int);
                            assert(q.last() == v as int);
                            assert(reachable(edges, start as int, v as int));
                            assert(!seen.contains(v as int));
                            assert(seen.insert(v as int).subset_of(set_int_range(0, n as int)));
                            lemma_int_range(0, n as int);
                            lemma_len_subset(seen.insert(v as int), set_int_range(0, n as int));
                        }
                        visited.set(v, true);
                        stack.push(v);
                        proof {
                            seen = seen.insert(v as int);
                            assert forall|jj: int| 0 <= jj < stack@.len() implies visited@[#[trigger] stack@[jj] as int]
                                && stack@[jj] < n by {
                                if jj < stack@.len() - 1 {
                                    assert(stack@[jj] == old_stack[jj]);
                                }
                            }
                            assert forall|i: int|
                                0 <= i < n && #[trigger] visited@[i] && !done@[i] && i != u as int
                                    implies stack@.contains(i as usize) by {
                                if i == v as int {
                                    assert(stack@[stack@.len() - 1] == v);
                                } else {
                                    assert(old_visited[i]);
                                    assert(old_stack.contains(i as usize));
                                    let w = choose|w: int| 0 <= w < old_stack.len() && old_stack[w] == i as usize;
                                    assert(stack@[w] == i as usize);
                                }
                            }
                        }
                    }
                    j = j + 1;
                }
                done.set(u, true);
                proof {
                    assert forall|e: int|
                        0 <= e < edges.len() && #[trigger] done@[edges[e].0] implies visited@[edges[e].1] by {
                        if edges[e].0 == u as int {
                            assert(edges.contains((u as int, edges[e].1)));
                            assert(targets_newest_first(edges, u as int).contains(edges[e].1));
                            let jj = choose|jj: int| 0 <= jj < targets_newest_first(edges, u as int).len()
                                && targets_newest_first(edges, u as int)[jj] == edges[e].1;
                            assert(as_ints(nb@)[jj] == nb@[jj] as int);
                            assert(visited@[nb@[jj] as int]);
                        }
                    }
                }
            }
        }
        proof {
            assert forall|e: int|
                0 <= e < edges.len() && 0 <= edges[e].0 < visited@.len() && visited@[edges[e].0]
                    implies 0 <= #[trigger] edges[e].1 < visited@.len() && visited@[edges[e].1] by {
                if !done@[edges[e].0] {
                    assert(stack@.contains(edges[e].0 as usize));
                }
            }
            assert forall|i: int|
                0 <= i < visited@.len() implies (#[trigger] visited@[i] <==> reachable(
                edges,
                start as int,
                i,
            )) by {
                if reachable(edges, start as int, i) {
                    let p = choose|p: Seq<int>|
                        is_walk(edges, p) && p[0] == start as int && p.last() == i;
                    lemma_closed_set_holds_walk(edges, visited@, p, p.len() - 1);
                }
            }
        }
        visited
    }

    /// `group` lists, for design `d`, the stages among the first nodes of
    /// the graph, each with its successors.
    pub open spec fn group_matches(&self, group: DesignGroup, d: Seq<char>, upto: int) -> bool {
        let idx = stages_of(self.nodes@.take(upto), d);
        &&& group.design@ == d
        &&& group.stages@.len() == idx.len()
        &&& forall|j: int|
            0 <= j < idx.len() ==> #[trigger] group.stages@[j].key@ == self.key_at(idx[j])
                && group.stages@[j].successors@.map_values(|k: String| k@) == self.successor_keys(
                idx[j],
            )
    }

    /// One more node taken in: its design's group gains its summary; any
    /// other group is unchanged.
    proof fn lemma_group_step(
        &self,
        old_group: DesignGroup,
        new_group: DesignGroup,
        dg: Seq<char>,
        i: int,
        sm: StageSummary,
    )
        requires
            0 <= i < self.nodes@.len(),
            self.group_matches(old_group, dg, i),
            self.nodes@[i].design@ == dg ==> new_group.design == old_group.design
                && new_group.stages@ == old_group.stages@.push(sm) && sm.key@ == self.key_at(i)
                && sm.successors@.map_values(|k: String| k@) == self.successor_keys(i),
            self.nodes@[i].design@ != dg ==> new_group == old_group,
        ensures
            self.group_matches(new_group, dg, i + 1),
    {
        let pre = self.nodes@.take(i);
        let post = self.nodes@.take(i + 1);
        assert(post.drop_last() =~= pre);
        assert(post.last() == self.nodes@[i]);
        let old_idx = stages_of(pre, dg);
        let idx = stages_of(post, dg);
        if self.nodes@[i].design@ == dg {
            assert(idx == old_idx.push(i));
            assert forall|j: int| 0 <= j < idx.len() implies #[trigger] new_group.stages@[j].key@
                == self.key_at(idx[j]) && new_group.stages@[j].successors@.map_values(
                |k: String| k@,
            ) == self.successor_keys(idx[j]) by {
                if j < old_idx.len() {
                    assert(new_group.stages@[j] == old_group.stages@[j]);
                    assert(idx[j] == old_idx[j]);
                }
            }
        } else {
            assert(idx == old_idx);
        }
    }

    /// A structural dump for display: the stages grouped by design, the
    /// designs in order of first appearance, each stage with the keys of
    /// its direct successors.
    pub fn render_graph(&self) -> (r: Vec<DesignGroup>)
        requires
            self.wf(),
        ensures
            r@.len() == design_order(self.nodes@).len(),
            forall|g: int|
                0 <= g < r@.len() ==> self.group_matches(
                    #[trigger] r@[g],
                    design_order(self.nodes@)[g],
                    self.nodes@.len() as int,
                ),
    {
        let mut groups: Vec<DesignGroup> = Vec::new();
        let mut i: usize = 0;
        while i < self.nodes.len()
            invariant
                self.wf(),
                i <= self.nodes@.len(),
                groups@.len() == design_order(self.nodes@.take(i as int)).len(),
                forall|g: int|
                    0 <= g < groups@.len() ==> self.group_matches(
                        #[trigger] groups@[g],
                        design_order(self.nodes@.take(i as int))[g],
                        i as int,
                    ),
            decreases self.nodes@.len() - i,
        {
            let ghost pre = self.nodes@.take(i as int);
            let ghost post = self.nodes@.take(i + 1);
            let ghost d = self.nodes@[i as int].design@;
            proof {
                assert(post.drop_last() =~= pre);
                assert(post.last() == self.nodes@[i as int]);
            }
            let mut gi: usize = 0;
            while gi < groups.len()
                invariant
                    gi <= groups@.len(),
                    groups@.len() == design_order(pre).len(),
                    forall|g: int|
                        0 <= g < groups@.len() ==> #[trigger] groups@[g].design@ == design_order(pre)[g],
                    forall|g: int| 0 <= g < gi ==> design_order(pre)[g] != d,
                    d == self.nodes@[i as int].design@,
                    i < self.nodes@.len(),
                ensures
                    gi <= groups@.len(),
                    gi < groups@.len() ==> groups@[gi as int].design@ == d,
                    forall|g: int| 0 <= g < gi ==> design_order(pre)[g] != d,
                decreases groups@.len() - gi,
            {
                if groups[gi].design == self.nodes[i].design {
                    break;
                }
                gi = gi + 1;
            }
            let ghost before = groups@;
            if gi == groups.len() {
                proof {
                    assert(!design_order(pre).contains(d));
                }
                groups.push(DesignGroup { design: self.nodes[i].design.clone(), stages: Vec::new() });
            } else {
                proof {
                    assert(design_order(pre)[gi as int] == d);
                    assert(design_order(pre).contains(d));
                }
            }
            let summary = StageSummary {
                key: self.nodes[i].key.clone(),
                successors: self.successors(i),
            };
            let ghost mid = groups@;
            let ghost sm = summary;
            groups[gi].stages.push(summary);
            proof {
                lemma_design_order_distinct(post);
                assert(groups@[gi as int].stages@ == mid[gi as int].stages@.push(sm));
                assert(groups@[gi as int].design == mid[gi as int].design);
                if gi == before.len() {
                    lemma_no_stages_of_new_design(pre, d);
                    assert(self.nodes@.take(i as int) == pre);
                    assert(self.group_matches(mid[gi as int], d, i as int));
                } else {
                    assert(mid[gi as int] == before[gi as int]);
                }
                assert(design_order(post) =~= mid.map_values(|g: DesignGroup| g.design@));
                assert forall|g: int| 0 <= g < groups@.len() implies self.group_matches(
                    #[trigger] groups@[g],
                    design_order(post)[g],
                    i + 1,
                ) by {
                    let dg = design_order(post)[g];
                    if g < before.len() {
                        assert(mid[g] == before[g]);
                        assert(dg == design_order(pre)[g]);
                        assert(self.group_matches(before[g], dg, i as int));
                    }
                    assert(self.group_matches(mid[g], dg, i as int));
                    if g == gi as int {
                        assert(dg == d);
                    } else {
                        assert(groups@[g] == mid[g]);
                        assert(dg != d);
                    }
                    self.lemma_group_step(mid[g], groups@[g], dg, i as int, sm);
                }
            }
            i = i + 1;
        }
        proof {
            assert(self.nodes@.take(i as int) =~= self.nodes@);
        }
        groups
    }

    /// Keys of the nodes one outgoing edge away from node `i`, in order of
    /// the edges' addition.
    pub open spec fn successor_keys(&self, i: int) -> Seq<Seq<char>> {
        targets_in_order(self.edges(), i).map_values(|t: int| self.nodes@[t].key@)
    }

    /// Keys of the nodes one incoming edge away from node `i`, in order of
    /// the edges' addition.
    pub open spec fn predecessor_keys(&self, i: int) -> Seq<Seq<char>> {
        sources_in_order(self.edges(), i).map_values(|t: int| self.nodes@[t].key@)
    }

    /// The keys of the stages that the node at handle `i` directly depends on.
    pub fn predecessors(&self, i: usize) -> (r: Vec<String>)
        requires
            self.wf(),
            i < self.nodes@.len(),
        ensures
            r@.map_values(|k: String| k@) == self.predecessor_keys(i as int),
    {
        let nb = topology_neighbors(&self.graph, i, false);
        let ghost expected = sources_in_order(self.edges(), i as int);
        proof {
            lemma_neighbor_orders(self.edges(), self.nodes@.len(), i as int);
        }
        let mut out: Vec<String> = Vec::new();
        let mut k: usize = nb.len();
        while k > 0
            invariant
                self.wf(),
                k <= nb@.len(),
                expected.len() == nb@.len(),
                forall|j: int|
                    0 <= j < expected.len() ==> #[trigger] expected[j] == nb@[nb@.len() - 1
                        - j] as int && 0 <= expected[j] < self.nodes@.len(),
                out@.len() == nb@.len() - k,
                forall|j: int| 0 <= j < out@.len() ==> #[trigger] out@[j]@ == self.nodes@[expected[j]].key@,
            decreases k,
        {
            k = k - 1;
            proof {
                let j = nb@.len() - 1 - k;
                assert(expected[j] == nb@[k as int] as int);
            }
            out.push(self.nodes[nb[k]].key.clone());
        }
        proof {
            assert(out@.map_values(|k: String| k@) =~= self.predecessor_keys(i as int));
        }
        out
    }

    /// The keys of the direct successors of the node at handle `i`.
    pub fn successors(&self, i: usize) -> (r: Vec<String>)
        requires
            self.wf(),
            i < self.nodes@.len(),
        ensures
            r@.map_values(|k: String| k@) == self.successor_keys(i as int),
    {
        let nb = topology_neighbors(&self.graph, i, true);
        let ghost expected = targets_in_order(self.edges(), i as int);
        proof {
            lemma_neighbor_orders(self.edges(), self.nodes@.len(), i as int);
        }
        let mut out: Vec<String> = Vec::new();
        let mut k: usize = nb.len();
        while k > 0
            invariant
                self.wf(),
                k <= nb@.len(),
                expected.len() == nb@.len(),
                forall|j: int|
                    0 <= j < expected.len() ==> #[trigger] expected[j] == nb@[nb@.len() - 1
                        - j] as int && 0 <= expected[j] < self.nodes@.len(),
                out@.len() == nb@.len() - k,
                forall|j: int| 0 <= j < out@.len() ==> #[trigger] out@[j]@ == self.nodes@[expected[j]].key@,
            decreases k,
        {
            k = k - 1;
            proof {
                let j = nb@.len() - 1 - k;
                assert(expected[j] == nb@[k as int] as int);
            }
            out.push(self.nodes[nb[k]].key.clone());
        }
        proof {
            assert(out@.map_values(|k: String| k@) =~= self.successor_keys(i as int));
        }
        out
    }
}

/// A design that does not yet appear has no stages.
proof fn lemma_no_stages_of_new_design(nodes: Seq<FlowNode>, d: Seq<char>)
    requires
        !design_order(nodes).contains(d),
    ensures
        stages_of(nodes, d).len() == 0,
    decreases nodes.len(),
{
    if nodes.len() > 0 {
        let rest = design_order(nodes.drop_last());
        if rest.contains(nodes.last().design@) {
            assert(nodes.last().design@ != d);
        } else {
            assert(design_order(nodes)[rest.len() as int] == nodes.last().design@);
            if nodes.last().design@ == d {
                assert(design_order(nodes).contains(d));
            }
        }
        assert(!rest.contains(d)) by {
            if rest.contains(d) {
                let k = choose|k: int| 0 <= k < rest.len() && rest[k] == d;
                assert(design_order(nodes)[k] == d);
            }
        }
        lemma_no_stages_of_new_design(nodes.drop_last(), d);
    }
}

/// An order that `topo_order` returns lists every key of the graph exactly
/// once, and for every recorded dependency `a -> b` it lists `a` before `b`.
pub proof fn topo_order_respects_dependencies(g: FlowGraph, keys: Seq<Seq<char>>)
    requires
        g.wf(),
        g.is_key_order(keys),
    ensures
        keys.len() == g.nodes@.len(),
        keys.no_duplicates(),
        forall|i: int| 0 <= i < g.nodes@.len() ==> keys.contains(#[trigger] g.key_at(i)),
        forall|a: Seq<char>, b: Seq<char>| #[trigger] g.has_dependency(a, b) ==> precedes(keys, a, b),
{
    let order = choose|order: Seq<int>|
        is_topological_order(g.nodes@.len(), g.edges(), order) && keys == order.map_values(
            |i: int| g.nodes@[i].key@,
        );
    assert forall|p: int, q: int| 0 <= p < keys.len() && 0 <= q < keys.len() && p != q implies keys[p]
        != keys[q] by {
        assert(order[p] != order[q]);
        assert(0 <= order[p] < g.nodes@.len() && 0 <= order[q] < g.nodes@.len());
        if order[p] < order[q] {
            assert(g.nodes@[order[p]].key@ != g.nodes@[order[q]].key@);
        } else {
            assert(g.nodes@[order[q]].key@ != g.nodes@[order[p]].key@);
        }
    }
    assert forall|i: int| 0 <= i < g.nodes@.len() implies keys.contains(#[trigger] g.key_at(i)) by {
        assert(order.contains(i));
        let p = choose|p: int| 0 <= p < order.len() && order[p] == i;
        assert(keys[p] == g.key_at(i));
    }
    assert forall|a: Seq<char>, b: Seq<char>| #[trigger] g.has_dependency(a, b) implies precedes(
        keys,
        a,
        b,
    ) by {
        let e = choose|e: int|
            0 <= e < g.edges().len() && g.edges()[e] == (g.position(a), g.position(b));
        assert(precedes(order, g.edges()[e].0, g.edges()[e].1));
        let (p, q) = choose|p: int, q: int|
            0 <= p < q < order.len() && order[p] == g.position(a) && order[q] == g.position(b);
        assert(keys[p] == a);
        assert(keys[q] == b);
    }
}

/// The stage order depends on the graph alone: two graphs with the same
/// keys in the same order and the same edges get the same order, so the
/// same sequence of `ensure_node` and `depend` calls gives the same plan.
pub proof fn topo_order_is_deterministic(g1: FlowGraph, g2: FlowGraph)
    requires
        g1.keys() == g2.keys(),
        g1.edges() == g2.edges(),
    ensures
        g1.planned_order() == g2.planned_order(),
{
    assert(g1.nodes@.len() == g1.keys().len());
    assert(g2.nodes@.len() == g2.keys().len());
}

/// Two stages that each depend on the other form a cycle, so the graph has
/// no topological order.
pub proof fn mutual_dependency_is_a_cycle(g: FlowGraph, a: Seq<char>, b: Seq<char>)
    requires
        g.wf(),
        g.has_dependency(a, b),
        g.has_dependency(b, a),
    ensures
        has_cycle(g.edges()),
{
    let p = seq![g.position(a), g.position(b), g.position(a)];
    assert forall|k: int| 0 <= k < p.len() - 1 implies g.edges().contains((p[k], #[trigger] p[k + 1])) by {
        if k == 0 {
            assert(p[0] == g.position(a) && p[1] == g.position(b));
        } else {
            assert(p[1] == g.position(b) && p[2] == g.position(a));
        }
    }
    assert(is_cycle(g.edges(), p));
}

/// A set of nodes that holds `p`'s start and is closed under the edges
/// holds all of `p`.
proof fn lemma_closed_set_holds_walk(edges: Seq<(int, int)>, marked: Seq<bool>, p: Seq<int>, m: int)
    requires
        is_walk(edges, p),
        0 <= m < p.len(),
        0 <= p[0] < marked.len(),
        marked[p[0]],
        forall|e: int|
            0 <= e < edges.len() && 0 <= edges[e].0 < marked.len() && marked[edges[e].0] ==> 0
                <= #[trigger] edges[e].1 < marked.len() && marked[edges[e].1],
    ensures
        0 <= p[m] < marked.len() && marked[p[m]],
    decreases m,
{
    if m > 0 {
        lemma_closed_set_holds_walk(edges, marked, p, m - 1);
        assert(edges.contains((p[m - 1], p[(m - 1) + 1])));
        let e = choose|e: int| 0 <= e < edges.len() && edges[e] == (p[m - 1], p[m]);
        assert(edges[e].0 == p[m - 1]);
        assert(edges[e].1 == p[m]);
    }
}

/// A graph with a topological order has no cycle.
pub proof fn lemma_order_has_no_cycle(n: nat, edges: Seq<(int, int)>, order: Seq<int>)
    requires
        is_topological_order(n, edges, order),
    ensures
        !has_cycle(edges),
{
    if has_cycle(edges) {
        let p = choose|p: Seq<int>| is_cycle(edges, p);
        // Along the walk, positions in `order` strictly increase.
        assert forall|k: int| 0 <= k < p.len() - 1 implies #[trigger] walk_step_ordered(
            order,
            p,
            k,
        ) by {
            assert(edges.contains((p[k], p[k + 1])));
            let e = choose|e: int| 0 <= e < edges.len() && edges[e] == (p[k], p[k + 1]);
            assert(precedes(order, edges[e].0, edges[e].1));
        }
        lemma_walk_positions(order, p, p.len() - 1);
        let (q0, qm) = choose|q0: int, qm: int|
            0 <= q0 < qm < order.len() && order[q0] == p[0] && order[qm] == p[p.len() - 1];
        assert(order[q0] == order[qm]);
    }
}

spec fn walk_step_ordered(order: Seq<int>, p: Seq<int>, k: int) -> bool {
    precedes(order, p[k], p[k + 1])
}

proof fn lemma_walk_positions(order: Seq<int>, p: Seq<int>, m: int)
    requires
        order.no_duplicates(),
        p.len() >= 2,
        1 <= m <= p.len() - 1,
        forall|k: int| 0 <= k < p.len() - 1 ==> #[trigger] walk_step_ordered(order, p, k),
    ensures
        exists|q0: int, qm: int|
            0 <= q0 < qm < order.len() && order[q0] == p[0] && order[qm] == p[m],
    decreases m,
{
    if m == 1 {
        assert(walk_step_ordered(order, p, 0));
    } else {
        lemma_walk_positions(order, p, m - 1);
        let (q0, qm1) = choose|q0: int, qm: int|
            0 <= q0 < qm < order.len() && order[q0] == p[0] && order[qm] == p[m - 1];
        assert(walk_step_ordered(order, p, m - 1));
        let (qa, qb) = choose|qa: int, qb: int|
            0 <= qa < qb < order.len() && order[qa] == p[m - 1] && order[qb] == p[m];
        assert(qa == qm1);
        assert(0 <= q0 < qb < order.len() && order[q0] == p[0] && order[qb] == p[m]);
    }
}

} // verus!
