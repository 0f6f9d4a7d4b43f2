//! The build manifest and the partial-reconfiguration planner: from the
//! manifest's hierarchy to the reconfigurable instance, its candidate
//! implementations, and the stage graph of the build.

use vstd::prelude::*;
use vstd::string::{StrSliceExecFns, StringExecFns};

use crate::design_hier::{
    empty_model, model_add, model_connect, opt_view, DesignEntry, HierModel, HierarchyGraph,
    ModuleEntry, NodeKind,
};
use crate::error::BuildError;
use crate::flow_graph::{
    flow_key, lemma_flow_key_injective, topo_order_respects_dependencies, BuildStage, FlowGraph,
};
use crate::topology::{has_cycle, is_cycle, precedes};

verus! {

/// How far a design is built.
#[derive(Debug, Clone, Copy, PartialEq, Eq, Structural)]
pub enum Build {
    Synth,
    Route,
    Bitgen,
}

/// A design is either static or a reconfigurable module.
#[derive(Debug, Clone, Copy, PartialEq, Eq, Structural)]
pub enum ModuleType {
    Static,
    Recon,
}

#[derive(Debug, Clone)]
pub struct ProjectCfg {
    pub name: String,
    pub version: String,
    pub part: String,
    pub arch: String,
    pub part_xdc: String,
    pub build_dir: String,
}

/// The design that hosts the reconfigurable region, if any.
#[derive(Debug, Clone)]
pub struct RootDesign {
    pub design: Option<String>,
}

/// One design of the manifest, with its source lists; the `*_files`
/// lists are the sources joined to their directories.
#[derive(Debug, Clone)]
pub struct DesignCfg {
    pub name: String,
    pub top: String,
    pub rtl_dir: String,
    pub rtl: Vec<String>,
    pub xdc_dir: String,
    pub xdc: Vec<String>,
    pub xci_dir: String,
    pub xci: Vec<String>,
    pub ip_dir: String,
    pub ip: Vec<String>,
    pub build: Build,
    pub moduletype: ModuleType,
    pub rtl_files: Vec<String>,
    pub xdc_files: Vec<String>,
    pub xci_files: Vec<String>,
    pub ip_files: Vec<String>,
    pub build_path: String,
}

/// The validated manifest, with the graphs derived from it.
#[derive(Debug)]
pub struct BuildCfg {
    pub projectcfg: ProjectCfg,
    pub designcfg: Vec<DesignCfg>,
    pub root: RootDesign,
    pub hier: Vec<DesignEntry>,
    pub design_graph: HierarchyGraph,
    pub flow_graph: FlowGraph,
}

/// The reconfigurable instance of a root design: the design, the module
/// instance, and its placement region (empty when none was given).
#[derive(Debug, Clone, PartialEq, Eq)]
pub struct PrXdc {
    pub project_name: String,
    pub instance_name: String,
    pub region: String,
}

/// One candidate implementation to route; `lock_routing` asks to lock the
/// routed layout afterwards, which only the first candidate does.
#[derive(Debug, Clone, PartialEq, Eq)]
pub struct RouteUnit {
    pub design: String,
    pub lock_routing: bool,
}

/// `s` without its trailing slashes.
pub open spec fn trim_end_slashes(s: Seq<char>) -> Seq<char>
    decreases s.len(),
{
    if s.len() > 0 && s.last() == '/' {
        trim_end_slashes(s.drop_last())
    } else {
        s
    }
}

/// Each file name joined to the directory by one slash.
pub open spec fn joined_paths(dir: Seq<char>, files: Seq<String>) -> Seq<Seq<char>> {
    files.map_values(|f: String| trim_end_slashes(dir) + seq!['/'] + f@)
}

pub open spec fn views(v: Seq<String>) -> Seq<Seq<char>> {
    v.map_values(|s: String| s@)
}

/// The directory without its trailing slashes.
pub fn trim_trailing_slashes(dir: &str) -> (r: &str)
    ensures
        r@ == trim_end_slashes(dir@),
{
    let mut end: usize = dir.unicode_len();
    proof {
        assert(dir@.subrange(0, end as int) =~= dir@);
    }
    while end > 0 && dir.get_char(end - 1) == '/'
        invariant
            end <= dir@.len(),
            trim_end_slashes(dir@) == trim_end_slashes(dir@.subrange(0, end as int)),
        decreases end,
    {
        proof {
            assert(dir@.subrange(0, end as int).drop_last() =~= dir@.subrange(0, end - 1));
        }
        end = end - 1;
    }
    dir.substring_char(0, end)
}

/// Joins each file name to the directory, with one slash between.
pub fn populate_files_list(dir: &str, files: &Vec<String>) -> (r: Vec<String>)
    ensures
        views(r@) == joined_paths(dir@, files@),
{
    let base = trim_trailing_slashes(dir);
    let mut out: Vec<String> = Vec::new();
    let mut k: usize = 0;
    proof {
        reveal_strlit("/");
    }
    while k < files.len()
        invariant
            base@ == trim_end_slashes(dir@),
            k <= files@.len(),
            views(out@) == joined_paths(dir@, files@.take(k as int)),
        decreases files@.len() - k,
    {
        proof {
            reveal_strlit("/");
        }
        let mut s = String::from_str(base);
        s.append("/");
        s.append(files[k].as_str());
        let ghost prev = out@;
        out.push(s);
        proof {
            assert(s@ == trim_end_slashes(dir@) + seq!['/'] + files@[k as int]@);
            assert(views(out@) =~= views(prev).push(s@));
            assert(joined_paths(dir@, files@.take(k + 1)) =~= joined_paths(
                dir@,
                files@.take(k as int),
            ).push(trim_end_slashes(dir@) + seq!['/'] + files@[k as int]@));
        }
        k = k + 1;
    }
    proof {
        assert(files@.take(k as int) =~= files@);
    }
    out
}

/// Whitespace-trimmed form of a string, as `str::trim` gives it.
pub uninterp spec fn trimmed_of(s: Seq<char>) -> Seq<char>;

/// Relies on `str::trim`: the result depends on the characters of its
/// argument alone.
#[verifier::external_body]
fn trim_whitespace(s: &str) -> (r: &str)
    ensures
        r@ == trimmed_of(s@),
{
    s.trim()
}

/// The pieces of `s` between commas, in order: one more than there are
/// commas.
pub open spec fn comma_pieces(s: Seq<char>) -> Seq<Seq<char>>
    decreases s.len(),
{
    if s.len() == 0 {
        seq![Seq::empty()]
    } else {
        let rest = comma_pieces(s.drop_last());
        if s.last() == ',' {
            rest.push(Seq::empty())
        } else {
            rest.update(rest.len() - 1, rest.last().push(s.last()))
        }
    }
}

/// The non-empty strings of `s`, in order.
pub open spec fn drop_empty(s: Seq<Seq<char>>) -> Seq<Seq<char>>
    decreases s.len(),
{
    if s.len() == 0 {
        s
    } else if s.last().len() == 0 {
        drop_empty(s.drop_last())
    } else {
        drop_empty(s.drop_last()).push(s.last())
    }
}

/// Splits `s` at every comma.
pub fn split_commas(s: &str) -> (r: Vec<String>)
    ensures
        views(r@) == comma_pieces(s@),
{
    let n = s.unicode_len();
    let mut out: Vec<String> = Vec::new();
    let mut start: usize = 0;
    let mut i: usize = 0;
    proof {
        assert(s@.take(0) =~= Seq::<char>::empty());
        assert(s@.subrange(0, 0) =~= Seq::<char>::empty());
        assert(views(out@).push(s@.subrange(0, 0)) =~= seq![Seq::<char>::empty()]);
    }
    while i < n
        invariant
            n == s@.len(),
            start <= i <= n,
            comma_pieces(s@.take(i as int)) == views(out@).push(s@.subrange(start as int, i as int)),
        decreases n - i,
    {
        let c = s.get_char(i);
        proof {
            assert(s@.take(i + 1).drop_last() =~= s@.take(i as int));
            assert(s@.take(i + 1).last() == c);
        }
        if c == ',' {
            let piece = String::from_str(s.substring_char(start, i));
            let ghost prev = out@;
            out.push(piece);
            start = i + 1;
            proof {
                assert(views(out@) =~= views(prev).push(piece@));
                assert(s@.subrange(start as int, i + 1) =~= Seq::<char>::empty());
            }
        } else {
            proof {
                let rest = comma_pieces(s@.take(i as int));
                assert(rest.last() == s@.subrange(start as int, i as int));
                assert(s@.subrange(start as int, i + 1) =~= s@.subrange(start as int, i as int).push(c));
                assert(rest.update(rest.len() - 1, rest.last().push(c)) =~= views(out@).push(
                    s@.subrange(start as int, i + 1),
                ));
            }
        }
        i = i + 1;
    }
    let last = String::from_str(s.substring_char(start, n));
    let ghost prev = out@;
    out.push(last);
    proof {
        assert(s@.take(n as int) =~= s@);
        assert(views(out@) =~= views(prev).push(last@));
    }
    out
}

/// The strings of `pieces` that are not empty, in order.
pub fn keep_nonempty(pieces: &Vec<String>) -> (r: Vec<String>)
    ensures
        views(r@) == drop_empty(views(pieces@)),
{
    let mut out: Vec<String> = Vec::new();
    let mut k: usize = 0;
    while k < pieces.len()
        invariant
            k <= pieces@.len(),
            views(out@) == drop_empty(views(pieces@.take(k as int))),
        decreases pieces@.len() - k,
    {
        proof {
            assert(views(pieces@.take(k + 1)).drop_last() =~= views(pieces@.take(k as int)));
            assert(views(pieces@.take(k + 1)).last() == pieces@[k as int]@);
        }
        if !pieces[k].as_str().is_empty() {
            let ghost prev = out@;
            let p = pieces[k].clone();
            out.push(p);
            proof {
                assert(views(out@) =~= views(prev).push(p@));
            }
        }
        k = k + 1;
    }
    proof {
        assert(pieces@.take(k as int) =~= pieces@);
    }
    out
}

/// A comma-separated list of file names: each piece trimmed of
/// whitespace, empty pieces left out.
pub fn parse_files_list(s: &str) -> (r: Vec<String>)
    ensures
        views(r@) == drop_empty(comma_pieces(s@).map_values(|p: Seq<char>| trimmed_of(p))),
{
    let pieces = split_commas(s);
    let mut trimmed: Vec<String> = Vec::new();
    let mut k: usize = 0;
    while k < pieces.len()
        invariant
            views(pieces@) == comma_pieces(s@),
            k <= pieces@.len(),
            views(trimmed@) == comma_pieces(s@).take(k as int).map_values(
                |p: Seq<char>| trimmed_of(p),
            ),
        decreases pieces@.len() - k,
    {
        let t = String::from_str(trim_whitespace(pieces[k].as_str()));
        let ghost prev = trimmed@;
        trimmed.push(t);
        proof {
            assert(pieces@[k as int]@ == comma_pieces(s@)[k as int]);
            assert(views(trimmed@) =~= views(prev).push(t@));
            assert(comma_pieces(s@).take(k + 1).map_values(|p: Seq<char>| trimmed_of(p))
                =~= comma_pieces(s@).take(k as int).map_values(|p: Seq<char>| trimmed_of(p)).push(
                trimmed_of(comma_pieces(s@)[k as int]),
            ));
        }
        k = k + 1;
    }
    proof {
        assert(comma_pieces(s@).take(k as int) =~= comma_pieces(s@));
    }
    keep_nonempty(&trimmed)
}

impl DesignCfg {
    /// Fills the `*_files` lists from the source lists and directories.
    pub fn populate_files(&mut self)
        ensures
            views(final(self).rtl_files@) == joined_paths(old(self).rtl_dir@, old(self).rtl@),
            views(final(self).xdc_files@) == joined_paths(old(self).xdc_dir@, old(self).xdc@),
            views(final(self).xci_files@) == joined_paths(old(self).xci_dir@, old(self).xci@),
            views(final(self).ip_files@) == joined_paths(old(self).ip_dir@, old(self).ip@),
            *final(self) == (DesignCfg {
                rtl_files: final(self).rtl_files,
                xdc_files: final(self).xdc_files,
                xci_files: final(self).xci_files,
                ip_files: final(self).ip_files,
                ..*old(self)
            }),
    {
        self.rtl_files = populate_files_list(self.rtl_dir.as_str(), &self.rtl);
        self.xdc_files = populate_files_list(self.xdc_dir.as_str(), &self.xdc);
        self.xci_files = populate_files_list(self.xci_dir.as_str(), &self.xci);
        self.ip_files = populate_files_list(self.ip_dir.as_str(), &self.ip);
    }
}

/// The children of the named node, or none if it is absent.
pub open spec fn children_named(hier: HierarchyGraph, is_design: bool, name: Seq<char>) -> Seq<
    NodeKind,
> {
    if hier.contains_node(is_design, name) {
        hier.children_of(hier.position(is_design, name))
    } else {
        Seq::empty()
    }
}

pub open spec fn region_or_empty(n: NodeKind) -> Seq<char> {
    match n {
        NodeKind::Module { region: Some(r), .. } => r@,
        _ => Seq::empty(),
    }
}

/// The root design has exactly one child, and it is a module.
pub open spec fn has_pr_instance(hier: HierarchyGraph, root: Seq<char>) -> bool {
    children_named(hier, true, root).len() == 1 && children_named(hier, true, root)[0] is Module
}

/// The reconfigurable module instance of `root`.
pub open spec fn pr_module(hier: HierarchyGraph, root: Seq<char>) -> NodeKind {
    children_named(hier, true, root)[0]
}

/// Candidate implementations of the root's reconfigurable module, in
/// order of registration.
pub open spec fn pr_candidates(hier: HierarchyGraph, root: Seq<char>) -> Seq<NodeKind> {
    children_named(hier, false, pr_module(hier, root).name_view())
}

pub open spec fn is_region_error(e: BuildError, root: Seq<char>) -> bool {
    e matches BuildError::AmbiguousOrMissingPrRegion(d) && d@ == root
}

/// The reconfigurable instance of `root`: its single module child in the
/// hierarchy. `AmbiguousOrMissingPrRegion` when the root has no child,
/// more than one, or a child that is not a module.
pub fn resolve_pr_instance(hier: &HierarchyGraph, root: &str) -> (r: Result<PrXdc, BuildError>)
    requires
        hier.wf(),
    ensures
        r is Ok <==> has_pr_instance(*hier, root@),
        r matches Ok(p) ==> p.project_name@ == root@ && p.instance_name@ == pr_module(
            *hier,
            root@,
        ).name_view() && p.region@ == region_or_empty(pr_module(*hier, root@)),
        r matches Err(e) ==> is_region_error(e, root@),
{
    let kids = hier.get_child_nodes(root, true);
    if kids.len() != 1 {
        return Err(BuildError::AmbiguousOrMissingPrRegion(String::from_str(root)));
    }
    match &kids[0] {
        NodeKind::Module { name, region } => {
            let reg = match region {
                Some(s) => s.clone(),
                None => String::new(),
            };
            Ok(PrXdc { project_name: String::from_str(root), instance_name: name.clone(), region: reg })
        },
        NodeKind::Design { .. } => Err(
            BuildError::AmbiguousOrMissingPrRegion(String::from_str(root)),
        ),
    }
}

/// One routing unit per candidate implementation of the root's
/// reconfigurable module, in order of registration; only the first locks
/// the routed layout. Fails as `resolve_pr_instance` does.
pub fn route_units(hier: &HierarchyGraph, root: &str) -> (r: Result<Vec<RouteUnit>, BuildError>)
    requires
        hier.wf(),
    ensures
        r is Ok <==> has_pr_instance(*hier, root@),
        r matches Ok(units) ==> units@.len() == pr_candidates(*hier, root@).len() && forall|j: int|
            0 <= j < units@.len() ==> #[trigger] units@[j].design@ == pr_candidates(
                *hier,
                root@,
            )[j].name_view() && units@[j].lock_routing == (j == 0),
        r matches Err(e) ==> is_region_error(e, root@),
{
    let inst = match resolve_pr_instance(hier, root) {
        Ok(p) => p,
        Err(e) => {
            return Err(e);
        },
    };
    let cands = hier.get_child_nodes(inst.instance_name.as_str(), false);
    let mut units: Vec<RouteUnit> = Vec::new();
    let mut k: usize = 0;
    while k < cands.len()
        invariant
            cands@ == pr_candidates(*hier, root@),
            k <= cands@.len(),
            units@.len() == k,
            forall|j: int|
                0 <= j < k ==> #[trigger] units@[j].design@ == cands@[j].name_view()
                    && units@[j].lock_routing == (j == 0),
        decreases cands@.len() - k,
    {
        let nm = cands[k].name();
        let d = nm.clone();
        proof {
            assert(nm@ == cands@[k as int].name_view());
            assert(d@ == nm@);
        }
        let ghost prev = units@;
        let first = k == 0;
        units.push(RouteUnit { design: d, lock_routing: first });
        proof {
            assert(units@[k as int].design@ == d@);
            assert(units@[k as int].lock_routing == first);
            assert forall|j: int|
                0 <= j < k + 1 implies #[trigger] units@[j].design@ == cands@[j].name_view()
                && units@[j].lock_routing == (j == 0) by {
                if j < k {
                    assert(units@[j] == prev[j]);
                } else {
                    assert(j == k as int);
                }
            }
        }
        k = k + 1;
    }
    Ok(units)
}

/// The bitstream script of a candidate: `generate_bit_<name>.tcl`.
pub open spec fn bitstream_script(name: Seq<char>) -> Seq<char> {
    "generate_bit_"@ + name + ".tcl"@
}

/// Registers the manifest's hierarchy: each design and candidate
/// implementation as a design node, each module instance as a module
/// node (its region fixed at first sight), `Instance` edges from designs
/// to their modules and `Implement` edges from modules to candidates.
/// Registers the modules of design `dname`, in order: each module node
/// (region from its first sight), then the `Instance` edge to it.
pub open spec fn reg_instances(m: HierModel, dname: Seq<char>, mods: Seq<ModuleEntry>) -> HierModel
    decreases mods.len(),
{
    if mods.len() == 0 {
        m
    } else {
        let me = mods.last();
        model_connect(
            model_add(reg_instances(m, dname, mods.drop_last()), false, me.name@, opt_view(me.region)),
            true,
            dname,
            false,
            me.name@,
        )
    }
}

/// First pass over the manifest, in order: each design node, then its
/// module instances.
pub open spec fn reg_designs(m: HierModel, hier: Seq<DesignEntry>) -> HierModel
    decreases hier.len(),
{
    if hier.len() == 0 {
        m
    } else {
        let d = hier.last();
        reg_instances(model_add(reg_designs(m, hier.drop_last()), true, d.name@, None), d.name@, d.modules@)
    }
}

/// Registers the candidates of module `mname`, in order: each design node,
/// then the `Implement` edge to it.
pub open spec fn reg_candidates(m: HierModel, mname: Seq<char>, rms: Seq<String>) -> HierModel
    decreases rms.len(),
{
    if rms.len() == 0 {
        m
    } else {
        let r = rms.last()@;
        model_connect(
            model_add(reg_candidates(m, mname, rms.drop_last()), true, r, None),
            false,
            mname,
            true,
            r,
        )
    }
}

pub open spec fn reg_impls_mods(m: HierModel, mods: Seq<ModuleEntry>) -> HierModel
    decreases mods.len(),
{
    if mods.len() == 0 {
        m
    } else {
        reg_candidates(reg_impls_mods(m, mods.drop_last()), mods.last().name@, mods.last().rm@)
    }
}

/// Second pass over the manifest, in order: the candidates of every module.
pub open spec fn reg_impls(m: HierModel, hier: Seq<DesignEntry>) -> HierModel
    decreases hier.len(),
{
    if hier.len() == 0 {
        m
    } else {
        reg_impls_mods(reg_impls(m, hier.drop_last()), hier.last().modules@)
    }
}

/// `m` after registering the manifest's hierarchy in manifest order: all
/// designs with their module instances, then all candidate implementations.
pub open spec fn registered(m: HierModel, hier: Seq<DesignEntry>) -> HierModel {
    reg_impls(reg_designs(m, hier), hier)
}

pub fn register_hierarchy(g: &mut HierarchyGraph, hier: &Vec<DesignEntry>)
    requires
        old(g).wf(),
    ensures
        final(g).wf(),
        forall|i: int, j: int|
            0 <= i < hier@.len() && 0 <= j < hier@[i].modules@.len() ==> #[trigger] instance_registered(
                *final(g),
                hier@,
                i,
                j,
            ),
        forall|i: int, j: int, k: int|
            0 <= i < hier@.len() && 0 <= j < hier@[i].modules@.len() && 0 <= k
                < hier@[i].modules@[j].rm@.len() ==> #[trigger] candidate_registered(
                *final(g),
                hier@,
                i,
                j,
                k,
            ),
        forall|i: int| 0 <= i < hier@.len() ==> #[trigger] final(g).contains_node(true, hier@[i].name@),
        final(g).model() == registered(old(g).model(), hier@),
{
    let ghost m0 = g.model();
    let mut i: usize = 0;
    while i < hier.len()
        invariant
            g.wf(),
            i <= hier@.len(),
            m0 == old(g).model(),
            g.model() == reg_designs(m0, hier@.take(i as int)),
            forall|a: int| 0 <= a < i ==> #[trigger] g.contains_node(true, hier@[a].name@),
            forall|a: int, b: int|
                0 <= a < i && 0 <= b < hier@[a].modules@.len() ==> #[trigger] instance_registered(
                    *g,
                    hier@,
                    a,
                    b,
                ),
        decreases hier@.len() - i,
    {
        let ghost g0 = *g;
        let r = g.add_design(hier[i].name.as_str());
        proof {
            g.lemma_grows_keeps_all(g0);
            assert(crate::design_hier::node_is(g.nodes@[r as int], true, hier@[i as int].name@));
            lemma_instances_kept(g0, *g, hier@, i as int);
            HierarchyGraph::lemma_design_added_model(g0, hier@[i as int].name@, *g, r);
            assert(hier@[i as int].modules@.take(0) =~= Seq::<ModuleEntry>::empty());
        }
        let mut j: usize = 0;
        while j < hier[i].modules.len()
            invariant
                g.wf(),
                i < hier@.len(),
                j <= hier@[i as int].modules@.len(),
                m0 == old(g).model(),
                g.model() == reg_instances(
                    model_add(reg_designs(m0, hier@.take(i as int)), true, hier@[i as int].name@, None),
                    hier@[i as int].name@,
                    hier@[i as int].modules@.take(j as int),
                ),
                g.contains_node(true, hier@[i as int].name@),
                forall|a: int| 0 <= a < i ==> #[trigger] g.contains_node(true, hier@[a].name@),
                forall|a: int, b: int|
                    0 <= a < i && 0 <= b < hier@[a].modules@.len() ==> #[trigger] instance_registered(
                        *g,
                        hier@,
                        a,
                        b,
                    ),
                forall|b: int| 0 <= b < j ==> #[trigger] instance_registered(*g, hier@, i as int, b),
            decreases hier@[i as int].modules@.len() - j,
        {
            let ghost g1 = *g;
            let m = &hier[i].modules[j];
            let region = match &m.region {
                Some(r) => Some(r.as_str()),
                None => None,
            };
            let r = g.add_module(m.name.as_str(), region);
            let ghost g2 = *g;
            proof {
                g2.lemma_grows_keeps_all(g1);
                assert(crate::design_hier::node_is(g2.nodes@[r as int], false, hier@[i as int].modules@[j as int].name@));
                assert(match region {
                    Some(s) => Some(s@),
                    None => None::<Seq<char>>,
                } == opt_view(hier@[i as int].modules@[j as int].region));
                HierarchyGraph::lemma_module_added_model(
                    g1,
                    hier@[i as int].modules@[j as int].name@,
                    opt_view(hier@[i as int].modules@[j as int].region),
                    g2,
                    r,
                );
            }
            let _ = g.connect_design_to_module(hier[i].name.as_str(), hier[i].modules[j].name.as_str());
            proof {
                g.lemma_grows_keeps_all(g2);
                let ghost ed = g.edges();
                assert(ed[ed.len() - 1] == (g2.position(true, hier@[i as int].name@), g2.position(false, hier@[i as int].modules@[j as int].name@)));
                assert(instance_registered(*g, hier@, i as int, j as int));
                assert forall|x: int| 0 <= x < g1.nodes@.len() implies #[trigger] g.nodes@[x] == g1.nodes@[x] by {
                    assert(g2.nodes@[x] == g1.nodes@[x]);
                }
                assert forall|e: int| 0 <= e < g1.edges().len() implies #[trigger] g.edges()[e] == g1.edges()[e] by {
                    assert(g2.edges()[e] == g1.edges()[e]);
                }
                lemma_instances_kept(g1, *g, hier@, i as int);
                HierarchyGraph::lemma_connected_model(
                    g2,
                    *g,
                    true,
                    hier@[i as int].name@,
                    false,
                    hier@[i as int].modules@[j as int].name@,
                );
                let mods = hier@[i as int].modules@;
                assert(mods.take(j + 1).drop_last() =~= mods.take(j as int));
                assert(mods.take(j + 1).last() == mods[j as int]);
                assert forall|b: int| 0 <= b < j implies #[trigger] instance_registered(*g, hier@, i as int, b) by {
                    assert(instance_registered(g1, hier@, i as int, b));
                }
            }
            j = j + 1;
        }
        proof {
            assert(hier@[i as int].modules@.take(j as int) =~= hier@[i as int].modules@);
            assert(hier@.take(i + 1).drop_last() =~= hier@.take(i as int));
            assert(hier@.take(i + 1).last() == hier@[i as int]);
        }
        i = i + 1;
    }
    proof {
        assert(hier@.take(i as int) =~= hier@);
        assert(hier@.take(0) =~= Seq::<DesignEntry>::empty());
    }
    let ghost m1 = g.model();
    let mut i: usize = 0;
    while i < hier.len()
        invariant
            g.wf(),
            i <= hier@.len(),
            m0 == old(g).model(),
            m1 == reg_designs(m0, hier@),
            g.model() == reg_impls(m1, hier@.take(i as int)),
            forall|a: int| 0 <= a < hier@.len() ==> #[trigger] g.contains_node(true, hier@[a].name@),
            forall|a: int, b: int|
                0 <= a < hier@.len() && 0 <= b < hier@[a].modules@.len() ==> #[trigger] instance_registered(
                    *g,
                    hier@,
                    a,
                    b,
                ),
            forall|a: int, b: int, c: int|
                0 <= a < i && 0 <= b < hier@[a].modules@.len() && 0 <= c < hier@[a].modules@[b].rm@.len()
                    ==> #[trigger] candidate_registered(*g, hier@, a, b, c),
        decreases hier@.len() - i,
    {
        proof {
            assert(hier@[i as int].modules@.take(0) =~= Seq::<ModuleEntry>::empty());
        }
        let mut j: usize = 0;
        while j < hier[i].modules.len()
            invariant
                g.wf(),
                i < hier@.len(),
                j <= hier@[i as int].modules@.len(),
                m0 == old(g).model(),
                m1 == reg_designs(m0, hier@),
                g.model() == reg_impls_mods(
                    reg_impls(m1, hier@.take(i as int)),
                    hier@[i as int].modules@.take(j as int),
                ),
                forall|a: int| 0 <= a < hier@.len() ==> #[trigger] g.contains_node(true, hier@[a].name@),
                forall|a: int, b: int|
                    0 <= a < hier@.len() && 0 <= b < hier@[a].modules@.len()
                        ==> #[trigger] instance_registered(*g, hier@, a, b),
                forall|a: int, b: int, c: int|
                    0 <= a < i && 0 <= b < hier@[a].modules@.len() && 0 <= c
                        < hier@[a].modules@[b].rm@.len() ==> #[trigger] candidate_registered(
                        *g,
                        hier@,
                        a,
                        b,
                        c,
                    ),
                forall|b: int, c: int|
                    0 <= b < j && 0 <= c < hier@[i as int].modules@[b].rm@.len()
                        ==> #[trigger] candidate_registered(*g, hier@, i as int, b, c),
            decreases hier@[i as int].modules@.len() - j,
        {
            proof {
                assert(hier@[i as int].modules@[j as int].rm@.take(0) =~= Seq::<String>::empty());
            }
            let mut k: usize = 0;
            while k < hier[i].modules[j].rm.len()
                invariant
                    g.wf(),
                    i < hier@.len(),
                    j < hier@[i as int].modules@.len(),
                    k <= hier@[i as int].modules@[j as int].rm@.len(),
                    m0 == old(g).model(),
                    m1 == reg_designs(m0, hier@),
                    g.model() == reg_candidates(
                        reg_impls_mods(
                            reg_impls(m1, hier@.take(i as int)),
                            hier@[i as int].modules@.take(j as int),
                        ),
                        hier@[i as int].modules@[j as int].name@,
                        hier@[i as int].modules@[j as int].rm@.take(k as int),
                    ),
                    forall|a: int| 0 <= a < hier@.len() ==> #[trigger] g.contains_node(true, hier@[a].name@),
                    forall|a: int, b: int|
                        0 <= a < hier@.len() && 0 <= b < hier@[a].modules@.len()
                            ==> #[trigger] instance_registered(*g, hier@, a, b),
                    forall|a: int, b: int, c: int|
                        0 <= a < i && 0 <= b < hier@[a].modules@.len() && 0 <= c
                            < hier@[a].modules@[b].rm@.len() ==> #[trigger] candidate_registered(
                            *g,
                            hier@,
                            a,
                            b,
                            c,
                        ),
                    forall|b: int, c: int|
                        0 <= b < j && 0 <= c < hier@[i as int].modules@[b].rm@.len()
                            ==> #[trigger] candidate_registered(*g, hier@, i as int, b, c),
                    forall|c: int| 0 <= c < k ==> #[trigger] candidate_registered(
                        *g,
                        hier@,
                        i as int,
                        j as int,
                        c,
                    ),
                decreases hier@[i as int].modules@[j as int].rm@.len() - k,
            {
                let ghost g1 = *g;
                let r = g.add_design(hier[i].modules[j].rm[k].as_str());
                let ghost g2 = *g;
                proof {
                    g2.lemma_grows_keeps_all(g1);
                    assert(crate::design_hier::node_is(g2.nodes@[r as int], true, hier@[i as int].modules@[j as int].rm@[k as int]@));
                    HierarchyGraph::lemma_design_added_model(
                        g1,
                        hier@[i as int].modules@[j as int].rm@[k as int]@,
                        g2,
                        r,
                    );
                    assert(g2.contains_node(false, hier@[i as int].modules@[j as int].name@)) by {
                        assert(instance_registered(g1, hier@, i as int, j as int));
                    }
                }
                let _ = g.connect_module_to_design_impl(
                    hier[i].modules[j].name.as_str(),
                    hier[i].modules[j].rm[k].as_str(),
                );
                proof {
                    g.lemma_grows_keeps_all(g2);
                    assert forall|x: int| 0 <= x < g1.nodes@.len() implies #[trigger] g.nodes@[x] == g1.nodes@[x] by {
                        assert(g2.nodes@[x] == g1.nodes@[x]);
                    }
                    assert forall|e: int| 0 <= e < g1.edges().len() implies #[trigger] g.edges()[e] == g1.edges()[e] by {
                        assert(g2.edges()[e] == g1.edges()[e]);
                    }
                    g.lemma_grows_keeps_all(g1);
                    HierarchyGraph::lemma_connected_model(
                        g2,
                        *g,
                        false,
                        hier@[i as int].modules@[j as int].name@,
                        true,
                        hier@[i as int].modules@[j as int].rm@[k as int]@,
                    );
                    let rms = hier@[i as int].modules@[j as int].rm@;
                    assert(rms.take(k + 1).drop_last() =~= rms.take(k as int));
                    assert(rms.take(k + 1).last() == rms[k as int]);
                    let ghost ed = g.edges();
                    assert(ed[ed.len() - 1] == (g2.position(false, hier@[i as int].modules@[j as int].name@), g2.position(true, hier@[i as int].modules@[j as int].rm@[k as int]@)));
                    assert(candidate_registered(*g, hier@, i as int, j as int, k as int));
                    assert forall|a: int| 0 <= a < hier@.len() implies #[trigger] g.contains_node(true, hier@[a].name@) by {
                        assert(g1.contains_node(true, hier@[a].name@));
                    }
                    assert forall|a: int, b: int|
                        0 <= a < hier@.len() && 0 <= b < hier@[a].modules@.len() implies #[trigger] instance_registered(*g, hier@, a, b) by {
                        assert(instance_registered(g1, hier@, a, b));
                    }
                    assert forall|a: int, b: int, c: int|
                        0 <= a < i && 0 <= b < hier@[a].modules@.len() && 0 <= c
                            < hier@[a].modules@[b].rm@.len() implies #[trigger] candidate_registered(*g, hier@, a, b, c) by {
                        assert(candidate_registered(g1, hier@, a, b, c));
                    }
                    assert forall|b: int, c: int|
                        0 <= b < j && 0 <= c < hier@[i as int].modules@[b].rm@.len()
                            implies #[trigger] candidate_registered(*g, hier@, i as int, b, c) by {
                        assert(candidate_registered(g1, hier@, i as int, b, c));
                    }
                    assert forall|c: int| 0 <= c < k + 1 implies #[trigger] candidate_registered(
                        *g,
                        hier@,
                        i as int,
                        j as int,
                        c,
                    ) by {
                        if c < k {
                            assert(candidate_registered(g1, hier@, i as int, j as int, c));
                        }
                    }
                }
                k = k + 1;
            }
            proof {
                let mods = hier@[i as int].modules@;
                assert(mods[j as int].rm@.take(k as int) =~= mods[j as int].rm@);
                assert(mods.take(j + 1).drop_last() =~= mods.take(j as int));
                assert(mods.take(j + 1).last() == mods[j as int]);
            }
            j = j + 1;
        }
        proof {
            assert(hier@[i as int].modules@.take(j as int) =~= hier@[i as int].modules@);
            assert(hier@.take(i + 1).drop_last() =~= hier@.take(i as int));
            assert(hier@.take(i + 1).last() == hier@[i as int]);
        }
        i = i + 1;
    }
    proof {
        assert(hier@.take(i as int) =~= hier@);
    }
}

/// The design at `i` holds the module at `(i, j)` by an `Instance` edge.
pub open spec fn instance_registered(g: HierarchyGraph, hier: Seq<DesignEntry>, i: int, j: int) -> bool {
    g.has_edge(true, hier[i].name@, false, hier[i].modules@[j].name@)
}

/// The module at `(i, j)` can be implemented by its candidate `k`, by an
/// `Implement` edge.
pub open spec fn candidate_registered(
    g: HierarchyGraph,
    hier: Seq<DesignEntry>,
    i: int,
    j: int,
    k: int,
) -> bool {
    g.has_edge(false, hier[i].modules@[j].name@, true, hier[i].modules@[j].rm@[k]@)
}

/// Instances registered for the first `upto` designs stay registered as
/// the graph grows.
proof fn lemma_instances_kept(g: HierarchyGraph, g2: HierarchyGraph, hier: Seq<DesignEntry>, upto: int)
    requires
        g.wf(),
        g2.wf(),
        g2.grows_from(g),
        forall|a: int, b: int|
            0 <= a < upto && 0 <= a < hier.len() && 0 <= b < hier[a].modules@.len()
                ==> #[trigger] instance_registered(g, hier, a, b),
    ensures
        forall|a: int, b: int|
            0 <= a < upto && 0 <= a < hier.len() && 0 <= b < hier[a].modules@.len()
                ==> #[trigger] instance_registered(g2, hier, a, b),
{
    g2.lemma_grows_keeps_all(g);
    assert forall|a: int, b: int|
        0 <= a < upto && 0 <= a < hier.len() && 0 <= b < hier[a].modules@.len()
            implies #[trigger] instance_registered(g2, hier, a, b) by {
        assert(instance_registered(g, hier, a, b));
    }
}

impl BuildCfg {
    /// Registers the manifest's hierarchy in `design_graph` (see
    /// `register_hierarchy`).
    pub fn parse_hierarchy(&mut self)
        requires
            old(self).design_graph.wf(),
        ensures
            final(self).design_graph.wf(),
            forall|i: int, j: int|
                0 <= i < old(self).hier@.len() && 0 <= j < old(self).hier@[i].modules@.len()
                    ==> #[trigger] instance_registered(final(self).design_graph, old(self).hier@, i, j),
            forall|i: int, j: int, k: int|
                0 <= i < old(self).hier@.len() && 0 <= j < old(self).hier@[i].modules@.len() && 0
                    <= k < old(self).hier@[i].modules@[j].rm@.len() ==> #[trigger] candidate_registered(
                    final(self).design_graph,
                    old(self).hier@,
                    i,
                    j,
                    k,
                ),
            forall|i: int|
                0 <= i < old(self).hier@.len() ==> #[trigger] final(self).design_graph.contains_node(
                    true,
                    old(self).hier@[i].name@,
                ),
            final(self).design_graph.model() == registered(
                old(self).design_graph.model(),
                old(self).hier@,
            ),
            final(self).hier == old(self).hier,
            final(self).designcfg == old(self).designcfg,
            final(self).root == old(self).root,
            final(self).projectcfg == old(self).projectcfg,
            final(self).flow_graph == old(self).flow_graph,
    {
        register_hierarchy(&mut self.design_graph, &self.hier);
    }

    /// The reconfigurable instance of the root design (see
    /// `resolve_pr_instance`).
    pub fn resolve_pr_instance(&self, root_design: &str) -> (r: Result<PrXdc, BuildError>)
        requires
            self.design_graph.wf(),
        ensures
            r is Ok <==> has_pr_instance(self.design_graph, root_design@),
            r matches Ok(p) ==> p.project_name@ == root_design@ && p.instance_name@ == pr_module(
                self.design_graph,
                root_design@,
            ).name_view() && p.region@ == region_or_empty(
                pr_module(self.design_graph, root_design@),
            ),
            r matches Err(e) ==> is_region_error(e, root_design@),
    {
        resolve_pr_instance(&self.design_graph, root_design)
    }

    /// The bitstream scripts to run, one per candidate implementation of
    /// the root's reconfigurable module, in order of registration.
    pub fn gen_bitstreams(&self, root_design: &String) -> (r: Result<Vec<String>, BuildError>)
        requires
            self.design_graph.wf(),
        ensures
            r is Ok <==> has_pr_instance(self.design_graph, root_design@),
            r matches Ok(scripts) ==> views(scripts@) == pr_candidates(
                self.design_graph,
                root_design@,
            ).map_values(|n: NodeKind| bitstream_script(n.name_view())),
            r matches Err(e) ==> is_region_error(e, root_design@),
    {
        let units = match route_units(&self.design_graph, root_design.as_str()) {
            Ok(u) => u,
            Err(e) => {
                return Err(e);
            },
        };
        let ghost cands = pr_candidates(self.design_graph, root_design@);
        let mut scripts: Vec<String> = Vec::new();
        let mut k: usize = 0;
        proof {
            reveal_strlit("generate_bit_");
            reveal_strlit(".tcl");
        }
        while k < units.len()
            invariant
                units@.len() == cands.len(),
                forall|j: int|
                    0 <= j < units@.len() ==> #[trigger] units@[j].design@ == cands[j].name_view(),
                k <= units@.len(),
                views(scripts@) == cands.take(k as int).map_values(
                    |n: NodeKind| bitstream_script(n.name_view()),
                ),
            decreases units@.len() - k,
        {
            let mut s = String::from_str("generate_bit_");
            s.append(units[k].design.as_str());
            s.append(".tcl");
            let ghost prev = scripts@;
            scripts.push(s);
            k = k + 1;
            proof {
                assert(views(scripts@) =~= views(prev).push(s@));
                assert(cands.take(k as int).map_values(|n: NodeKind| bitstream_script(n.name_view()))
                    =~= cands.take(k - 1).map_values(|n: NodeKind| bitstream_script(n.name_view())).push(
                    bitstream_script(cands[k - 1].name_view()),
                ));
            }
        }
        proof {
            assert(cands.take(k as int) =~= cands);
        }
        Ok(scripts)
    }
}

pub open spec fn opt_str_view(o: Option<&str>) -> Option<Seq<char>> {
    match o {
        Some(s) => Some(s@),
        None => None,
    }
}

/// The candidates that the plan routes: those of the root, if there is one.
pub open spec fn planned_candidates(hier: HierarchyGraph, root: Option<Seq<char>>) -> Seq<NodeKind> {
    match root {
        Some(rt) => pr_candidates(hier, rt),
        None => Seq::empty(),
    }
}

pub open spec fn is_static_stage(s: BuildStage) -> bool {
    s == BuildStage::VerifyFiles || s == BuildStage::CreateProject || s == BuildStage::Synth
}

pub open spec fn is_candidate_stage(s: BuildStage) -> bool {
    s == BuildStage::Route || s == BuildStage::Bitgen
}

/// `k` is a stage key that the plan creates.
pub open spec fn planned_key(
    statics: Seq<Seq<char>>,
    root: Option<Seq<char>>,
    cands: Seq<NodeKind>,
    k: Seq<char>,
) -> bool {
    ||| exists|i: int, s: BuildStage|
        0 <= i < statics.len() && is_static_stage(s) && k == #[trigger] flow_key(statics[i], s)
    ||| root matches Some(rt) && k == flow_key(rt, BuildStage::Synth)
    ||| root is Some && exists|j: int, s: BuildStage|
        0 <= j < cands.len() && is_candidate_stage(s) && k == #[trigger] flow_key(
            cands[j].name_view(),
            s,
        )
}

/// The chain `verifyfiles -> createproject -> synth` of a static design.
pub open spec fn static_chain(g: FlowGraph, d: Seq<char>) -> bool {
    &&& g.has_dependency(
        flow_key(d, BuildStage::VerifyFiles),
        flow_key(d, BuildStage::CreateProject),
    )
    &&& g.has_dependency(flow_key(d, BuildStage::CreateProject), flow_key(d, BuildStage::Synth))
}

/// The chain `<root>:synth -> <c>:route -> <c>:bitgen` of a candidate.
pub open spec fn candidate_chain(g: FlowGraph, root: Seq<char>, c: Seq<char>) -> bool {
    &&& g.has_dependency(flow_key(root, BuildStage::Synth), flow_key(c, BuildStage::Route))
    &&& g.has_dependency(flow_key(c, BuildStage::Route), flow_key(c, BuildStage::Bitgen))
}

/// `a -> b` is one of the dependencies that the plan creates.
pub open spec fn planned_dep(
    statics: Seq<Seq<char>>,
    root: Option<Seq<char>>,
    cands: Seq<NodeKind>,
    a: Seq<char>,
    b: Seq<char>,
) -> bool {
    ||| exists|i: int|
        0 <= i < statics.len() && ((a == flow_key(#[trigger] statics[i], BuildStage::VerifyFiles)
            && b == flow_key(statics[i], BuildStage::CreateProject)) || (a == flow_key(
            statics[i],
            BuildStage::CreateProject,
        ) && b == flow_key(statics[i], BuildStage::Synth)))
    ||| root matches Some(rt) && exists|j: int|
        0 <= j < cands.len() && ((a == flow_key(rt, BuildStage::Synth) && b == flow_key(
            #[trigger] cands[j].name_view(),
            BuildStage::Route,
        )) || (a == flow_key(cands[j].name_view(), BuildStage::Route) && b == flow_key(
            cands[j].name_view(),
            BuildStage::Bitgen,
        )))
}

/// `g` holds exactly the plan: every node and edge is planned, every
/// static design has its chain, and the root's synth stage feeds each
/// candidate's chain.
pub open spec fn is_plan(
    g: FlowGraph,
    statics: Seq<Seq<char>>,
    root: Option<Seq<char>>,
    cands: Seq<NodeKind>,
) -> bool {
    &&& g.wf()
    &&& forall|i: int| 0 <= i < g.nodes@.len() ==> planned_key(statics, root, cands, #[trigger] g.key_at(i))
    &&& forall|e: int|
        0 <= e < g.edges().len() ==> planned_dep(
            statics,
            root,
            cands,
            g.key_at(#[trigger] g.edges()[e].0),
            g.key_at(g.edges()[e].1),
        )
    &&& forall|i: int| 0 <= i < statics.len() ==> static_chain(g, #[trigger] statics[i])
    &&& root matches Some(rt) ==> g.contains_key(flow_key(rt, BuildStage::Synth)) && forall|j: int|
        0 <= j < cands.len() ==> candidate_chain(g, rt, #[trigger] cands[j].name_view())
}

/// The position of a stage kind in the pipeline.
pub open spec fn stage_rank(s: BuildStage) -> int {
    match s {
        BuildStage::VerifyFiles => 0,
        BuildStage::CreateProject => 1,
        BuildStage::Synth => 2,
        BuildStage::Route => 3,
        BuildStage::Bitgen => 4,
    }
}

/// Every edge of a planned graph leads to a later kind of stage.
proof fn lemma_plan_edges_rise(
    g: FlowGraph,
    statics: Seq<Seq<char>>,
    root: Option<Seq<char>>,
    cands: Seq<NodeKind>,
)
    requires
        is_plan(g, statics, root, cands),
    ensures
        forall|e: int|
            0 <= e < g.edges().len() ==> stage_rank(g.nodes@[#[trigger] g.edges()[e].0].stage)
                < stage_rank(g.nodes@[g.edges()[e].1].stage),
{
    assert forall|e: int| 0 <= e < g.edges().len() implies stage_rank(
        g.nodes@[#[trigger] g.edges()[e].0].stage,
    ) < stage_rank(g.nodes@[g.edges()[e].1].stage) by {
        let x = g.edges()[e].0;
        let y = g.edges()[e].1;
        assert(0 <= x < g.nodes@.len() && 0 <= y < g.nodes@.len());
        let (nx, ny) = (g.nodes@[x], g.nodes@[y]);
        assert(g.key_at(x) == flow_key(nx.design@, nx.stage));
        assert(g.key_at(y) == flow_key(ny.design@, ny.stage));
        let ka = g.key_at(x);
        let kb = g.key_at(y);
        assert(planned_dep(statics, root, cands, ka, kb));
        if exists|i: int|
            0 <= i < statics.len() && ((ka == flow_key(#[trigger] statics[i], BuildStage::VerifyFiles)
                && kb == flow_key(statics[i], BuildStage::CreateProject)) || (ka == flow_key(
                statics[i],
                BuildStage::CreateProject,
            ) && kb == flow_key(statics[i], BuildStage::Synth))) {
            let i = choose|i: int|
                0 <= i < statics.len() && ((ka == flow_key(
                    #[trigger] statics[i],
                    BuildStage::VerifyFiles,
                ) && kb == flow_key(statics[i], BuildStage::CreateProject)) || (ka == flow_key(
                    statics[i],
                    BuildStage::CreateProject,
                ) && kb == flow_key(statics[i], BuildStage::Synth)));
            if ka == flow_key(statics[i], BuildStage::VerifyFiles) && kb == flow_key(
                statics[i],
                BuildStage::CreateProject,
            ) {
                lemma_flow_key_injective(nx.design@, nx.stage, statics[i], BuildStage::VerifyFiles);
                lemma_flow_key_injective(ny.design@, ny.stage, statics[i], BuildStage::CreateProject);
            } else {
                lemma_flow_key_injective(nx.design@, nx.stage, statics[i], BuildStage::CreateProject);
                lemma_flow_key_injective(ny.design@, ny.stage, statics[i], BuildStage::Synth);
            }
        } else {
            let rt = root->Some_0;
            let j = choose|j: int|
                0 <= j < cands.len() && ((ka == flow_key(rt, BuildStage::Synth) && kb == flow_key(
                    #[trigger] cands[j].name_view(),
                    BuildStage::Route,
                )) || (ka == flow_key(cands[j].name_view(), BuildStage::Route) && kb == flow_key(
                    cands[j].name_view(),
                    BuildStage::Bitgen,
                )));
            let c = cands[j].name_view();
            if ka == flow_key(rt, BuildStage::Synth) && kb == flow_key(c, BuildStage::Route) {
                lemma_flow_key_injective(nx.design@, nx.stage, rt, BuildStage::Synth);
                lemma_flow_key_injective(ny.design@, ny.stage, c, BuildStage::Route);
            } else {
                lemma_flow_key_injective(nx.design@, nx.stage, c, BuildStage::Route);
                lemma_flow_key_injective(ny.design@, ny.stage, c, BuildStage::Bitgen);
            }
        }
    }
}

proof fn lemma_walk_rises(g: FlowGraph, p: Seq<int>, m: int)
    requires
        forall|e: int|
            0 <= e < g.edges().len() ==> stage_rank(g.nodes@[#[trigger] g.edges()[e].0].stage)
                < stage_rank(g.nodes@[g.edges()[e].1].stage),
        forall|k: int| 0 <= k < p.len() - 1 ==> g.edges().contains((p[k], #[trigger] p[k + 1])),
        1 <= m < p.len(),
    ensures
        stage_rank(g.nodes@[p[0]].stage) < stage_rank(g.nodes@[p[m]].stage),
    decreases m,
{
    if m > 1 {
        lemma_walk_rises(g, p, m - 1);
    }
    assert(g.edges().contains((p[m - 1], p[(m - 1) + 1])));
    let e = choose|e: int| 0 <= e < g.edges().len() && g.edges()[e] == (p[m - 1], p[m]);
    assert(g.edges()[e].0 == p[m - 1]);
}

/// Every planned dependency leads to a later kind of stage, so a planned
/// stage graph has no cycle and `topo_order` always succeeds on it.
pub proof fn planned_flow_is_acyclic(
    g: FlowGraph,
    statics: Seq<Seq<char>>,
    root: Option<Seq<char>>,
    cands: Seq<NodeKind>,
)
    requires
        is_plan(g, statics, root, cands),
    ensures
        !has_cycle(g.edges()),
{
    lemma_plan_edges_rise(g, statics, root, cands);
    if has_cycle(g.edges()) {
        let p = choose|p: Seq<int>| is_cycle(g.edges(), p);
        lemma_walk_rises(g, p, p.len() - 1);
    }
}

/// On a planned stage graph `topo_order` succeeds, and the order it gives
/// lists every stage once, each static design's `verifyfiles`,
/// `createproject` and `synth` stages in that order, and the root's synth
/// stage before every candidate's route stage, which comes before that
/// candidate's bitgen stage.
pub proof fn planned_order_follows_plan(
    g: FlowGraph,
    statics: Seq<Seq<char>>,
    root: Option<Seq<char>>,
    cands: Seq<NodeKind>,
    keys: Seq<Seq<char>>,
)
    requires
        is_plan(g, statics, root, cands),
        g.is_key_order(keys),
    ensures
        !has_cycle(g.edges()),
        keys.len() == g.nodes@.len(),
        keys.no_duplicates(),
        forall|i: int| 0 <= i < g.nodes@.len() ==> keys.contains(#[trigger] g.key_at(i)),
        forall|i: int|
            0 <= i < statics.len() ==> precedes(
                keys,
                flow_key(#[trigger] statics[i], BuildStage::VerifyFiles),
                flow_key(statics[i], BuildStage::CreateProject),
            ) && precedes(
                keys,
                flow_key(statics[i], BuildStage::CreateProject),
                flow_key(statics[i], BuildStage::Synth),
            ),
        root matches Some(rt) ==> forall|j: int|
            0 <= j < cands.len() ==> precedes(
                keys,
                flow_key(rt, BuildStage::Synth),
                flow_key(#[trigger] cands[j].name_view(), BuildStage::Route),
            ) && precedes(
                keys,
                flow_key(cands[j].name_view(), BuildStage::Route),
                flow_key(cands[j].name_view(), BuildStage::Bitgen),
            ),
{
    planned_flow_is_acyclic(g, statics, root, cands);
    topo_order_respects_dependencies(g, keys);
    assert forall|i: int| 0 <= i < statics.len() implies precedes(
        keys,
        flow_key(#[trigger] statics[i], BuildStage::VerifyFiles),
        flow_key(statics[i], BuildStage::CreateProject),
    ) && precedes(
        keys,
        flow_key(statics[i], BuildStage::CreateProject),
        flow_key(statics[i], BuildStage::Synth),
    ) by {
        assert(static_chain(g, statics[i]));
    }
    if root is Some {
        let rt = root->Some_0;
        assert forall|j: int| 0 <= j < cands.len() implies precedes(
            keys,
            flow_key(rt, BuildStage::Synth),
            flow_key(#[trigger] cands[j].name_view(), BuildStage::Route),
        ) && precedes(
            keys,
            flow_key(cands[j].name_view(), BuildStage::Route),
            flow_key(cands[j].name_view(), BuildStage::Bitgen),
        ) by {
            assert(candidate_chain(g, rt, cands[j].name_view()));
        }
    }
}

/// Adds the dependency `a -> b` to a graph that so far holds only planned
/// nodes and edges, when `a -> b` is itself planned.
fn add_planned(
    g: &mut FlowGraph,
    before: (&str, BuildStage),
    after: (&str, BuildStage),
    Ghost(statics): Ghost<Seq<Seq<char>>>,
    Ghost(root): Ghost<Option<Seq<char>>>,
    Ghost(cands): Ghost<Seq<NodeKind>>,
)
    requires
        old(g).wf(),
        forall|i: int|
            0 <= i < old(g).nodes@.len() ==> planned_key(statics, root, cands, #[trigger] old(g).key_at(i)),
        forall|e: int|
            0 <= e < old(g).edges().len() ==> planned_dep(
                statics,
                root,
                cands,
                old(g).key_at(#[trigger] old(g).edges()[e].0),
                old(g).key_at(old(g).edges()[e].1),
            ),
        planned_key(statics, root, cands, flow_key(before.0@, before.1)),
        planned_key(statics, root, cands, flow_key(after.0@, after.1)),
        planned_dep(statics, root, cands, flow_key(before.0@, before.1), flow_key(after.0@, after.1)),
    ensures
        final(g).wf(),
        final(g).grows_from(*old(g)),
        final(g).has_dependency(flow_key(before.0@, before.1), flow_key(after.0@, after.1)),
        forall|a: Seq<char>| old(g).contains_key(a) ==> #[trigger] final(g).contains_key(a),
        forall|a: Seq<char>, b: Seq<char>|
            old(g).has_dependency(a, b) ==> #[trigger] final(g).has_dependency(a, b),
        forall|i: int|
            0 <= i < final(g).nodes@.len() ==> planned_key(statics, root, cands, #[trigger] final(g).key_at(i)),
        forall|e: int|
            0 <= e < final(g).edges().len() ==> planned_dep(
                statics,
                root,
                cands,
                final(g).key_at(#[trigger] final(g).edges()[e].0),
                final(g).key_at(final(g).edges()[e].1),
            ),
{
    g.depend(before, after);
    proof {
        let ka = flow_key(before.0@, before.1);
        let kb = flow_key(after.0@, after.1);
        g.lemma_grows_keeps_all(*old(g));
        assert forall|i: int| 0 <= i < g.nodes@.len() implies planned_key(
            statics,
            root,
            cands,
            #[trigger] g.key_at(i),
        ) by {
            if i < old(g).nodes@.len() {
                assert(g.nodes@[i] == old(g).nodes@[i]);
                assert(planned_key(statics, root, cands, old(g).key_at(i)));
            } else {
                assert(g.key_at(i) == ka || g.key_at(i) == kb);
            }
        }
        let w = g.position(ka);
        let v = g.position(kb);
        assert(g.nodes@[w].key@ == ka);
        assert(g.nodes@[v].key@ == kb);
        assert forall|e: int| 0 <= e < g.edges().len() implies planned_dep(
            statics,
            root,
            cands,
            g.key_at(#[trigger] g.edges()[e].0),
            g.key_at(g.edges()[e].1),
        ) by {
            if e < old(g).edges().len() {
                let x = old(g).edges()[e].0;
                let y = old(g).edges()[e].1;
                assert(g.edges()[e] == old(g).edges()[e]);
                assert(planned_dep(statics, root, cands, old(g).key_at(x), old(g).key_at(y)));
                assert(0 <= x < old(g).nodes@.len() && 0 <= y < old(g).nodes@.len());
                assert(g.nodes@[x] == old(g).nodes@[x]);
                assert(g.nodes@[y] == old(g).nodes@[y]);
            } else {
                assert(g.edges()[e] == (w, v));
            }
        }
    }
}

/// Builds the stage graph of a build: for each static design
/// `verifyfiles -> createproject -> synth`; with a root design, its synth
/// stage, and `<root>:synth -> <c>:route -> <c>:bitgen` for each candidate
/// implementation `c` of its reconfigurable module. Fails as
/// `resolve_pr_instance` does on the root.
pub fn plan_flow(hier: &HierarchyGraph, static_designs: &Vec<String>, root: Option<&str>) -> (r:
    Result<FlowGraph, BuildError>)
    requires
        hier.wf(),
    ensures
        r is Err <==> (root matches Some(rt) && !has_pr_instance(*hier, rt@)),
        r matches Err(e) ==> (root matches Some(rt) && is_region_error(e, rt@)),
        r matches Ok(g) ==> is_plan(
            g,
            views(static_designs@),
            opt_str_view(root),
            planned_candidates(*hier, opt_str_view(root)),
        ),
        r matches Ok(g) ==> !has_cycle(g.edges()),
{
    let ghost statics = views(static_designs@);
    let ghost rv = opt_str_view(root);
    let ghost cands = planned_candidates(*hier, rv);
    let units: Vec<RouteUnit> = match root {
        Some(rt) => match route_units(hier, rt) {
            Ok(u) => u,
            Err(e) => {
                return Err(e);
            },
        },
        None => Vec::new(),
    };
    let mut g = FlowGraph::new();
    let mut k: usize = 0;
    while k < static_designs.len()
        invariant
            statics == views(static_designs@),
            k <= statics.len(),
            g.wf(),
            forall|i: int| 0 <= i < g.nodes@.len() ==> planned_key(statics, rv, cands, #[trigger] g.key_at(i)),
            forall|e: int|
                0 <= e < g.edges().len() ==> planned_dep(
                    statics,
                    rv,
                    cands,
                    g.key_at(#[trigger] g.edges()[e].0),
                    g.key_at(g.edges()[e].1),
                ),
            forall|i: int| 0 <= i < k ==> static_chain(g, #[trigger] statics[i]),
        decreases statics.len() - k,
    {
        let d = static_designs[k].as_str();
        proof {
            assert(d@ == statics[k as int]);
            assert(planned_key(statics, rv, cands, flow_key(statics[k as int], BuildStage::VerifyFiles)));
            assert(planned_key(statics, rv, cands, flow_key(statics[k as int], BuildStage::CreateProject)));
            assert(planned_key(statics, rv, cands, flow_key(statics[k as int], BuildStage::Synth)));
            assert(statics[k as int] == statics[k as int]);
        }
        let ghost g0 = g;
        add_planned(
            &mut g,
            (d, BuildStage::VerifyFiles),
            (d, BuildStage::CreateProject),
            Ghost(statics),
            Ghost(rv),
            Ghost(cands),
        );
        let ghost g1 = g;
        add_planned(
            &mut g,
            (d, BuildStage::CreateProject),
            (d, BuildStage::Synth),
            Ghost(statics),
            Ghost(rv),
            Ghost(cands),
        );
        proof {
            assert forall|i: int| 0 <= i < k + 1 implies static_chain(g, #[trigger] statics[i]) by {
                if i < k {
                    assert(static_chain(g0, statics[i]));
                }
            }
        }
        k = k + 1;
    }
    match root {
        None => {
            proof {
                planned_flow_is_acyclic(g, statics, rv, cands);
            }
            Ok(g)
        },
        Some(rt) => {
            let ghost g0 = g;
            g.ensure_node(rt, BuildStage::Synth);
            proof {
                g.lemma_grows_keeps_all(g0);
                assert forall|i: int| 0 <= i < g.nodes@.len() implies planned_key(
                    statics,
                    rv,
                    cands,
                    #[trigger] g.key_at(i),
                ) by {
                    if i < g0.nodes@.len() {
                        assert(g.nodes@[i] == g0.nodes@[i]);
                        assert(planned_key(statics, rv, cands, g0.key_at(i)));
                    }
                }
                assert forall|e: int| 0 <= e < g.edges().len() implies planned_dep(
                    statics,
                    rv,
                    cands,
                    g.key_at(#[trigger] g.edges()[e].0),
                    g.key_at(g.edges()[e].1),
                ) by {
                    let x = g0.edges()[e].0;
                    let y = g0.edges()[e].1;
                    assert(planned_dep(statics, rv, cands, g0.key_at(x), g0.key_at(y)));
                    assert(g.nodes@[x] == g0.nodes@[x]);
                    assert(g.nodes@[y] == g0.nodes@[y]);
                }
                assert forall|i: int| 0 <= i < statics.len() implies static_chain(g, #[trigger] statics[i]) by {
                    assert(static_chain(g0, statics[i]));
                }
            }
            let mut j: usize = 0;
            while j < units.len()
                invariant
                    statics == views(static_designs@),
                    rv == Some(rt@),
                    cands == pr_candidates(*hier, rt@),
                    units@.len() == cands.len(),
                    forall|x: int|
                        0 <= x < units@.len() ==> #[trigger] units@[x].design@ == cands[x].name_view(),
                    j <= units@.len(),
                    g.wf(),
                    g.contains_key(flow_key(rt@, BuildStage::Synth)),
                    forall|i: int|
                        0 <= i < g.nodes@.len() ==> planned_key(statics, rv, cands, #[trigger] g.key_at(i)),
                    forall|e: int|
                        0 <= e < g.edges().len() ==> planned_dep(
                            statics,
                            rv,
                            cands,
                            g.key_at(#[trigger] g.edges()[e].0),
                            g.key_at(g.edges()[e].1),
                        ),
                    forall|i: int| 0 <= i < statics.len() ==> static_chain(g, #[trigger] statics[i]),
                    forall|x: int| 0 <= x < j ==> candidate_chain(g, rt@, #[trigger] cands[x].name_view()),
                decreases units@.len() - j,
            {
                let c = units[j].design.as_str();
                proof {
                    let cv = cands[j as int].name_view();
                    assert(c@ == cv);
                    assert(planned_key(statics, rv, cands, flow_key(cv, BuildStage::Route)));
                    assert(planned_key(statics, rv, cands, flow_key(cv, BuildStage::Bitgen)));
                    assert(planned_dep(
                        statics,
                        rv,
                        cands,
                        flow_key(rt@, BuildStage::Synth),
                        flow_key(cv, BuildStage::Route),
                    ));
                    assert(planned_dep(
                        statics,
                        rv,
                        cands,
                        flow_key(cv, BuildStage::Route),
                        flow_key(cv, BuildStage::Bitgen),
                    ));
                }
                let ghost g0 = g;
                add_planned(
                    &mut g,
                    (rt, BuildStage::Synth),
                    (c, BuildStage::Route),
                    Ghost(statics),
                    Ghost(rv),
                    Ghost(cands),
                );
                add_planned(
                    &mut g,
                    (c, BuildStage::Route),
                    (c, BuildStage::Bitgen),
                    Ghost(statics),
                    Ghost(rv),
                    Ghost(cands),
                );
                proof {
                    assert forall|i: int| 0 <= i < statics.len() implies static_chain(g, #[trigger] statics[i]) by {
                        assert(static_chain(g0, statics[i]));
                    }
                    assert forall|x: int| 0 <= x < j + 1 implies candidate_chain(
                        g,
                        rt@,
                        #[trigger] cands[x].name_view(),
                    ) by {
                        if x < j {
                            assert(candidate_chain(g0, rt@, cands[x].name_view()));
                        }
                    }
                }
                j = j + 1;
            }
            proof {
                planned_flow_is_acyclic(g, statics, rv, cands);
            }
            Ok(g)
        },
    }
}

/// Names of the static designs, in manifest order.
pub open spec fn static_names(ds: Seq<DesignCfg>) -> Seq<Seq<char>>
    decreases ds.len(),
{
    if ds.len() == 0 {
        Seq::empty()
    } else if ds.last().moduletype == ModuleType::Static {
        static_names(ds.drop_last()).push(ds.last().name@)
    } else {
        static_names(ds.drop_last())
    }
}

impl BuildCfg {
    /// The names of the static designs of the manifest, in order.
    pub fn static_designs(&self) -> (r: Vec<String>)
        ensures
            views(r@) == static_names(self.designcfg@),
    {
        let mut out: Vec<String> = Vec::new();
        let mut k: usize = 0;
        while k < self.designcfg.len()
            invariant
                k <= self.designcfg@.len(),
                views(out@) == static_names(self.designcfg@.take(k as int)),
            decreases self.designcfg@.len() - k,
        {
            let ghost prev = out@;
            if self.designcfg[k].moduletype == ModuleType::Static {
                out.push(self.designcfg[k].name.clone());
                proof {
                    assert(views(out@) =~= views(prev).push(self.designcfg@[k as int].name@));
                }
            }
            proof {
                assert(self.designcfg@.take(k + 1).drop_last() =~= self.designcfg@.take(k as int));
            }
            k = k + 1;
        }
        proof {
            assert(self.designcfg@.take(k as int) =~= self.designcfg@);
        }
        out
    }

    /// The root design's name, if the manifest names one.
    pub open spec fn root_view(&self) -> Option<Seq<char>> {
        match self.root.design {
            Some(s) => Some(s@),
            None => None,
        }
    }

    /// Rebuilds the hierarchy from the manifest and, from it, the stage
    /// graph of the build (see `plan_flow`).
    pub fn build_flow_graph(&mut self) -> (r: Result<(), BuildError>)
        ensures
            final(self).design_graph.wf(),
            final(self).design_graph.model() == registered(empty_model(), old(self).hier@),
            final(self).hier == old(self).hier,
            final(self).designcfg == old(self).designcfg,
            final(self).root == old(self).root,
            r is Err <==> (old(self).root_view() matches Some(rt) && !has_pr_instance(
                final(self).design_graph,
                rt,
            )),
            r matches Err(e) ==> (old(self).root_view() matches Some(rt) && is_region_error(e, rt)),
            r is Ok ==> !has_cycle(final(self).flow_graph.edges()),
            r matches Ok(_) ==> is_plan(
                final(self).flow_graph,
                static_names(old(self).designcfg@),
                old(self).root_view(),
                planned_candidates(final(self).design_graph, old(self).root_view()),
            ),
    {
        self.design_graph = HierarchyGraph::new();
        self.parse_hierarchy();
        let statics = self.static_designs();
        let root: Option<&str> = match &self.root.design {
            Some(s) => Some(s.as_str()),
            None => None,
        };
        match plan_flow(&self.design_graph, &statics, root) {
            Ok(g) => {
                self.flow_graph = g;
                Ok(())
            },
            Err(e) => Err(e),
        }
    }
}

} // verus!
